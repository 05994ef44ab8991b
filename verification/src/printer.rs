//! The printer: Blob to ordered lines of mnemonic text.
//!
//! For each instruction, in order: if its index has a bound label, a
//! standalone `name:` line comes first (the earliest binding in insertion
//! order, should several names share the index), then the instruction as a
//! tab-indented mnemonic line.  Operands render as `$value` (immediate),
//! `%index` (register), `(%index)` (register-indirect), `offset(%bp)`
//! (stack slot) and the bare name (label).  A unary operation renders as
//! its operator's mnemonic with the single operand.

use vstd::prelude::*;

use crate::ast::Op;
use crate::compile::{Blob, Instr, Loc, SpecBlob, SpecInstr, SpecLoc};
use crate::text::{int_dec, i64_to_dec, push_char, u64_to_dec};
use vstd::string::StringExecFns;

verus! {

/// The mnemonic of a binary operator.
pub open spec fn op_text(op: Op) -> Seq<char> {
    match op {
        Op::Add => seq!['a', 'd', 'd', 'q'],
        Op::Sub => seq!['s', 'u', 'b', 'q'],
        Op::Mul => seq!['m', 'u', 'l', 'q'],
        Op::Div => seq!['d', 'i', 'v', 'q'],
    }
}

/// The text of one operand.
pub open spec fn loc_text(l: SpecLoc) -> Seq<char> {
    match l {
        SpecLoc::Imm(v) => seq!['$'] + int_dec(v),
        SpecLoc::Reg(v) => seq!['%'] + int_dec(v),
        SpecLoc::RegDeref(v) => seq!['(', '%'] + int_dec(v) + seq![')'],
        SpecLoc::AddrStack(v) => int_dec(v) + seq!['(', '%', 'b', 'p', ')'],
        SpecLoc::Label(n) => n,
    }
}

/// The text of one instruction, without indentation.
pub open spec fn instr_text(i: SpecInstr) -> Seq<char> {
    match i {
        SpecInstr::BinOp(a, op, b) => op_text(op) + seq![' '] + loc_text(a) + seq![',', ' ']
            + loc_text(b),
        SpecInstr::UnOp(op, a) => op_text(op) + seq![' '] + loc_text(a),
        SpecInstr::Mov(a, b) => seq!['m', 'o', 'v', 'q', ' '] + loc_text(a) + seq![',', ' ']
            + loc_text(b),
        SpecInstr::Cmp(a, b) => seq!['c', 'm', 'p', ' '] + loc_text(a) + seq![',', ' '] + loc_text(
            b,
        ),
        SpecInstr::Jmp(a) => seq!['j', 'm', 'p', ' '] + loc_text(a),
        SpecInstr::Jez(a) => seq!['j', 'e', 'z', ' '] + loc_text(a),
        SpecInstr::Call(a) => seq!['c', 'a', 'l', 'l', ' '] + loc_text(a),
        SpecInstr::Ret => seq!['r', 'e', 't'],
    }
}

/// The first name bound to instruction index `idx`, in insertion order.
pub open spec fn label_at(labels: Seq<(Seq<char>, int)>, idx: int) -> Option<Seq<char>>
    decreases labels.len(),
{
    if labels.len() == 0 {
        None
    } else if labels[0].1 == idx {
        Some(labels[0].0)
    } else {
        label_at(labels.drop_first(), idx)
    }
}

/// The lines emitted for instruction `i`: its label line, if the index has
/// a bound label, then the indented instruction line.
pub open spec fn line_group(b: SpecBlob, i: int) -> Seq<Seq<char>> {
    (match label_at(b.labels, i) {
        Some(n) => seq![n + seq![':']],
        None => Seq::<Seq<char>>::empty(),
    }) + seq![seq!['\t'] + instr_text(b.instrs[i])]
}

/// All lines from instruction `i` on.
pub open spec fn render_from(b: SpecBlob, i: int) -> Seq<Seq<char>>
    decreases b.instrs.len() - i,
{
    if i < 0 || i >= b.instrs.len() {
        Seq::empty()
    } else {
        line_group(b, i) + render_from(b, i + 1)
    }
}

/// The whole rendering of a blob, in instruction order.
pub open spec fn spec_render(b: SpecBlob) -> Seq<Seq<char>> {
    render_from(b, 0)
}

/// The models of the line list.
pub open spec fn lines_view(v: Seq<String>) -> Seq<Seq<char>> {
    v.map_values(|s: String| s@)
}

// ---------------------------------------------------------------------------
// Where each instruction's lines stand in the rendering.
// ---------------------------------------------------------------------------

/// How many lines instruction `i` emits: two when its index is labelled.
pub open spec fn group_len(b: SpecBlob, i: int) -> int {
    match label_at(b.labels, i) {
        Some(_) => 2,
        None => 1,
    }
}

/// The index, in the rendering, of the first line instruction `i` emits.
pub open spec fn line_pos(b: SpecBlob, i: int) -> int
    decreases i,
{
    if i <= 0 {
        0
    } else {
        line_pos(b, i - 1) + group_len(b, i - 1)
    }
}

proof fn lemma_line_pos_mono(b: SpecBlob, i: int, j: int)
    requires
        0 <= i <= j,
    ensures
        line_pos(b, i) <= line_pos(b, j),
    decreases j - i,
{
    if i < j {
        lemma_line_pos_mono(b, i, j - 1);
    }
}

proof fn lemma_render_len(b: SpecBlob, j: int)
    requires
        0 <= j <= b.instrs.len(),
    ensures
        render_from(b, j).len() == line_pos(b, b.instrs.len() as int) - line_pos(b, j),
    decreases b.instrs.len() - j,
{
    if j < b.instrs.len() {
        lemma_render_len(b, j + 1);
    }
}

/// Instruction `i`'s lines stand at offset `line_pos(b, i) - line_pos(b, j)`
/// of the rendering that starts at instruction `j`.
proof fn lemma_render_at(b: SpecBlob, j: int, i: int)
    requires
        0 <= j <= i < b.instrs.len(),
    ensures
        ({
            let off = line_pos(b, i) - line_pos(b, j);
            let lines = render_from(b, j);
            &&& 0 <= off
            &&& off + group_len(b, i) <= lines.len()
            &&& match label_at(b.labels, i) {
                Some(n) => lines[off] == n + seq![':'] && lines[off + 1] == seq!['\t']
                    + instr_text(b.instrs[i]),
                None => lines[off] == seq!['\t'] + instr_text(b.instrs[i]),
            }
        }),
    decreases i - j,
{
    lemma_render_len(b, j);
    lemma_line_pos_mono(b, j, i);
    lemma_line_pos_mono(b, i + 1, b.instrs.len() as int);
    if j == i {
    } else {
        lemma_render_at(b, j + 1, i);
        lemma_render_len(b, j + 1);
        lemma_line_pos_mono(b, j + 1, i);
    }
}

proof fn lemma_label_at_mem(m: Seq<(Seq<char>, int)>, idx: int)
    ensures
        match label_at(m, idx) {
            Some(l) => exists|j: int| 0 <= j < m.len() && m[j].0 == l && m[j].1 == idx,
            None => true,
        },
    decreases m.len(),
{
    if m.len() > 0 {
        if m[0].1 == idx {
            assert(m[0].0 == label_at(m, idx)->Some_0);
        } else {
            lemma_label_at_mem(m.drop_first(), idx);
            match label_at(m, idx) {
                Some(l) => {
                    let j0 = choose|j: int|
                        0 <= j < m.drop_first().len() && m.drop_first()[j].0 == l
                            && m.drop_first()[j].1 == idx;
                    assert(m[j0 + 1] == m.drop_first()[j0]);
                },
                None => {},
            }
        }
    }
}

/// The blob's label table as generation leaves it: one binding per name,
/// and no name opening with the indentation character
/// (`compile::lemma_compiled_table_wf` shows generated blobs have this).
pub open spec fn blob_labels_wf(b: SpecBlob) -> bool {
    crate::compile::table_wf(b.labels)
}

/// With unique names, a name marks at most one instruction index.
proof fn lemma_label_index_unique(b: SpecBlob, i1: int, i2: int)
    requires
        blob_labels_wf(b),
        label_at(b.labels, i1) is Some,
        label_at(b.labels, i1) == label_at(b.labels, i2),
    ensures
        i1 == i2,
{
    lemma_label_at_mem(b.labels, i1);
    lemma_label_at_mem(b.labels, i2);
    let l = label_at(b.labels, i1)->Some_0;
    let j1 = choose|j: int| 0 <= j < b.labels.len() && b.labels[j].0 == l && b.labels[j].1 == i1;
    let j2 = choose|j: int| 0 <= j < b.labels.len() && b.labels[j].0 == l && b.labels[j].1 == i2;
    if j1 < j2 {
        assert(b.labels[j1].0 != b.labels[j2].0);
    } else if j2 < j1 {
        assert(b.labels[j2].0 != b.labels[j1].0);
    }
}

/// The line `l:` appears nowhere in the rendering from `j` on but at the
/// offset of instruction `i`, the one index `l` is bound to.
proof fn lemma_no_other_label_line(b: SpecBlob, j: int, i: int, l: Seq<char>)
    requires
        blob_labels_wf(b),
        0 <= j <= b.instrs.len(),
        0 <= i < b.instrs.len(),
        label_at(b.labels, i) == Some(l),
    ensures
        forall|k: int|
            0 <= k < render_from(b, j).len() && render_from(b, j)[k] == l + seq![':'] ==> j <= i
                && k == line_pos(b, i) - line_pos(b, j),
    decreases b.instrs.len() - j,
{
    lemma_label_at_mem(b.labels, i);
    let jl = choose|jj: int| 0 <= jj < b.labels.len() && b.labels[jj].0 == l && b.labels[jj].1 == i;
    if j < b.instrs.len() {
        lemma_no_other_label_line(b, j + 1, i, l);
        lemma_render_len(b, j + 1);
        let g = line_group(b, j);
        let rest = render_from(b, j + 1);
        assert(render_from(b, j) == g + rest);
        let tabline = seq!['\t'] + instr_text(b.instrs[j]);
        // the indented instruction line is never a label line
        assert(tabline != l + seq![':']) by {
            if tabline == l + seq![':'] {
                assert((l + seq![':'])[0] == '\t');
                if l.len() > 0 {
                    assert(l[0] == '\t');
                } else {
                    assert((l + seq![':'])[0] == ':');
                }
            }
        }
        assert forall|k: int|
            0 <= k < render_from(b, j).len() && render_from(b, j)[k] == l + seq![':'] implies j
            <= i && k == line_pos(b, i) - line_pos(b, j) by {
            if k < g.len() {
                match label_at(b.labels, j) {
                    Some(n) => {
                        assert(g == seq![n + seq![':']] + seq![tabline]);
                        if k == 0 {
                            assert(render_from(b, j)[0] == n + seq![':']);
                            assert(n + seq![':'] == l + seq![':']);
                            assert((n + seq![':']).drop_last() =~= n);
                            assert((l + seq![':']).drop_last() =~= l);
                            assert(n == l);
                            lemma_label_index_unique(b, j, i);
                            assert(j == i);
                            assert(line_pos(b, i) - line_pos(b, j) == 0);
                        } else {
                            assert(render_from(b, j)[1] == tabline);
                        }
                    },
                    None => {
                        assert(g == seq![tabline]);
                        assert(render_from(b, j)[0] == tabline);
                    },
                }
            } else {
                assert(render_from(b, j)[k] == rest[k - g.len()]);
                assert(g.len() == group_len(b, j));
                assert(j + 1 <= i && k - g.len() == line_pos(b, i) - line_pos(b, j + 1));
            }
        }
    } else {
        assert(render_from(b, j).len() == 0);
    }
}

/// Law: printing a blob whose instruction at index `i` has a bound label
/// emits that label's line exactly once, immediately before the rendering
/// of instruction `i`.
pub proof fn lemma_label_printed_once(b: SpecBlob, i: int)
    requires
        blob_labels_wf(b),
        0 <= i < b.instrs.len(),
        label_at(b.labels, i) is Some,
    ensures
        ({
            let l = label_at(b.labels, i)->Some_0;
            let p = line_pos(b, i);
            &&& 0 <= p
            &&& p + 1 < spec_render(b).len()
            &&& spec_render(b)[p] == l + seq![':']
            &&& spec_render(b)[p + 1] == seq!['\t'] + instr_text(b.instrs[i])
            &&& forall|k: int|
                0 <= k < spec_render(b).len() && k != p ==> spec_render(b)[k] != l + seq![':']
        }),
{
    let l = label_at(b.labels, i)->Some_0;
    lemma_render_at(b, 0, i);
    lemma_no_other_label_line(b, 0, i, l);
}

// ---------------------------------------------------------------------------
// The executable printer.
// ---------------------------------------------------------------------------

fn op_mnemonic(op: &Op) -> (r: String)
    ensures
        r@ == op_text(*op),
{
    proof {
        reveal_strlit("addq");
        reveal_strlit("subq");
        reveal_strlit("mulq");
        reveal_strlit("divq");
        assert("addq"@ =~= seq!['a', 'd', 'd', 'q']);
        assert("subq"@ =~= seq!['s', 'u', 'b', 'q']);
        assert("mulq"@ =~= seq!['m', 'u', 'l', 'q']);
        assert("divq"@ =~= seq!['d', 'i', 'v', 'q']);
    }
    match op {
        Op::Add => String::from_str("addq"),
        Op::Sub => String::from_str("subq"),
        Op::Mul => String::from_str("mulq"),
        Op::Div => String::from_str("divq"),
    }
}

/// The text of one operand.
pub fn translate_loc(loc: &Loc) -> (r: String)
    ensures
        r@ == loc_text(loc@),
{
    match loc {
        Loc::Imm(v) => {
            let mut s = String::new();
            push_char(&mut s, '$');
            let d = i64_to_dec(*v);
            s.append(d.as_str());
            proof {
                assert(s@ =~= loc_text(loc@));
            }
            s
        },
        Loc::Reg(v) => {
            let mut s = String::new();
            push_char(&mut s, '%');
            let d = u64_to_dec(*v as u64);
            s.append(d.as_str());
            proof {
                assert(s@ =~= loc_text(loc@));
            }
            s
        },
        Loc::RegDeref(v) => {
            let mut s = String::new();
            push_char(&mut s, '(');
            push_char(&mut s, '%');
            let d = u64_to_dec(*v as u64);
            s.append(d.as_str());
            push_char(&mut s, ')');
            proof {
                assert(s@ =~= loc_text(loc@));
            }
            s
        },
        Loc::AddrStack(v) => {
            let mut s = u64_to_dec(*v as u64);
            push_char(&mut s, '(');
            push_char(&mut s, '%');
            push_char(&mut s, 'b');
            push_char(&mut s, 'p');
            push_char(&mut s, ')');
            proof {
                assert(s@ =~= loc_text(loc@));
            }
            s
        },
        Loc::Label(n) => n.clone(),
    }
}

/// The text of one instruction, without indentation.
pub fn print_instr(instr: &Instr) -> (r: String)
    ensures
        r@ == instr_text(instr@),
{
    proof {
        reveal_strlit("movq ");
        reveal_strlit("cmp ");
        reveal_strlit("jmp ");
        reveal_strlit("jez ");
        reveal_strlit("call ");
        reveal_strlit("ret");
        assert("movq "@ =~= seq!['m', 'o', 'v', 'q', ' ']);
        assert("cmp "@ =~= seq!['c', 'm', 'p', ' ']);
        assert("jmp "@ =~= seq!['j', 'm', 'p', ' ']);
        assert("jez "@ =~= seq!['j', 'e', 'z', ' ']);
        assert("call "@ =~= seq!['c', 'a', 'l', 'l', ' ']);
        assert("ret"@ =~= seq!['r', 'e', 't']);
    }
    match instr {
        Instr::BinOp(a, op, b) => {
            let mut s = op_mnemonic(op);
            push_char(&mut s, ' ');
            let ta = translate_loc(a);
            s.append(ta.as_str());
            push_char(&mut s, ',');
            push_char(&mut s, ' ');
            let tb = translate_loc(b);
            s.append(tb.as_str());
            proof {
                assert(s@ =~= instr_text(instr@));
            }
            s
        },
        Instr::UnOp(op, a) => {
            let mut s = op_mnemonic(op);
            push_char(&mut s, ' ');
            let ta = translate_loc(a);
            s.append(ta.as_str());
            proof {
                assert(s@ =~= instr_text(instr@));
            }
            s
        },
        Instr::Mov(a, b) => {
            let mut s = String::from_str("movq ");
            let ta = translate_loc(a);
            s.append(ta.as_str());
            push_char(&mut s, ',');
            push_char(&mut s, ' ');
            let tb = translate_loc(b);
            s.append(tb.as_str());
            proof {
                assert(s@ =~= instr_text(instr@));
            }
            s
        },
        Instr::Cmp(a, b) => {
            let mut s = String::from_str("cmp ");
            let ta = translate_loc(a);
            s.append(ta.as_str());
            push_char(&mut s, ',');
            push_char(&mut s, ' ');
            let tb = translate_loc(b);
            s.append(tb.as_str());
            proof {
                assert(s@ =~= instr_text(instr@));
            }
            s
        },
        Instr::Jmp(a) => {
            let mut s = String::from_str("jmp ");
            let ta = translate_loc(a);
            s.append(ta.as_str());
            proof {
                assert(s@ =~= instr_text(instr@));
            }
            s
        },
        Instr::Jez(a) => {
            let mut s = String::from_str("jez ");
            let ta = translate_loc(a);
            s.append(ta.as_str());
            proof {
                assert(s@ =~= instr_text(instr@));
            }
            s
        },
        Instr::Call(a) => {
            let mut s = String::from_str("call ");
            let ta = translate_loc(a);
            s.append(ta.as_str());
            proof {
                assert(s@ =~= instr_text(instr@));
            }
            s
        },
        Instr::Ret => String::from_str("ret"),
    }
}

fn find_label(labels: &Vec<(String, usize)>, idx: usize) -> (r: Option<String>)
    ensures
        match r {
            Some(n) => label_at(crate::compile::table_view(labels@), idx as int) == Some(n@),
            None => label_at(crate::compile::table_view(labels@), idx as int) is None,
        },
{
    let ghost m = crate::compile::table_view(labels@);
    let mut i: usize = 0;
    while i < labels.len()
        invariant
            m == crate::compile::table_view(labels@),
            0 <= i <= labels@.len(),
            m.len() == labels@.len(),
            forall|j: int| 0 <= j < i ==> m[j].1 != idx as int,
        decreases labels@.len() - i,
    {
        if labels[i].1 == idx {
            proof {
                lemma_label_at_found(m, idx as int, i as int);
            }
            return Some(labels[i].0.clone());
        }
        i = i + 1;
    }
    proof {
        lemma_label_at_none(m, idx as int);
    }
    None
}

proof fn lemma_label_at_skip(m: Seq<(Seq<char>, int)>, idx: int, i: int)
    requires
        0 <= i <= m.len(),
        forall|j: int| 0 <= j < i ==> m[j].1 != idx,
    ensures
        label_at(m, idx) == label_at(m.skip(i), idx),
    decreases i,
{
    if i > 0 {
        assert(m.drop_first() =~= m.skip(1));
        assert(m.skip(1).skip(i - 1) =~= m.skip(i));
        lemma_label_at_skip(m.skip(1), idx, i - 1);
    } else {
        assert(m.skip(0) =~= m);
    }
}

proof fn lemma_label_at_found(m: Seq<(Seq<char>, int)>, idx: int, i: int)
    requires
        0 <= i < m.len(),
        forall|j: int| 0 <= j < i ==> m[j].1 != idx,
        m[i].1 == idx,
    ensures
        label_at(m, idx) == Some(m[i].0),
{
    lemma_label_at_skip(m, idx, i);
    assert(m.skip(i)[0] == m[i]);
}

proof fn lemma_label_at_none(m: Seq<(Seq<char>, int)>, idx: int)
    requires
        forall|j: int| 0 <= j < m.len() ==> m[j].1 != idx,
    ensures
        label_at(m, idx) is None,
{
    lemma_label_at_skip(m, idx, m.len() as int);
    assert(m.skip(m.len() as int) =~= Seq::<(Seq<char>, int)>::empty());
}

/// Renders a complete Blob as ordered text lines: before each instruction
/// whose index has a bound label, a standalone `name:` line; then the
/// instruction as a tab-indented mnemonic line.
pub fn print_asm(blob: &Blob) -> (r: Vec<String>)
    ensures
        lines_view(r@) == spec_render(blob@),
{
    let ghost b = blob@;
    let mut lines: Vec<String> = Vec::new();
    let mut i: usize = 0;
    proof {
        assert(lines_view(lines@) =~= Seq::<Seq<char>>::empty());
    }
    while i < blob.instructions.len()
        invariant
            b == blob@,
            0 <= i <= blob.instructions@.len(),
            b.instrs.len() == blob.instructions@.len(),
            spec_render(b) == lines_view(lines@) + render_from(b, i as int),
        decreases blob.instructions@.len() - i,
    {
        let ghost prev = lines@;
        match find_label(&blob.labels, i) {
            Some(n) => {
                let mut l = n;
                push_char(&mut l, ':');
                lines.push(l);
            },
            None => {},
        }
        let mut l2 = String::new();
        push_char(&mut l2, '\t');
        let t = print_instr(&blob.instructions[i]);
        l2.append(t.as_str());
        lines.push(l2);
        proof {
            assert(lines_view(lines@) =~= lines_view(prev) + line_group(b, i as int));
            assert((lines_view(prev) + line_group(b, i as int)) + render_from(b, i + 1)
                =~= lines_view(prev) + (line_group(b, i as int) + render_from(b, i + 1)));
        }
        i = i + 1;
    }
    proof {
        assert(lines_view(lines@) + Seq::<Seq<char>>::empty() =~= lines_view(lines@));
    }
    lines
}

} // verus!
