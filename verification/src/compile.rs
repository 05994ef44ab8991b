//! Code generator: Program to Blob.
//!
//! Register conventions: register 0 is the accumulator (every expression
//! leaves its value there), register 1 is scratch (it holds a binary
//! operation's left operand while the right one is evaluated), registers
//! 2, 3, ... stage call arguments positionally.  A binary operation is
//! emitted as `BinOp(scratch, op, accumulator)`, and the instruction's
//! second operand receives the combined result, so the accumulator
//! convention is kept.  Local variables get stack slots on first reference
//! from one flat, per-compilation-unit table (there is no scoping).
//!
//! Unsupported constructs (unary expressions) produce an explicit
//! `UnsupportedConstruct` error; a label referenced but unbound when
//! generation finishes produces `UnresolvedLabel`.

use vstd::prelude::*;

use crate::ast::{
    expr_view, exprs_view, funcs_view, lemma_exprs_view, stmts_view, Expr, Op, Program, SpecExpr,
    SpecFuncDecl, SpecStmt, Stmt,
};
use crate::text::{dec_digits, push_char, u64_to_dec};
use vstd::string::StringExecFns;

verus! {

/// An operand: where an instruction's datum lives.
#[derive(Debug, PartialEq)]
pub enum Loc {
    Imm(i64),
    Reg(usize),
    RegDeref(usize),
    AddrStack(usize),
    Label(String),
}

pub ghost enum SpecLoc {
    Imm(int),
    Reg(int),
    RegDeref(int),
    AddrStack(int),
    Label(Seq<char>),
}

impl View for Loc {
    type V = SpecLoc;

    open spec fn view(&self) -> SpecLoc {
        match self {
            Loc::Imm(v) => SpecLoc::Imm(*v as int),
            Loc::Reg(v) => SpecLoc::Reg(*v as int),
            Loc::RegDeref(v) => SpecLoc::RegDeref(*v as int),
            Loc::AddrStack(v) => SpecLoc::AddrStack(*v as int),
            Loc::Label(n) => SpecLoc::Label(n@),
        }
    }
}

#[derive(Debug, PartialEq)]
pub enum Instr {
    BinOp(Loc, Op, Loc),
    UnOp(Op, Loc),
    Mov(Loc, Loc),
    Cmp(Loc, Loc),
    Jmp(Loc),
    Jez(Loc),
    Call(Loc),
    Ret,
}

pub ghost enum SpecInstr {
    BinOp(SpecLoc, Op, SpecLoc),
    UnOp(Op, SpecLoc),
    Mov(SpecLoc, SpecLoc),
    Cmp(SpecLoc, SpecLoc),
    Jmp(SpecLoc),
    Jez(SpecLoc),
    Call(SpecLoc),
    Ret,
}

impl View for Instr {
    type V = SpecInstr;

    open spec fn view(&self) -> SpecInstr {
        match self {
            Instr::BinOp(a, op, b) => SpecInstr::BinOp(a@, *op, b@),
            Instr::UnOp(op, a) => SpecInstr::UnOp(*op, a@),
            Instr::Mov(a, b) => SpecInstr::Mov(a@, b@),
            Instr::Cmp(a, b) => SpecInstr::Cmp(a@, b@),
            Instr::Jmp(a) => SpecInstr::Jmp(a@),
            Instr::Jez(a) => SpecInstr::Jez(a@),
            Instr::Call(a) => SpecInstr::Call(a@),
            Instr::Ret => SpecInstr::Ret,
        }
    }
}

/// The models of an instruction sequence.
pub open spec fn instrs_view(v: Seq<Instr>) -> Seq<SpecInstr> {
    v.map_values(|i: Instr| i@)
}

/// The models of a name-to-index table kept in insertion order.
pub open spec fn table_view(v: Seq<(String, usize)>) -> Seq<(Seq<char>, int)> {
    v.map_values(|p: (String, usize)| (p.0@, p.1 as int))
}

/// The generator's output: an ordered instruction sequence plus a mapping
/// from label name to the instruction index it denotes.
#[derive(Debug, PartialEq)]
pub struct Blob {
    pub instructions: Vec<Instr>,
    pub labels: Vec<(String, usize)>,
}

pub ghost struct SpecBlob {
    pub instrs: Seq<SpecInstr>,
    pub labels: Seq<(Seq<char>, int)>,
}

impl View for Blob {
    type V = SpecBlob;

    open spec fn view(&self) -> SpecBlob {
        SpecBlob { instrs: instrs_view(self.instructions@), labels: table_view(self.labels@) }
    }
}

#[derive(Debug, PartialEq)]
pub enum CompileError {
    UnsupportedConstruct,
    UnresolvedLabel(String),
}

pub ghost enum SpecCompileError {
    UnsupportedConstruct,
    UnresolvedLabel(Seq<char>),
}

impl View for CompileError {
    type V = SpecCompileError;

    open spec fn view(&self) -> SpecCompileError {
        match self {
            CompileError::UnsupportedConstruct => SpecCompileError::UnsupportedConstruct,
            CompileError::UnresolvedLabel(n) => SpecCompileError::UnresolvedLabel(n@),
        }
    }
}

// ---------------------------------------------------------------------------
// Association tables: lookup and insert-or-overwrite, in insertion order.
// ---------------------------------------------------------------------------

/// The value of the first entry with key `k`, if any.
pub open spec fn map_lookup(m: Seq<(Seq<char>, int)>, k: Seq<char>) -> Option<int>
    decreases m.len(),
{
    if m.len() == 0 {
        None
    } else if m[0].0 == k {
        Some(m[0].1)
    } else {
        map_lookup(m.drop_first(), k)
    }
}

/// Overwrites the first entry with key `k` in place, or appends one.
pub open spec fn map_set(m: Seq<(Seq<char>, int)>, k: Seq<char>, v: int) -> Seq<(Seq<char>, int)>
    decreases m.len(),
{
    if m.len() == 0 {
        seq![(k, v)]
    } else if m[0].0 == k {
        seq![(k, v)] + m.drop_first()
    } else {
        seq![m[0]] + map_set(m.drop_first(), k, v)
    }
}

proof fn lemma_lookup_skip(m: Seq<(Seq<char>, int)>, k: Seq<char>, i: int)
    requires
        0 <= i <= m.len(),
        forall|j: int| 0 <= j < i ==> m[j].0 != k,
    ensures
        map_lookup(m, k) == map_lookup(m.skip(i), k),
    decreases i,
{
    if i > 0 {
        assert(m.drop_first() =~= m.skip(1));
        assert(m.skip(1).skip(i - 1) =~= m.skip(i));
        lemma_lookup_skip(m.skip(1), k, i - 1);
    } else {
        assert(m.skip(0) =~= m);
    }
}

/// Found at index `i`, no earlier match: the lookup yields that entry.
proof fn lemma_lookup_found(m: Seq<(Seq<char>, int)>, k: Seq<char>, i: int)
    requires
        0 <= i < m.len(),
        forall|j: int| 0 <= j < i ==> m[j].0 != k,
        m[i].0 == k,
    ensures
        map_lookup(m, k) == Some(m[i].1),
{
    lemma_lookup_skip(m, k, i);
    assert(m.skip(i)[0] == m[i]);
}

proof fn lemma_lookup_none(m: Seq<(Seq<char>, int)>, k: Seq<char>)
    requires
        forall|j: int| 0 <= j < m.len() ==> m[j].0 != k,
    ensures
        map_lookup(m, k) is None,
{
    lemma_lookup_skip(m, k, m.len() as int);
    assert(m.skip(m.len() as int) =~= Seq::<(Seq<char>, int)>::empty());
}

/// Found at index `i`, no earlier match: the insert overwrites in place.
proof fn lemma_set_found(m: Seq<(Seq<char>, int)>, k: Seq<char>, v: int, i: int)
    requires
        0 <= i < m.len(),
        forall|j: int| 0 <= j < i ==> m[j].0 != k,
        m[i].0 == k,
    ensures
        map_set(m, k, v) == m.update(i, (k, v)),
    decreases i,
{
    if i == 0 {
        assert(map_set(m, k, v) =~= m.update(0, (k, v)));
    } else {
        assert(m.drop_first() =~= m.skip(1));
        lemma_set_found(m.skip(1), k, v, i - 1);
        assert(map_set(m, k, v) =~= m.update(i, (k, v)));
    }
}

/// No match at all: the insert appends.
proof fn lemma_set_missing(m: Seq<(Seq<char>, int)>, k: Seq<char>, v: int)
    requires
        forall|j: int| 0 <= j < m.len() ==> m[j].0 != k,
    ensures
        map_set(m, k, v) == m.push((k, v)),
    decreases m.len(),
{
    if m.len() == 0 {
        assert(map_set(m, k, v) =~= m.push((k, v)));
    } else {
        assert(m.drop_first() =~= m.skip(1));
        lemma_set_missing(m.skip(1), k, v);
        assert(map_set(m, k, v) =~= m.push((k, v)));
    }
}

// ---------------------------------------------------------------------------
// Code generation, as a mathematical function of the program.
// ---------------------------------------------------------------------------

/// The generator's whole state: the blob built so far, the flat
/// variable-to-stack-slot table, and the minted-label counter.
pub ghost struct CgState {
    pub instrs: Seq<SpecInstr>,
    pub labels: Seq<(Seq<char>, int)>,
    pub vars: Seq<(Seq<char>, int)>,
    pub var_offset: int,
    pub temp: int,
}

pub open spec fn cg_push(st: CgState, i: SpecInstr) -> CgState {
    CgState { instrs: st.instrs.push(i), ..st }
}

/// The name of minted label number `n`.
pub open spec fn temp_label_name(n: int) -> Seq<char> {
    seq!['_'] + dec_digits(n as nat)
}

/// A variable's stack slot: assigned on first reference, stable afterward.
pub open spec fn spec_get_var(st: CgState, name: Seq<char>) -> (int, CgState) {
    match map_lookup(st.vars, name) {
        Some(off) => (off, st),
        None => (
            st.var_offset,
            CgState { vars: st.vars.push((name, st.var_offset)), var_offset: st.var_offset + 1, ..st },
        ),
    }
}

/// Lowering of one expression: its value ends in the accumulator.
pub open spec fn spec_compile_expr(st: CgState, e: SpecExpr) -> Result<CgState, SpecCompileError>
    decreases e, 0int,
{
    match e {
        SpecExpr::Constant(n) => Ok(cg_push(st, SpecInstr::Mov(SpecLoc::Imm(n.whole), SpecLoc::Reg(0)))),
        SpecExpr::Binary(l, op, r) => match spec_compile_expr(st, *l) {
            Ok(st1) => {
                let st2 = cg_push(st1, SpecInstr::Mov(SpecLoc::Reg(0), SpecLoc::Reg(1)));
                match spec_compile_expr(st2, *r) {
                    Ok(st3) => Ok(cg_push(st3, SpecInstr::BinOp(SpecLoc::Reg(1), op, SpecLoc::Reg(0)))),
                    Err(er) => Err(er),
                }
            },
            Err(er) => Err(er),
        },
        SpecExpr::Unary(op, e1) => Err(SpecCompileError::UnsupportedConstruct),
        SpecExpr::Call(name, args) => match spec_compile_args(st, args, 0) {
            Ok(st1) => Ok(cg_push(st1, SpecInstr::Call(SpecLoc::Label(name)))),
            Err(er) => Err(er),
        },
        SpecExpr::Symbol(name) => {
            let (off, st1) = spec_get_var(st, name);
            Ok(cg_push(st1, SpecInstr::Mov(SpecLoc::AddrStack(off), SpecLoc::Reg(0))))
        },
    }
}

/// Lowering of call arguments: argument `i` is staged in register `2 + i`
/// right after its evaluation.  An argument whose register index cannot be
/// represented on the machine is an unsupported construct.
pub open spec fn spec_compile_args(st: CgState, args: Seq<SpecExpr>, i: int) -> Result<
    CgState,
    SpecCompileError,
>
    decreases args, args.len() - i,
{
    if i < 0 || i >= args.len() {
        Ok(st)
    } else if i + 2 > usize::MAX {
        Err(SpecCompileError::UnsupportedConstruct)
    } else {
        match spec_compile_expr(st, args[i]) {
            Ok(st1) => spec_compile_args(
                cg_push(st1, SpecInstr::Mov(SpecLoc::Reg(0), SpecLoc::Reg(i + 2))),
                args,
                i + 1,
            ),
            Err(er) => Err(er),
        }
    }
}

/// Lowering of one statement.
pub open spec fn spec_compile_stmt(st: CgState, s: SpecStmt) -> Result<CgState, SpecCompileError> {
    match s {
        SpecStmt::ExprStmt(e) => spec_compile_expr(st, e),
        SpecStmt::Assignment(name, e) => match spec_compile_expr(st, e) {
            Ok(st1) => {
                let (off, st2) = spec_get_var(st1, name);
                Ok(cg_push(st2, SpecInstr::Mov(SpecLoc::Reg(0), SpecLoc::AddrStack(off))))
            },
            Err(er) => Err(er),
        },
        SpecStmt::Return(oe) => match oe {
            Some(e) => match spec_compile_expr(st, e) {
                Ok(st1) => Ok(cg_push(st1, SpecInstr::Ret)),
                Err(er) => Err(er),
            },
            None => Ok(cg_push(st, SpecInstr::Ret)),
        },
        SpecStmt::Conditional(c, yes, no) => {
            let lbl = temp_label_name(st.temp);
            let st0 = CgState { temp: st.temp + 1, ..st };
            match spec_compile_expr(st0, c) {
                Ok(st1) => {
                    let st2 = cg_push(
                        cg_push(st1, SpecInstr::Cmp(SpecLoc::Imm(0), SpecLoc::Reg(0))),
                        SpecInstr::Jez(SpecLoc::Label(lbl)),
                    );
                    match spec_compile_expr(st2, yes) {
                        Ok(st3) => {
                            let st4 = CgState {
                                labels: map_set(st3.labels, lbl, st3.instrs.len() as int),
                                ..st3
                            };
                            match no {
                                Some(ne) => spec_compile_expr(st4, ne),
                                None => Ok(st4),
                            }
                        },
                        Err(er) => Err(er),
                    }
                },
                Err(er) => Err(er),
            }
        },
    }
}

/// Lowering of a statement list, in order.
pub open spec fn spec_compile_stmts(st: CgState, stmts: Seq<SpecStmt>, i: int) -> Result<
    CgState,
    SpecCompileError,
>
    decreases stmts.len() - i,
{
    if i < 0 || i >= stmts.len() {
        Ok(st)
    } else {
        match spec_compile_stmt(st, stmts[i]) {
            Ok(st1) => spec_compile_stmts(st1, stmts, i + 1),
            Err(er) => Err(er),
        }
    }
}

/// Lowering of the declarations from index `i` on: each function's label is
/// bound to the index at which its body begins, before the body is lowered.
pub open spec fn spec_compile_program(st: CgState, funcs: Seq<SpecFuncDecl>, i: int) -> Result<
    CgState,
    SpecCompileError,
>
    decreases funcs.len() - i,
{
    if i < 0 || i >= funcs.len() {
        Ok(st)
    } else {
        let st1 = CgState {
            labels: map_set(st.labels, funcs[i].name, st.instrs.len() as int),
            ..st
        };
        match spec_compile_stmts(st1, funcs[i].body, 0) {
            Ok(st2) => spec_compile_program(st2, funcs, i + 1),
            Err(er) => Err(er),
        }
    }
}

/// The label referenced by an operand but absent from the table, if any.
pub open spec fn loc_unbound(l: SpecLoc, labels: Seq<(Seq<char>, int)>) -> Option<Seq<char>> {
    match l {
        SpecLoc::Label(n) => if map_lookup(labels, n) is None {
            Some(n)
        } else {
            None
        },
        _ => None,
    }
}

/// The first unbound label referenced by one instruction, if any.
pub open spec fn instr_unbound(i: SpecInstr, labels: Seq<(Seq<char>, int)>) -> Option<Seq<char>> {
    match i {
        SpecInstr::BinOp(a, op, b) => match loc_unbound(a, labels) {
            Some(n) => Some(n),
            None => loc_unbound(b, labels),
        },
        SpecInstr::UnOp(op, a) => loc_unbound(a, labels),
        SpecInstr::Mov(a, b) => match loc_unbound(a, labels) {
            Some(n) => Some(n),
            None => loc_unbound(b, labels),
        },
        SpecInstr::Cmp(a, b) => match loc_unbound(a, labels) {
            Some(n) => Some(n),
            None => loc_unbound(b, labels),
        },
        SpecInstr::Jmp(a) => loc_unbound(a, labels),
        SpecInstr::Jez(a) => loc_unbound(a, labels),
        SpecInstr::Call(a) => loc_unbound(a, labels),
        SpecInstr::Ret => None,
    }
}

/// The first unbound label referenced at or after instruction `i`, if any.
pub open spec fn first_unbound(
    instrs: Seq<SpecInstr>,
    labels: Seq<(Seq<char>, int)>,
    i: int,
) -> Option<Seq<char>>
    decreases instrs.len() - i,
{
    if i < 0 || i >= instrs.len() {
        None
    } else {
        match instr_unbound(instrs[i], labels) {
            Some(n) => Some(n),
            None => first_unbound(instrs, labels, i + 1),
        }
    }
}

// ---------------------------------------------------------------------------
// Lowering an expression only appends instructions (at least one), and
// touches neither the label table nor the minted-label counter.
// ---------------------------------------------------------------------------

proof fn lemma_prefix_trans(a: Seq<SpecInstr>, b: Seq<SpecInstr>, c: Seq<SpecInstr>)
    requires
        a.len() <= b.len() <= c.len(),
        b.subrange(0, a.len() as int) == a,
        c.subrange(0, b.len() as int) == b,
    ensures
        c.subrange(0, a.len() as int) == a,
{
    assert forall|j: int| 0 <= j < a.len() implies c.subrange(0, a.len() as int)[j] == a[j] by {
        assert(a[j] == b.subrange(0, a.len() as int)[j]);
        assert(b[j] == c.subrange(0, b.len() as int)[j]);
    }
    assert(c.subrange(0, a.len() as int) =~= a);
}

pub proof fn lemma_expr_extends(st: CgState, e: SpecExpr)
    ensures
        spec_compile_expr(st, e) matches Ok(st1) ==> st1.instrs.len() > st.instrs.len()
            && st1.instrs.subrange(0, st.instrs.len() as int) == st.instrs && st1.labels
            == st.labels && st1.temp == st.temp && st1.var_offset >= st.var_offset,
    decreases e, 0int,
{
    match e {
        SpecExpr::Constant(n) => {
            assert(st.instrs.push(
                SpecInstr::Mov(SpecLoc::Imm(n.whole), SpecLoc::Reg(0)),
            ).subrange(0, st.instrs.len() as int) =~= st.instrs);
        },
        SpecExpr::Binary(l, op, r) => {
            lemma_expr_extends(st, *l);
            match spec_compile_expr(st, *l) {
                Ok(st1) => {
                    let st2 = cg_push(st1, SpecInstr::Mov(SpecLoc::Reg(0), SpecLoc::Reg(1)));
                    lemma_expr_extends(st2, *r);
                    match spec_compile_expr(st2, *r) {
                        Ok(st3) => {
                            let st4 = cg_push(
                                st3,
                                SpecInstr::BinOp(SpecLoc::Reg(1), op, SpecLoc::Reg(0)),
                            );
                            assert(st2.instrs.subrange(0, st.instrs.len() as int) =~= st.instrs);
                            lemma_prefix_trans(st.instrs, st2.instrs, st3.instrs);
                            assert(st4.instrs.subrange(0, st.instrs.len() as int) =~= st.instrs);
                        },
                        Err(_) => {},
                    }
                },
                Err(_) => {},
            }
        },
        SpecExpr::Unary(_, _) => {},
        SpecExpr::Call(name, args) => {
            lemma_args_extend(st, args, 0);
            match spec_compile_args(st, args, 0) {
                Ok(st1) => {
                    let st2 = cg_push(st1, SpecInstr::Call(SpecLoc::Label(name)));
                    assert(st2.instrs.subrange(0, st.instrs.len() as int) =~= st.instrs);
                },
                Err(_) => {},
            }
        },
        SpecExpr::Symbol(name) => {
            let (off, st1) = spec_get_var(st, name);
            let st2 = cg_push(st1, SpecInstr::Mov(SpecLoc::AddrStack(off), SpecLoc::Reg(0)));
            assert(st2.instrs.subrange(0, st.instrs.len() as int) =~= st.instrs);
        },
    }
}

pub proof fn lemma_args_extend(st: CgState, args: Seq<SpecExpr>, i: int)
    ensures
        spec_compile_args(st, args, i) matches Ok(st1) ==> st1.instrs.len() >= st.instrs.len()
            && st1.instrs.subrange(0, st.instrs.len() as int) == st.instrs && st1.labels
            == st.labels && st1.temp == st.temp && st1.var_offset >= st.var_offset,
    decreases args, args.len() - i,
{
    if 0 <= i < args.len() && i + 2 <= usize::MAX {
        lemma_expr_extends(st, args[i]);
        match spec_compile_expr(st, args[i]) {
            Ok(st1) => {
                let st2 = cg_push(st1, SpecInstr::Mov(SpecLoc::Reg(0), SpecLoc::Reg(i + 2)));
                lemma_args_extend(st2, args, i + 1);
                match spec_compile_args(st2, args, i + 1) {
                    Ok(st3) => {
                        assert(st2.instrs.subrange(0, st.instrs.len() as int) =~= st.instrs);
                        lemma_prefix_trans(st.instrs, st2.instrs, st3.instrs);
                    },
                    Err(_) => {},
                }
            },
            Err(_) => {},
        }
    } else {
        assert(spec_compile_args(st, args, i) == if 0 <= i < args.len() {
            Err::<CgState, SpecCompileError>(SpecCompileError::UnsupportedConstruct)
        } else {
            Ok::<CgState, SpecCompileError>(st)
        });
    }
}

/// A sound label table: one binding per name, and no name opening with the
/// indentation character (the printer's line positions rely on both).
pub open spec fn table_wf(m: Seq<(Seq<char>, int)>) -> bool {
    &&& forall|j1: int, j2: int| 0 <= j1 < j2 < m.len() ==> m[j1].0 != m[j2].0
    &&& forall|j: int| 0 <= j < m.len() && m[j].0.len() > 0 ==> m[j].0[0] != '\t'
}

/// Every key of the insert's result is the inserted key or one of `m`.
proof fn lemma_set_keys(m: Seq<(Seq<char>, int)>, k: Seq<char>, v: int)
    ensures
        forall|j: int|
            0 <= j < map_set(m, k, v).len() ==> map_set(m, k, v)[j].0 == k || (exists|j2: int|
                0 <= j2 < m.len() && m[j2].0 == #[trigger] map_set(m, k, v)[j].0),
    decreases m.len(),
{
    if m.len() > 0 && m[0].0 != k {
        assert(m.drop_first() =~= m.skip(1));
        lemma_set_keys(m.skip(1), k, v);
        let r = map_set(m, k, v);
        assert forall|j: int|
            0 <= j < r.len() implies r[j].0 == k || (exists|j2: int|
            0 <= j2 < m.len() && m[j2].0 == #[trigger] r[j].0) by {
            if j == 0 {
                assert(m[0].0 == r[0].0);
            } else {
                assert(r[j] == map_set(m.skip(1), k, v)[j - 1]);
                if r[j].0 != k {
                    let j2 = choose|j2: int|
                        0 <= j2 < m.skip(1).len() && m.skip(1)[j2].0 == r[j].0;
                    assert(m[j2 + 1].0 == r[j].0);
                }
            }
        }
    }
}

/// The insert keeps a table sound when the inserted name is sound.
proof fn lemma_set_wf(m: Seq<(Seq<char>, int)>, k: Seq<char>, v: int)
    requires
        table_wf(m),
        k.len() > 0 ==> k[0] != '\t',
    ensures
        table_wf(map_set(m, k, v)),
    decreases m.len(),
{
    let r = map_set(m, k, v);
    if m.len() == 0 {
    } else if m[0].0 == k {
        assert(r == seq![(k, v)] + m.drop_first());
        assert forall|j1: int, j2: int| 0 <= j1 < j2 < r.len() implies r[j1].0 != r[j2].0 by {
            if j1 == 0 {
                assert(r[j2].0 == m[j2].0);
                assert(m[0].0 != m[j2].0);
            } else {
                assert(r[j1].0 == m[j1].0 && r[j2].0 == m[j2].0);
            }
        }
        assert forall|j: int| 0 <= j < r.len() && r[j].0.len() > 0 implies r[j].0[0] != '\t' by {
            if j > 0 {
                assert(r[j].0 == m[j].0);
            }
        }
    } else {
        assert(m.drop_first() =~= m.skip(1));
        assert(table_wf(m.skip(1))) by {
            assert forall|j1: int, j2: int|
                0 <= j1 < j2 < m.skip(1).len() implies m.skip(1)[j1].0 != m.skip(1)[j2].0 by {
                assert(m.skip(1)[j1] == m[j1 + 1] && m.skip(1)[j2] == m[j2 + 1]);
            }
            assert forall|j: int|
                0 <= j < m.skip(1).len() && m.skip(1)[j].0.len() > 0 implies m.skip(1)[j].0[0]
                != '\t' by {
                assert(m.skip(1)[j] == m[j + 1]);
            }
        }
        lemma_set_wf(m.skip(1), k, v);
        lemma_set_keys(m.skip(1), k, v);
        let rr = map_set(m.skip(1), k, v);
        assert(r == seq![m[0]] + rr);
        assert forall|j1: int, j2: int| 0 <= j1 < j2 < r.len() implies r[j1].0 != r[j2].0 by {
            if j1 == 0 {
                assert(r[j2].0 == rr[j2 - 1].0);
                if r[j2].0 == m[0].0 {
                    if rr[j2 - 1].0 == k {
                    } else {
                        let jx = choose|jx: int|
                            0 <= jx < m.skip(1).len() && m.skip(1)[jx].0 == rr[j2 - 1].0;
                        assert(m[jx + 1].0 == m[0].0);
                    }
                }
            } else {
                assert(r[j1].0 == rr[j1 - 1].0 && r[j2].0 == rr[j2 - 1].0);
            }
        }
        assert forall|j: int| 0 <= j < r.len() && r[j].0.len() > 0 implies r[j].0[0] != '\t' by {
            if j > 0 {
                assert(r[j].0 == rr[j - 1].0);
            }
        }
    }
}

/// Lowering a statement keeps the label table sound: the only name it can
/// add is a freshly minted `_n`.
pub proof fn lemma_stmt_table_wf(st: CgState, s: SpecStmt)
    requires
        table_wf(st.labels),
    ensures
        spec_compile_stmt(st, s) matches Ok(st1) ==> table_wf(st1.labels),
{
    match s {
        SpecStmt::ExprStmt(e) => {
            lemma_expr_extends(st, e);
        },
        SpecStmt::Assignment(name, e) => {
            lemma_expr_extends(st, e);
        },
        SpecStmt::Return(oe) => {
            match oe {
                Some(e) => {
                    lemma_expr_extends(st, e);
                },
                None => {},
            }
        },
        SpecStmt::Conditional(c, y, n) => {
            let lbl = temp_label_name(st.temp);
            let st0 = CgState { temp: st.temp + 1, ..st };
            lemma_expr_extends(st0, c);
            match spec_compile_expr(st0, c) {
                Ok(st1) => {
                    let st2 = cg_push(
                        cg_push(st1, SpecInstr::Cmp(SpecLoc::Imm(0), SpecLoc::Reg(0))),
                        SpecInstr::Jez(SpecLoc::Label(lbl)),
                    );
                    lemma_expr_extends(st2, y);
                    match spec_compile_expr(st2, y) {
                        Ok(st3) => {
                            assert(lbl[0] == '_');
                            lemma_set_wf(st3.labels, lbl, st3.instrs.len() as int);
                            let st4 = CgState {
                                labels: map_set(st3.labels, lbl, st3.instrs.len() as int),
                                ..st3
                            };
                            match n {
                                Some(ne) => {
                                    lemma_expr_extends(st4, ne);
                                },
                                None => {},
                            }
                        },
                        Err(_) => {},
                    }
                },
                Err(_) => {},
            }
        },
    }
}

proof fn lemma_stmts_table_wf(st: CgState, stmts: Seq<SpecStmt>, i: int)
    requires
        table_wf(st.labels),
    ensures
        spec_compile_stmts(st, stmts, i) matches Ok(st1) ==> table_wf(st1.labels),
    decreases stmts.len() - i,
{
    if 0 <= i < stmts.len() {
        lemma_stmt_table_wf(st, stmts[i]);
        match spec_compile_stmt(st, stmts[i]) {
            Ok(st1) => {
                lemma_stmts_table_wf(st1, stmts, i + 1);
            },
            Err(_) => {},
        }
    }
}

/// Law: a generated blob's label table is sound whenever the declared
/// function names are — every name binds one index, and no bound name can
/// be mistaken for an indented instruction line.  Together with the
/// printer's law this pins each label line to its instruction.
pub proof fn lemma_compiled_table_wf(st: CgState, funcs: Seq<SpecFuncDecl>, i: int)
    requires
        table_wf(st.labels),
        forall|j: int|
            0 <= j < funcs.len() && #[trigger] funcs[j].name.len() > 0 ==> funcs[j].name[0]
                != '\t',
    ensures
        spec_compile_program(st, funcs, i) matches Ok(st1) ==> table_wf(st1.labels),
    decreases funcs.len() - i,
{
    if 0 <= i < funcs.len() {
        lemma_set_wf(st.labels, funcs[i].name, st.instrs.len() as int);
        let st1 = CgState {
            labels: map_set(st.labels, funcs[i].name, st.instrs.len() as int),
            ..st
        };
        lemma_stmts_table_wf(st1, funcs[i].body, 0);
        match spec_compile_stmts(st1, funcs[i].body, 0) {
            Ok(st2) => {
                lemma_compiled_table_wf(st2, funcs, i + 1);
            },
            Err(_) => {},
        }
    }
}

proof fn lemma_lookup_set(m: Seq<(Seq<char>, int)>, k: Seq<char>, v: int)
    ensures
        map_lookup(map_set(m, k, v), k) == Some(v),
    decreases m.len(),
{
    if m.len() == 0 {
    } else if m[0].0 == k {
        assert(map_set(m, k, v)[0] == (k, v));
    } else {
        assert(m.drop_first() =~= m.skip(1));
        lemma_lookup_set(m.skip(1), k, v);
        let r = map_set(m, k, v);
        assert(r[0] == m[0]);
        assert(r.drop_first() =~= map_set(m.skip(1), k, v));
    }
}

/// Law: for a conditional with both branches present, the minted
/// false-branch label is bound to the index immediately after the last
/// instruction of the "then" branch — strictly after every "then"
/// instruction — and the "else" branch's instructions all stand at or
/// after that index, so the jump lands exactly at the start of the
/// "else" lowering.
pub proof fn lemma_conditional_label(st: CgState, c: SpecExpr, y: SpecExpr, n: SpecExpr)
    requires
        spec_compile_stmt(st, SpecStmt::Conditional(c, y, Some(n))) is Ok,
    ensures
        ({
            let stf = spec_compile_stmt(st, SpecStmt::Conditional(c, y, Some(n)))->Ok_0;
            let lbl = temp_label_name(st.temp);
            let st0 = CgState { temp: st.temp + 1, ..st };
            let st1 = spec_compile_expr(st0, c)->Ok_0;
            let st2 = cg_push(
                cg_push(st1, SpecInstr::Cmp(SpecLoc::Imm(0), SpecLoc::Reg(0))),
                SpecInstr::Jez(SpecLoc::Label(lbl)),
            );
            let st3 = spec_compile_expr(st2, y)->Ok_0;
            let bound = st3.instrs.len() as int;
            // the minted label is bound, to exactly this index
            &&& map_lookup(stf.labels, lbl) == Some(bound)
            // the "then" branch occupies the indices strictly below it
            &&& st2.instrs.len() < bound
            // everything up to the bound index is untouched by the "else"
            // lowering, whose instructions all stand at or after it
            &&& bound <= stf.instrs.len()
            &&& stf.instrs.subrange(0, bound) == st3.instrs
        }),
{
    let lbl = temp_label_name(st.temp);
    let st0 = CgState { temp: st.temp + 1, ..st };
    lemma_expr_extends(st0, c);
    let st1 = spec_compile_expr(st0, c)->Ok_0;
    let st2 = cg_push(
        cg_push(st1, SpecInstr::Cmp(SpecLoc::Imm(0), SpecLoc::Reg(0))),
        SpecInstr::Jez(SpecLoc::Label(lbl)),
    );
    lemma_expr_extends(st2, y);
    let st3 = spec_compile_expr(st2, y)->Ok_0;
    let st4 = CgState { labels: map_set(st3.labels, lbl, st3.instrs.len() as int), ..st3 };
    lemma_expr_extends(st4, n);
    lemma_lookup_set(st3.labels, lbl, st3.instrs.len() as int);
    let stf = spec_compile_stmt(st, SpecStmt::Conditional(c, y, Some(n)))->Ok_0;
    assert(stf.labels == st4.labels);
    assert(stf.instrs.subrange(0, st4.instrs.len() as int) == st4.instrs);
}

// ---------------------------------------------------------------------------
// The executable generator.
// ---------------------------------------------------------------------------

/// The generator: the blob being built, the variable table and the counters
/// behind the minted labels and stack slots.
#[derive(Debug)]
pub struct Compiler {
    blob: Blob,
    variables: Vec<(String, usize)>,
    var_offset: usize,
    temp_label_num: usize,
}

impl View for Compiler {
    type V = CgState;

    closed spec fn view(&self) -> CgState {
        CgState {
            instrs: instrs_view(self.blob.instructions@),
            labels: table_view(self.blob.labels@),
            vars: table_view(self.variables@),
            var_offset: self.var_offset as int,
            temp: self.temp_label_num as int,
        }
    }
}

/// The variable table's invariant: the next stack slot is the table's size.
pub open spec fn vars_wf(st: CgState) -> bool {
    st.var_offset == st.vars.len()
}

/// The label counter's invariant: every minted label was followed by at
/// least four emitted instructions.
pub open spec fn temp_wf(st: CgState) -> bool {
    0 <= 4 * st.temp <= st.instrs.len()
}

/// Looks a key up in a table kept as a vector of pairs.
fn table_find(table: &Vec<(String, usize)>, k: &String) -> (r: Option<usize>)
    ensures
        match r {
            Some(v) => map_lookup(table_view(table@), k@) == Some(v as int),
            None => map_lookup(table_view(table@), k@) is None,
        },
{
    let ghost m = table_view(table@);
    let mut i: usize = 0;
    while i < table.len()
        invariant
            m == table_view(table@),
            0 <= i <= table@.len(),
            m.len() == table@.len(),
            forall|j: int| 0 <= j < i ==> m[j].0 != k@,
        decreases table@.len() - i,
    {
        if table[i].0 == *k {
            proof {
                lemma_lookup_found(m, k@, i as int);
            }
            return Some(table[i].1);
        }
        i = i + 1;
    }
    proof {
        lemma_lookup_none(m, k@);
    }
    None
}

impl Compiler {
    pub fn new() -> (r: Compiler)
        ensures
            r@.instrs == Seq::<SpecInstr>::empty(),
            r@.labels == Seq::<(Seq<char>, int)>::empty(),
            r@.vars == Seq::<(Seq<char>, int)>::empty(),
            r@.var_offset == 0,
            r@.temp == 0,
            vars_wf(r@),
            temp_wf(r@),
    {
        let r = Compiler {
            blob: Blob { instructions: Vec::new(), labels: Vec::new() },
            variables: Vec::new(),
            var_offset: 0,
            temp_label_num: 0,
        };
        proof {
            assert(r@.instrs =~= Seq::<SpecInstr>::empty());
            assert(r@.labels =~= Seq::<(Seq<char>, int)>::empty());
            assert(r@.vars =~= Seq::<(Seq<char>, int)>::empty());
        }
        r
    }

    /// The stack slot of `name`: the one it already has, or a fresh one.
    pub fn get_var_offset(&mut self, name: &String) -> (r: usize)
        requires
            vars_wf(old(self)@),
        ensures
            vars_wf(final(self)@),
            r as int == spec_get_var(old(self)@, name@).0,
            final(self)@ == spec_get_var(old(self)@, name@).1,
    {
        match table_find(&self.variables, name) {
            Some(off) => off,
            None => {
                let off = self.var_offset;
                let ghost prev = table_view(self.variables@);
                self.variables.push((name.clone(), off));
                proof {
                    assert(table_view(self.variables@) =~= prev.push((name@, off as int)));
                }
                self.var_offset = self.variables.len();
                off
            },
        }
    }

    /// Binds `name` to instruction index `idx`: overwrites the binding in
    /// place if the name is already bound, appends it otherwise.
    fn bind_label(&mut self, name: String, idx: usize)
        ensures
            final(self)@ == (CgState {
                labels: map_set(old(self)@.labels, name@, idx as int),
                ..old(self)@
            }),
    {
        let ghost m = table_view(self.blob.labels@);
        let mut i: usize = 0;
        while i < self.blob.labels.len()
            invariant
                self@ == old(self)@,
                m == table_view(self.blob.labels@),
                0 <= i <= self.blob.labels@.len(),
                m.len() == self.blob.labels@.len(),
                forall|j: int| 0 <= j < i ==> m[j].0 != name@,
            decreases self.blob.labels@.len() - i,
        {
            if self.blob.labels[i].0 == name {
                proof {
                    lemma_set_found(m, name@, idx as int, i as int);
                }
                self.blob.labels[i] = (name, idx);
                proof {
                    assert(table_view(self.blob.labels@) =~= m.update(
                        i as int,
                        (name@, idx as int),
                    ));
                }
                return ;
            }
            i = i + 1;
        }
        proof {
            lemma_set_missing(m, name@, idx as int);
        }
        self.blob.labels.push((name, idx));
        proof {
            assert(table_view(self.blob.labels@) =~= m.push((name@, idx as int)));
        }
    }

    /// Appends one instruction.
    fn emit(&mut self, i: Instr)
        ensures
            final(self)@ == cg_push(old(self)@, i@),
    {
        let ghost prev = instrs_view(self.blob.instructions@);
        let ghost iv = i@;
        self.blob.instructions.push(i);
        proof {
            assert(instrs_view(self.blob.instructions@) =~= prev.push(iv));
        }
    }

    /// Lowers one expression; its value ends in the accumulator.
    fn compile_expr(&mut self, expr: &Expr) -> (r: Result<(), CompileError>)
        requires
            vars_wf(old(self)@),
        ensures
            vars_wf(final(self)@),
            final(self)@.temp == old(self)@.temp,
            final(self)@.labels == old(self)@.labels,
            match spec_compile_expr(old(self)@, expr@) {
                Ok(st) => r is Ok && final(self)@ == st,
                Err(er) => r matches Err(x) && x@ == er,
            },
        decreases expr,
    {
        match expr {
            Expr::Constant(n) => {
                self.emit(Instr::Mov(Loc::Imm(n.whole), Loc::Reg(0)));
                Ok(())
            },
            Expr::Binary(l, op, r) => {
                match self.compile_expr(l) {
                    Ok(()) => {},
                    Err(e) => {
                        return Err(e);
                    },
                }
                self.emit(Instr::Mov(Loc::Reg(0), Loc::Reg(1)));
                match self.compile_expr(r) {
                    Ok(()) => {},
                    Err(e) => {
                        return Err(e);
                    },
                }
                self.emit(Instr::BinOp(Loc::Reg(1), *op, Loc::Reg(0)));
                Ok(())
            },
            Expr::Unary(_, _) => Err(CompileError::UnsupportedConstruct),
            Expr::Call(name, params) => {
                let ghost st0 = self@;
                let ghost argsv = exprs_view(params@);
                proof {
                    lemma_exprs_view(params@);
                }
                let mut k: usize = 0;
                while k < params.len()
                    invariant
                        vars_wf(self@),
                        self@.temp == old(self)@.temp,
                        self@.labels == old(self)@.labels,
                        st0 == old(self)@,
                        *expr == Expr::Call(*name, *params),
                        0 <= k <= params@.len(),
                        argsv == exprs_view(params@),
                        argsv.len() == params@.len(),
                        forall|j: int| 0 <= j < params@.len() ==> argsv[j] == expr_view(
                            *params@[j],
                        ),
                        spec_compile_args(st0, argsv, 0) == spec_compile_args(
                            self@,
                            argsv,
                            k as int,
                        ),
                    decreases params@.len() - k,
                {
                    if k > usize::MAX - 2 {
                        return Err(CompileError::UnsupportedConstruct);
                    }
                    let ghost stk = self@;
                    proof {
                        assert(decreases_to!(*expr => *params@[k as int]));
                    }
                    match self.compile_expr(&params[k]) {
                        Ok(()) => {},
                        Err(e) => {
                            return Err(e);
                        },
                    }
                    self.emit(Instr::Mov(Loc::Reg(0), Loc::Reg(k + 2)));
                    k = k + 1;
                }
                self.emit(Instr::Call(Loc::Label(name.clone())));
                Ok(())
            },
            Expr::Symbol(name) => {
                let off = self.get_var_offset(name);
                self.emit(Instr::Mov(Loc::AddrStack(off), Loc::Reg(0)));
                Ok(())
            },
        }
    }

    /// Lowers one statement.
    fn compile_stmt(&mut self, stmt: &Stmt) -> (r: Result<(), CompileError>)
        requires
            vars_wf(old(self)@),
            temp_wf(old(self)@),
        ensures
            vars_wf(final(self)@),
            match spec_compile_stmt(old(self)@, stmt@) {
                Ok(st) => (r is Ok && final(self)@ == st) && temp_wf(final(self)@),
                Err(er) => r matches Err(x) && x@ == er,
            },
    {
        match stmt {
            Stmt::ExprStmt(e) => {
                let r = self.compile_expr(e);
                proof {
                    lemma_expr_extends(old(self)@, e@);
                }
                r
            },
            Stmt::Assignment(name, e) => {
                match self.compile_expr(e) {
                    Ok(()) => {},
                    Err(er) => {
                        return Err(er);
                    },
                }
                let off = self.get_var_offset(name);
                self.emit(Instr::Mov(Loc::Reg(0), Loc::AddrStack(off)));
                proof {
                    lemma_expr_extends(old(self)@, e@);
                }
                Ok(())
            },
            Stmt::Return(oe) => {
                match oe {
                    Some(e) => {
                        match self.compile_expr(e) {
                            Ok(()) => {},
                            Err(er) => {
                                return Err(er);
                            },
                        }
                        proof {
                            lemma_expr_extends(old(self)@, e@);
                        }
                    },
                    None => {},
                }
                self.emit(Instr::Ret);
                Ok(())
            },
            Stmt::Conditional(cond, yes, no) => {
                let temp_label = make_temp_label(self.temp_label_num);
                let cur_temp = self.temp_label_num;
                let bound = self.blob.instructions.len();
                proof {
                    assert(4 * (cur_temp as int) <= bound as int);
                }
                self.temp_label_num = cur_temp + 1;
                let ghost st_start = self@;
                match self.compile_expr(cond) {
                    Ok(()) => {},
                    Err(er) => {
                        return Err(er);
                    },
                }
                proof {
                    lemma_expr_extends(st_start, cond@);
                }
                self.emit(Instr::Cmp(Loc::Imm(0), Loc::Reg(0)));
                self.emit(Instr::Jez(Loc::Label(temp_label.clone())));
                let ghost st_then = self@;
                match self.compile_expr(yes) {
                    Ok(()) => {},
                    Err(er) => {
                        return Err(er);
                    },
                }
                proof {
                    lemma_expr_extends(st_then, yes@);
                }
                let idx = self.blob.instructions.len();
                self.bind_label(temp_label, idx);
                let ghost st_bound = self@;
                match no {
                    Some(ne) => {
                        match self.compile_expr(ne) {
                            Ok(()) => {},
                            Err(er) => {
                                return Err(er);
                            },
                        }
                        proof {
                            lemma_expr_extends(st_bound, ne@);
                        }
                    },
                    None => {},
                }
                Ok(())
            },
        }
    }
}

fn loc_unbound_name(l: &Loc, labels: &Vec<(String, usize)>) -> (r: Option<String>)
    ensures
        match r {
            Some(n) => loc_unbound(l@, table_view(labels@)) == Some(n@),
            None => loc_unbound(l@, table_view(labels@)) is None,
        },
{
    match l {
        Loc::Label(n) => match table_find(labels, n) {
            Some(_) => None,
            None => Some(n.clone()),
        },
        _ => None,
    }
}

fn instr_unbound_name(i: &Instr, labels: &Vec<(String, usize)>) -> (r: Option<String>)
    ensures
        match r {
            Some(n) => instr_unbound(i@, table_view(labels@)) == Some(n@),
            None => instr_unbound(i@, table_view(labels@)) is None,
        },
{
    match i {
        Instr::BinOp(a, _, b) => match loc_unbound_name(a, labels) {
            Some(n) => Some(n),
            None => loc_unbound_name(b, labels),
        },
        Instr::UnOp(_, a) => loc_unbound_name(a, labels),
        Instr::Mov(a, b) => match loc_unbound_name(a, labels) {
            Some(n) => Some(n),
            None => loc_unbound_name(b, labels),
        },
        Instr::Cmp(a, b) => match loc_unbound_name(a, labels) {
            Some(n) => Some(n),
            None => loc_unbound_name(b, labels),
        },
        Instr::Jmp(a) => loc_unbound_name(a, labels),
        Instr::Jez(a) => loc_unbound_name(a, labels),
        Instr::Call(a) => loc_unbound_name(a, labels),
        Instr::Ret => None,
    }
}

impl Compiler {
    /// Lowers a whole program to a Blob, then demands that every referenced
    /// label has a binding; an unbound one is an `UnresolvedLabel` error.
    pub fn compile_program(self, program: &Program) -> (r: Result<Blob, CompileError>)
        requires
            vars_wf(self@),
            temp_wf(self@),
        ensures
            match spec_compile_program(self@, program@.functions, 0) {
                Ok(st) => (match first_unbound(st.instrs, st.labels, 0) {
                    None => r matches Ok(b) && b@.instrs == st.instrs && b@.labels == st.labels,
                    Some(n) => r matches Err(e) && e@ == SpecCompileError::UnresolvedLabel(n),
                }),
                Err(er) => r matches Err(e) && e@ == er,
            },
    {
        let ghost st0 = self@;
        let ghost funcs = program@.functions;
        let mut this = self;
        let mut fi: usize = 0;
        while fi < program.functions.len()
            invariant
                vars_wf(this@),
                temp_wf(this@),
                st0 == self@,
                funcs == program@.functions,
                funcs == funcs_view(program.functions@),
                funcs.len() == program.functions@.len(),
                0 <= fi <= funcs.len(),
                spec_compile_program(st0, funcs, 0) == spec_compile_program(
                    this@,
                    funcs,
                    fi as int,
                ),
            decreases funcs.len() - fi,
        {
            let f = &program.functions[fi];
            let idx = this.blob.instructions.len();
            this.bind_label(f.name.clone(), idx);
            let ghost stf = this@;
            let ghost body = funcs[fi as int].body;
            proof {
                assert(body == stmts_view(f.body@));
            }
            let mut si: usize = 0;
            while si < f.body.len()
                invariant
                    vars_wf(this@),
                    temp_wf(this@),
                    st0 == self@,
                    funcs == program@.functions,
                    0 <= fi < funcs.len(),
                    fi < program.functions@.len(),
                    *f == program.functions@[fi as int],
                    body == stmts_view(f.body@),
                    body.len() == f.body@.len(),
                    0 <= si <= body.len(),
                    spec_compile_program(st0, funcs, 0) == (match spec_compile_stmts(
                        this@,
                        body,
                        si as int,
                    ) {
                        Ok(st2) => spec_compile_program(st2, funcs, fi + 1),
                        Err(e) => Err::<CgState, SpecCompileError>(e),
                    }),
                decreases body.len() - si,
            {
                let ghost stc = this@;
                match this.compile_stmt(&f.body[si]) {
                    Ok(()) => {},
                    Err(e) => {
                        proof {
                            assert(spec_compile_stmts(stc, body, si as int) == Err::<
                                CgState,
                                SpecCompileError,
                            >(e@));
                        }
                        return Err(e);
                    },
                }
                si = si + 1;
            }
            fi = fi + 1;
        }
        proof {
            assert(spec_compile_program(st0, funcs, 0) == Ok::<CgState, SpecCompileError>(this@));
        }
        let ghost st_fin = this@;
        let mut ii: usize = 0;
        while ii < this.blob.instructions.len()
            invariant
                st0 == self@,
                funcs == program@.functions,
                this@ == st_fin,
                spec_compile_program(st0, funcs, 0) == Ok::<CgState, SpecCompileError>(st_fin),
                0 <= ii <= this.blob.instructions@.len(),
                st_fin.instrs.len() == this.blob.instructions@.len(),
                first_unbound(st_fin.instrs, st_fin.labels, 0) == first_unbound(
                    st_fin.instrs,
                    st_fin.labels,
                    ii as int,
                ),
            decreases this.blob.instructions@.len() - ii,
        {
            match instr_unbound_name(&this.blob.instructions[ii], &this.blob.labels) {
                Some(n) => {
                    return Err(CompileError::UnresolvedLabel(n));
                },
                None => {},
            }
            ii = ii + 1;
        }
        Ok(this.blob)
    }
}

/// The freshly minted label `_n`.
fn make_temp_label(n: usize) -> (r: String)
    ensures
        r@ == temp_label_name(n as int),
{
    let mut s = String::new();
    push_char(&mut s, '_');
    let d = u64_to_dec(n as u64);
    s.append(d.as_str());
    proof {
        assert(s@ =~= temp_label_name(n as int));
    }
    s
}

} // verus!
