use minicomp::ast::{Expr, FuncDecl, Op, Program, Stmt};
use minicomp::compile::{Blob, CompileError, Compiler, Instr, Loc};
use minicomp::parser::{parse_program, TokenSource};
use minicomp::scanner::{NumberLit, Scanner};

fn compile(src: &str) -> Result<Blob, CompileError> {
    let tokens = Scanner::new(src.chars().collect()).scan_all().unwrap();
    let program = parse_program(&mut TokenSource::new(tokens)).unwrap();
    Compiler::new().compile_program(&program)
}

fn cnum(whole: i64) -> Expr {
    Expr::Constant(NumberLit { whole, frac: Vec::new() })
}

#[test]
fn variable_round_trips_through_one_stable_slot() {
    let blob = compile("fun f(){ let x = 1; return x; }").unwrap();
    assert_eq!(
        blob.instructions,
        vec![
            Instr::Mov(Loc::Imm(1), Loc::Reg(0)),
            Instr::Mov(Loc::Reg(0), Loc::AddrStack(0)),
            Instr::Mov(Loc::AddrStack(0), Loc::Reg(0)),
            Instr::Ret,
        ]
    );
    assert_eq!(blob.labels, vec![(String::from("f"), 0)]);
}

#[test]
fn distinct_variables_get_distinct_slots() {
    let blob = compile("fun f(){ let x = 1; let y = 2; return y; }").unwrap();
    assert_eq!(
        blob.instructions,
        vec![
            Instr::Mov(Loc::Imm(1), Loc::Reg(0)),
            Instr::Mov(Loc::Reg(0), Loc::AddrStack(0)),
            Instr::Mov(Loc::Imm(2), Loc::Reg(0)),
            Instr::Mov(Loc::Reg(0), Loc::AddrStack(1)),
            Instr::Mov(Loc::AddrStack(1), Loc::Reg(0)),
            Instr::Ret,
        ]
    );
}

#[test]
fn binary_operation_combines_scratch_into_accumulator() {
    let blob = compile("fun f(){ return 1+2; }").unwrap();
    assert_eq!(
        blob.instructions,
        vec![
            Instr::Mov(Loc::Imm(1), Loc::Reg(0)),
            Instr::Mov(Loc::Reg(0), Loc::Reg(1)),
            Instr::Mov(Loc::Imm(2), Loc::Reg(0)),
            Instr::BinOp(Loc::Reg(1), Op::Add, Loc::Reg(0)),
            Instr::Ret,
        ]
    );
}

#[test]
fn call_stages_arguments_positionally() {
    let blob = compile("fun g(){ return 0; } fun f(){ return g(7,8); }").unwrap();
    assert_eq!(
        blob.instructions[2..],
        [
            Instr::Mov(Loc::Imm(7), Loc::Reg(0)),
            Instr::Mov(Loc::Reg(0), Loc::Reg(2)),
            Instr::Mov(Loc::Imm(8), Loc::Reg(0)),
            Instr::Mov(Loc::Reg(0), Loc::Reg(3)),
            Instr::Call(Loc::Label(String::from("g"))),
            Instr::Ret,
        ]
    );
    assert_eq!(
        blob.labels,
        vec![(String::from("g"), 0), (String::from("f"), 2)]
    );
}

#[test]
fn conditional_label_lands_after_then_branch() {
    let program = Program {
        functions: vec![FuncDecl {
            name: String::from("f"),
            body: vec![Stmt::Conditional(cnum(1), cnum(2), Some(cnum(3)))],
        }],
    };
    let blob = Compiler::new().compile_program(&program).unwrap();
    assert_eq!(
        blob.instructions,
        vec![
            Instr::Mov(Loc::Imm(1), Loc::Reg(0)),
            Instr::Cmp(Loc::Imm(0), Loc::Reg(0)),
            Instr::Jez(Loc::Label(String::from("_0"))),
            Instr::Mov(Loc::Imm(2), Loc::Reg(0)),
            Instr::Mov(Loc::Imm(3), Loc::Reg(0)),
        ]
    );
    // `_0` is bound to index 4: strictly after the "then" instruction at 3,
    // exactly where the "else" lowering begins
    assert_eq!(
        blob.labels,
        vec![(String::from("f"), 0), (String::from("_0"), 4)]
    );
}

#[test]
fn minted_labels_count_up() {
    let program = Program {
        functions: vec![FuncDecl {
            name: String::from("f"),
            body: vec![
                Stmt::Conditional(cnum(1), cnum(2), None),
                Stmt::Conditional(cnum(1), cnum(2), None),
            ],
        }],
    };
    let blob = Compiler::new().compile_program(&program).unwrap();
    assert_eq!(blob.labels[1].0, "_0");
    assert_eq!(blob.labels[2].0, "_1");
}

#[test]
fn unary_expression_is_unsupported() {
    let r = compile("fun f(){ return -1; }");
    assert_eq!(r, Err(CompileError::UnsupportedConstruct));
}

#[test]
fn call_to_undeclared_function_is_unresolved() {
    let r = compile("fun f(){ return g(); }");
    assert_eq!(r, Err(CompileError::UnresolvedLabel(String::from("g"))));
}

#[test]
fn forward_call_resolves_at_finalize() {
    let r = compile("fun f(){ return g(); } fun g(){ return 0; }");
    assert!(r.is_ok());
}

#[test]
fn fractional_constant_narrows_to_whole_part() {
    let blob = compile("fun f(){ return 1.5; }").unwrap();
    assert_eq!(blob.instructions[0], Instr::Mov(Loc::Imm(1), Loc::Reg(0)));
}

#[test]
fn empty_return_emits_plain_ret() {
    let program = Program {
        functions: vec![FuncDecl { name: String::from("f"), body: vec![Stmt::Return(None)] }],
    };
    let blob = Compiler::new().compile_program(&program).unwrap();
    assert_eq!(blob.instructions, vec![Instr::Ret]);
}
