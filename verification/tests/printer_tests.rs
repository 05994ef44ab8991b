use minicomp::compile::{Blob, Compiler, Instr, Loc};
use minicomp::parser::{parse_program, TokenSource};
use minicomp::printer::{print_asm, print_instr, translate_loc};
use minicomp::scanner::Scanner;

fn compile_lines(src: &str) -> Vec<String> {
    let tokens = Scanner::new(src.chars().collect()).scan_all().unwrap();
    let program = parse_program(&mut TokenSource::new(tokens)).unwrap();
    let blob = Compiler::new().compile_program(&program).unwrap();
    print_asm(&blob)
}

#[test]
fn renders_operands() {
    assert_eq!(translate_loc(&Loc::Imm(5)), "$5");
    assert_eq!(translate_loc(&Loc::Imm(-7)), "$-7");
    assert_eq!(translate_loc(&Loc::Reg(0)), "%0");
    assert_eq!(translate_loc(&Loc::RegDeref(2)), "(%2)");
    assert_eq!(translate_loc(&Loc::AddrStack(3)), "3(%bp)");
    assert_eq!(translate_loc(&Loc::Label(String::from("foo"))), "foo");
}

#[test]
fn renders_instructions() {
    assert_eq!(
        print_instr(&Instr::Mov(Loc::Imm(1), Loc::Reg(0))),
        "movq $1, %0"
    );
    assert_eq!(
        print_instr(&Instr::Cmp(Loc::Imm(0), Loc::Reg(0))),
        "cmp $0, %0"
    );
    assert_eq!(
        print_instr(&Instr::Jez(Loc::Label(String::from("_0")))),
        "jez _0"
    );
    assert_eq!(
        print_instr(&Instr::Call(Loc::Label(String::from("f")))),
        "call f"
    );
    assert_eq!(print_instr(&Instr::Ret), "ret");
    assert_eq!(
        print_instr(&Instr::Jmp(Loc::Label(String::from("top")))),
        "jmp top"
    );
    assert_eq!(
        print_instr(&Instr::BinOp(Loc::Reg(1), minicomp::ast::Op::Sub, Loc::Reg(0))),
        "subq %1, %0"
    );
    assert_eq!(
        print_instr(&Instr::UnOp(minicomp::ast::Op::Sub, Loc::Reg(0))),
        "subq %0"
    );
}

#[test]
fn label_line_comes_immediately_before_its_instruction_and_only_once() {
    let blob = Blob {
        instructions: vec![Instr::Ret, Instr::Ret, Instr::Ret],
        labels: vec![(String::from("foo"), 1)],
    };
    let lines = print_asm(&blob);
    assert_eq!(lines, vec!["\tret", "foo:", "\tret", "\tret"]);
    assert_eq!(lines.iter().filter(|l| *l == "foo:").count(), 1);
}

#[test]
fn whole_pipeline_renders_expected_listing() {
    let lines = compile_lines("fun main(){ return 1+2*3; }");
    assert_eq!(
        lines,
        vec![
            "main:",
            "\tmovq $1, %0",
            "\tmovq %0, %1",
            "\tmovq $2, %0",
            "\tmovq %0, %1",
            "\tmovq $3, %0",
            "\tmulq %1, %0",
            "\taddq %1, %0",
            "\tret",
        ]
    );
}

#[test]
fn printing_is_stable_across_repeated_runs() {
    let srcs = [
        "fun main(){ return 1+2*3; }",
        "fun f(){ let x = 5; return x; }",
        "fun g(){ return 0; } fun f(){ return g(1,2); }",
    ];
    for src in srcs {
        let first = compile_lines(src);
        for _ in 0..3 {
            assert_eq!(compile_lines(src), first);
        }
    }
}

#[test]
fn empty_blob_renders_no_lines() {
    let blob = Blob { instructions: Vec::new(), labels: Vec::new() };
    assert_eq!(print_asm(&blob), Vec::<String>::new());
}
