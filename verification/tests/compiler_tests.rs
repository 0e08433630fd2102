use lib::ast::{CompOp, Expression, IfBranch, MathOp, Node, Term};
use lib::compiler::{Compiler, STDLIB_ASM};
use lib::driver::{compile_source, output_name, source_file_index, CompileError};
use lib::lexer::LexError;

const PROGRAM_HEAD: &str =
    "[bits 64]\ndefault rel\nsection .text\nglobal _start\n_start:\n    mov rax, [rsp]\n    mov [rel argc_val], rax\n";
const MODULE_HEAD: &str = "[bits 64]\ndefault rel\nsection .text\n";
const DATA: &str = "section .data\n    minus_sign db 45\n    newline_char db 10\n";
const BSS: &str = "section .bss\n    digit_space resb 100\n    digit_space_pos resb 8\n    input_buffer resb 32\n    argc_val resq 1\n";
const PROGRAM_END: &str = "    mov rax, 60\n    mov rdi, 0\n    syscall\n";
const MODULE_END: &str = "    ret\n";

fn program(body: &str, data: &str, bss: &str) -> String {
    format!("{}{}{}{}\n{}{}\n{}{}", PROGRAM_HEAD, body, PROGRAM_END, STDLIB_ASM, DATA, data, BSS, bss)
}

fn module(body: &str, data: &str, bss: &str) -> String {
    format!("{}{}{}{}\n{}{}\n{}{}", MODULE_HEAD, body, MODULE_END, STDLIB_ASM, DATA, data, BSS, bss)
}

fn compile(src: &str) -> (String, bool) {
    match compile_source(src) {
        Ok(c) => (c.assembly, c.is_module),
        Err(CompileError::Lex(e)) => panic!("{}", e.message()),
        Err(CompileError::Syntax(m)) => panic!("Syntax Error: {}", m),
    }
}

fn var(s: &str) -> Term {
    Term::Variable(s.to_string())
}

#[test]
fn empty_program_and_module() {
    assert_eq!(Compiler::new(false).generate(vec![], false), program("", "", ""));
    assert_eq!(Compiler::new(true).generate(vec![], true), module("", "", ""));
}

#[test]
fn declaration_and_print_of_a_variable() {
    let (out, is_module) = compile("let x = 1 + 2\nprintln x\n");
    assert!(!is_module);
    let body = "    mov rax, 1\n    push rax\n    mov rax, 2\n    mov rbx, rax\n    pop rax\n    add rax, rbx\n    mov qword [rel x], rax\n    mov rax, qword [rel x]\n    call _print_rax\n    call _print_newline\n";
    assert_eq!(out, program(body, "", "    x resq 1\n"));
}

#[test]
fn module_variables_live_in_data() {
    let (out, is_module) = compile("module\nlet v = 7\nv = v * 2\n");
    assert!(is_module);
    let body = "    mov rax, 7\n    mov qword [rel v], rax\n    mov rax, qword [rel v]\n    push rax\n    mov rax, 2\n    mov rbx, rax\n    pop rax\n    imul rax, rbx\n    mov qword [rel v], rax\n";
    assert_eq!(out, module(body, "    v dq 0\n", ""));
}

#[test]
fn a_variable_gets_storage_once() {
    let (out, _) = compile("let a\na = 1\ninput a\nlet b\ninput a\n");
    let body = "    mov rax, 1\n    mov qword [rel a], rax\n    call _read_int\n    mov qword [rel a], rax\n    call _read_int\n    mov qword [rel a], rax\n";
    assert_eq!(out, program(body, "", "    a resq 1\n    b resq 1\n"));
}

#[test]
fn every_operator_and_term() {
    let e = |l: Expression, op: MathOp, r: Term| Expression::Binary(Box::new(l), op, Box::new(Expression::Term(r)));
    let expr = e(
        e(e(e(Expression::Term(Term::ArgC), MathOp::Sub, Term::Number(-5)), MathOp::Div, var("d")), MathOp::Mod, Term::Number(3)),
        MathOp::Add,
        Term::Number(0),
    );
    let out = Compiler::new(false).generate(vec![Node::ExitStatement(Term::Number(-2147483648)), Node::Assignment("r".to_string(), expr)], false);
    let body = &[
        "    mov rdi, -2147483648\n    mov rax, 60\n    syscall\n",
        "    mov rax, [rel argc_val]\n    push rax\n    mov rax, -5\n    mov rbx, rax\n    pop rax\n    sub rax, rbx\n",
        "    push rax\n    mov rax, qword [rel d]\n    mov rbx, rax\n    pop rax\n    cqo\n    idiv rbx\n",
        "    push rax\n    mov rax, 3\n    mov rbx, rax\n    pop rax\n    cqo\n    idiv rbx\n    mov rax, rdx\n",
        "    push rax\n    mov rax, 0\n    mov rbx, rax\n    pop rax\n    add rax, rbx\n",
        "    mov qword [rel r], rax\n"
    ]
    .concat();
    assert_eq!(out, program(body, "", "    r resq 1\n"));
}

#[test]
fn printing_strings() {
    let (out, _) = compile("println \"hi\"\nprint \"\"\nprintln \"\"\nprint \"é\"\n");
    let body = &[
        "    mov rax, 1\n    mov rdi, 1\n    lea rsi, [rel str_0]\n    mov rdx, 3\n    syscall\n",
        "    mov rax, 1\n    mov rdi, 1\n    lea rsi, [rel str_1]\n    mov rdx, 1\n    syscall\n",
        "    mov rax, 1\n    mov rdi, 1\n    lea rsi, [rel str_2]\n    mov rdx, 1\n    syscall\n",
        "    mov rax, 1\n    mov rdi, 1\n    lea rsi, [rel str_3]\n    mov rdx, 2\n    syscall\n"
    ]
    .concat();
    let data = "    str_0 db 104, 105, 10\n    str_1 db 0\n    str_2 db 10\n    str_3 db 195, 169\n";
    assert_eq!(out, program(body, data, ""));
}

#[test]
fn exec_paths_share_the_string_counter() {
    let (out, _) = compile("exec \"m.bin\"\nprint \"a\"\nexec \"/x\"\n");
    let body = &[
        "    lea rdi, [rel file_0]\n    call _load_and_run\n",
        "    mov rax, 1\n    mov rdi, 1\n    lea rsi, [rel str_1]\n    mov rdx, 1\n    syscall\n",
        "    lea rdi, [rel file_2]\n    call _load_and_run\n"
    ]
    .concat();
    let data = "    file_0 db 46, 47, 109, 46, 98, 105, 110, 0\n    str_1 db 97\n    file_2 db 47, 120, 0\n";
    assert_eq!(out, program(body, data, ""));
}

#[test]
fn if_elif_else_labels() {
    let (out, _) = compile("if x == 1 { exit 0 } elif x < 2 { exit 1 } else { exit 2 }");
    let body = &[
        "    mov rax, qword [rel x]\n    mov rbx, 1\n    cmp rax, rbx\n    jne .L_br_0_1\n",
        "    mov rdi, 0\n    mov rax, 60\n    syscall\n",
        "    jmp .L_if_end_0\n.L_br_0_1:\n",
        "    mov rax, qword [rel x]\n    mov rbx, 2\n    cmp rax, rbx\n    jge .L_br_0_2\n",
        "    mov rdi, 1\n    mov rax, 60\n    syscall\n",
        "    jmp .L_if_end_0\n.L_br_0_2:\n",
        "    mov rdi, 2\n    mov rax, 60\n    syscall\n",
        ".L_if_end_0:\n"
    ]
    .concat();
    assert_eq!(out, program(body, "", ""));
}

#[test]
fn if_without_else_jumps_to_its_end_and_ifs_nest() {
    let (out, _) = compile("if a != b { if a >= 1 { exit 1 } }\nif a <= 0 { exit 0 }");
    let body = &[
        "    mov rax, qword [rel a]\n    mov rbx, qword [rel b]\n    cmp rax, rbx\n    je .L_if_end_0\n",
        "    mov rax, qword [rel a]\n    mov rbx, 1\n    cmp rax, rbx\n    jl .L_if_end_1\n",
        "    mov rdi, 1\n    mov rax, 60\n    syscall\n",
        "    jmp .L_if_end_1\n.L_br_1_1:\n.L_if_end_1:\n",
        "    jmp .L_if_end_0\n.L_br_0_1:\n.L_if_end_0:\n",
        "    mov rax, qword [rel a]\n    mov rbx, 0\n    cmp rax, rbx\n    jg .L_if_end_2\n",
        "    mov rdi, 0\n    mov rax, 60\n    syscall\n",
        "    jmp .L_if_end_2\n.L_br_2_1:\n.L_if_end_2:\n"
    ]
    .concat();
    assert_eq!(out, program(body, "", ""));
}

#[test]
fn while_loops() {
    let (out, _) = compile("while i > 3 { while argc < i { print i } }");
    let body = &[
        ".L_wh_s_0:\n    mov rax, qword [rel i]\n    mov rbx, 3\n    cmp rax, rbx\n    jle .L_wh_e_0\n",
        ".L_wh_s_1:\n    mov rax, [rel argc_val]\n    mov rbx, qword [rel i]\n    cmp rax, rbx\n    jge .L_wh_e_1\n",
        "    mov rax, qword [rel i]\n    call _print_rax\n",
        "    jmp .L_wh_s_1\n.L_wh_e_1:\n",
        "    jmp .L_wh_s_0\n.L_wh_e_0:\n"
    ]
    .concat();
    assert_eq!(out, program(body, "", ""));
}

#[test]
fn generate_by_hand_built_tree() {
    let nodes = vec![Node::IfStatement {
        branches: vec![IfBranch { left: Term::ArgC, op: CompOp::Eq, right: Term::Number(2), block: vec![] }],
        else_block: vec![Node::PrintVar(var("z"), false)],
    }];
    let body = &[
        "    mov rax, [rel argc_val]\n    mov rbx, 2\n    cmp rax, rbx\n    jne .L_br_0_1\n",
        "    jmp .L_if_end_0\n.L_br_0_1:\n",
        "    mov rax, qword [rel z]\n    call _print_rax\n",
        ".L_if_end_0:\n"
    ]
    .concat();
    assert_eq!(Compiler::new(true).generate(nodes, true), module(body, "", ""));
}

#[test]
fn lex_errors_come_from_the_lexer() {
    assert!(matches!(
        compile_source("let x = 1 ! 2"),
        Err(CompileError::Lex(LexError::ExpectedEqualsAfterBang { line: 1 }))
    ));
}

#[test]
fn syntax_errors_come_from_the_parser() {
    match compile_source("if 1 < 2 { }\nwhile 2 3") {
        Err(CompileError::Syntax(m)) => assert_eq!(m, "Parser Error [Line 2]: Expected comparison operator"),
        _ => panic!("expected a syntax error"),
    }
}

#[test]
fn choosing_the_source_file() {
    let args: Vec<String> = ["jds", "-v", "prog.jds", "other.jds"].iter().map(|s| s.to_string()).collect();
    assert_eq!(source_file_index(&args), Some(2));
    let args: Vec<String> = ["jds", "prog.jd", ".jd"].iter().map(|s| s.to_string()).collect();
    assert_eq!(source_file_index(&args), None);
    let args: Vec<String> = ["x.jds"].iter().map(|s| s.to_string()).collect();
    assert_eq!(source_file_index(&args), Some(0));
}

#[test]
fn output_names_drop_every_source_suffix() {
    assert_eq!(output_name("prog.jds"), "prog");
    assert_eq!(output_name("a.jds.jds"), "a");
    assert_eq!(output_name(".jds"), "");
    assert_eq!(output_name("dir/x.jds2"), "dir/x.jds2");
    assert_eq!(output_name("ünï.jds"), "ünï");
}

#[test]
fn every_label_is_defined_once() {
    let src = "if 1 < 2 { print \"a\"\n while 1 < 2 { exit 0 } }\nif 1 < 2 { print \"b\" } else { print \"c\" }\nwhile 0 < 1 { exec \"m.bin\" }\n";
    let text = match compile_source(src) {
        Ok(c) => c.assembly,
        Err(_) => panic!("does not compile"),
    };
    for label in [
        "str_0 db", "str_1 db", "str_2 db", "file_3 db",
        ".L_if_end_0:", ".L_if_end_1:", ".L_wh_s_0:", ".L_wh_s_1:", ".L_wh_e_0:", ".L_wh_e_1:",
    ] {
        assert_eq!(text.matches(label).count(), 1, "{}", label);
    }
}
