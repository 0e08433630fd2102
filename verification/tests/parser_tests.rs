use lib::ast::{CompOp, Expression, MathOp, Node, Term};
use lib::lexer::{lex, Token};
use lib::parser::{ParseError, Parser};

fn parse(src: &str) -> (Result<Vec<Node>, String>, bool) {
    let tokens = lex(src);
    let mut p = Parser::new(&tokens);
    let r = p.parse_all();
    (r, p.is_module)
}

fn show(nodes: &[Node]) -> String {
    format!("{:?}", nodes)
}

#[test]
fn parses_declarations_and_prints() {
    let (r, module) = parse("let x = 1 + 2 * 3\nlet y\nprintln x\nprint \"hi\"\n");
    assert!(!module);
    let nodes = r.unwrap();
    assert_eq!(nodes.len(), 4);
    match &nodes[0] {
        Node::VarDeclaration(name, Some(Expression::Binary(l, MathOp::Add, r))) => {
            assert_eq!(name, "x");
            assert!(matches!(**l, Expression::Term(Term::Number(1))));
            assert!(matches!(
                **r,
                Expression::Binary(_, MathOp::Mul, _)
            ));
        }
        other => panic!("unexpected {:?}", other),
    }
    assert!(matches!(&nodes[1], Node::VarDeclaration(n, None) if n == "y"));
    assert!(matches!(&nodes[2], Node::PrintVar(Term::Variable(n), true) if n == "x"));
    assert!(matches!(&nodes[3], Node::PrintString(s, false) if s == "hi"));
}

#[test]
fn operators_group_to_the_left() {
    let (r, _) = parse("x = 10 - 4 - 3 / 2 % 5");
    let nodes = r.unwrap();
    assert_eq!(
        show(&nodes),
        "[Assignment(\"x\", Binary(Binary(Term(Number(10)), Sub, Term(Number(4))), Sub, Binary(Binary(Term(Number(3)), Div, Term(Number(2))), Mod, Term(Number(5)))))]"
    );
}

#[test]
fn argc_is_a_term_of_its_own() {
    let (r, _) = parse("exit argc");
    assert!(matches!(&r.unwrap()[0], Node::ExitStatement(Term::ArgC)));
}

#[test]
fn parses_if_elif_else() {
    let (r, _) = parse("if x == 1 {\n exit 0\n}\nelif x < 2 { exit 1 }\nelse { exit 2 }");
    let nodes = r.unwrap();
    assert_eq!(nodes.len(), 1);
    match &nodes[0] {
        Node::IfStatement { branches, else_block } => {
            assert_eq!(branches.len(), 2);
            assert!(matches!(branches[0].op, CompOp::Eq));
            assert!(matches!(branches[1].op, CompOp::Less));
            assert_eq!(branches[0].block.len(), 1);
            assert_eq!(else_block.len(), 1);
        }
        other => panic!("unexpected {:?}", other),
    }
}

#[test]
fn parses_while_input_exec_and_module() {
    let (r, module) = parse("module\ninput n; while n > 0 { n = n - 1 }\nexec \"lib.bin\"");
    assert!(module);
    let nodes = r.unwrap();
    assert_eq!(
        show(&nodes),
        "[InputStatement(\"n\"), WhileStatement(Variable(\"n\"), Greater, Number(0), [Assignment(\"n\", Binary(Term(Variable(\"n\")), Sub, Term(Number(1))))]), ExecStatement(\"lib.bin\")]"
    );
}

#[test]
fn a_word_that_starts_no_statement_ends_the_program() {
    let (r, _) = parse("let a = 1\nfoo\nlet b = 2");
    assert_eq!(r.unwrap().len(), 1);
    let (r, _) = parse("print 1 }\nlet b = 2");
    assert_eq!(r.unwrap().len(), 1);
}

#[test]
fn an_unclosed_block_ends_at_the_end() {
    let (r, _) = parse("while 1 < 2 {\nprint 1");
    let nodes = r.unwrap();
    assert_eq!(
        show(&nodes),
        "[WhileStatement(Number(1), Less, Number(2), [PrintVar(Number(1), false)])]"
    );
}

#[test]
fn empty_program() {
    let (r, module) = parse("\n;\n");
    assert_eq!(r.unwrap().len(), 0);
    assert!(!module);
}

#[test]
fn error_expected_term() {
    let (r, _) = parse("let x = 1 + \"s\\\"q\"");
    assert_eq!(
        r.unwrap_err(),
        "Parser Error [Line 1]: Expected number or variable, found Some(StringLiteral(\"s\\\"q\"))"
    );
    let (r, _) = parse("exit");
    assert_eq!(
        r.unwrap_err(),
        "Parser Error [Line 1]: Expected number or variable, found None"
    );
    let (r, _) = parse("\n\nprint +");
    assert_eq!(
        r.unwrap_err(),
        "Parser Error [Line 3]: Expected number or variable, found Some(Plus)"
    );
}

#[test]
fn error_expected_open_brace() {
    let (r, _) = parse("if x == 1\nexit 0");
    assert_eq!(r.unwrap_err(), "Parser Error [Line 1]: Expected '{'");
}

#[test]
fn error_expected_comparison() {
    let (r, _) = parse("while x + 1 { }");
    assert_eq!(r.unwrap_err(), "Parser Error [Line 1]: Expected comparison operator");
}

#[test]
fn error_expected_variable_name() {
    let (r, _) = parse("let 5");
    assert_eq!(r.unwrap_err(), "Parser Error [Line 1]: Expected variable name");
}

#[test]
fn error_exec_requires_string() {
    let (r, _) = parse("\nexec x");
    assert_eq!(r.unwrap_err(), "Parser Error [Line 2]: exec requires a string");
}

#[test]
fn error_expected_variable() {
    let (r, _) = parse("input 3");
    assert_eq!(r.unwrap_err(), "Parser Error [Line 1]: Expected variable");
}

#[test]
fn parse_error_messages_render_tokens() {
    let e = ParseError::ExpectedTerm { line: 7, found: Some(Token::Int(-42)) };
    assert_eq!(
        e.message(),
        "Parser Error [Line 7]: Expected number or variable, found Some(Int(-42))"
    );
    let e = ParseError::ExpectedTerm { line: 0, found: Some(Token::Identifier("a\tb".to_string())) };
    assert_eq!(
        e.message(),
        "Parser Error [Line 0]: Expected number or variable, found Some(Identifier(\"a\\tb\"))"
    );
    let e = ParseError::ExpectedTerm { line: 1, found: Some(Token::LBrace) };
    assert_eq!(
        e.message(),
        format!("Parser Error [Line 1]: Expected number or variable, found {:?}", Some(Token::LBrace))
    );
}

#[test]
fn a_program_asks_no_more_labels_than_it_has_tokens() {
    let src = "if a == 1 { print \"x\" } elif a == 2 { while a < 3 { exec \"m\" } } else { println \"y\" }";
    let tokens = lex(src);
    let mut p = Parser::new(&tokens);
    let nodes = p.parse_all().unwrap();
    fn count(ns: &[Node]) -> usize {
        ns.iter()
            .map(|n| match n {
                Node::PrintString(..) | Node::ExecStatement(..) => 1,
                Node::IfStatement { branches, else_block } => {
                    1 + branches.iter().map(|b| count(&b.block)).sum::<usize>() + count(else_block)
                }
                Node::WhileStatement(_, _, _, b) => 1 + count(b),
                _ => 0,
            })
            .sum()
    }
    assert_eq!(count(&nodes), 5);
    assert!(count(&nodes) <= tokens.len() + 1);
}

#[test]
fn node_clone_is_equal() {
    let (r, _) = parse("if a == 1 { let b = a * 2 } else { while b > 0 { b = b - 1 } }");
    let nodes = r.unwrap();
    let copy: Vec<Node> = nodes.iter().map(|n| n.clone()).collect();
    assert_eq!(show(&nodes), show(&copy));
}

#[test]
fn a_block_that_runs_off_the_end_then_the_program_ends() {
    let tokens = lex("if 1 < 2 {");
    let mut p = Parser::new(&tokens);
    let nodes = p.parse_all().unwrap();
    assert_eq!(
        show(&nodes),
        "[IfStatement { branches: [IfBranch { left: Number(1), op: Less, right: Number(2), block: [] }], else_block: [] }]"
    );
    let again = p.parse_all().unwrap();
    assert_eq!(again.len(), 0);
    assert!(!p.is_module);
}

#[test]
fn leading_separators_and_module_keywords_leave_the_statement() {
    let (plain, plain_module) = parse("print 1\n");
    let (led, led_module) = parse("\n;\nmodule\n;print 1\n");
    assert_eq!(show(&plain.unwrap()), show(&led.unwrap()));
    assert!(!plain_module);
    assert!(led_module);
    let (err_plain, _) = parse("exit");
    let (err_led, _) = parse(";\n\nexit");
    assert!(err_plain.is_err());
    assert!(err_led.is_err());
}
