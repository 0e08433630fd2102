use lib::lexer::{lex, try_lex, LexError, Token, TokenInfo};

fn tokens(src: &str) -> Vec<Token> {
    lex(src).into_iter().map(|t: TokenInfo| t.token).collect()
}

fn lines(src: &str) -> Vec<usize> {
    lex(src).into_iter().map(|t: TokenInfo| t.line).collect()
}

fn ident(s: &str) -> Token {
    Token::Identifier(s.to_string())
}

#[test]
fn lexes_a_declaration() {
    assert_eq!(
        tokens("let x = 5 + y"),
        vec![Token::Let, ident("x"), Token::Equals, Token::Int(5), Token::Plus, ident("y")]
    );
}

#[test]
fn lexes_every_keyword() {
    assert_eq!(
        tokens("let if elif else while exit print println input exec module true false"),
        vec![
            Token::Let,
            Token::If,
            Token::Elif,
            Token::Else,
            Token::While,
            Token::Exit,
            Token::Print,
            Token::Println,
            Token::Input,
            Token::Exec,
            Token::Module,
            Token::Int(1),
            Token::Int(0),
        ]
    );
}

#[test]
fn keywords_are_whole_words() {
    assert_eq!(tokens("lets iff elif2"), vec![ident("lets"), ident("iff"), ident("elif2")]);
    assert_eq!(
        try_lex("_x").err(),
        Some(LexError::UnknownCharacter { line: 1, ch: '_' })
    );
}

#[test]
fn lexes_operators() {
    assert_eq!(
        tokens("== != < <= > >= = + - * / % { } ;"),
        vec![
            Token::EqEq,
            Token::NotEq,
            Token::Less,
            Token::LessEq,
            Token::Greater,
            Token::GreaterEq,
            Token::Equals,
            Token::Plus,
            Token::Minus,
            Token::Star,
            Token::Slash,
            Token::Modulo,
            Token::LBrace,
            Token::RBrace,
            Token::Semicolon,
        ]
    );
}

#[test]
fn operators_without_spaces() {
    assert_eq!(
        tokens("a<=b==c"),
        vec![ident("a"), Token::LessEq, ident("b"), Token::EqEq, ident("c")]
    );
}

#[test]
fn comments_are_skipped_up_to_the_line_end() {
    assert_eq!(
        tokens("x // a comment = 5\ny"),
        vec![ident("x"), Token::Newline, ident("y")]
    );
    assert_eq!(tokens("// only a comment"), vec![]);
    assert_eq!(tokens("a / b"), vec![ident("a"), Token::Slash, ident("b")]);
}

#[test]
fn newlines_are_tokens_on_their_own_line() {
    let ts = lex("a\n\nb");
    let got: Vec<(Token, usize)> = ts.into_iter().map(|t| (t.token, t.line)).collect();
    assert_eq!(
        got,
        vec![
            (ident("a"), 1),
            (Token::Newline, 1),
            (Token::Newline, 2),
            (ident("b"), 3),
        ]
    );
}

#[test]
fn hexadecimal_literals() {
    assert_eq!(tokens("0x1F"), vec![Token::Int(31)]);
    assert_eq!(tokens("0xff"), vec![Token::Int(255)]);
    assert_eq!(tokens("0x7FFFFFFF"), vec![Token::Int(2147483647)]);
    assert_eq!(tokens("0x80000000"), vec![Token::Int(0)]);
    assert_eq!(tokens("0x"), vec![Token::Int(0)]);
    assert_eq!(tokens("0xg"), vec![Token::Int(0), ident("g")]);
}

#[test]
fn decimal_literals() {
    assert_eq!(tokens("0"), vec![Token::Int(0)]);
    assert_eq!(tokens("007"), vec![Token::Int(7)]);
    assert_eq!(tokens("2147483647"), vec![Token::Int(2147483647)]);
    assert_eq!(tokens("12ab"), vec![Token::Int(12), ident("ab")]);
}

#[test]
fn decimal_overflow_is_an_error() {
    assert_eq!(
        try_lex("x\n2147483648").err(),
        Some(LexError::IntegerOverflow { line: 2 })
    );
}

#[test]
fn string_literals_and_escapes() {
    assert_eq!(
        tokens("\"a\\nb\\tc\\\"d\\\\e\\qf\""),
        vec![Token::StringLiteral("a\nb\tc\"d\\e\\qf".to_string())]
    );
    assert_eq!(tokens("\"\""), vec![Token::StringLiteral(String::new())]);
}

#[test]
fn unterminated_string_runs_to_the_end() {
    assert_eq!(tokens("\"abc"), vec![Token::StringLiteral("abc".to_string())]);
    assert_eq!(tokens("\"ab\\"), vec![Token::StringLiteral("ab\\".to_string())]);
}

#[test]
fn a_string_token_is_on_the_line_where_it_ends() {
    let ts = lex("\"a\nb\" x");
    let got: Vec<(Token, usize)> = ts.into_iter().map(|t| (t.token, t.line)).collect();
    assert_eq!(
        got,
        vec![(Token::StringLiteral("a\nb".to_string()), 2), (ident("x"), 2)]
    );
}

#[test]
fn unknown_character_is_an_error() {
    assert_eq!(
        try_lex("let x = 1\n@").err(),
        Some(LexError::UnknownCharacter { line: 2, ch: '@' })
    );
}

#[test]
fn bang_without_equals_is_an_error() {
    assert_eq!(
        try_lex("a ! b").err(),
        Some(LexError::ExpectedEqualsAfterBang { line: 1 })
    );
}

#[test]
fn lex_error_messages() {
    assert_eq!(
        LexError::ExpectedEqualsAfterBang { line: 3 }.message(),
        "Lexer Error [Line 3]: Expected '=' after '!'"
    );
    assert_eq!(
        LexError::UnknownCharacter { line: 12, ch: '$' }.message(),
        "Lexer Error [Line 12]: Unknown character: '$'"
    );
    assert_eq!(
        LexError::IntegerOverflow { line: 1 }.message(),
        "called `Result::unwrap()` on an `Err` value: ParseIntError { kind: PosOverflow }"
    );
}

#[test]
fn unicode_whitespace_is_skipped() {
    assert_eq!(tokens("a\t\u{A0}\u{2003}b\r"), vec![ident("a"), ident("b")]);
}

#[test]
fn unicode_letters_make_identifiers() {
    assert_eq!(tokens("змінна = 1"), vec![ident("змінна"), Token::Equals, Token::Int(1)]);
    assert_eq!(tokens("x1_y2"), vec![ident("x1_y2")]);
    assert_eq!(tokens("ab²"), vec![ident("ab²")]);
}

#[test]
fn at_most_one_token_per_character() {
    for src in ["a+b", "if x==1{exit 0}", "\n\n\n", "0x12 34", "\"s\";"] {
        assert!(lex(src).len() <= src.chars().count());
    }
}

#[test]
fn lines_never_go_back() {
    let ls = lines("let a = 1\n\"x\ny\" b\n// c\nd");
    assert!(ls.iter().all(|&l| l >= 1));
    assert!(ls.windows(2).all(|w| w[0] <= w[1]));
    assert_eq!(*ls.last().unwrap(), 5);
}

#[test]
fn token_clone_keeps_the_token() {
    let t = lex("name")[0].clone();
    assert_eq!(t.token, ident("name"));
    assert_eq!(t.line, 1);
}

#[test]
fn every_unicode_space_is_skipped() {
    let spaces = "\u{9}\u{B}\u{C}\u{20}\u{85}\u{A0}\u{1680}\u{2000}\u{200A}\u{2028}\u{2029}\u{202F}\u{205F}\u{3000}";
    assert_eq!(tokens(spaces), Vec::<Token>::new());
    assert_eq!(tokens(" "), Vec::<Token>::new());
}

#[test]
fn a_non_space_format_character_is_unknown() {
    assert_eq!(
        try_lex("\u{200B}").unwrap_err(),
        LexError::UnknownCharacter { line: 1, ch: '\u{200B}' }
    );
}

#[test]
fn ascii_classes_of_word_characters() {
    assert_eq!(
        try_lex("_a").unwrap_err(),
        LexError::UnknownCharacter { line: 1, ch: '_' }
    );
    assert_eq!(tokens("a_9 Z"), vec![ident("a_9"), ident("Z")]);
    assert_eq!(tokens("9a"), vec![Token::Int(9), ident("a")]);
}

#[test]
fn joined_texts_lex_as_their_parts() {
    let a = "let x = \"a\nb\" // note\nprint x";
    let b = "x = 2\nexit x";
    let joined = format!("{} {}", a, b);
    let la = lex(a);
    let lb = lex(b);
    let k = a.chars().filter(|c| *c == '\n').count();
    let mut expected: Vec<(Token, usize)> = la.iter().map(|t| (t.token.clone(), t.line)).collect();
    expected.extend(lb.iter().map(|t| (t.token.clone(), t.line + k)));
    let got: Vec<(Token, usize)> = lex(&joined).iter().map(|t| (t.token.clone(), t.line)).collect();
    assert_eq!(got, expected);
}
