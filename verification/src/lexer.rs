//! The lexer: from source text to tokens, each with the line it ends on.

use vstd::prelude::*;

use crate::text::{chars_of, decimal, push_usize, spells};

verus! {

broadcast use vstd::string::group_string_axioms;

/// A token of JDS.
#[derive(Debug, PartialEq)]
pub enum Token {
    Let,
    If,
    Elif,
    Else,
    While,
    Exit,
    Print,
    Println,
    Input,
    Exec,
    Module,
    Identifier(String),
    Int(i32),
    StringLiteral(String),
    Equals,
    EqEq,
    NotEq,
    Less,
    LessEq,
    Greater,
    GreaterEq,
    Plus,
    Minus,
    Star,
    Slash,
    Modulo,
    LBrace,
    RBrace,
    Newline,
    Semicolon,
}

/// A token and the line it was read on.
#[derive(Debug)]
pub struct TokenInfo {
    pub token: Token,
    pub line: usize,
}

/// Model of a [`Token`]: names and string contents as character sequences.
pub enum SpecToken {
    Let,
    If,
    Elif,
    Else,
    While,
    Exit,
    Print,
    Println,
    Input,
    Exec,
    Module,
    Identifier(Seq<char>),
    Int(i32),
    StringLiteral(Seq<char>),
    Equals,
    EqEq,
    NotEq,
    Less,
    LessEq,
    Greater,
    GreaterEq,
    Plus,
    Minus,
    Star,
    Slash,
    Modulo,
    LBrace,
    RBrace,
    Newline,
    Semicolon,
}

/// Model of a [`TokenInfo`].
pub struct SpecTokenInfo {
    pub token: SpecToken,
    pub line: nat,
}

impl View for Token {
    type V = SpecToken;

    open spec fn view(&self) -> SpecToken {
        match self {
            Token::Let => SpecToken::Let,
            Token::If => SpecToken::If,
            Token::Elif => SpecToken::Elif,
            Token::Else => SpecToken::Else,
            Token::While => SpecToken::While,
            Token::Exit => SpecToken::Exit,
            Token::Print => SpecToken::Print,
            Token::Println => SpecToken::Println,
            Token::Input => SpecToken::Input,
            Token::Exec => SpecToken::Exec,
            Token::Module => SpecToken::Module,
            Token::Identifier(s) => SpecToken::Identifier(s@),
            Token::Int(v) => SpecToken::Int(*v),
            Token::StringLiteral(s) => SpecToken::StringLiteral(s@),
            Token::Equals => SpecToken::Equals,
            Token::EqEq => SpecToken::EqEq,
            Token::NotEq => SpecToken::NotEq,
            Token::Less => SpecToken::Less,
            Token::LessEq => SpecToken::LessEq,
            Token::Greater => SpecToken::Greater,
            Token::GreaterEq => SpecToken::GreaterEq,
            Token::Plus => SpecToken::Plus,
            Token::Minus => SpecToken::Minus,
            Token::Star => SpecToken::Star,
            Token::Slash => SpecToken::Slash,
            Token::Modulo => SpecToken::Modulo,
            Token::LBrace => SpecToken::LBrace,
            Token::RBrace => SpecToken::RBrace,
            Token::Newline => SpecToken::Newline,
            Token::Semicolon => SpecToken::Semicolon,
        }
    }
}

impl View for TokenInfo {
    type V = SpecTokenInfo;

    open spec fn view(&self) -> SpecTokenInfo {
        SpecTokenInfo { token: self.token@, line: self.line as nat }
    }
}

impl Clone for Token {
    fn clone(&self) -> (r: Self)
        ensures
            r@ == self@,
    {
        match self {
            Token::Let => Token::Let,
            Token::If => Token::If,
            Token::Elif => Token::Elif,
            Token::Else => Token::Else,
            Token::While => Token::While,
            Token::Exit => Token::Exit,
            Token::Print => Token::Print,
            Token::Println => Token::Println,
            Token::Input => Token::Input,
            Token::Exec => Token::Exec,
            Token::Module => Token::Module,
            Token::Identifier(s) => Token::Identifier(s.clone()),
            Token::Int(v) => Token::Int(*v),
            Token::StringLiteral(s) => Token::StringLiteral(s.clone()),
            Token::Equals => Token::Equals,
            Token::EqEq => Token::EqEq,
            Token::NotEq => Token::NotEq,
            Token::Less => Token::Less,
            Token::LessEq => Token::LessEq,
            Token::Greater => Token::Greater,
            Token::GreaterEq => Token::GreaterEq,
            Token::Plus => Token::Plus,
            Token::Minus => Token::Minus,
            Token::Star => Token::Star,
            Token::Slash => Token::Slash,
            Token::Modulo => Token::Modulo,
            Token::LBrace => Token::LBrace,
            Token::RBrace => Token::RBrace,
            Token::Newline => Token::Newline,
            Token::Semicolon => Token::Semicolon,
        }
    }
}

impl Clone for TokenInfo {
    fn clone(&self) -> (r: Self)
        ensures
            r@ == self@,
    {
        TokenInfo { token: self.token.clone(), line: self.line }
    }
}

/// The models of a sequence of tokens.
pub open spec fn tokens_view(ts: Seq<TokenInfo>) -> Seq<SpecTokenInfo> {
    ts.map_values(|t: TokenInfo| t@)
}

/// Why a source text cannot be lexed.
#[derive(Debug, Clone, PartialEq, Eq)]
pub enum LexError {
    /// A `!` that is not followed by `=`.
    ExpectedEqualsAfterBang { line: usize },
    /// A character that starts no token.
    UnknownCharacter { line: usize, ch: char },
    /// A decimal literal above `i32::MAX`.
    IntegerOverflow { line: usize },
}

/// Whether a character has Unicode's `White_Space` property: tab, line feed,
/// vertical tab, form feed, carriage return, space, next line, no-break
/// space, ogham space mark, the spaces U+2000 to U+200A, line and paragraph
/// separator, narrow no-break space, medium mathematical space and
/// ideographic space.
pub open spec fn is_whitespace_char(c: char) -> bool {
    let u = c as u32;
    ||| 0x09 <= u <= 0x0D
    ||| u == 0x20
    ||| u == 0x85
    ||| u == 0xA0
    ||| u == 0x1680
    ||| 0x2000 <= u <= 0x200A
    ||| u == 0x2028
    ||| u == 0x2029
    ||| u == 0x202F
    ||| u == 0x205F
    ||| u == 0x3000
}

/// An ASCII letter.
pub open spec fn is_ascii_letter(c: char) -> bool {
    ('a' <= c && c <= 'z') || ('A' <= c && c <= 'Z')
}

/// Whether a character beyond ASCII has Unicode's `Alphabetic` property.
pub uninterp spec fn is_alphabetic_char(c: char) -> bool;

/// Whether a character beyond ASCII is alphabetic or numeric in Unicode's
/// sense.
pub uninterp spec fn is_alphanumeric_char(c: char) -> bool;

/// Whether a character has Unicode's `Alphabetic` property: among ASCII
/// characters, the letters.
pub open spec fn alphabetic_char(c: char) -> bool {
    if (c as u32) < 128 {
        is_ascii_letter(c)
    } else {
        is_alphabetic_char(c)
    }
}

/// Whether a character is alphabetic or numeric in Unicode's sense: among
/// ASCII characters, the letters and the digits.
pub open spec fn alphanumeric_char(c: char) -> bool {
    if (c as u32) < 128 {
        is_ascii_letter(c) || ('0' <= c && c <= '9')
    } else {
        is_alphanumeric_char(c)
    }
}

/// `char::is_whitespace`. Claimed: the result is whether the character has
/// Unicode's `White_Space` property, the set written out in
/// [`is_whitespace_char`].
#[verifier::external_body]
fn is_whitespace(c: char) -> (r: bool)
    ensures
        r == is_whitespace_char(c),
{
    c.is_whitespace()
}

/// `char::is_alphabetic`. Claimed: the result is whether the character has
/// Unicode's `Alphabetic` property, which among ASCII characters the letters
/// have; beyond ASCII it is the named property, whose table is left unsaid.
#[verifier::external_body]
fn is_alphabetic(c: char) -> (r: bool)
    ensures
        r == alphabetic_char(c),
        (c as u32) >= 128 ==> r == is_alphabetic_char(c),
{
    c.is_alphabetic()
}

/// `char::is_alphanumeric`. Claimed: the result is whether the character is
/// alphabetic or numeric, which among ASCII characters the letters and the
/// digits are; beyond ASCII it is the named property, whose table is left
/// unsaid, and which, as std documents, every alphabetic character has.
#[verifier::external_body]
fn is_alphanumeric(c: char) -> (r: bool)
    ensures
        r == alphanumeric_char(c),
        (c as u32) >= 128 ==> r == is_alphanumeric_char(c),
        alphabetic_char(c) ==> r,
{
    c.is_alphanumeric()
}

/// An ASCII decimal digit.
pub open spec fn is_decimal_digit(c: char) -> bool {
    '0' <= c && c <= '9'
}

/// An ASCII hexadecimal digit, in either case.
pub open spec fn is_hex_digit(c: char) -> bool {
    is_decimal_digit(c) || ('a' <= c && c <= 'f') || ('A' <= c && c <= 'F')
}

/// The value of a hexadecimal (or decimal) digit.
pub open spec fn digit_value(c: char) -> nat {
    if is_decimal_digit(c) {
        (c as int - 48) as nat
    } else if 'a' <= c && c <= 'f' {
        (c as int - 87) as nat
    } else {
        (c as int - 55) as nat
    }
}

/// The value of a digit string in the given base.
pub open spec fn digits_value(ds: Seq<char>, base: nat) -> nat
    decreases ds.len(),
{
    if ds.len() == 0 {
        0
    } else {
        digits_value(ds.drop_last(), base) * base + digit_value(ds.last())
    }
}

/// The value of a `0x` literal's digits: `0` when there are none or when
/// they exceed `i32::MAX`.
pub open spec fn hex_literal(ds: Seq<char>) -> i32 {
    if ds.len() == 0 || digits_value(ds, 16) > i32::MAX {
        0
    } else {
        digits_value(ds, 16) as i32
    }
}

/// The classes of characters that the lexer reads runs of.
pub enum CharClass {
    /// Letters, digits and `_`: the rest of an identifier.
    Word,
    /// `0`..`9`.
    Decimal,
    /// Hexadecimal digits.
    Hex,
    /// Anything but a line feed: the rest of a comment.
    NotNewline,
}

pub open spec fn in_class(c: char, k: CharClass) -> bool {
    match k {
        CharClass::Word => alphanumeric_char(c) || c == '_',
        CharClass::Decimal => is_decimal_digit(c),
        CharClass::Hex => is_hex_digit(c),
        CharClass::NotNewline => c != '\n',
    }
}

/// Where the run of characters of class `k` that starts at `j` ends.
pub open spec fn run_end(s: Seq<char>, j: int, k: CharClass) -> int
    decreases s.len() - j,
{
    if j < 0 || j >= s.len() || !in_class(s[j], k) {
        j
    } else {
        run_end(s, j + 1, k)
    }
}

/// Whether position `j` holds the character `c`.
pub open spec fn char_at_is(s: Seq<char>, j: int, c: char) -> bool {
    0 <= j < s.len() && s[j] == c
}

/// The token that a word stands for: a keyword, `true`/`false` as `1`/`0`,
/// or an identifier.
pub open spec fn word_token(w: Seq<char>) -> SpecToken {
    if w == "let"@ {
        SpecToken::Let
    } else if w == "if"@ {
        SpecToken::If
    } else if w == "elif"@ {
        SpecToken::Elif
    } else if w == "else"@ {
        SpecToken::Else
    } else if w == "while"@ {
        SpecToken::While
    } else if w == "exit"@ {
        SpecToken::Exit
    } else if w == "print"@ {
        SpecToken::Print
    } else if w == "println"@ {
        SpecToken::Println
    } else if w == "input"@ {
        SpecToken::Input
    } else if w == "exec"@ {
        SpecToken::Exec
    } else if w == "module"@ {
        SpecToken::Module
    } else if w == "true"@ {
        SpecToken::Int(1)
    } else if w == "false"@ {
        SpecToken::Int(0)
    } else {
        SpecToken::Identifier(w)
    }
}

/// Where a string literal's body ends, the line reached, and its contents.
pub struct StrScan {
    pub end: int,
    pub line: nat,
    pub text: Seq<char>,
}

/// Reads a string literal's body from `j` (just after the opening quote) with
/// `acc` read so far: up to and past the closing quote, or to the end of the
/// source. `\n`, `\t`, `\"` and `\\` are escapes; a backslash before anything
/// else stands for itself. Line feeds inside the literal count as lines.
pub open spec fn string_scan(s: Seq<char>, j: int, line: nat, acc: Seq<char>) -> StrScan
    decreases s.len() - j,
{
    if j < 0 || j >= s.len() {
        StrScan { end: j, line, text: acc }
    } else if s[j] == '"' {
        StrScan { end: j + 1, line, text: acc }
    } else if s[j] == '\\' {
        if char_at_is(s, j + 1, 'n') {
            string_scan(s, j + 2, line, acc.push('\n'))
        } else if char_at_is(s, j + 1, 't') {
            string_scan(s, j + 2, line, acc.push('\t'))
        } else if char_at_is(s, j + 1, '"') {
            string_scan(s, j + 2, line, acc.push('"'))
        } else if char_at_is(s, j + 1, '\\') {
            string_scan(s, j + 2, line, acc.push('\\'))
        } else {
            string_scan(s, j + 1, line, acc.push('\\'))
        }
    } else if s[j] == '\n' {
        string_scan(s, j + 1, line + 1, acc.push('\n'))
    } else {
        string_scan(s, j + 1, line, acc.push(s[j]))
    }
}

/// What the lexer does at one position.
pub enum LexStep {
    /// Nothing to emit (blank or comment); go on at `next` on line `line`.
    Skip { next: int, line: nat },
    /// Emit `token`; go on at `next` on line `line`.
    Emit { token: SpecTokenInfo, next: int, line: nat },
    /// The source cannot be lexed.
    Fail(LexError),
}

pub open spec fn at_line(t: SpecToken, line: nat) -> SpecTokenInfo {
    SpecTokenInfo { token: t, line }
}

/// A one- or two-character operator: `two` when `second` follows, else `one`.
pub open spec fn operator_step(
    s: Seq<char>,
    i: int,
    line: nat,
    second: char,
    one: SpecToken,
    two: SpecToken,
) -> LexStep {
    if char_at_is(s, i + 1, second) {
        LexStep::Emit { token: at_line(two, line), next: i + 2, line }
    } else {
        LexStep::Emit { token: at_line(one, line), next: i + 1, line }
    }
}

/// What the lexer does at position `i` on line `line`, by the character there.
pub open spec fn lex_step(s: Seq<char>, i: int, line: nat) -> LexStep {
    let c = s[i];
    let single = |t: SpecToken| LexStep::Emit { token: at_line(t, line), next: i + 1, line };
    if c == '\n' {
        LexStep::Emit { token: at_line(SpecToken::Newline, line), next: i + 1, line: line + 1 }
    } else if is_whitespace_char(c) {
        LexStep::Skip { next: i + 1, line }
    } else if c == '/' {
        if char_at_is(s, i + 1, '/') {
            LexStep::Skip { next: run_end(s, i + 1, CharClass::NotNewline), line }
        } else {
            single(SpecToken::Slash)
        }
    } else if c == '+' {
        single(SpecToken::Plus)
    } else if c == '-' {
        single(SpecToken::Minus)
    } else if c == '*' {
        single(SpecToken::Star)
    } else if c == '%' {
        single(SpecToken::Modulo)
    } else if c == '{' {
        single(SpecToken::LBrace)
    } else if c == '}' {
        single(SpecToken::RBrace)
    } else if c == '<' {
        operator_step(s, i, line, '=', SpecToken::Less, SpecToken::LessEq)
    } else if c == '>' {
        operator_step(s, i, line, '=', SpecToken::Greater, SpecToken::GreaterEq)
    } else if c == '=' {
        operator_step(s, i, line, '=', SpecToken::Equals, SpecToken::EqEq)
    } else if c == '!' {
        if char_at_is(s, i + 1, '=') {
            LexStep::Emit { token: at_line(SpecToken::NotEq, line), next: i + 2, line }
        } else {
            LexStep::Fail(LexError::ExpectedEqualsAfterBang { line: line as usize })
        }
    } else if alphabetic_char(c) {
        let e = run_end(s, i + 1, CharClass::Word);
        LexStep::Emit { token: at_line(word_token(s.subrange(i, e)), line), next: e, line }
    } else if is_decimal_digit(c) {
        if c == '0' && char_at_is(s, i + 1, 'x') {
            let e = run_end(s, i + 2, CharClass::Hex);
            LexStep::Emit {
                token: at_line(SpecToken::Int(hex_literal(s.subrange(i + 2, e))), line),
                next: e,
                line,
            }
        } else {
            let e = run_end(s, i + 1, CharClass::Decimal);
            let v = digits_value(s.subrange(i, e), 10);
            if v > i32::MAX {
                LexStep::Fail(LexError::IntegerOverflow { line: line as usize })
            } else {
                LexStep::Emit { token: at_line(SpecToken::Int(v as i32), line), next: e, line }
            }
        }
    } else if c == '"' {
        let r = string_scan(s, i + 1, line, seq![]);
        LexStep::Emit {
            token: at_line(SpecToken::StringLiteral(r.text), r.line),
            next: r.end,
            line: r.line,
        }
    } else if c == ';' {
        single(SpecToken::Semicolon)
    } else {
        LexStep::Fail(LexError::UnknownCharacter { line: line as usize, ch: c })
    }
}

/// The tokens of `s` from position `i` on line `line`, after those in `acc`;
/// or the first reason the rest cannot be lexed.
pub open spec fn lex_from(s: Seq<char>, i: int, line: nat, acc: Seq<SpecTokenInfo>) -> Result<
    Seq<SpecTokenInfo>,
    LexError,
>
    decreases s.len() - i,
{
    if i < 0 || i >= s.len() {
        Ok(acc)
    } else {
        proof {
            lemma_step_advances(s, i, line);
        }
        match lex_step(s, i, line) {
            LexStep::Skip { next, line: l } => lex_from(s, next, l, acc),
            LexStep::Emit { token, next, line: l } => lex_from(s, next, l, acc.push(token)),
            LexStep::Fail(e) => Err(e),
        }
    }
}

/// The tokens of a source text, lines counted from 1; or why it cannot be
/// lexed.
pub open spec fn lex_spec(s: Seq<char>) -> Result<Seq<SpecTokenInfo>, LexError> {
    lex_from(s, 0, 1, seq![])
}

/// A run of characters of one class ends at or after its start and inside
/// the text; every character before its end is of the class, and the one at
/// its end (if any) is not.
pub proof fn lemma_run_end(s: Seq<char>, j: int, k: CharClass)
    requires
        0 <= j <= s.len(),
    ensures
        j <= run_end(s, j, k) <= s.len(),
        forall|m: int| j <= m < run_end(s, j, k) ==> in_class(#[trigger] s[m], k),
        run_end(s, j, k) < s.len() ==> !in_class(s[run_end(s, j, k)], k),
    decreases s.len() - j,
{
    if j < s.len() && in_class(s[j], k) {
        lemma_run_end(s, j + 1, k);
    }
}

/// A string literal's body ends inside the text, and its lines grow by at
/// most one per character read.
pub proof fn lemma_string_scan(s: Seq<char>, j: int, line: nat, acc: Seq<char>)
    requires
        0 <= j <= s.len(),
    ensures
        j <= string_scan(s, j, line, acc).end <= s.len(),
        line <= string_scan(s, j, line, acc).line <= line + (string_scan(s, j, line, acc).end - j),
    decreases s.len() - j,
{
    if j < s.len() && s[j] != '"' {
        if s[j] == '\\' {
            if char_at_is(s, j + 1, 'n') {
                lemma_string_scan(s, j + 2, line, acc.push('\n'));
            } else if char_at_is(s, j + 1, 't') {
                lemma_string_scan(s, j + 2, line, acc.push('\t'));
            } else if char_at_is(s, j + 1, '"') {
                lemma_string_scan(s, j + 2, line, acc.push('"'));
            } else if char_at_is(s, j + 1, '\\') {
                lemma_string_scan(s, j + 2, line, acc.push('\\'));
            } else {
                lemma_string_scan(s, j + 1, line, acc.push('\\'));
            }
        } else if s[j] == '\n' {
            lemma_string_scan(s, j + 1, line + 1, acc.push('\n'));
        } else {
            lemma_string_scan(s, j + 1, line, acc.push(s[j]));
        }
    }
}

/// Each step of the lexer moves forward, stays inside the text, and counts
/// at most one line per character it reads; an emitted token's line is the
/// line reached.
pub proof fn lemma_step_advances(s: Seq<char>, i: int, line: nat)
    requires
        0 <= i < s.len(),
    ensures
        match lex_step(s, i, line) {
            LexStep::Skip { next, line: l } => i < next <= s.len() && line <= l <= line + (next - i),
            LexStep::Emit { token, next, line: l } => {
                &&& i < next <= s.len()
                &&& line <= l <= line + (next - i)
                &&& line <= token.line <= l
            },
            LexStep::Fail(_) => true,
        },
{
    if i + 1 <= s.len() {
        lemma_run_end(s, i + 1, CharClass::NotNewline);
        lemma_run_end(s, i + 1, CharClass::Word);
        lemma_run_end(s, i + 1, CharClass::Decimal);
        lemma_string_scan(s, i + 1, line, seq![]);
    }
    if i + 2 <= s.len() {
        lemma_run_end(s, i + 2, CharClass::Hex);
    }
}

/// Lexing emits at most one token per character.
pub proof fn lemma_lex_length(s: Seq<char>, i: int, line: nat, acc: Seq<SpecTokenInfo>)
    requires
        0 <= i <= s.len(),
    ensures
        lex_from(s, i, line, acc) matches Ok(ts) ==> ts.len() <= acc.len() + (s.len() - i),
    decreases s.len() - i,
{
    if i < s.len() {
        lemma_step_advances(s, i, line);
        match lex_step(s, i, line) {
            LexStep::Skip { next, line: l } => lemma_lex_length(s, next, l, acc),
            LexStep::Emit { token, next, line: l } => lemma_lex_length(s, next, l, acc.push(token)),
            LexStep::Fail(_) => {},
        }
    }
}

/// The message the lexer's error stands for.
pub open spec fn lex_error_text(e: LexError) -> Seq<char> {
    match e {
        LexError::ExpectedEqualsAfterBang { line } => "Lexer Error [Line "@ + decimal(line as nat)
            + "]: Expected '=' after '!'"@,
        LexError::UnknownCharacter { line, ch } => "Lexer Error [Line "@ + decimal(line as nat)
            + "]: Unknown character: '"@ + seq![ch] + "'"@,
        LexError::IntegerOverflow { .. } => "called `Result::unwrap()` on an `Err` value: ParseIntError { kind: PosOverflow }"@,
    }
}

impl LexError {
    /// The error as a message.
    pub fn message(&self) -> (m: String)
        ensures
            m@ == lex_error_text(*self),
    {
        let mut m = String::new();
        match self {
            LexError::ExpectedEqualsAfterBang { line } => {
                m.append("Lexer Error [Line ");
                push_usize(&mut m, *line);
                m.append("]: Expected '=' after '!'");
            },
            LexError::UnknownCharacter { line, ch } => {
                m.append("Lexer Error [Line ");
                push_usize(&mut m, *line);
                m.append("]: Unknown character: '");
                m.push(*ch);
                m.append("'");
            },
            LexError::IntegerOverflow { .. } => {
                m.append(
                    "called `Result::unwrap()` on an `Err` value: ParseIntError { kind: PosOverflow }",
                );
            },
        }
        assert(m@ =~= lex_error_text(*self));
        m
    }
}

fn in_class_exec(c: char, k: &CharClass) -> (r: bool)
    ensures
        r == in_class(c, *k),
{
    match k {
        CharClass::Word => is_alphanumeric(c) || c == '_',
        CharClass::Decimal => '0' <= c && c <= '9',
        CharClass::Hex => ('0' <= c && c <= '9') || ('a' <= c && c <= 'f') || ('A' <= c && c <= 'F'),
        CharClass::NotNewline => c != '\n',
    }
}

/// Where the run of characters of class `k` from `j` ends.
fn scan_run(s: &Vec<char>, j: usize, k: &CharClass) -> (e: usize)
    requires
        j <= s@.len(),
    ensures
        e == run_end(s@, j as int, *k),
{
    let mut e = j;
    loop
        invariant
            j <= e <= s@.len(),
            run_end(s@, e as int, *k) == run_end(s@, j as int, *k),
        decreases s@.len() - e,
    {
        if e >= s.len() {
            return e;
        }
        if !in_class_exec(s[e], k) {
            return e;
        }
        e = e + 1;
    }
}

/// The token that the word `s[i..e]` stands for.
fn word_token_exec(s: &Vec<char>, i: usize, e: usize) -> (t: Token)
    requires
        i <= e <= s@.len(),
    ensures
        t@ == word_token(s@.subrange(i as int, e as int)),
{
    if spells(s, i, e, "let") {
        Token::Let
    } else if spells(s, i, e, "if") {
        Token::If
    } else if spells(s, i, e, "elif") {
        Token::Elif
    } else if spells(s, i, e, "else") {
        Token::Else
    } else if spells(s, i, e, "while") {
        Token::While
    } else if spells(s, i, e, "exit") {
        Token::Exit
    } else if spells(s, i, e, "print") {
        Token::Print
    } else if spells(s, i, e, "println") {
        Token::Println
    } else if spells(s, i, e, "input") {
        Token::Input
    } else if spells(s, i, e, "exec") {
        Token::Exec
    } else if spells(s, i, e, "module") {
        Token::Module
    } else if spells(s, i, e, "true") {
        Token::Int(1)
    } else if spells(s, i, e, "false") {
        Token::Int(0)
    } else {
        let mut name = String::new();
        let mut k = i;
        while k < e
            invariant
                i <= k <= e,
                e <= s@.len(),
                name@ == s@.subrange(i as int, k as int),
            decreases e - k,
        {
            name.push(s[k]);
            k = k + 1;
            assert(name@ =~= s@.subrange(i as int, k as int));
        }
        Token::Identifier(name)
    }
}

/// The value of the digits `s[i..e]` in base 10 or 16, or `None` when it
/// exceeds `i32::MAX`.
fn digits_literal(s: &Vec<char>, i: usize, e: usize, hex: bool) -> (r: Option<i32>)
    requires
        i <= e <= s@.len(),
        forall|m: int|
            i <= m < e ==> in_class(#[trigger] s@[m], if hex {
                CharClass::Hex
            } else {
                CharClass::Decimal
            }),
    ensures
        ({
            let v = digits_value(s@.subrange(i as int, e as int), if hex { 16 } else { 10 });
            match r {
                Some(x) => v <= i32::MAX && x as int == v,
                None => v > i32::MAX,
            }
        }),
{
    let ghost base: nat = if hex {
        16
    } else {
        10
    };
    let mut acc: u64 = 0;
    let mut over = false;
    let mut k = i;
    assert(s@.subrange(i as int, i as int) =~= Seq::<char>::empty());
    while k < e
        invariant
            i <= k <= e,
            e <= s@.len(),
            base == if hex { 16nat } else { 10nat },
            forall|m: int|
                i <= m < e ==> in_class(#[trigger] s@[m], if hex {
                    CharClass::Hex
                } else {
                    CharClass::Decimal
                }),
            over ==> digits_value(s@.subrange(i as int, k as int), base) > i32::MAX,
            !over ==> acc == digits_value(s@.subrange(i as int, k as int), base) && acc
                <= i32::MAX,
        decreases e - k,
    {
        let c = s[k];
        assert(in_class(s@[k as int], if hex {
            CharClass::Hex
        } else {
            CharClass::Decimal
        }));
        let d: u64 = if '0' <= c && c <= '9' {
            (c as u32 - 48) as u64
        } else if 'a' <= c && c <= 'f' {
            (c as u32 - 87) as u64
        } else {
            (c as u32 - 55) as u64
        };
        assert(d == digit_value(c));
        let ghost prev = digits_value(s@.subrange(i as int, k as int), base);
        proof {
            let t = s@.subrange(i as int, k as int + 1);
            assert(t.drop_last() =~= s@.subrange(i as int, k as int));
            assert(t.last() == c);
            assert(digits_value(t, base) == prev * base + d);
        }
        if !over {
            let next: u64 = if hex {
                acc * 16 + d
            } else {
                acc * 10 + d
            };
            if next > 2147483647 {
                over = true;
            } else {
                acc = next;
            }
        }
        k = k + 1;
    }
    if over {
        None
    } else {
        Some(acc as i32)
    }
}

/// Reads a string literal's body from `j0`, just after its opening quote.
fn scan_string(s: &Vec<char>, j0: usize, line0: usize) -> (r: (usize, usize, String))
    requires
        j0 <= s@.len(),
        line0 <= j0,
    ensures
        r.0 == string_scan(s@, j0 as int, line0 as nat, seq![]).end,
        r.1 == string_scan(s@, j0 as int, line0 as nat, seq![]).line,
        r.2@ == string_scan(s@, j0 as int, line0 as nat, seq![]).text,
{
    let mut j = j0;
    let mut line = line0;
    let mut text = String::new();
    let n = s.len();
    loop
        invariant
            n == s@.len(),
            j0 <= j <= n,
            line <= j,
            string_scan(s@, j as int, line as nat, text@) == string_scan(
                s@,
                j0 as int,
                line0 as nat,
                seq![],
            ),
        decreases n - j,
    {
        if j >= n {
            return (j, line, text);
        }
        let c = s[j];
        if c == '"' {
            return (j + 1, line, text);
        }
        if c == '\\' {
            if j + 1 < n && s[j + 1] == 'n' {
                text.push('\n');
                j = j + 2;
            } else if j + 1 < n && s[j + 1] == 't' {
                text.push('\t');
                j = j + 2;
            } else if j + 1 < n && s[j + 1] == '"' {
                text.push('"');
                j = j + 2;
            } else if j + 1 < n && s[j + 1] == '\\' {
                text.push('\\');
                j = j + 2;
            } else {
                text.push('\\');
                j = j + 1;
            }
        } else if c == '\n' {
            line = line + 1;
            text.push('\n');
            j = j + 1;
        } else {
            text.push(c);
            j = j + 1;
        }
    }
}

/// What the lexer does at one position, as it runs.
enum Step {
    Skip { next: usize, line: usize },
    Emit { token: TokenInfo, next: usize, line: usize },
    Fail(LexError),
}

spec fn step_is(r: Step, st: LexStep) -> bool {
    match st {
        LexStep::Skip { next, line } => r matches Step::Skip { next: n, line: l } && n == next
            && l == line,
        LexStep::Emit { token, next, line } => r matches Step::Emit { token: t, next: n, line: l }
            && t@ == token && n == next && l == line,
        LexStep::Fail(e) => r == Step::Fail(e),
    }
}

fn emit(t: Token, next: usize, line: usize) -> (r: Step)
    ensures
        r matches Step::Emit { token, next: n, line: l } && token.token == t && token.line == line
            && n == next && l == line,
{
    Step::Emit { token: TokenInfo { token: t, line }, next, line }
}

/// A one- or two-character operator.
fn operator(s: &Vec<char>, i: usize, line: usize, second: char, one: Token, two: Token) -> (r: Step)
    requires
        i < s@.len(),
        s@.len() < usize::MAX,
    ensures
        step_is(r, operator_step(s@, i as int, line as nat, second, one@, two@)),
{
    if i + 1 < s.len() && s[i + 1] == second {
        emit(two, i + 2, line)
    } else {
        emit(one, i + 1, line)
    }
}

/// The lexer's step at position `i` on line `line`.
fn step(s: &Vec<char>, i: usize, line: usize) -> (r: Step)
    requires
        i < s@.len(),
        line <= i + 1,
        s@.len() < usize::MAX,
    ensures
        step_is(r, lex_step(s@, i as int, line as nat)),
{
    let n = s.len();
    let c = s[i];
    if c == '\n' {
        Step::Emit { token: TokenInfo { token: Token::Newline, line }, next: i + 1, line: line + 1 }
    } else if is_whitespace(c) {
        Step::Skip { next: i + 1, line }
    } else if c == '/' {
        if i + 1 < n && s[i + 1] == '/' {
            let e = scan_run(s, i + 1, &CharClass::NotNewline);
            Step::Skip { next: e, line }
        } else {
            emit(Token::Slash, i + 1, line)
        }
    } else if c == '+' {
        emit(Token::Plus, i + 1, line)
    } else if c == '-' {
        emit(Token::Minus, i + 1, line)
    } else if c == '*' {
        emit(Token::Star, i + 1, line)
    } else if c == '%' {
        emit(Token::Modulo, i + 1, line)
    } else if c == '{' {
        emit(Token::LBrace, i + 1, line)
    } else if c == '}' {
        emit(Token::RBrace, i + 1, line)
    } else if c == '<' {
        operator(s, i, line, '=', Token::Less, Token::LessEq)
    } else if c == '>' {
        operator(s, i, line, '=', Token::Greater, Token::GreaterEq)
    } else if c == '=' {
        operator(s, i, line, '=', Token::Equals, Token::EqEq)
    } else if c == '!' {
        if i + 1 < n && s[i + 1] == '=' {
            emit(Token::NotEq, i + 2, line)
        } else {
            Step::Fail(LexError::ExpectedEqualsAfterBang { line })
        }
    } else if is_alphabetic(c) {
        let e = scan_run(s, i + 1, &CharClass::Word);
        proof {
            lemma_run_end(s@, i as int + 1, CharClass::Word);
        }
        let t = word_token_exec(s, i, e);
        emit(t, e, line)
    } else if '0' <= c && c <= '9' {
        if c == '0' && i + 1 < n && s[i + 1] == 'x' {
            let e = scan_run(s, i + 2, &CharClass::Hex);
            proof {
                lemma_run_end(s@, i as int + 2, CharClass::Hex);
            }
            let v = match digits_literal(s, i + 2, e, true) {
                Some(v) => v,
                None => 0,
            };
            emit(Token::Int(v), e, line)
        } else {
            let e = scan_run(s, i + 1, &CharClass::Decimal);
            proof {
                lemma_run_end(s@, i as int + 1, CharClass::Decimal);
            }
            match digits_literal(s, i, e, false) {
                Some(v) => emit(Token::Int(v), e, line),
                None => Step::Fail(LexError::IntegerOverflow { line }),
            }
        }
    } else if c == '"' {
        let (e, l, text) = scan_string(s, i + 1, line);
        emit(Token::StringLiteral(text), e, l)
    } else if c == ';' {
        emit(Token::Semicolon, i + 1, line)
    } else {
        Step::Fail(LexError::UnknownCharacter { line, ch: c })
    }
}

/// Lexes a source text: its tokens, each with the line it was read on
/// (counted from 1), or the first reason it cannot be lexed.
pub fn try_lex(source: &str) -> (r: Result<Vec<TokenInfo>, LexError>)
    requires
        source@.len() < usize::MAX,
    ensures
        match r {
            Ok(ts) => lex_spec(source@) == Ok::<Seq<SpecTokenInfo>, LexError>(tokens_view(ts@)),
            Err(e) => lex_spec(source@) == Err::<Seq<SpecTokenInfo>, LexError>(e),
        },
{
    let s = chars_of(source);
    let n = s.len();
    let mut i: usize = 0;
    let mut line: usize = 1;
    let mut tokens: Vec<TokenInfo> = Vec::new();
    assert(tokens_view(tokens@) =~= Seq::<SpecTokenInfo>::empty());
    while i < n
        invariant
            s@ == source@,
            n == s@.len(),
            n < usize::MAX,
            i <= n,
            line <= i + 1,
            lex_from(s@, i as int, line as nat, tokens_view(tokens@)) == lex_spec(s@),
        decreases n - i,
    {
        proof {
            lemma_step_advances(s@, i as int, line as nat);
        }
        match step(&s, i, line) {
            Step::Skip { next, line: l } => {
                i = next;
                line = l;
            },
            Step::Emit { token, next, line: l } => {
                let ghost before = tokens_view(tokens@);
                let ghost tv = token@;
                tokens.push(token);
                assert(tokens_view(tokens@) =~= before.push(tv));
                i = next;
                line = l;
            },
            Step::Fail(e) => {
                return Err(e);
            },
        }
    }
    Ok(tokens)
}

/// Lexes a source text that can be lexed: its tokens, each with the line it
/// was read on (counted from 1).
pub fn lex(source: &str) -> (tokens: Vec<TokenInfo>)
    requires
        source@.len() < usize::MAX,
        lex_spec(source@) is Ok,
    ensures
        lex_spec(source@) == Ok::<Seq<SpecTokenInfo>, LexError>(tokens_view(tokens@)),
{
    match try_lex(source) {
        Ok(tokens) => tokens,
        Err(_) => {
            proof {
                assert(false);
            }
            Vec::new()
        },
    }
}

} // verus!
