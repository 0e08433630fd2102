//! The parser: recursive descent over the lexer's tokens, to a sequence of
//! statements. Newlines and semicolons separate statements; `module`
//! anywhere marks the program as a module.

use vstd::prelude::*;

use crate::ast::{
    branch_view, branches_view, expr_view, lemma_branch_block, lemma_if_parts, lemma_while_parts,
    nodes_view, CompOp, Expression, IfBranch, MathOp, Node, SpecExpr, SpecIfBranch,
    SpecNode, SpecTerm, Term,
};
use crate::laws::{lemma_block, lemma_if, lemma_program_tail, lemma_statement};
use crate::lexer::{tokens_view, SpecToken, SpecTokenInfo, Token, TokenInfo};
use crate::text::{
    chars_of, debug_str, debug_str_text, decimal, int_text, push_i32, push_usize, spells,
};

verus! {

broadcast use vstd::string::group_string_axioms;

/// Why a token sequence is not a program. Each error carries the line of the
/// token the parser had just read.
#[derive(Debug)]
pub enum ParseError {
    /// A term (number or variable) was expected; `found` is what was read.
    ExpectedTerm { line: usize, found: Option<Token> },
    /// A block must open with `{`.
    ExpectedOpenBrace { line: usize },
    /// A condition needs a comparison operator between its terms.
    ExpectedComparison { line: usize },
    /// `let` must be followed by a variable name.
    ExpectedVariableName { line: usize },
    /// `exec` must be followed by a string.
    ExecRequiresString { line: usize },
    /// `input` must be followed by a variable.
    ExpectedVariable { line: usize },
}

/// Model of a [`ParseError`].
pub enum SpecParseError {
    ExpectedTerm { line: nat, found: Option<SpecToken> },
    ExpectedOpenBrace { line: nat },
    ExpectedComparison { line: nat },
    ExpectedVariableName { line: nat },
    ExecRequiresString { line: nat },
    ExpectedVariable { line: nat },
}

impl View for ParseError {
    type V = SpecParseError;

    open spec fn view(&self) -> SpecParseError {
        match self {
            ParseError::ExpectedTerm { line, found } => SpecParseError::ExpectedTerm {
                line: *line as nat,
                found: match found {
                    Some(t) => Some(t@),
                    None => None,
                },
            },
            ParseError::ExpectedOpenBrace { line } => SpecParseError::ExpectedOpenBrace {
                line: *line as nat,
            },
            ParseError::ExpectedComparison { line } => SpecParseError::ExpectedComparison {
                line: *line as nat,
            },
            ParseError::ExpectedVariableName { line } => SpecParseError::ExpectedVariableName {
                line: *line as nat,
            },
            ParseError::ExecRequiresString { line } => SpecParseError::ExecRequiresString {
                line: *line as nat,
            },
            ParseError::ExpectedVariable { line } => SpecParseError::ExpectedVariable {
                line: *line as nat,
            },
        }
    }
}

/// Where the parser stands: the position of the next token, and whether a
/// `module` keyword has been read.
pub struct PState {
    pub pos: nat,
    pub module: bool,
}

/// The outcome of a parsing function and the state it leaves.
pub struct Parsed<T> {
    pub result: Result<T, SpecParseError>,
    pub state: PState,
}

pub open spec fn ok<T>(v: T, state: PState) -> Parsed<T> {
    Parsed { result: Ok(v), state }
}

pub open spec fn fail<T>(e: SpecParseError, state: PState) -> Parsed<T> {
    Parsed { result: Err(e), state }
}

/// The token at `pos`, if any.
pub open spec fn peek(ts: Seq<SpecTokenInfo>, pos: nat) -> Option<SpecToken> {
    if pos < ts.len() {
        Some(ts[pos as int].token)
    } else {
        None
    }
}

/// The state after reading one token: the position moves on by one, also at
/// or past the end, where nothing is read.
pub open spec fn advance(ts: Seq<SpecTokenInfo>, st: PState) -> PState {
    PState { pos: st.pos + 1, ..st }
}

/// How far a parsing function that starts at `pos` can move the position,
/// with `len` tokens: one step when it starts at or past the end (where it
/// reads nothing and stops), otherwise past the end by at most one step for
/// each token still to read, plus one.
pub open spec fn reach(len: nat, pos: nat) -> nat {
    if pos >= len {
        pos + 1
    } else {
        (2 * len - pos + 1) as nat
    }
}

/// The same bound for a sequence of statements, which reads once more past
/// the end to find that no statement follows.
pub open spec fn reach_tail(len: nat, pos: nat) -> nat {
    if pos >= len {
        pos + 1
    } else {
        (2 * len - pos + 2) as nat
    }
}

/// The same bound for what follows an `if`'s block: it reads nothing when it
/// starts at or past the end.
pub open spec fn settle(len: nat, pos: nat) -> nat {
    if pos >= len {
        pos
    } else {
        (2 * len - pos + 1) as nat
    }
}

/// The number of tokens read by the time the position is `pos`.
pub open spec fn read(len: nat, pos: nat) -> nat {
    if pos <= len {
        pos
    } else {
        len
    }
}

/// The line of the token just read (of the first token before any is read;
/// `0` past the end).
pub open spec fn current_line(ts: Seq<SpecTokenInfo>, pos: nat) -> nat {
    let k: int = if pos == 0 {
        0
    } else {
        pos - 1
    };
    if k < ts.len() {
        ts[k].line
    } else {
        0
    }
}

/// The position of the first token from `pos` on that is not a newline or a
/// semicolon.
pub open spec fn skip_newlines(ts: Seq<SpecTokenInfo>, pos: nat) -> nat
    decreases ts.len() - pos,
{
    if pos < ts.len() && (ts[pos as int].token is Newline || ts[pos as int].token is Semicolon) {
        skip_newlines(ts, pos + 1)
    } else {
        pos
    }
}

/// Skipping separators moves forward and stops before the end or at `pos`.
pub proof fn lemma_skip_newlines(ts: Seq<SpecTokenInfo>, pos: nat)
    ensures
        pos <= skip_newlines(ts, pos),
        pos <= ts.len() ==> skip_newlines(ts, pos) <= ts.len(),
        pos >= ts.len() ==> skip_newlines(ts, pos) == pos,
    decreases ts.len() - pos,
{
    if pos < ts.len() && (ts[pos as int].token is Newline || ts[pos as int].token is Semicolon) {
        lemma_skip_newlines(ts, pos + 1);
    }
}

/// The distance to the end, used to show that parsing stops: it shrinks with
/// every token read.
pub open spec fn remaining(ts: Seq<SpecTokenInfo>, pos: nat) -> nat {
    if pos <= ts.len() {
        (ts.len() + 1 - pos) as nat
    } else {
        0
    }
}

/// The term at the parser's position: a number, `argc`, or a variable.
pub open spec fn parsed_term(ts: Seq<SpecTokenInfo>, st: PState) -> Parsed<SpecTerm> {
    let line = current_line(ts, st.pos);
    let tok = peek(ts, st.pos);
    let st1 = advance(ts, st);
    match tok {
        Some(SpecToken::Int(v)) => ok(SpecTerm::Number(v), st1),
        Some(SpecToken::Identifier(n)) => ok(
            if n == "argc"@ {
                SpecTerm::ArgC
            } else {
                SpecTerm::Variable(n)
            },
            st1,
        ),
        _ => fail(SpecParseError::ExpectedTerm { line, found: tok }, st1),
    }
}

/// The multiplicative operator a token stands for.
pub open spec fn mult_op(t: Option<SpecToken>) -> Option<MathOp> {
    match t {
        Some(SpecToken::Star) => Some(MathOp::Mul),
        Some(SpecToken::Slash) => Some(MathOp::Div),
        Some(SpecToken::Modulo) => Some(MathOp::Mod),
        _ => None,
    }
}

/// The additive operator a token stands for.
pub open spec fn add_op(t: Option<SpecToken>) -> Option<MathOp> {
    match t {
        Some(SpecToken::Plus) => Some(MathOp::Add),
        Some(SpecToken::Minus) => Some(MathOp::Sub),
        _ => None,
    }
}

/// The comparison operator a token stands for.
pub open spec fn comp_op(t: Option<SpecToken>) -> Option<CompOp> {
    match t {
        Some(SpecToken::EqEq) => Some(CompOp::Eq),
        Some(SpecToken::NotEq) => Some(CompOp::NotEq),
        Some(SpecToken::Less) => Some(CompOp::Less),
        Some(SpecToken::LessEq) => Some(CompOp::LessEq),
        Some(SpecToken::Greater) => Some(CompOp::Greater),
        Some(SpecToken::GreaterEq) => Some(CompOp::GreaterEq),
        _ => None,
    }
}

/// The rest of a product after `left`: `* / %` and terms, grouped to the left.
pub open spec fn mult_tail(ts: Seq<SpecTokenInfo>, st: PState, left: SpecExpr) -> Parsed<SpecExpr>
    decreases remaining(ts, st.pos),
{
    match mult_op(peek(ts, st.pos)) {
        Some(op) => {
            let r = parsed_term(ts, advance(ts, st));
            match r.result {
                Ok(t) => mult_tail(
                    ts,
                    r.state,
                    SpecExpr::Binary(Box::new(left), op, Box::new(SpecExpr::Term(t))),
                ),
                Err(e) => fail(e, r.state),
            }
        },
        None => ok(left, st),
    }
}

/// A product of terms.
pub open spec fn parsed_multiplicative(ts: Seq<SpecTokenInfo>, st: PState) -> Parsed<SpecExpr> {
    let r = parsed_term(ts, st);
    match r.result {
        Ok(t) => mult_tail(ts, r.state, SpecExpr::Term(t)),
        Err(e) => fail(e, r.state),
    }
}

/// Parsing never moves backward.
pub proof fn lemma_mult_tail(ts: Seq<SpecTokenInfo>, st: PState, left: SpecExpr)
    ensures
        mult_tail(ts, st, left).state.pos >= st.pos,
        mult_tail(ts, st, left).state.module == st.module,
        st.pos >= ts.len() ==> mult_tail(ts, st, left).state.pos == st.pos,
        st.pos <= ts.len() ==> mult_tail(ts, st, left).state.pos <= ts.len() + 1,
        st.pos <= ts.len() && mult_tail(ts, st, left).result is Ok ==> mult_tail(
            ts,
            st,
            left,
        ).state.pos <= ts.len(),
    decreases remaining(ts, st.pos),
{
    match mult_op(peek(ts, st.pos)) {
        Some(op) => {
            let r = parsed_term(ts, advance(ts, st));
            match r.result {
                Ok(t) => lemma_mult_tail(
                    ts,
                    r.state,
                    SpecExpr::Binary(Box::new(left), op, Box::new(SpecExpr::Term(t))),
                ),
                Err(e) => {},
            }
        },
        None => {},
    }
}

/// The rest of a sum after `left`: `+ -` and products, grouped to the left.
pub open spec fn add_tail(ts: Seq<SpecTokenInfo>, st: PState, left: SpecExpr) -> Parsed<SpecExpr>
    decreases remaining(ts, st.pos),
{
    match add_op(peek(ts, st.pos)) {
        Some(op) => {
            let st1 = advance(ts, st);
            let r = parsed_multiplicative(ts, st1);
            proof {
                match parsed_term(ts, st1).result {
                    Ok(t) => lemma_mult_tail(ts, parsed_term(ts, st1).state, SpecExpr::Term(t)),
                    Err(_) => {},
                }
            }
            match r.result {
                Ok(right) => add_tail(
                    ts,
                    r.state,
                    SpecExpr::Binary(Box::new(left), op, Box::new(right)),
                ),
                Err(e) => fail(e, r.state),
            }
        },
        None => ok(left, st),
    }
}

/// An expression: a sum of products of terms.
pub open spec fn parsed_expression(ts: Seq<SpecTokenInfo>, st: PState) -> Parsed<SpecExpr> {
    let r = parsed_multiplicative(ts, st);
    match r.result {
        Ok(e) => add_tail(ts, r.state, e),
        Err(e) => fail(e, r.state),
    }
}

/// A condition: a term, a comparison operator, a term.
pub open spec fn parsed_condition(ts: Seq<SpecTokenInfo>, st: PState) -> Parsed<(SpecTerm, CompOp, SpecTerm)> {
    let l = parsed_term(ts, st);
    match l.result {
        Ok(left) => {
            let line = current_line(ts, l.state.pos);
            let st2 = advance(ts, l.state);
            match comp_op(peek(ts, l.state.pos)) {
                Some(op) => {
                    let r = parsed_term(ts, st2);
                    match r.result {
                        Ok(right) => ok((left, op, right), r.state),
                        Err(e) => fail(e, r.state),
                    }
                },
                None => fail(SpecParseError::ExpectedComparison { line }, st2),
            }
        },
        Err(e) => fail(e, l.state),
    }
}

/// The statements of a block after its `{`, after those in `acc`: up to and
/// past the closing `}`, or up to where no statement starts.
pub open spec fn block_tail(ts: Seq<SpecTokenInfo>, st: PState, acc: Seq<SpecNode>) -> Parsed<Seq<SpecNode>>
    decreases remaining(ts, st.pos), 5nat,
{
    let p = skip_newlines(ts, st.pos);
    proof {
        lemma_skip_newlines(ts, st.pos);
    }
    if peek(ts, p) == Some(SpecToken::RBrace) {
        ok(acc, advance(ts, PState { pos: p, ..st }))
    } else {
        let s = parsed_statement(ts, PState { pos: p, ..st });
        match s.result {
            Err(e) => fail(e, s.state),
            Ok(None) => ok(acc, s.state),
            Ok(Some(n)) => if st.pos < ts.len() && s.state.pos > st.pos {
                block_tail(ts, s.state, acc.push(n))
            } else {
                ok(acc, s.state)
            },
        }
    }
}

/// A block: `{`, statements, `}`.
pub open spec fn parsed_block(ts: Seq<SpecTokenInfo>, st: PState) -> Parsed<Seq<SpecNode>>
    decreases remaining(ts, st.pos), 0nat,
{
    let line = current_line(ts, st.pos);
    let tok = peek(ts, st.pos);
    let st1 = advance(ts, st);
    if tok == Some(SpecToken::LBrace) {
        block_tail(ts, st1, seq![])
    } else {
        fail(SpecParseError::ExpectedOpenBrace { line }, st1)
    }
}

/// The `elif` arms after those in `acc`.
pub open spec fn elif_tail(ts: Seq<SpecTokenInfo>, st: PState, acc: Seq<SpecIfBranch>) -> Parsed<Seq<SpecIfBranch>>
    decreases remaining(ts, st.pos), 1nat,
{
    let p = skip_newlines(ts, st.pos);
    proof {
        lemma_skip_newlines(ts, st.pos);
    }
    let sp = PState { pos: p, ..st };
    if peek(ts, p) == Some(SpecToken::Elif) {
        let c = parsed_condition(ts, advance(ts, sp));
        match c.result {
            Err(e) => fail(e, c.state),
            Ok((l, op, r)) => {
                let b = parsed_block(ts, c.state);
                match b.result {
                    Err(e) => fail(e, b.state),
                    Ok(block) => if b.state.pos > st.pos {
                        elif_tail(
                            ts,
                            b.state,
                            acc.push(SpecIfBranch { left: l, op, right: r, block }),
                        )
                    } else {
                        ok(acc, b.state)
                    },
                }
            },
        }
    } else {
        ok(acc, sp)
    }
}

/// What follows the `elif` arms of an `if` statement that started at
/// `origin`: the optional `else` block.
pub open spec fn if_rest(ts: Seq<SpecTokenInfo>, origin: PState, e: Parsed<Seq<SpecIfBranch>>) -> Parsed<Option<SpecNode>>
    decreases remaining(ts, origin.pos), 2nat,
{
    match e.result {
        Err(err) => fail(err, e.state),
        Ok(branches) => if e.state.pos >= origin.pos {
            let q = skip_newlines(ts, e.state.pos);
            proof {
                lemma_skip_newlines(ts, e.state.pos);
            }
            let sq = PState { pos: q, ..e.state };
            if peek(ts, q) == Some(SpecToken::Else) {
                let eb = parsed_block(ts, advance(ts, sq));
                match eb.result {
                    Err(err) => fail(err, eb.state),
                    Ok(else_block) => ok(
                        Some(SpecNode::IfStatement { branches, else_block }),
                        eb.state,
                    ),
                }
            } else {
                ok(Some(SpecNode::IfStatement { branches, else_block: seq![] }), sq)
            }
        } else {
            ok(None, e.state)
        },
    }
}

/// An `if` statement after its `if`: a condition and a block, `elif` arms,
/// and an optional `else` block.
pub open spec fn parsed_if(ts: Seq<SpecTokenInfo>, st: PState) -> Parsed<Option<SpecNode>>
    decreases remaining(ts, st.pos), 3nat,
{
    let c = parsed_condition(ts, st);
    match c.result {
        Err(e) => fail(e, c.state),
        Ok((l, op, r)) => {
            let b = parsed_block(ts, c.state);
            match b.result {
                Err(e) => fail(e, b.state),
                Ok(block) => if b.state.pos >= st.pos {
                    if_rest(
                        ts,
                        st,
                        elif_tail(ts, b.state, seq![SpecIfBranch { left: l, op, right: r, block }]),
                    )
                } else {
                    ok(None, b.state)
                },
            }
        },
    }
}

/// The statement at the parser's position, after newlines and semicolons;
/// `None` at the end, and where a token starts no statement.
pub open spec fn parsed_statement(ts: Seq<SpecTokenInfo>, st: PState) -> Parsed<Option<SpecNode>>
    decreases remaining(ts, st.pos), 4nat,
{
    let p = skip_newlines(ts, st.pos);
    proof {
        lemma_skip_newlines(ts, st.pos);
    }
    let st1 = advance(ts, PState { pos: p, ..st });
    match peek(ts, p) {
        None => ok(None, st1),
        Some(token) => {
            let line = current_line(ts, st1.pos);
            let next = peek(ts, st1.pos);
            let st2 = advance(ts, st1);
            match token {
                SpecToken::Module => parsed_statement(ts, PState { module: true, ..st1 }),
                SpecToken::Let => match next {
                    Some(SpecToken::Identifier(name)) => if peek(ts, st2.pos) == Some(
                        SpecToken::Equals,
                    ) {
                        let e = parsed_expression(ts, advance(ts, st2));
                        match e.result {
                            Ok(x) => ok(Some(SpecNode::VarDeclaration(name, Some(x))), e.state),
                            Err(err) => fail(err, e.state),
                        }
                    } else {
                        ok(Some(SpecNode::VarDeclaration(name, None)), st2)
                    },
                    _ => fail(SpecParseError::ExpectedVariableName { line }, st2),
                },
                SpecToken::Exec => match next {
                    Some(SpecToken::StringLiteral(f)) => ok(Some(SpecNode::ExecStatement(f)), st2),
                    _ => fail(SpecParseError::ExecRequiresString { line }, st2),
                },
                SpecToken::Identifier(name) => if next == Some(SpecToken::Equals) {
                    let e = parsed_expression(ts, st2);
                    match e.result {
                        Ok(x) => ok(Some(SpecNode::Assignment(name, x)), e.state),
                        Err(err) => fail(err, e.state),
                    }
                } else {
                    ok(None, st1)
                },
                SpecToken::Input => match next {
                    Some(SpecToken::Identifier(n)) => ok(Some(SpecNode::InputStatement(n)), st2),
                    _ => fail(SpecParseError::ExpectedVariable { line }, st2),
                },
                SpecToken::If => parsed_if(ts, st1),
                SpecToken::While => {
                    let c = parsed_condition(ts, st1);
                    match c.result {
                        Err(e) => fail(e, c.state),
                        Ok((l, op, r)) => {
                            let b = parsed_block(ts, c.state);
                            match b.result {
                                Err(e) => fail(e, b.state),
                                Ok(block) => ok(
                                    Some(SpecNode::WhileStatement(l, op, r, block)),
                                    b.state,
                                ),
                            }
                        },
                    }
                },
                SpecToken::Print => print_statement(ts, st1, false),
                SpecToken::Println => print_statement(ts, st1, true),
                SpecToken::Exit => {
                    let t = parsed_term(ts, st1);
                    match t.result {
                        Ok(x) => ok(Some(SpecNode::ExitStatement(x)), t.state),
                        Err(e) => fail(e, t.state),
                    }
                },
                _ => ok(None, st1),
            }
        },
    }
}

/// The rest of `print`/`println`: a string, or a term.
pub open spec fn print_statement(ts: Seq<SpecTokenInfo>, st: PState, newline: bool) -> Parsed<Option<SpecNode>> {
    match peek(ts, st.pos) {
        Some(SpecToken::StringLiteral(s)) => ok(
            Some(SpecNode::PrintString(s, newline)),
            advance(ts, st),
        ),
        _ => {
            let t = parsed_term(ts, st);
            match t.result {
                Ok(x) => ok(Some(SpecNode::PrintVar(x, newline)), t.state),
                Err(e) => fail(e, t.state),
            }
        },
    }
}

/// The statements from the parser's position on, after those in `acc`: up
/// to the end or to where no statement starts; or the first error.
pub open spec fn program_tail(ts: Seq<SpecTokenInfo>, st: PState, acc: Seq<SpecNode>) -> Parsed<Seq<SpecNode>>
    decreases remaining(ts, st.pos),
{
    let s = parsed_statement(ts, st);
    match s.result {
        Err(e) => fail(e, s.state),
        Ok(None) => ok(acc, s.state),
        Ok(Some(n)) => if st.pos < ts.len() && s.state.pos > st.pos {
            program_tail(ts, s.state, acc.push(n))
        } else {
            ok(acc, s.state)
        },
    }
}

/// What `{:?}` writes for a token.
pub open spec fn token_debug_text(t: SpecToken) -> Seq<char> {
    match t {
        SpecToken::Let => "Let"@,
        SpecToken::If => "If"@,
        SpecToken::Elif => "Elif"@,
        SpecToken::Else => "Else"@,
        SpecToken::While => "While"@,
        SpecToken::Exit => "Exit"@,
        SpecToken::Print => "Print"@,
        SpecToken::Println => "Println"@,
        SpecToken::Input => "Input"@,
        SpecToken::Exec => "Exec"@,
        SpecToken::Module => "Module"@,
        SpecToken::Identifier(s) => "Identifier("@ + debug_str_text(s) + ")"@,
        SpecToken::Int(v) => "Int("@ + int_text(v as int) + ")"@,
        SpecToken::StringLiteral(s) => "StringLiteral("@ + debug_str_text(s) + ")"@,
        SpecToken::Equals => "Equals"@,
        SpecToken::EqEq => "EqEq"@,
        SpecToken::NotEq => "NotEq"@,
        SpecToken::Less => "Less"@,
        SpecToken::LessEq => "LessEq"@,
        SpecToken::Greater => "Greater"@,
        SpecToken::GreaterEq => "GreaterEq"@,
        SpecToken::Plus => "Plus"@,
        SpecToken::Minus => "Minus"@,
        SpecToken::Star => "Star"@,
        SpecToken::Slash => "Slash"@,
        SpecToken::Modulo => "Modulo"@,
        SpecToken::LBrace => "LBrace"@,
        SpecToken::RBrace => "RBrace"@,
        SpecToken::Newline => "Newline"@,
        SpecToken::Semicolon => "Semicolon"@,
    }
}

/// What `{:?}` writes for an optional token.
pub open spec fn found_text(o: Option<SpecToken>) -> Seq<char> {
    match o {
        None => "None"@,
        Some(t) => "Some("@ + token_debug_text(t) + ")"@,
    }
}

/// The message a parse error stands for.
pub open spec fn parse_error_text(e: SpecParseError) -> Seq<char> {
    match e {
        SpecParseError::ExpectedTerm { line, found } => "Parser Error [Line "@ + decimal(line)
            + "]: Expected number or variable, found "@ + found_text(found),
        SpecParseError::ExpectedOpenBrace { line } => "Parser Error [Line "@ + decimal(line)
            + "]: Expected '{'"@,
        SpecParseError::ExpectedComparison { line } => "Parser Error [Line "@ + decimal(line)
            + "]: Expected comparison operator"@,
        SpecParseError::ExpectedVariableName { line } => "Parser Error [Line "@ + decimal(line)
            + "]: Expected variable name"@,
        SpecParseError::ExecRequiresString { line } => "Parser Error [Line "@ + decimal(line)
            + "]: exec requires a string"@,
        SpecParseError::ExpectedVariable { line } => "Parser Error [Line "@ + decimal(line)
            + "]: Expected variable"@,
    }
}

fn push_token_debug(out: &mut String, t: &Token)
    ensures
        final(out)@ == old(out)@ + token_debug_text(t@),
{
    let ghost before = out@;
    match t {
            Token::Let => out.append("Let"),
            Token::If => out.append("If"),
            Token::Elif => out.append("Elif"),
            Token::Else => out.append("Else"),
            Token::While => out.append("While"),
            Token::Exit => out.append("Exit"),
            Token::Print => out.append("Print"),
            Token::Println => out.append("Println"),
            Token::Input => out.append("Input"),
            Token::Exec => out.append("Exec"),
            Token::Module => out.append("Module"),
            Token::Identifier(s) => {
                out.append("Identifier(");
                let d = debug_str(s.as_str());
                out.append(d.as_str());
                out.append(")");
            },
            Token::Int(v) => {
                out.append("Int(");
                push_i32(out, *v);
                out.append(")");
            },
            Token::StringLiteral(s) => {
                out.append("StringLiteral(");
                let d = debug_str(s.as_str());
                out.append(d.as_str());
                out.append(")");
            },
            Token::Equals => out.append("Equals"),
            Token::EqEq => out.append("EqEq"),
            Token::NotEq => out.append("NotEq"),
            Token::Less => out.append("Less"),
            Token::LessEq => out.append("LessEq"),
            Token::Greater => out.append("Greater"),
            Token::GreaterEq => out.append("GreaterEq"),
            Token::Plus => out.append("Plus"),
            Token::Minus => out.append("Minus"),
            Token::Star => out.append("Star"),
            Token::Slash => out.append("Slash"),
            Token::Modulo => out.append("Modulo"),
            Token::LBrace => out.append("LBrace"),
            Token::RBrace => out.append("RBrace"),
            Token::Newline => out.append("Newline"),
            Token::Semicolon => out.append("Semicolon"),
    }
    assert(out@ =~= before + token_debug_text(t@));
}

impl ParseError {
    /// The error as a message.
    pub fn message(&self) -> (m: String)
        ensures
            m@ == parse_error_text(self@),
    {
        let mut m = String::new();
        m.append("Parser Error [Line ");
        match self {
            ParseError::ExpectedTerm { line, found } => {
                push_usize(&mut m, *line);
                m.append("]: Expected number or variable, found ");
                match found {
                    None => m.append("None"),
                    Some(t) => {
                        m.append("Some(");
                        push_token_debug(&mut m, t);
                        m.append(")");
                    },
                }
            },
            ParseError::ExpectedOpenBrace { line } => {
                push_usize(&mut m, *line);
                m.append("]: Expected '{'");
            },
            ParseError::ExpectedComparison { line } => {
                push_usize(&mut m, *line);
                m.append("]: Expected comparison operator");
            },
            ParseError::ExpectedVariableName { line } => {
                push_usize(&mut m, *line);
                m.append("]: Expected variable name");
            },
            ParseError::ExecRequiresString { line } => {
                push_usize(&mut m, *line);
                m.append("]: exec requires a string");
            },
            ParseError::ExpectedVariable { line } => {
                push_usize(&mut m, *line);
                m.append("]: Expected variable");
            },
        }
        assert(m@ =~= parse_error_text(self@));
        m
    }
}

/// The model of an optional token.
pub open spec fn opt_token(o: Option<Token>) -> Option<SpecToken> {
    match o {
        Some(t) => Some(t@),
        None => None,
    }
}

pub open spec fn term_outcome(r: Result<Term, ParseError>) -> Result<SpecTerm, SpecParseError> {
    match r {
        Ok(t) => Ok(t@),
        Err(e) => Err(e@),
    }
}

pub open spec fn expr_outcome(r: Result<Expression, ParseError>) -> Result<SpecExpr, SpecParseError> {
    match r {
        Ok(x) => Ok(x@),
        Err(e) => Err(e@),
    }
}

pub open spec fn cond_outcome(r: Result<(Term, CompOp, Term), ParseError>) -> Result<
    (SpecTerm, CompOp, SpecTerm),
    SpecParseError,
> {
    match r {
        Ok((l, op, rt)) => Ok((l@, op, rt@)),
        Err(e) => Err(e@),
    }
}

pub open spec fn nodes_outcome(r: Result<Vec<Node>, ParseError>) -> Result<Seq<SpecNode>, SpecParseError> {
    match r {
        Ok(v) => Ok(nodes_view(v@)),
        Err(e) => Err(e@),
    }
}

pub open spec fn stmt_outcome(r: Result<Option<Node>, ParseError>) -> Result<Option<SpecNode>, SpecParseError> {
    match r {
        Ok(Some(n)) => Ok(Some(n@)),
        Ok(None) => Ok(None),
        Err(e) => Err(e@),
    }
}

/// The statements of a token sequence, parsed from state `st`.
pub open spec fn parsed_program(ts: Seq<SpecTokenInfo>, st: PState) -> Parsed<Seq<SpecNode>> {
    program_tail(ts, st, seq![])
}

/// The parser: a token sequence and a position in it.
pub struct Parser<'a> {
    tokens: &'a [TokenInfo],
    pos: usize,
    /// Whether a `module` keyword has been read.
    pub is_module: bool,
}

impl<'a> Parser<'a> {
    /// The tokens, as models.
    pub closed spec fn toks(&self) -> Seq<SpecTokenInfo> {
        tokens_view(self.tokens@)
    }

    /// The position and the `module` flag.
    pub closed spec fn state(&self) -> PState {
        PState { pos: self.pos as nat, module: self.is_module }
    }

    /// The number of tokens leaves room for every position that parsing
    /// them from the start can reach.
    pub open spec fn wf(&self) -> bool {
        self.toks().len() * 2 + 3 < usize::MAX
    }

    /// Parsing from the current position cannot move it beyond `usize`.
    pub open spec fn room(&self) -> bool {
        reach_tail(self.toks().len(), self.state().pos) < usize::MAX
    }

    /// A parser at the first token, with no `module` keyword read.
    pub fn new(tokens: &'a [TokenInfo]) -> (p: Self)
        requires
            tokens@.len() * 2 + 3 < usize::MAX,
        ensures
            p.wf(),
            p.room(),
            p.toks() == tokens_view(tokens@),
            p.state() == (PState { pos: 0, module: false }),
    {
        Parser { tokens, pos: 0, is_module: false }
    }

    /// Whether a `module` keyword has been read.
    pub fn is_module(&self) -> (m: bool)
        ensures
            m == self.state().module,
    {
        self.is_module
    }

    fn peek(&self) -> (r: Option<Token>)
        requires
            self.wf(),
        ensures
            opt_token(r) == peek(self.toks(), self.state().pos),
    {
        if self.pos < self.tokens.len() {
            Some(self.tokens[self.pos].token.clone())
        } else {
            None
        }
    }

    fn current_line(&self) -> (l: usize)
        requires
            self.wf(),
        ensures
            l as nat == current_line(self.toks(), self.state().pos),
    {
        let k = if self.pos == 0 {
            0
        } else {
            self.pos - 1
        };
        if k < self.tokens.len() {
            self.tokens[k].line
        } else {
            0
        }
    }

    fn consume(&mut self) -> (r: Option<Token>)
        requires
            old(self).wf(),
            old(self).room(),
        ensures
            final(self).wf(),
            final(self).toks() == old(self).toks(),
            opt_token(r) == peek(old(self).toks(), old(self).state().pos),
            final(self).state() == advance(old(self).toks(), old(self).state()),
    {
        let t = self.peek();
        self.pos = self.pos + 1;
        t
    }

    fn skip_newlines(&mut self)
        requires
            old(self).wf(),
            old(self).room(),
        ensures
            final(self).wf(),
            final(self).toks() == old(self).toks(),
            final(self).state() == (PState {
                pos: skip_newlines(old(self).toks(), old(self).state().pos),
                ..old(self).state()
            }),
    {
        loop
            invariant
                self.wf(),
                self.toks() == old(self).toks(),
                self.is_module == old(self).is_module,
                self.pos >= old(self).pos,
                skip_newlines(self.toks(), self.pos as nat) == skip_newlines(
                    old(self).toks(),
                    old(self).pos as nat,
                ),
            decreases self.tokens@.len() - self.pos,
        {
            if self.pos < self.tokens.len() {
                match &self.tokens[self.pos].token {
                    Token::Newline | Token::Semicolon => {
                        self.pos = self.pos + 1;
                    },
                    _ => {
                        return ;
                    },
                }
            } else {
                return ;
            }
        }
    }

    /// A term: a number, `argc`, or a variable.
    fn parse_term(&mut self) -> (r: Result<Term, ParseError>)
        requires
            old(self).wf(),
            old(self).room(),
        ensures
            final(self).wf(),
            final(self).toks() == old(self).toks(),
            final(self).state().pos >= old(self).state().pos,
            r is Ok ==> old(self).state().pos < old(self).toks().len() && final(self).state().pos
                == old(self).state().pos + 1,
            parsed_term(old(self).toks(), old(self).state()) == (Parsed {
                result: term_outcome(r),
                state: final(self).state(),
            }),
    {
        let line = self.current_line();
        match self.consume() {
            Some(Token::Int(v)) => Ok(Term::Number(v)),
            Some(Token::Identifier(n)) => {
                let cs = chars_of(n.as_str());
                let k = cs.len();
                proof {
                    assert(cs@.subrange(0, k as int) =~= n@);
                }
                if spells(&cs, 0, k, "argc") {
                    Ok(Term::ArgC)
                } else {
                    Ok(Term::Variable(n))
                }
            },
            other => Err(ParseError::ExpectedTerm { line, found: other }),
        }
    }

    /// A product of terms, grouped to the left.
    fn parse_multiplicative(&mut self) -> (r: Result<Expression, ParseError>)
        requires
            old(self).wf(),
            old(self).room(),
        ensures
            final(self).wf(),
            final(self).toks() == old(self).toks(),
            final(self).state().pos >= old(self).state().pos,
            parsed_multiplicative(old(self).toks(), old(self).state()) == (Parsed {
                result: expr_outcome(r),
                state: final(self).state(),
            }),
    {
        let t = self.parse_term()?;
        let mut left_expr = Expression::Term(t);
        loop
            invariant
                self.wf(),
                self.toks() == old(self).toks(),
                self.state().pos >= old(self).state().pos,
                mult_tail(self.toks(), self.state(), left_expr@) == parsed_multiplicative(
                    old(self).toks(),
                    old(self).state(),
                ),
            decreases remaining(self.toks(), self.state().pos),
        {
            let op = match self.peek() {
                Some(Token::Star) => MathOp::Mul,
                Some(Token::Slash) => MathOp::Div,
                Some(Token::Modulo) => MathOp::Mod,
                _ => {
                    return Ok(left_expr);
                },
            };
            self.consume();
            let right_term = self.parse_term()?;
            let ghost lv = left_expr@;
            let ghost rv = right_term@;
            left_expr = Expression::Binary(
                Box::new(left_expr),
                op,
                Box::new(Expression::Term(right_term)),
            );
            assert(expr_view(Expression::Term(right_term)) == SpecExpr::Term(rv));
            assert(left_expr@ == SpecExpr::Binary(Box::new(lv), op, Box::new(SpecExpr::Term(rv))));
        }
    }

    /// A sum of products, grouped to the left.
    fn parse_expression(&mut self) -> (r: Result<Expression, ParseError>)
        requires
            old(self).wf(),
            old(self).room(),
        ensures
            final(self).wf(),
            final(self).toks() == old(self).toks(),
            final(self).state().pos >= old(self).state().pos,
            parsed_expression(old(self).toks(), old(self).state()) == (Parsed {
                result: expr_outcome(r),
                state: final(self).state(),
            }),
    {
        let mut left_expr = self.parse_multiplicative()?;
        loop
            invariant
                self.wf(),
                self.toks() == old(self).toks(),
                self.state().pos >= old(self).state().pos,
                add_tail(self.toks(), self.state(), left_expr@) == parsed_expression(
                    old(self).toks(),
                    old(self).state(),
                ),
            decreases remaining(self.toks(), self.state().pos),
        {
            let op = match self.peek() {
                Some(Token::Plus) => MathOp::Add,
                Some(Token::Minus) => MathOp::Sub,
                _ => {
                    return Ok(left_expr);
                },
            };
            self.consume();
            let right_expr = self.parse_multiplicative()?;
            left_expr = Expression::Binary(Box::new(left_expr), op, Box::new(right_expr));
        }
    }

    /// A condition: term, comparison operator, term.
    fn parse_condition(&mut self) -> (r: Result<(Term, CompOp, Term), ParseError>)
        requires
            old(self).wf(),
            old(self).room(),
        ensures
            final(self).wf(),
            final(self).toks() == old(self).toks(),
            final(self).state().pos >= old(self).state().pos,
            r is Ok ==> old(self).state().pos < old(self).toks().len() && final(self).state().pos
                > old(self).state().pos && final(self).state().pos <= old(self).toks().len(),
            parsed_condition(old(self).toks(), old(self).state()) == (Parsed {
                result: cond_outcome(r),
                state: final(self).state(),
            }),
    {
        let left = self.parse_term()?;
        let line = self.current_line();
        let op = match self.consume() {
            Some(Token::EqEq) => CompOp::Eq,
            Some(Token::NotEq) => CompOp::NotEq,
            Some(Token::Less) => CompOp::Less,
            Some(Token::LessEq) => CompOp::LessEq,
            Some(Token::Greater) => CompOp::Greater,
            Some(Token::GreaterEq) => CompOp::GreaterEq,
            _ => {
                return Err(ParseError::ExpectedComparison { line });
            },
        };
        let right = self.parse_term()?;
        Ok((left, op, right))
    }

    /// A block: `{`, statements, `}` (or the end of the tokens).
    fn parse_block(&mut self) -> (r: Result<Vec<Node>, ParseError>)
        requires
            old(self).wf(),
            old(self).room(),
        ensures
            final(self).wf(),
            final(self).toks() == old(self).toks(),
            final(self).state().pos >= old(self).state().pos,
            final(self).state().pos <= reach(old(self).toks().len(), old(self).state().pos),
            parsed_block(old(self).toks(), old(self).state()) == (Parsed {
                result: nodes_outcome(r),
                state: final(self).state(),
            }),
        decreases remaining(old(self).toks(), old(self).state().pos),
    {
        proof {
            lemma_block(self.toks(), self.state());
        }
        let line = self.current_line();
        match self.consume() {
            Some(Token::LBrace) => {},
            _ => {
                return Err(ParseError::ExpectedOpenBrace { line });
            },
        }
        let mut nodes: Vec<Node> = Vec::new();
        assert(nodes_view(nodes@) =~= Seq::<SpecNode>::empty());
        loop
            invariant
                self.wf(),
                self.room(),
                self.toks() == old(self).toks(),
                self.state().pos > old(self).state().pos,
                old(self).state().pos < self.toks().len(),
                block_tail(self.toks(), self.state(), nodes_view(nodes@)) == parsed_block(
                    old(self).toks(),
                    old(self).state(),
                ),
                parsed_block(old(self).toks(), old(self).state()).state.pos <= reach(
                    old(self).toks().len(),
                    old(self).state().pos,
                ),
            decreases remaining(self.toks(), self.state().pos),
        {
            let ghost st = self.state();
            proof {
                lemma_skip_newlines(self.toks(), self.state().pos);
            }
            self.skip_newlines();
            match self.peek() {
                Some(Token::RBrace) => {
                    self.consume();
                    return Ok(nodes);
                },
                _ => {},
            }
            match self.parse_statement() {
                Err(e) => {
                    return Err(e);
                },
                Ok(Some(node)) => {
                    let ghost before = nodes_view(nodes@);
                    let ghost nv = node@;
                    nodes.push(node);
                    assert(nodes_view(nodes@) =~= before.push(nv));
                },
                Ok(None) => {
                    return Ok(nodes);
                },
            }
        }
    }

    /// An `if` statement after its `if`.
    fn parse_if(&mut self) -> (r: Result<Option<Node>, ParseError>)
        requires
            old(self).wf(),
            old(self).room(),
        ensures
            final(self).wf(),
            final(self).toks() == old(self).toks(),
            final(self).state().pos >= old(self).state().pos,
            final(self).state().pos <= reach(old(self).toks().len(), old(self).state().pos),
            parsed_if(old(self).toks(), old(self).state()) == (Parsed {
                result: stmt_outcome(r),
                state: final(self).state(),
            }),
        decreases remaining(old(self).toks(), old(self).state().pos),
    {
        proof {
            lemma_if(self.toks(), self.state());
        }
        let (left, op, right) = self.parse_condition()?;
        let block = self.parse_block()?;
        let ghost bstate = self.state();
        let first = IfBranch { left, op, right, block };
        proof {
            lemma_branch_block(first);
        }
        let ghost fv = branch_view(first);
        let mut branches: Vec<IfBranch> = Vec::new();
        branches.push(first);
        assert(branches_view(branches@) =~= seq![fv]);
        let ghost e_spec = elif_tail(self.toks(), bstate, seq![fv]);
        loop
            invariant
                self.wf(),
                self.room(),
                self.toks() == old(self).toks(),
                self.state().pos >= bstate.pos,
                bstate.pos > old(self).state().pos,
                elif_tail(self.toks(), self.state(), branches_view(branches@)) == e_spec,
                parsed_if(old(self).toks(), old(self).state()) == if_rest(
                    old(self).toks(),
                    old(self).state(),
                    e_spec,
                ),
                parsed_if(old(self).toks(), old(self).state()).state.pos <= reach(
                    old(self).toks().len(),
                    old(self).state().pos,
                ),
            decreases remaining(self.toks(), self.state().pos),
        {
            proof {
                lemma_skip_newlines(self.toks(), self.state().pos);
            }
            self.skip_newlines();
            match self.peek() {
                Some(Token::Elif) => {
                    self.consume();
                    let (l, o, r) = self.parse_condition()?;
                    let b = self.parse_block()?;
                    assert(self.room());
                    let br = IfBranch { left: l, op: o, right: r, block: b };
                    proof {
                        lemma_branch_block(br);
                    }
                    let ghost before = branches_view(branches@);
                    let ghost bv = branch_view(br);
                    branches.push(br);
                    assert(branches_view(branches@) =~= before.push(bv));
                },
                _ => {
                    return self.finish_if(branches, Ghost(old(self).state()));
                },
            }
        }
    }

    /// The end of an `if` statement that started at `origin`, after its last
    /// arm: an optional `else` block.
    fn finish_if(&mut self, branches: Vec<IfBranch>, Ghost(origin): Ghost<PState>) -> (r: Result<
        Option<Node>,
        ParseError,
    >)
        requires
            old(self).wf(),
            old(self).room(),
            old(self).state().pos >= origin.pos,
        ensures
            final(self).wf(),
            final(self).toks() == old(self).toks(),
            final(self).state().pos >= old(self).state().pos,
            if_rest(
                old(self).toks(),
                origin,
                ok(branches_view(branches@), old(self).state()),
            ) == (Parsed { result: stmt_outcome(r), state: final(self).state() }),
        decreases remaining(old(self).toks(), old(self).state().pos),
    {
        proof {
            lemma_skip_newlines(self.toks(), self.state().pos);
        }
        self.skip_newlines();
        match self.peek() {
            Some(Token::Else) => {
                self.consume();
                let else_block = self.parse_block()?;
                proof {
                    lemma_if_parts(branches, else_block);
                }
                Ok(Some(Node::IfStatement { branches, else_block }))
            },
            _ => {
                let else_block: Vec<Node> = Vec::new();
                proof {
                    lemma_if_parts(branches, else_block);
                    assert(nodes_view(else_block@) =~= Seq::<SpecNode>::empty());
                }
                Ok(Some(Node::IfStatement { branches, else_block }))
            },
        }
    }

    /// `print`/`println` after the keyword: a string, or a term.
    fn parse_print(&mut self, append_newline: bool) -> (r: Result<Option<Node>, ParseError>)
        requires
            old(self).wf(),
            old(self).room(),
        ensures
            final(self).wf(),
            final(self).toks() == old(self).toks(),
            final(self).state().pos >= old(self).state().pos,
            print_statement(old(self).toks(), old(self).state(), append_newline) == (Parsed {
                result: stmt_outcome(r),
                state: final(self).state(),
            }),
    {
        match self.peek() {
            Some(Token::StringLiteral(text)) => {
                self.consume();
                Ok(Some(Node::PrintString(text, append_newline)))
            },
            _ => {
                let t = self.parse_term()?;
                Ok(Some(Node::PrintVar(t, append_newline)))
            },
        }
    }

    /// The statement at the parser's position, after newlines and semicolons;
    /// `None` at the end and where a token starts no statement.
    #[verifier::rlimit(40)]
    fn parse_statement(&mut self) -> (r: Result<Option<Node>, ParseError>)
        requires
            old(self).wf(),
            old(self).room(),
        ensures
            final(self).wf(),
            final(self).toks() == old(self).toks(),
            final(self).state().pos >= old(self).state().pos,
            r matches Ok(Some(_)) ==> old(self).state().pos < old(self).toks().len()
                && final(self).state().pos > old(self).state().pos,
            final(self).state().pos <= reach(old(self).toks().len(), old(self).state().pos),
            parsed_statement(old(self).toks(), old(self).state()) == (Parsed {
                result: stmt_outcome(r),
                state: final(self).state(),
            }),
        decreases remaining(old(self).toks(), old(self).state().pos),
    {
        proof {
            lemma_statement(self.toks(), self.state());
            lemma_skip_newlines(self.toks(), self.state().pos);
        }
        self.skip_newlines();
        let token = match self.consume() {
            Some(t) => t,
            None => {
                return Ok(None);
            },
        };
        let line = self.current_line();
        match token {
            Token::Module => {
                self.is_module = true;
                self.parse_statement()
            },
            Token::Let => {
                let name = match self.consume() {
                    Some(Token::Identifier(n)) => n,
                    _ => {
                        return Err(ParseError::ExpectedVariableName { line });
                    },
                };
                match self.peek() {
                    Some(Token::Equals) => {
                        self.consume();
                        let e = self.parse_expression()?;
                        Ok(Some(Node::VarDeclaration(name, Some(e))))
                    },
                    _ => Ok(Some(Node::VarDeclaration(name, None))),
                }
            },
            Token::Exec => match self.consume() {
                Some(Token::StringLiteral(file)) => Ok(Some(Node::ExecStatement(file))),
                _ => Err(ParseError::ExecRequiresString { line }),
            },
            Token::Identifier(name) => match self.peek() {
                Some(Token::Equals) => {
                    self.consume();
                    let e = self.parse_expression()?;
                    Ok(Some(Node::Assignment(name, e)))
                },
                _ => Ok(None),
            },
            Token::Input => match self.consume() {
                Some(Token::Identifier(n)) => Ok(Some(Node::InputStatement(n))),
                _ => Err(ParseError::ExpectedVariable { line }),
            },
            Token::If => self.parse_if(),
            Token::While => {
                let (l, o, r) = self.parse_condition()?;
                let block = self.parse_block()?;
                proof {
                    lemma_while_parts(l, o, r, block);
                }
                Ok(Some(Node::WhileStatement(l, o, r, block)))
            },
            Token::Print => self.parse_print(false),
            Token::Println => self.parse_print(true),
            Token::Exit => {
                let t = self.parse_term()?;
                Ok(Some(Node::ExitStatement(t)))
            },
            _ => Ok(None),
        }
    }

    /// Parses statements up to the end of the tokens or to where no
    /// statement starts; on a syntax error, its message.
    pub fn parse_all(&mut self) -> (r: Result<Vec<Node>, String>)
        requires
            old(self).wf(),
            old(self).room(),
        ensures
            final(self).wf(),
            final(self).toks() == old(self).toks(),
            final(self).state() == parsed_program(old(self).toks(), old(self).state()).state,
            match r {
                Ok(nodes) => parsed_program(old(self).toks(), old(self).state()).result == Ok::<
                    Seq<SpecNode>,
                    SpecParseError,
                >(nodes_view(nodes@)),
                Err(m) => parsed_program(old(self).toks(), old(self).state()).result matches Err(
                    e,
                ) && m@ == parse_error_text(e),
            },
    {
        let mut nodes: Vec<Node> = Vec::new();
        assert(nodes_view(nodes@) =~= Seq::<SpecNode>::empty());
        loop
            invariant
                self.wf(),
                self.room(),
                self.toks() == old(self).toks(),
                program_tail(self.toks(), self.state(), nodes_view(nodes@)) == parsed_program(
                    old(self).toks(),
                    old(self).state(),
                ),
            decreases remaining(self.toks(), self.state().pos),
        {
            match self.parse_statement() {
                Ok(Some(node)) => {
                    let ghost before = nodes_view(nodes@);
                    let ghost nv = node@;
                    nodes.push(node);
                    assert(nodes_view(nodes@) =~= before.push(nv));
                },
                Ok(None) => {
                    return Ok(nodes);
                },
                Err(e) => {
                    return Err(e.message());
                },
            }
        }
    }
}

} // verus!
