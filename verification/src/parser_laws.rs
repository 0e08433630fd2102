//! How the parser treats joined token sequences: tokens in front of a
//! position do not change how the tokens from there are parsed, only where
//! the parser stands; so newlines, semicolons and `module` keywords before a
//! statement leave the statement as it is.

use vstd::prelude::*;

use crate::ast::{SpecExpr, SpecIfBranch, SpecNode, SpecTerm};
use crate::machine::{holds, tdiv, term_value, trem, value, Machine};
use crate::lexer::{SpecToken, SpecTokenInfo};
use crate::parser::{
    add_tail, advance, block_tail, current_line, elif_tail, if_rest, lemma_mult_tail,
    lemma_skip_newlines, mult_tail, parsed_block, parsed_condition, parsed_expression, parsed_if,
    parsed_multiplicative, parsed_statement, parsed_term, peek, print_statement, program_tail,
    remaining, skip_newlines, PState, Parsed,
};

verus! {

/// A parser state `d` tokens further on.
pub open spec fn shifted(st: PState, d: nat) -> PState {
    PState { pos: st.pos + d, module: st.module }
}

/// An outcome whose state is `d` tokens further on.
pub open spec fn shifted_parse<T>(r: Parsed<T>, d: nat) -> Parsed<T> {
    Parsed { result: r.result, state: shifted(r.state, d) }
}

proof fn lemma_peek_shift(s: Seq<SpecTokenInfo>, t: Seq<SpecTokenInfo>, p: nat)
    ensures
        peek(s + t, s.len() + p) == peek(t, p),
        p >= 1 ==> current_line(s + t, s.len() + p) == current_line(t, p),
{
    if p < t.len() {
        assert((s + t)[(s.len() + p) as int] == t[p as int]);
    }
    if p >= 1 && p - 1 < t.len() {
        assert((s + t)[s.len() + p - 1] == t[p - 1]);
    }
}

proof fn lemma_skip_shift(s: Seq<SpecTokenInfo>, t: Seq<SpecTokenInfo>, p: nat)
    ensures
        skip_newlines(s + t, s.len() + p) == s.len() + skip_newlines(t, p),
    decreases t.len() - p,
{
    lemma_peek_shift(s, t, p);
    if p < t.len() {
        assert((s + t)[(s.len() + p) as int] == t[p as int]);
        if t[p as int].token is Newline || t[p as int].token is Semicolon {
            lemma_skip_shift(s, t, p + 1);
        }
    }
}

proof fn lemma_term_shift(s: Seq<SpecTokenInfo>, t: Seq<SpecTokenInfo>, st: PState)
    requires
        st.pos >= 1,
    ensures
        parsed_term(s + t, shifted(st, s.len())) == shifted_parse(parsed_term(t, st), s.len()),
{
    lemma_peek_shift(s, t, st.pos);
}

proof fn lemma_mult_tail_shift(s: Seq<SpecTokenInfo>, t: Seq<SpecTokenInfo>, st: PState, left: SpecExpr)
    ensures
        mult_tail(s + t, shifted(st, s.len()), left) == shifted_parse(
            mult_tail(t, st, left),
            s.len(),
        ),
    decreases remaining(t, st.pos),
{
    lemma_peek_shift(s, t, st.pos);
    match crate::parser::mult_op(peek(t, st.pos)) {
        Some(op) => {
            let st1 = advance(t, st);
            lemma_term_shift(s, t, st1);
            let r = parsed_term(t, st1);
            match r.result {
                Ok(x) => lemma_mult_tail_shift(
                    s,
                    t,
                    r.state,
                    SpecExpr::Binary(Box::new(left), op, Box::new(SpecExpr::Term(x))),
                ),
                Err(_) => {},
            }
        },
        None => {},
    }
}

proof fn lemma_multiplicative_shift(s: Seq<SpecTokenInfo>, t: Seq<SpecTokenInfo>, st: PState)
    requires
        st.pos >= 1,
    ensures
        parsed_multiplicative(s + t, shifted(st, s.len())) == shifted_parse(
            parsed_multiplicative(t, st),
            s.len(),
        ),
{
    lemma_term_shift(s, t, st);
    match parsed_term(t, st).result {
        Ok(x) => lemma_mult_tail_shift(s, t, parsed_term(t, st).state, SpecExpr::Term(x)),
        Err(_) => {},
    }
}

proof fn lemma_add_tail_shift(s: Seq<SpecTokenInfo>, t: Seq<SpecTokenInfo>, st: PState, left: SpecExpr)
    ensures
        add_tail(s + t, shifted(st, s.len()), left) == shifted_parse(add_tail(t, st, left), s.len()),
    decreases remaining(t, st.pos),
{
    lemma_peek_shift(s, t, st.pos);
    match crate::parser::add_op(peek(t, st.pos)) {
        Some(op) => {
            let st1 = advance(t, st);
            lemma_multiplicative_shift(s, t, st1);
            match parsed_term(t, st1).result {
                Ok(x) => lemma_mult_tail(t, parsed_term(t, st1).state, SpecExpr::Term(x)),
                Err(_) => {},
            }
            let r = parsed_multiplicative(t, st1);
            match r.result {
                Ok(right) => lemma_add_tail_shift(
                    s,
                    t,
                    r.state,
                    SpecExpr::Binary(Box::new(left), op, Box::new(right)),
                ),
                Err(_) => {},
            }
        },
        None => {},
    }
}

proof fn lemma_expression_shift(s: Seq<SpecTokenInfo>, t: Seq<SpecTokenInfo>, st: PState)
    requires
        st.pos >= 1,
    ensures
        parsed_expression(s + t, shifted(st, s.len())) == shifted_parse(
            parsed_expression(t, st),
            s.len(),
        ),
{
    lemma_multiplicative_shift(s, t, st);
    let m = parsed_multiplicative(t, st);
    match m.result {
        Ok(e) => lemma_add_tail_shift(s, t, m.state, e),
        Err(_) => {},
    }
}

proof fn lemma_condition_shift(s: Seq<SpecTokenInfo>, t: Seq<SpecTokenInfo>, st: PState)
    requires
        st.pos >= 1,
    ensures
        parsed_condition(s + t, shifted(st, s.len())) == shifted_parse(
            parsed_condition(t, st),
            s.len(),
        ),
{
    lemma_term_shift(s, t, st);
    let l = parsed_term(t, st);
    lemma_peek_shift(s, t, l.state.pos);
    lemma_term_shift(s, t, advance(t, l.state));
}

proof fn lemma_print_shift(s: Seq<SpecTokenInfo>, t: Seq<SpecTokenInfo>, st: PState, nl: bool)
    requires
        st.pos >= 1,
    ensures
        print_statement(s + t, shifted(st, s.len()), nl) == shifted_parse(
            print_statement(t, st, nl),
            s.len(),
        ),
{
    lemma_peek_shift(s, t, st.pos);
    lemma_term_shift(s, t, st);
}


proof fn lemma_block_tail_shift(s: Seq<SpecTokenInfo>, t: Seq<SpecTokenInfo>, st: PState, acc: Seq<SpecNode>)
    ensures
        block_tail(s + t, shifted(st, s.len()), acc) == shifted_parse(
            block_tail(t, st, acc),
            s.len(),
        ),
    decreases remaining(t, st.pos), 5nat,
{
    let p = skip_newlines(t, st.pos);
    lemma_skip_newlines(t, st.pos);
    lemma_skip_shift(s, t, st.pos);
    lemma_peek_shift(s, t, p);
    if peek(t, p) != Some(SpecToken::RBrace) {
        let sp = PState { pos: p, ..st };
        lemma_statement_shift(s, t, sp);
        let r = parsed_statement(t, sp);
        match r.result {
            Ok(Some(n)) => {
                if st.pos < t.len() && r.state.pos > st.pos {
                    lemma_block_tail_shift(s, t, r.state, acc.push(n));
                }
            },
            _ => {},
        }
    }
}

proof fn lemma_block_shift(s: Seq<SpecTokenInfo>, t: Seq<SpecTokenInfo>, st: PState)
    requires
        st.pos >= 1,
    ensures
        parsed_block(s + t, shifted(st, s.len())) == shifted_parse(parsed_block(t, st), s.len()),
    decreases remaining(t, st.pos), 0nat,
{
    lemma_peek_shift(s, t, st.pos);
    if peek(t, st.pos) == Some(SpecToken::LBrace) {
        lemma_block_tail_shift(s, t, advance(t, st), seq![]);
    }
}

proof fn lemma_elif_tail_shift(s: Seq<SpecTokenInfo>, t: Seq<SpecTokenInfo>, st: PState, acc: Seq<SpecIfBranch>)
    ensures
        elif_tail(s + t, shifted(st, s.len()), acc) == shifted_parse(
            elif_tail(t, st, acc),
            s.len(),
        ),
    decreases remaining(t, st.pos), 1nat,
{
    let p = skip_newlines(t, st.pos);
    lemma_skip_newlines(t, st.pos);
    lemma_skip_shift(s, t, st.pos);
    lemma_peek_shift(s, t, p);
    let sp = PState { pos: p, ..st };
    if peek(t, p) == Some(SpecToken::Elif) {
        lemma_condition_shift(s, t, advance(t, sp));
        let c = parsed_condition(t, advance(t, sp));
        match c.result {
            Ok((l, op, r)) => {
                lemma_block_shift(s, t, c.state);
                let b = parsed_block(t, c.state);
                match b.result {
                    Ok(block) => {
                        if b.state.pos > st.pos {
                            lemma_elif_tail_shift(
                                s,
                                t,
                                b.state,
                                acc.push(SpecIfBranch { left: l, op, right: r, block }),
                            );
                        }
                    },
                    Err(_) => {},
                }
            },
            Err(_) => {},
        }
    }
}

#[verifier::rlimit(60)]
proof fn lemma_if_rest_shift(
    s: Seq<SpecTokenInfo>,
    t: Seq<SpecTokenInfo>,
    origin: PState,
    e: Parsed<Seq<SpecIfBranch>>,
)
    ensures
        if_rest(s + t, shifted(origin, s.len()), shifted_parse(e, s.len())) == shifted_parse(
            if_rest(t, origin, e),
            s.len(),
        ),
    decreases remaining(t, origin.pos), 2nat,
{
    match e.result {
        Ok(_) => {
            if e.state.pos >= origin.pos {
                let q = skip_newlines(t, e.state.pos);
                lemma_skip_newlines(t, e.state.pos);
                lemma_skip_shift(s, t, e.state.pos);
                lemma_peek_shift(s, t, q);
                let sq = PState { pos: q, ..e.state };
                if peek(t, q) == Some(SpecToken::Else) {
                    lemma_block_shift(s, t, advance(t, sq));
                }
            }
        },
        Err(_) => {},
    }
}

proof fn lemma_if_shift(s: Seq<SpecTokenInfo>, t: Seq<SpecTokenInfo>, st: PState)
    requires
        st.pos >= 1,
    ensures
        parsed_if(s + t, shifted(st, s.len())) == shifted_parse(parsed_if(t, st), s.len()),
    decreases remaining(t, st.pos), 3nat,
{
    lemma_condition_shift(s, t, st);
    let c = parsed_condition(t, st);
    match c.result {
        Ok((l, op, r)) => {
            lemma_block_shift(s, t, c.state);
            let b = parsed_block(t, c.state);
            match b.result {
                Ok(block) => {
                    if b.state.pos >= st.pos {
                        let first = SpecIfBranch { left: l, op, right: r, block };
                        lemma_elif_tail_shift(s, t, b.state, seq![first]);
                        lemma_if_rest_shift(s, t, st, elif_tail(t, b.state, seq![first]));
                    }
                },
                Err(_) => {},
            }
        },
        Err(_) => {},
    }
}

#[verifier::rlimit(40)]
proof fn lemma_statement_shift(s: Seq<SpecTokenInfo>, t: Seq<SpecTokenInfo>, st: PState)
    ensures
        parsed_statement(s + t, shifted(st, s.len())) == shifted_parse(
            parsed_statement(t, st),
            s.len(),
        ),
    decreases remaining(t, st.pos), 4nat,
{
    let p = skip_newlines(t, st.pos);
    lemma_skip_newlines(t, st.pos);
    lemma_skip_shift(s, t, st.pos);
    lemma_peek_shift(s, t, p);
    let st1 = advance(t, PState { pos: p, ..st });
    lemma_peek_shift(s, t, st1.pos);
    let st2 = advance(t, st1);
    lemma_peek_shift(s, t, st2.pos);
    match peek(t, p) {
        None => {},
        Some(token) => {
            match token {
                SpecToken::Module => {
                    lemma_statement_shift(s, t, PState { module: true, ..st1 });
                },
                SpecToken::Let => {
                    lemma_expression_shift(s, t, advance(t, st2));
                },
                SpecToken::Identifier(_) => {
                    lemma_expression_shift(s, t, st2);
                },
                SpecToken::If => {
                    lemma_if_shift(s, t, st1);
                },
                SpecToken::While => {
                    lemma_condition_shift(s, t, st1);
                    let c = parsed_condition(t, st1);
                    match c.result {
                        Ok(_) => {
                            lemma_block_shift(s, t, c.state);
                        },
                        Err(_) => {},
                    }
                },
                SpecToken::Print => {
                    lemma_print_shift(s, t, st1, false);
                },
                SpecToken::Println => {
                    lemma_print_shift(s, t, st1, true);
                },
                SpecToken::Exit => {
                    lemma_term_shift(s, t, st1);
                },
                _ => {},
            }
        },
    }
}

/// Whether a `module` keyword stands among the tokens from `j` on.
pub open spec fn has_module(s: Seq<SpecTokenInfo>, j: int) -> bool {
    exists|i: int| j <= i < s.len() && s[i].token is Module
}

proof fn lemma_leading(s: Seq<SpecTokenInfo>, t: Seq<SpecTokenInfo>, j: int, m: bool)
    requires
        0 <= j <= s.len(),
        forall|i: int|
            0 <= i < s.len() ==> (s[i].token is Newline || s[i].token is Semicolon
                || s[i].token is Module),
    ensures
        parsed_statement(s + t, PState { pos: j as nat, module: m }) == shifted_parse(
            parsed_statement(t, PState { pos: 0, module: m || has_module(s, j) }),
            s.len(),
        ),
    decreases s.len() - j,
{
    let u = s + t;
    if j == s.len() {
        lemma_statement_shift(s, t, PState { pos: 0, module: m });
        assert(!has_module(s, j));
        assert(shifted(PState { pos: 0, module: m }, s.len()) == PState {
            pos: j as nat,
            module: m,
        });
    } else {
        assert(u[j] == s[j]);
        lemma_leading(s, t, j + 1, if s[j].token is Module {
            true
        } else {
            m
        });
        if s[j].token is Module {
            assert(has_module(s, j));
            assert(skip_newlines(u, j as nat) == j);
            assert(peek(u, j as nat) == Some(SpecToken::Module));
        } else {
            assert(skip_newlines(u, j as nat) == skip_newlines(u, (j + 1) as nat));
            assert(has_module(s, j) == has_module(s, j + 1)) by {
                if has_module(s, j) {
                    let i = choose|i: int| j <= i < s.len() && s[i].token is Module;
                    assert(i != j);
                }
            }
        }
    }
}

/// Newlines, semicolons and `module` keywords before a statement do not
/// change it: parsing the statement after them reads the same statement (or
/// fails in the same way), just further on, with the `module` flag set when
/// one of them was a `module` keyword.
pub proof fn lemma_leading_separators(s: Seq<SpecTokenInfo>, t: Seq<SpecTokenInfo>, m: bool)
    requires
        forall|i: int|
            0 <= i < s.len() ==> (s[i].token is Newline || s[i].token is Semicolon
                || s[i].token is Module),
    ensures
        parsed_statement(s + t, PState { pos: 0, module: m }).result == parsed_statement(
            t,
            PState { pos: 0, module: m || has_module(s, 0) },
        ).result,
        parsed_statement(s + t, PState { pos: 0, module: m }).state == shifted(
            parsed_statement(t, PState { pos: 0, module: m || has_module(s, 0) }).state,
            s.len(),
        ),
{
    lemma_leading(s, t, 0, m);
}


/// A term read from an identifier is `argc` (the program's argument count)
/// exactly when the identifier is the whole word `argc`; any other
/// identifier is the variable of that very name. Either way one token is
/// read.
pub proof fn law_identifier_term(ts: Seq<SpecTokenInfo>, st: PState, name: Seq<char>)
    requires
        peek(ts, st.pos) == Some(SpecToken::Identifier(name)),
    ensures
        parsed_term(ts, st).result == Ok::<SpecTerm, crate::parser::SpecParseError>(
            if name == "argc"@ {
                SpecTerm::ArgC
            } else {
                SpecTerm::Variable(name)
            },
        ),
        name != "argc"@ ==> parsed_term(ts, st).result != Ok::<
            SpecTerm,
            crate::parser::SpecParseError,
        >(SpecTerm::ArgC),
        parsed_term(ts, st).state == advance(ts, st),
{
}


/// The value of the term that a token stands for: a number, the argument
/// count for `argc`, a variable's value for any other identifier.
pub open spec fn token_value(ts: Seq<SpecTokenInfo>, p: int, m: Machine) -> int {
    match ts[p].token {
        SpecToken::Int(v) => v as int,
        SpecToken::Identifier(n) => if n == "argc"@ {
            m.argc
        } else {
            m.mem[n]
        },
        _ => 0,
    }
}

/// What an arithmetic operator token does to its operands.
pub open spec fn token_apply(t: SpecToken, a: int, b: int) -> int {
    match t {
        SpecToken::Plus => a + b,
        SpecToken::Minus => a - b,
        SpecToken::Star => a * b,
        SpecToken::Slash => tdiv(a, b),
        SpecToken::Modulo => trem(a, b),
        _ => a,
    }
}

pub open spec fn is_product_token(t: SpecToken) -> bool {
    t is Star || t is Slash || t is Modulo
}

pub open spec fn is_sum_token(t: SpecToken) -> bool {
    t is Plus || t is Minus
}

/// Evaluating a product from the operator at `p` on, with `acc` so far,
/// left to right: its value, and where it stops.
pub open spec fn product_from(ts: Seq<SpecTokenInfo>, p: int, acc: int, m: Machine) -> (int, int)
    decreases ts.len() - p,
{
    if 0 <= p && p + 1 < ts.len() && is_product_token(ts[p].token) {
        product_from(ts, p + 2, token_apply(ts[p].token, acc, token_value(ts, p + 1, m)), m)
    } else {
        (acc, p)
    }
}

/// Evaluating a sum from the operator at `p` on, with `acc` so far, left to
/// right, each operand a product evaluated first.
pub open spec fn sum_from(ts: Seq<SpecTokenInfo>, p: int, acc: int, m: Machine) -> int
    decreases ts.len() - p,
{
    if 0 <= p && p + 1 < ts.len() && is_sum_token(ts[p].token) {
        let pr = product_from(ts, p + 2, token_value(ts, p + 1, m), m);
        if p < pr.1 <= ts.len() {
            sum_from(ts, pr.1, token_apply(ts[p].token, acc, pr.0), m)
        } else {
            acc
        }
    } else {
        acc
    }
}

/// The value of the arithmetic that the tokens from `p` on spell: `*`, `/`
/// and `%` bind tighter than `+` and `-`, and operators of one kind apply
/// left to right.
pub open spec fn tokens_value(ts: Seq<SpecTokenInfo>, p: int, m: Machine) -> int {
    let pr = product_from(ts, p + 1, token_value(ts, p, m), m);
    sum_from(ts, pr.1, pr.0, m)
}

proof fn lemma_product_from_moves(ts: Seq<SpecTokenInfo>, p: int, acc: int, m: Machine)
    ensures
        product_from(ts, p, acc, m).1 >= p,
    decreases ts.len() - p,
{
    if 0 <= p && p + 1 < ts.len() && is_product_token(ts[p].token) {
        lemma_product_from_moves(ts, p + 2, token_apply(ts[p].token, acc, token_value(ts, p + 1, m)), m);
    }
}

proof fn lemma_term_value(ts: Seq<SpecTokenInfo>, st: PState, m: Machine)
    ensures
        parsed_term(ts, st).result matches Ok(t) ==> st.pos < ts.len() && term_value(t, m)
            == token_value(ts, st.pos as int, m) && parsed_term(ts, st).state.pos == st.pos + 1,
{
}

proof fn lemma_mult_tail_value(ts: Seq<SpecTokenInfo>, st: PState, left: SpecExpr, m: Machine)
    ensures
        mult_tail(ts, st, left).result matches Ok(e) ==> value(e, m) == product_from(
            ts,
            st.pos as int,
            value(left, m),
            m,
        ).0 && mult_tail(ts, st, left).state.pos == product_from(
            ts,
            st.pos as int,
            value(left, m),
            m,
        ).1,
    decreases remaining(ts, st.pos),
{
    match crate::parser::mult_op(peek(ts, st.pos)) {
        Some(op) => {
            let st1 = advance(ts, st);
            lemma_term_value(ts, st1, m);
            let r = parsed_term(ts, st1);
            let p = st.pos as int;
            let tok = ts[p].token;
            assert(is_product_token(tok));
            match r.result {
                Ok(x) => {
                    let ne = SpecExpr::Binary(Box::new(left), op, Box::new(SpecExpr::Term(x)));
                    lemma_mult_tail_value(ts, r.state, ne, m);
                    assert(value(SpecExpr::Term(x), m) == term_value(x, m));
                    assert(term_value(x, m) == token_value(ts, p + 1, m));
                    assert(peek(ts, st.pos) == Some(tok));
                    assert(value(ne, m) == token_apply(tok, value(left, m), token_value(ts, p + 1, m)))
                        by {
                        if tok is Star {
                            assert(op == crate::ast::MathOp::Mul);
                        } else if tok is Slash {
                            assert(op == crate::ast::MathOp::Div);
                        } else {
                            assert(op == crate::ast::MathOp::Mod);
                        }
                    }
                    assert(product_from(ts, p, value(left, m), m) == product_from(
                        ts,
                        p + 2,
                        token_apply(tok, value(left, m), token_value(ts, p + 1, m)),
                        m,
                    ));
                },
                Err(_) => {},
            }
        },
        None => {},
    }
}

proof fn lemma_multiplicative_value(ts: Seq<SpecTokenInfo>, st: PState, m: Machine)
    ensures
        parsed_multiplicative(ts, st).result matches Ok(e) ==> ({
            let pr = product_from(ts, st.pos + 1int, token_value(ts, st.pos as int, m), m);
            value(e, m) == pr.0 && parsed_multiplicative(ts, st).state.pos == pr.1
        }),
{
    lemma_term_value(ts, st, m);
    match parsed_term(ts, st).result {
        Ok(x) => lemma_mult_tail_value(ts, parsed_term(ts, st).state, SpecExpr::Term(x), m),
        Err(_) => {},
    }
}

proof fn lemma_add_tail_value(ts: Seq<SpecTokenInfo>, st: PState, left: SpecExpr, m: Machine)
    ensures
        add_tail(ts, st, left).result matches Ok(e) ==> value(e, m) == sum_from(
            ts,
            st.pos as int,
            value(left, m),
            m,
        ),
    decreases remaining(ts, st.pos),
{
    match crate::parser::add_op(peek(ts, st.pos)) {
        Some(op) => {
            let st1 = advance(ts, st);
            lemma_multiplicative_value(ts, st1, m);
            lemma_product_from_moves(ts, st1.pos + 1int, token_value(ts, st1.pos as int, m), m);
            match parsed_term(ts, st1).result {
                Ok(x) => lemma_mult_tail(ts, parsed_term(ts, st1).state, SpecExpr::Term(x)),
                Err(_) => {},
            }
            let r = parsed_multiplicative(ts, st1);
            match r.result {
                Ok(right) => {
                    let ne = SpecExpr::Binary(Box::new(left), op, Box::new(right));
                    lemma_add_tail_value(ts, r.state, ne, m);
                },
                Err(_) => {},
            }
        },
        None => {},
    }
}

/// A parsed expression computes what its tokens spell: its value is the
/// value of the arithmetic from its first token on, with `*`, `/` and `%`
/// binding tighter than `+` and `-` and each applied left to right.
pub proof fn law_expression_tokens(ts: Seq<SpecTokenInfo>, st: PState, m: Machine)
    ensures
        parsed_expression(ts, st).result matches Ok(e) ==> value(e, m) == tokens_value(
            ts,
            st.pos as int,
            m,
        ),
{
    lemma_multiplicative_value(ts, st, m);
    let r = parsed_multiplicative(ts, st);
    match r.result {
        Ok(e) => lemma_add_tail_value(ts, r.state, e, m),
        Err(_) => {},
    }
}

/// Whether a comparison token holds of two values.
pub open spec fn token_compares(t: SpecToken, a: int, b: int) -> bool {
    match t {
        SpecToken::EqEq => a == b,
        SpecToken::NotEq => a != b,
        SpecToken::Less => a < b,
        SpecToken::LessEq => a <= b,
        SpecToken::Greater => a > b,
        SpecToken::GreaterEq => a >= b,
        _ => false,
    }
}

/// A parsed condition compares the terms of its first and third tokens as
/// its second token says: it holds of any two values exactly when that
/// comparison does.
pub proof fn law_condition_tokens(ts: Seq<SpecTokenInfo>, st: PState, m: Machine)
    ensures
        parsed_condition(ts, st).result matches Ok((l, op, r)) ==> {
            &&& st.pos + 2 < ts.len()
            &&& term_value(l, m) == token_value(ts, st.pos as int, m)
            &&& term_value(r, m) == token_value(ts, st.pos + 2int, m)
            &&& forall|a: int, b: int|
                #[trigger] holds(op, a, b) == token_compares(ts[st.pos + 1int].token, a, b)
        },
{
    lemma_term_value(ts, st, m);
    let l = parsed_term(ts, st);
    lemma_term_value(ts, advance(ts, l.state), m);
}

} // verus!
