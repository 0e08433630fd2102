//! How the lexer treats joined texts: what stands before a position does not
//! change how the text from there is lexed, only the lines its tokens are on;
//! and two texts joined by a space lex as the first one's tokens followed by
//! the second one's, on lines moved down by the first one's line feeds.

use vstd::prelude::*;

use crate::text::{decimal, digit_char};
use crate::lexer::{
    digits_value, is_decimal_digit, SpecToken,
    char_at_is, lemma_run_end, lemma_step_advances, lemma_string_scan, lex_from, lex_spec,
    lex_step, run_end, string_scan, CharClass, LexError, LexStep, SpecTokenInfo, StrScan,
};

verus! {

/// The tokens, each moved `k` lines down.
pub open spec fn shift_lines(ts: Seq<SpecTokenInfo>, k: nat) -> Seq<SpecTokenInfo> {
    Seq::new(ts.len(), |m: int| SpecTokenInfo { token: ts[m].token, line: ts[m].line + k })
}

/// A lexer step taken `d` characters further on and `k` lines further down.
pub open spec fn shift_step(st: LexStep, d: int, k: nat) -> LexStep {
    match st {
        LexStep::Skip { next, line } => LexStep::Skip { next: next + d, line: line + k },
        LexStep::Emit { token, next, line } => LexStep::Emit {
            token: SpecTokenInfo { token: token.token, line: token.line + k },
            next: next + d,
            line: line + k,
        },
        LexStep::Fail(e) => LexStep::Fail(e),
    }
}

proof fn lemma_run_end_shift(p: Seq<char>, b: Seq<char>, j: int, c: CharClass)
    requires
        0 <= j <= b.len(),
    ensures
        run_end(p + b, p.len() + j, c) == p.len() + run_end(b, j, c),
    decreases b.len() - j,
{
    if j < b.len() {
        assert((p + b)[p.len() + j] == b[j]);
        lemma_run_end_shift(p, b, j + 1, c);
    }
}

proof fn lemma_char_at_shift(p: Seq<char>, b: Seq<char>, j: int, c: char)
    requires
        0 <= j,
    ensures
        char_at_is(p + b, p.len() + j, c) == char_at_is(b, j, c),
{
    if j < b.len() {
        assert((p + b)[p.len() + j] == b[j]);
    }
}

proof fn lemma_string_scan_shift(p: Seq<char>, b: Seq<char>, j: int, line: nat, k: nat, acc: Seq<char>)
    requires
        0 <= j <= b.len(),
    ensures
        string_scan(p + b, p.len() + j, line + k, acc) == (StrScan {
            end: p.len() + string_scan(b, j, line, acc).end,
            line: string_scan(b, j, line, acc).line + k,
            text: string_scan(b, j, line, acc).text,
        }),
    decreases b.len() - j,
{
    if j < b.len() {
        assert((p + b)[p.len() + j] == b[j]);
        lemma_char_at_shift(p, b, j + 1, 'n');
        lemma_char_at_shift(p, b, j + 1, 't');
        lemma_char_at_shift(p, b, j + 1, '"');
        lemma_char_at_shift(p, b, j + 1, '\\');
        if b[j] == '"' {
        } else if b[j] == '\\' {
            if char_at_is(b, j + 1, 'n') {
                lemma_string_scan_shift(p, b, j + 2, line, k, acc.push('\n'));
            } else if char_at_is(b, j + 1, 't') {
                lemma_string_scan_shift(p, b, j + 2, line, k, acc.push('\t'));
            } else if char_at_is(b, j + 1, '"') {
                lemma_string_scan_shift(p, b, j + 2, line, k, acc.push('"'));
            } else if char_at_is(b, j + 1, '\\') {
                lemma_string_scan_shift(p, b, j + 2, line, k, acc.push('\\'));
            } else {
                lemma_string_scan_shift(p, b, j + 1, line, k, acc.push('\\'));
            }
        } else if b[j] == '\n' {
            lemma_string_scan_shift(p, b, j + 1, line + 1, k, acc.push('\n'));
        } else {
            assert((p + b)[p.len() + j] == b[j]);
            lemma_string_scan_shift(p, b, j + 1, line, k, acc.push(b[j]));
        }
    }
}

/// A step of the lexer does not look back: with text in front of it, and on
/// a line further down, it does the same thing, further on and further down.
#[verifier::rlimit(40)]
proof fn lemma_step_shift(p: Seq<char>, b: Seq<char>, j: int, line: nat, k: nat)
    requires
        0 <= j < b.len(),
        !(lex_step(b, j, line) is Fail),
    ensures
        lex_step(p + b, p.len() + j, line + k) == shift_step(lex_step(b, j, line), p.len() as int, k),
{
    let s = p + b;
    let i = p.len() + j;
    assert(s[i] == b[j]);
    lemma_char_at_shift(p, b, j + 1, '/');
    lemma_char_at_shift(p, b, j + 1, '=');
    lemma_char_at_shift(p, b, j + 1, 'x');
    lemma_run_end_shift(p, b, j + 1, CharClass::NotNewline);
    lemma_run_end_shift(p, b, j + 1, CharClass::Word);
    lemma_run_end_shift(p, b, j + 1, CharClass::Decimal);
    lemma_string_scan_shift(p, b, j + 1, line, k, seq![]);
    lemma_run_end(b, j + 1, CharClass::Word);
    lemma_run_end(b, j + 1, CharClass::Decimal);
    let ew = run_end(b, j + 1, CharClass::Word);
    assert(s.subrange(i, p.len() + ew) =~= b.subrange(j, ew));
    let ed = run_end(b, j + 1, CharClass::Decimal);
    assert(s.subrange(i, p.len() + ed) =~= b.subrange(j, ed));
    if j + 2 <= b.len() {
        lemma_run_end_shift(p, b, j + 2, CharClass::Hex);
        lemma_run_end(b, j + 2, CharClass::Hex);
        let eh = run_end(b, j + 2, CharClass::Hex);
        assert(s.subrange(i + 2, p.len() + eh) =~= b.subrange(j + 2, eh));
    }
}

/// Lexing the text from a position does not depend on what stands before
/// it: with `p` in front, and starting `k` lines further down, it gives the
/// same tokens, `k` lines further down.
pub proof fn lemma_lex_shift(
    p: Seq<char>,
    b: Seq<char>,
    j: int,
    line: nat,
    k: nat,
    acc: Seq<SpecTokenInfo>,
    acc2: Seq<SpecTokenInfo>,
)
    requires
        0 <= j <= b.len(),
        lex_from(b, j, line, acc) is Ok,
    ensures
        lex_from(b, j, line, acc) matches Ok(r) && acc.len() <= r.len() && r.subrange(
            0,
            acc.len() as int,
        ) == acc && lex_from(p + b, p.len() + j, line + k, acc2) == Ok::<
            Seq<SpecTokenInfo>,
            LexError,
        >(acc2 + shift_lines(r.subrange(acc.len() as int, r.len() as int), k)),
    decreases b.len() - j,
{
    if j == b.len() {
        let r = acc;
        assert(r.subrange(0, acc.len() as int) =~= acc);
        assert(acc2 + shift_lines(r.subrange(acc.len() as int, r.len() as int), k) =~= acc2);
    } else {
        lemma_step_advances(b, j, line);
        lemma_step_shift(p, b, j, line, k);
        match lex_step(b, j, line) {
            LexStep::Skip { next, line: l } => {
                lemma_lex_shift(p, b, next, l, k, acc, acc2);
            },
            LexStep::Emit { token, next, line: l } => {
                let t2 = SpecTokenInfo { token: token.token, line: token.line + k };
                lemma_lex_shift(p, b, next, l, k, acc.push(token), acc2.push(t2));
                let r = lex_from(b, j, line, acc)->Ok_0;
                assert(r.subrange(0, acc.len() as int) =~= acc.push(token).subrange(
                    0,
                    acc.len() as int,
                ));
                assert(r.subrange(0, (acc.len() + 1) as int) == acc.push(token));
                assert(r[acc.len() as int] == r.subrange(0, (acc.len() + 1) as int)[acc.len() as int]);
                assert(acc2.push(t2) + shift_lines(r.subrange((acc.len() + 1) as int, r.len() as int), k)
                    =~= acc2 + shift_lines(r.subrange(acc.len() as int, r.len() as int), k));
            },
            LexStep::Fail(_) => {},
        }
    }
}


/// Whether the string literal whose body starts at `j` is closed by a quote
/// before the end of the text.
pub open spec fn string_closed(s: Seq<char>, j: int) -> bool
    decreases s.len() - j,
{
    if j < 0 || j >= s.len() {
        false
    } else if s[j] == '"' {
        true
    } else if s[j] == '\\' {
        if char_at_is(s, j + 1, 'n') || char_at_is(s, j + 1, 't') || char_at_is(s, j + 1, '"')
            || char_at_is(s, j + 1, '\\') {
            string_closed(s, j + 2)
        } else {
            string_closed(s, j + 1)
        }
    } else {
        string_closed(s, j + 1)
    }
}

/// Lexing `s` from `i` does not end inside a `//` comment or inside a string
/// literal: every comment it skips stops at a line feed, and every string
/// literal it reads is closed.
pub open spec fn ends_outside(s: Seq<char>, i: int, line: nat) -> bool
    decreases s.len() - i,
{
    if i < 0 || i >= s.len() {
        true
    } else if s[i] == '/' && char_at_is(s, i + 1, '/') && run_end(
        s,
        i + 1,
        CharClass::NotNewline,
    ) >= s.len() {
        false
    } else if s[i] == '"' && !string_closed(s, i + 1) {
        false
    } else {
        proof {
            lemma_step_advances(s, i, line);
        }
        match lex_step(s, i, line) {
            LexStep::Skip { next, line: l } => ends_outside(s, next, l),
            LexStep::Emit { token, next, line: l } => ends_outside(s, next, l),
            LexStep::Fail(_) => true,
        }
    }
}

/// The number of line feeds in a text.
pub open spec fn newline_count(s: Seq<char>) -> nat
    decreases s.len(),
{
    if s.len() == 0 {
        0
    } else {
        newline_count(s.drop_last()) + if s.last() == '\n' {
            1nat
        } else {
            0nat
        }
    }
}

proof fn lemma_newline_concat(u: Seq<char>, v: Seq<char>)
    ensures
        newline_count(u + v) == newline_count(u) + newline_count(v),
    decreases v.len(),
{
    if v.len() == 0 {
        assert(u + v =~= u);
    } else {
        assert((u + v).drop_last() =~= u + v.drop_last());
        lemma_newline_concat(u, v.drop_last());
    }
}

proof fn lemma_newline_none(s: Seq<char>)
    requires
        forall|m: int| 0 <= m < s.len() ==> s[m] != '\n',
    ensures
        newline_count(s) == 0,
    decreases s.len(),
{
    if s.len() > 0 {
        lemma_newline_none(s.drop_last());
    }
}

proof fn lemma_newline_split(s: Seq<char>, i: int, m: int, n: int)
    requires
        0 <= i <= m <= n <= s.len(),
    ensures
        newline_count(s.subrange(i, n)) == newline_count(s.subrange(i, m)) + newline_count(
            s.subrange(m, n),
        ),
{
    assert(s.subrange(i, n) =~= s.subrange(i, m) + s.subrange(m, n));
    lemma_newline_concat(s.subrange(i, m), s.subrange(m, n));
}

proof fn lemma_newline_one(s: Seq<char>, j: int)
    requires
        0 <= j < s.len(),
        s[j] == '\n',
    ensures
        newline_count(s.subrange(j, j + 1)) == 1,
{
    let u = s.subrange(j, j + 1);
    assert(u.drop_last() =~= Seq::<char>::empty());
    assert(newline_count(u.drop_last()) == 0);
    assert(u.last() == '\n');
}

proof fn lemma_newline_none_range(s: Seq<char>, i: int, n: int)
    requires
        0 <= i <= n <= s.len(),
        forall|m: int| i <= m < n ==> s[m] != '\n',
    ensures
        newline_count(s.subrange(i, n)) == 0,
{
    lemma_newline_none(s.subrange(i, n));
}

/// A string literal's body counts exactly the line feeds it reads.
proof fn lemma_string_scan_lines(s: Seq<char>, j: int, line: nat, acc: Seq<char>)
    requires
        0 <= j <= s.len(),
    ensures
        string_scan(s, j, line, acc).line == line + newline_count(
            s.subrange(j, string_scan(s, j, line, acc).end),
        ),
    decreases s.len() - j,
{
    lemma_string_scan(s, j, line, acc);
    let e = string_scan(s, j, line, acc).end;
    if j >= s.len() {
        lemma_newline_none_range(s, j, j);
    } else if s[j] == '"' {
        lemma_newline_none_range(s, j, j + 1);
    } else if s[j] == '\\' {
        if char_at_is(s, j + 1, 'n') || char_at_is(s, j + 1, 't') || char_at_is(s, j + 1, '"')
            || char_at_is(s, j + 1, '\\') {
            let a2 = if char_at_is(s, j + 1, 'n') {
                acc.push('\n')
            } else if char_at_is(s, j + 1, 't') {
                acc.push('\t')
            } else if char_at_is(s, j + 1, '"') {
                acc.push('"')
            } else {
                acc.push('\\')
            };
            lemma_string_scan_lines(s, j + 2, line, a2);
            lemma_string_scan(s, j + 2, line, a2);
            lemma_newline_none_range(s, j, j + 2);
            lemma_newline_split(s, j, j + 2, e);
        } else {
            lemma_string_scan_lines(s, j + 1, line, acc.push('\\'));
            lemma_string_scan(s, j + 1, line, acc.push('\\'));
            lemma_newline_none_range(s, j, j + 1);
            lemma_newline_split(s, j, j + 1, e);
        }
    } else if s[j] == '\n' {
        lemma_string_scan_lines(s, j + 1, line + 1, acc.push('\n'));
        lemma_string_scan(s, j + 1, line + 1, acc.push('\n'));
        lemma_newline_one(s, j);
        lemma_newline_split(s, j, j + 1, e);
    } else {
        lemma_string_scan_lines(s, j + 1, line, acc.push(s[j]));
        lemma_string_scan(s, j + 1, line, acc.push(s[j]));
        lemma_newline_none_range(s, j, j + 1);
        lemma_newline_split(s, j, j + 1, e);
    }
}

/// A step of the lexer moves down by exactly the line feeds it reads.
#[verifier::rlimit(40)]
proof fn lemma_step_lines(s: Seq<char>, i: int, line: nat)
    requires
        0 <= i < s.len(),
    ensures
        match lex_step(s, i, line) {
            LexStep::Skip { next, line: l } => l == line + newline_count(s.subrange(i, next)),
            LexStep::Emit { token, next, line: l } => l == line + newline_count(
                s.subrange(i, next),
            ),
            LexStep::Fail(_) => true,
        },
{
    lemma_step_advances(s, i, line);
    lemma_run_end(s, i + 1, CharClass::NotNewline);
    lemma_run_end(s, i + 1, CharClass::Word);
    lemma_run_end(s, i + 1, CharClass::Decimal);
    lemma_string_scan(s, i + 1, line, seq![]);
    lemma_string_scan_lines(s, i + 1, line, seq![]);
    if i + 2 <= s.len() {
        lemma_run_end(s, i + 2, CharClass::Hex);
    }
    match lex_step(s, i, line) {
        LexStep::Skip { next, line: l } => {
            lemma_newline_none_range(s, i, next);
        },
        LexStep::Emit { token, next, line: l } => {
            if s[i] == '\n' {
                lemma_newline_one(s, i);
            } else if s[i] == '"' {
                lemma_newline_none_range(s, i, i + 1);
                lemma_newline_split(s, i, i + 1, next);
            } else {
                lemma_newline_none_range(s, i, next);
            }
        },
        LexStep::Fail(_) => {},
    }
}

proof fn lemma_char_at_prefix(a: Seq<char>, x: Seq<char>, m: int, c: char)
    requires
        0 <= m <= a.len(),
        x.len() >= 1,
        x[0] == ' ',
        c != ' ',
    ensures
        char_at_is(a + x, m, c) == char_at_is(a, m, c),
{
    assert((a + x)[m] == if m < a.len() {
        a[m]
    } else {
        x[0]
    });
}

proof fn lemma_run_end_prefix(a: Seq<char>, x: Seq<char>, j: int, c: CharClass)
    requires
        0 <= j <= a.len(),
        x.len() >= 1,
        x[0] == ' ',
        !crate::lexer::in_class(' ', c) || run_end(a, j, c) < a.len(),
    ensures
        run_end(a + x, j, c) == run_end(a, j, c),
    decreases a.len() - j,
{
    if j < a.len() {
        assert((a + x)[j] == a[j]);
        if crate::lexer::in_class(a[j], c) {
            lemma_run_end_prefix(a, x, j + 1, c);
        }
    } else {
        assert((a + x)[j] == ' ');
    }
}

proof fn lemma_string_scan_prefix(a: Seq<char>, x: Seq<char>, j: int, line: nat, acc: Seq<char>)
    requires
        0 <= j <= a.len(),
        x.len() >= 1,
        x[0] == ' ',
        string_closed(a, j),
    ensures
        string_scan(a + x, j, line, acc) == string_scan(a, j, line, acc),
    decreases a.len() - j,
{
    if j < a.len() {
        assert((a + x)[j] == a[j]);
        lemma_char_at_prefix(a, x, j + 1, 'n');
        lemma_char_at_prefix(a, x, j + 1, 't');
        lemma_char_at_prefix(a, x, j + 1, '"');
        lemma_char_at_prefix(a, x, j + 1, '\\');
        if a[j] == '"' {
        } else if a[j] == '\\' {
            if char_at_is(a, j + 1, 'n') {
                lemma_string_scan_prefix(a, x, j + 2, line, acc.push('\n'));
            } else if char_at_is(a, j + 1, 't') {
                lemma_string_scan_prefix(a, x, j + 2, line, acc.push('\t'));
            } else if char_at_is(a, j + 1, '"') {
                lemma_string_scan_prefix(a, x, j + 2, line, acc.push('"'));
            } else if char_at_is(a, j + 1, '\\') {
                lemma_string_scan_prefix(a, x, j + 2, line, acc.push('\\'));
            } else {
                lemma_string_scan_prefix(a, x, j + 1, line, acc.push('\\'));
            }
        } else if a[j] == '\n' {
            lemma_string_scan_prefix(a, x, j + 1, line + 1, acc.push('\n'));
        } else {
            lemma_string_scan_prefix(a, x, j + 1, line, acc.push(a[j]));
        }
    }
}

/// A step of the lexer that does not run into an unclosed comment or string
/// does the same whatever follows the text after a space.
#[verifier::rlimit(60)]
proof fn lemma_step_prefix(a: Seq<char>, x: Seq<char>, i: int, line: nat)
    requires
        0 <= i < a.len(),
        x.len() >= 1,
        x[0] == ' ',
        !(a[i] == '/' && char_at_is(a, i + 1, '/') && run_end(a, i + 1, CharClass::NotNewline)
            >= a.len()),
        !(a[i] == '"' && !string_closed(a, i + 1)),
        !(lex_step(a, i, line) is Fail),
    ensures
        lex_step(a + x, i, line) == lex_step(a, i, line),
{
    let s = a + x;
    assert(s[i] == a[i]);
    lemma_char_at_prefix(a, x, i + 1, '/');
    lemma_char_at_prefix(a, x, i + 1, '=');
    lemma_char_at_prefix(a, x, i + 1, 'x');
    lemma_run_end(a, i + 1, CharClass::Word);
    lemma_run_end(a, i + 1, CharClass::Decimal);
    lemma_run_end(a, i + 1, CharClass::NotNewline);
    lemma_run_end_prefix(a, x, i + 1, CharClass::Word);
    lemma_run_end_prefix(a, x, i + 1, CharClass::Decimal);
    if a[i] == '/' && char_at_is(a, i + 1, '/') {
        lemma_run_end_prefix(a, x, i + 1, CharClass::NotNewline);
    }
    if a[i] == '"' {
        lemma_string_scan_prefix(a, x, i + 1, line, seq![]);
    }
    let ew = run_end(a, i + 1, CharClass::Word);
    assert(s.subrange(i, ew) =~= a.subrange(i, ew));
    let ed = run_end(a, i + 1, CharClass::Decimal);
    assert(s.subrange(i, ed) =~= a.subrange(i, ed));
    if i + 2 <= a.len() {
        lemma_run_end(a, i + 2, CharClass::Hex);
        lemma_run_end_prefix(a, x, i + 2, CharClass::Hex);
        let eh = run_end(a, i + 2, CharClass::Hex);
        assert(s.subrange(i + 2, eh) =~= a.subrange(i + 2, eh));
    }
}

/// Lexing a text followed by a space and anything else reads the text as it
/// would alone, when it does not end inside a comment or a string literal:
/// the same tokens, up to the space, on the line below its last line feed.
proof fn lemma_lex_prefix(
    a: Seq<char>,
    x: Seq<char>,
    i: int,
    line: nat,
    acc: Seq<SpecTokenInfo>,
)
    requires
        0 <= i <= a.len(),
        x.len() >= 1,
        x[0] == ' ',
        ends_outside(a, i, line),
        lex_from(a, i, line, acc) is Ok,
    ensures
        lex_from(a, i, line, acc) matches Ok(r) && lex_from(a + x, i, line, acc) == lex_from(
            a + x,
            a.len() as int,
            line + newline_count(a.subrange(i, a.len() as int)),
            r,
        ),
    decreases a.len() - i,
{
    if i == a.len() {
        lemma_newline_none_range(a, i, i);
    } else {
        lemma_step_advances(a, i, line);
        lemma_step_lines(a, i, line);
        lemma_step_prefix(a, x, i, line);
        match lex_step(a, i, line) {
            LexStep::Skip { next, line: l } => {
                lemma_lex_prefix(a, x, next, l, acc);
                lemma_newline_split(a, i, next, a.len() as int);
            },
            LexStep::Emit { token, next, line: l } => {
                lemma_lex_prefix(a, x, next, l, acc.push(token));
                lemma_newline_split(a, i, next, a.len() as int);
            },
            LexStep::Fail(_) => {},
        }
    }
}

/// Two texts joined by a space lex as the first one's tokens followed by the
/// second one's, each moved down by the first one's line feeds; when both lex
/// and the first does not end inside a `//` comment or a string literal.
pub proof fn lemma_lex_join(a: Seq<char>, b: Seq<char>)
    requires
        lex_spec(a) is Ok,
        lex_spec(b) is Ok,
        ends_outside(a, 0, 1),
    ensures
        lex_spec(a + seq![' '] + b) == Ok::<Seq<SpecTokenInfo>, LexError>(lex_spec(a)->Ok_0
            + shift_lines(lex_spec(b)->Ok_0, newline_count(a))),
{
    let x = seq![' '] + b;
    let t = a + seq![' '] + b;
    assert(t =~= a + x);
    lemma_lex_prefix(a, x, 0, 1, seq![]);
    let ra = lex_spec(a)->Ok_0;
    let rb = lex_spec(b)->Ok_0;
    assert(a.subrange(0, a.len() as int) =~= a);
    let l = 1 + newline_count(a);
    assert(t[a.len() as int] == ' ');
    assert(lex_step(t, a.len() as int, l) == LexStep::Skip { next: a.len() + 1int, line: l });
    let p = a + seq![' '];
    assert(t =~= p + b);
    lemma_lex_shift(p, b, 0, 1, newline_count(a), seq![], ra);
    assert(rb.subrange(0, rb.len() as int) =~= rb);
}


proof fn lemma_decimal_digits(n: nat)
    ensures
        decimal(n).len() >= 1,
        n >= 10 ==> decimal(n).len() >= 2,
        forall|k: int| 0 <= k < decimal(n).len() ==> is_decimal_digit(#[trigger] decimal(n)[k]),
        digits_value(decimal(n), 10) == n,
        decimal(n).len() >= 2 ==> decimal(n)[0] != '0',
    decreases n,
{
    if n >= 10 {
        lemma_decimal_digits(n / 10);
        let d = decimal(n / 10);
        let c = digit_char(n % 10);
        assert(decimal(n) == d.push(c));
        assert(d.push(c).drop_last() =~= d);
        assert(d.push(c).last() == c);
        assert((c as int) == (n % 10) + 48);
        assert(crate::lexer::digit_value(c) == n % 10);
        assert(digits_value(d.push(c), 10) == digits_value(d, 10) * 10 + n % 10);
        assert((n / 10) * 10 + n % 10 == n);
        if d.len() == 1 {
            assert(n / 10 < 10);
            assert(d == seq![digit_char(n / 10)]);
            assert(n / 10 >= 1);
            assert((d[0] as int) == (n / 10) + 48);
        }
        assert(d.push(c)[0] == d[0]);
    } else {
        let c = digit_char(n);
        assert((c as int) == n + 48);
        assert(seq![c].drop_last() =~= Seq::<char>::empty());
        assert(digits_value(Seq::<char>::empty(), 10) == 0);
        assert(seq![c].last() == c);
    }
}

/// Lexing the decimal text of any number up to `i32::MAX` reads that very
/// number back, as one token on line 1.
pub proof fn law_decimal_round_trip(n: nat)
    requires
        n <= i32::MAX,
    ensures
        lex_spec(decimal(n)) == Ok::<Seq<SpecTokenInfo>, LexError>(
            seq![SpecTokenInfo { token: SpecToken::Int(n as i32), line: 1 }],
        ),
{
    let s = decimal(n);
    lemma_decimal_digits(n);
    lemma_run_end(s, 1, CharClass::Decimal);
    assert(run_end(s, 1, CharClass::Decimal) == s.len()) by {
        if run_end(s, 1, CharClass::Decimal) < s.len() {
            let e = run_end(s, 1, CharClass::Decimal);
            assert(is_decimal_digit(s[e]));
        }
    }
    assert(s.subrange(0, s.len() as int) =~= s);
    let c = s[0];
    assert(is_decimal_digit(c));
    assert(!char_at_is(s, 1, 'x')) by {
        if s.len() >= 2 {
            assert(is_decimal_digit(s[1]));
        }
    }
    assert(lex_step(s, 0, 1) == LexStep::Emit {
        token: SpecTokenInfo { token: SpecToken::Int(n as i32), line: 1 },
        next: s.len() as int,
        line: 1,
    });
    let tok = SpecTokenInfo { token: SpecToken::Int(n as i32), line: 1 };
    assert(seq![tok] =~= Seq::<SpecTokenInfo>::empty().push(tok));
    assert(lex_from(s, s.len() as int, 1, seq![tok]) == Ok::<Seq<SpecTokenInfo>, LexError>(
        seq![tok],
    ));
    assert(lex_from(s, 0, 1, seq![]) == lex_from(s, s.len() as int, 1, seq![tok]));
}


/// How a character is written inside a string literal: line feed, tab,
/// quote and backslash as their escapes, anything else as itself.
pub open spec fn escape_char(c: char) -> Seq<char> {
    if c == '\n' {
        seq!['\\', 'n']
    } else if c == '\t' {
        seq!['\\', 't']
    } else if c == '"' {
        seq!['\\', '"']
    } else if c == '\\' {
        seq!['\\', '\\']
    } else {
        seq![c]
    }
}

/// How a text is written inside a string literal.
pub open spec fn escape(u: Seq<char>) -> Seq<char>
    decreases u.len(),
{
    if u.len() == 0 {
        Seq::empty()
    } else {
        escape_char(u[0]) + escape(u.drop_first())
    }
}

proof fn lemma_scan_escaped(p: Seq<char>, u: Seq<char>, line: nat, acc: Seq<char>)
    ensures
        string_scan(p + escape(u) + seq!['"'], p.len() as int, line, acc) == (StrScan {
            end: p.len() + escape(u).len() + 1int,
            line,
            text: acc + u,
        }),
    decreases u.len(),
{
    let s = p + escape(u) + seq!['"'];
    let j = p.len() as int;
    if u.len() == 0 {
        assert(escape(u) == Seq::<char>::empty());
        assert(s[j] == '"');
        assert(acc + u =~= acc);
    } else {
        let c = u[0];
        let rest = u.drop_first();
        let e = escape_char(c);
        assert(escape(u) == e + escape(rest));
        assert(s =~= (p + e) + escape(rest) + seq!['"']);
        lemma_scan_escaped(p + e, rest, line, acc.push(c));
        assert(acc.push(c) + rest =~= acc + u);
        assert(s[j] == e[0]);
        if e.len() == 2 {
            assert(s[j + 1] == e[1]);
        }
    }
}

/// Lexing a string literal written with [`escape`] between quotes reads the
/// very text back, as one token on line 1: what the escapes stand for is
/// what they were written for.
pub proof fn law_string_round_trip(u: Seq<char>)
    ensures
        lex_spec(seq!['"'] + escape(u) + seq!['"']) == Ok::<Seq<SpecTokenInfo>, LexError>(
            seq![SpecTokenInfo { token: SpecToken::StringLiteral(u), line: 1 }],
        ),
{
    let q = seq!['"'] + escape(u) + seq!['"'];
    lemma_scan_escaped(seq!['"'], u, 1, seq![]);
    assert(Seq::<char>::empty() + u =~= u);
    assert(q[0] == '"');
    let tok = SpecTokenInfo { token: SpecToken::StringLiteral(u), line: 1 };
    assert(lex_step(q, 0, 1) == LexStep::Emit { token: tok, next: q.len() as int, line: 1 });
    assert(seq![tok] =~= Seq::<SpecTokenInfo>::empty().push(tok));
    assert(lex_from(q, q.len() as int, 1, seq![tok]) == Ok::<Seq<SpecTokenInfo>, LexError>(
        seq![tok],
    ));
    assert(lex_from(q, 0, 1, seq![]) == lex_from(q, q.len() as int, 1, seq![tok]));
}

} // verus!
