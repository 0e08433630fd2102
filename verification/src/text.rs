//! Text building blocks shared by the lexer, the parser's error messages and
//! the code generator: decimal rendering of integers, comma-separated byte
//! lists, and the two facts about `std` strings that Verus does not know.

use vstd::prelude::*;

verus! {

broadcast use vstd::string::group_string_axioms;

/// `String::push` appends the given character to the end of the string
/// (its documented behaviour); nothing else about the string changes.
pub assume_specification[ String::push ](s: &mut String, ch: char)
    ensures
        final(s)@ == old(s)@.push(ch),
;

/// The text that `{:?}` (std's `Debug` for `str`) writes for a string: the
/// string between double quotes, with std's escapes.
pub uninterp spec fn debug_str_text(s: Seq<char>) -> Seq<char>;

/// Formats a string with std's `Debug` for `str` (`format!("{:?}", s)`).
/// Claimed: the result is the named text `debug_str_text` of the argument;
/// which escapes std chooses is left unsaid.
#[verifier::external_body]
pub(crate) fn debug_str(s: &str) -> (r: String)
    ensures
        r@ == debug_str_text(s@),
{
    format!("{:?}", s)
}

/// The ASCII character of a decimal digit.
pub open spec fn digit_char(d: nat) -> char {
    (d + 48) as char
}

/// The decimal representation of a natural number, without leading zeros.
pub open spec fn decimal(n: nat) -> Seq<char>
    decreases n,
{
    if n < 10 {
        seq![digit_char(n)]
    } else {
        decimal(n / 10).push(digit_char(n % 10))
    }
}

/// The decimal representation of an integer, with a leading `-` when negative
/// (what `Display` writes for Rust's integer types).
pub open spec fn int_text(v: int) -> Seq<char> {
    if v < 0 {
        seq!['-'] + decimal((-v) as nat)
    } else {
        decimal(v as nat)
    }
}

/// The bytes, in decimal, separated by `", "`.
pub open spec fn join_decimals(bs: Seq<u8>) -> Seq<char>
    decreases bs.len(),
{
    if bs.len() == 0 {
        seq![]
    } else if bs.len() == 1 {
        decimal(bs[0] as nat)
    } else {
        join_decimals(bs.drop_last()) + ", "@ + decimal(bs.last() as nat)
    }
}

fn digit(d: u128) -> (c: char)
    requires
        d < 10,
    ensures
        c == digit_char(d as nat),
{
    let b: u8 = (d as u8) + 48;
    b as char
}

/// Appends the decimal representation of `n`.
pub fn push_decimal(out: &mut String, n: u128)
    ensures
        final(out)@ == old(out)@ + decimal(n as nat),
    decreases n,
{
    if n >= 10 {
        push_decimal(out, n / 10);
    }
    let ghost before = out@;
    out.push(digit(n % 10));
    proof {
        if n >= 10 {
            assert(out@ =~= old(out)@ + decimal((n / 10) as nat).push(digit_char((n % 10) as nat)));
        } else {
            assert(out@ =~= old(out)@ + decimal(n as nat));
        }
    }
}

/// Appends the decimal representation of a `usize`.
pub fn push_usize(out: &mut String, n: usize)
    ensures
        final(out)@ == old(out)@ + decimal(n as nat),
{
    push_decimal(out, n as u128);
}

/// Appends the decimal representation of an `i32`, as `Display` writes it.
pub fn push_i32(out: &mut String, v: i32)
    ensures
        final(out)@ == old(out)@ + int_text(v as int),
{
    if v < 0 {
        let ghost before = out@;
        out.push('-');
        let m: i64 = -(v as i64);
        push_decimal(out, m as u128);
        assert(out@ =~= before + (seq!['-'] + decimal((-v) as nat)));
    } else {
        push_decimal(out, v as u128);
    }
}

/// Appends the bytes of `bs` in decimal, separated by `", "`.
pub fn push_joined_decimals(out: &mut String, bs: &[u8])
    ensures
        final(out)@ == old(out)@ + join_decimals(bs@),
{
    let n = bs.len();
    let mut i: usize = 0;
    while i < n
        invariant
            n == bs@.len(),
            i <= n,
            out@ == old(out)@ + join_decimals(bs@.take(i as int)),
        decreases n - i,
    {
        let ghost prev = out@;
        if i > 0 {
            out.append(", ");
        }
        push_decimal(out, bs[i] as u128);
        proof {
            let t = bs@.take(i as int + 1);
            assert(t.drop_last() =~= bs@.take(i as int));
            assert(t.last() == bs@[i as int]);
            if i == 0 {
                assert(bs@.take(0) =~= Seq::<u8>::empty());
            }
        }
        i = i + 1;
        assert(out@ =~= old(out)@ + join_decimals(bs@.take(i as int)));
    }
    assert(bs@.take(n as int) =~= bs@);
}

/// The characters of a string.
pub fn chars_of(source: &str) -> (v: Vec<char>)
    ensures
        v@ == source@,
{
    let mut v: Vec<char> = Vec::new();
    for c in iter: source.chars()
        invariant
            iter.seq() == source@,
            v@ == iter.seq().take(iter.index() as int),
    {
        v.push(c);
    }
    v
}

/// Whether the characters `s[i..e]` spell `lit`.
pub(crate) fn spells(s: &Vec<char>, i: usize, e: usize, lit: &str) -> (r: bool)
    requires
        i <= e <= s@.len(),
    ensures
        r == (s@.subrange(i as int, e as int) == lit@),
{
    let n = lit.unicode_len();
    if e - i != n {
        assert(s@.subrange(i as int, e as int).len() != lit@.len());
        return false;
    }
    let mut k: usize = 0;
    while k < n
        invariant
            n == lit@.len(),
            e - i == n,
            i <= e <= s@.len(),
            k <= n,
            forall|m: int| 0 <= m < k ==> s@[i + m] == lit@[m],
        decreases n - k,
    {
        if s[i + k] != lit.get_char(k) {
            assert(s@.subrange(i as int, e as int)[k as int] != lit@[k as int]);
            return false;
        }
        k = k + 1;
    }
    assert(s@.subrange(i as int, e as int) =~= lit@);
    true
}

} // verus!
