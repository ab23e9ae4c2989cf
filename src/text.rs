use vstd::prelude::*;
use vstd::string::*;

verus! {

/// The characters with the Unicode White_Space property, which `char::is_whitespace`
/// tests for.
pub open spec fn white(c: char) -> bool {
    ('\u{9}' <= c <= '\u{d}') || c == ' ' || c == '\u{85}' || c == '\u{a0}' || c == '\u{1680}' || (
    '\u{2000}' <= c <= '\u{200a}') || c == '\u{2028}' || c == '\u{2029}' || c == '\u{202f}' || c
        == '\u{205f}' || c == '\u{3000}'
}

/// Whether `char::is_alphanumeric` holds of a character (Unicode alphabetic or numeric).
pub uninterp spec fn alnum(c: char) -> bool;

/// Relies on `char::is_whitespace`: true exactly of the White_Space characters.
#[verifier::external_body]
pub(crate) fn is_space(c: char) -> (r: bool)
    ensures
        r == white(c),
{
    c.is_whitespace()
}

/// Relies on `char::is_alphanumeric`: a fixed property of the character alone.
#[verifier::external_body]
pub(crate) fn is_alnum(c: char) -> (r: bool)
    ensures
        r == alnum(c),
{
    c.is_alphanumeric()
}

/// Relies on `str::chars` collected into a `Vec`: the characters of the string, in order.
#[verifier::external_body]
pub(crate) fn chars_of(s: &String) -> (r: Vec<char>)
    ensures
        r@ == s@,
{
    s.chars().collect()
}

/// Relies on `String: FromIterator<&char>`: the string made of exactly these characters.
#[verifier::external_body]
pub(crate) fn string_of(v: &Vec<char>) -> (r: String)
    ensures
        r@ == v@,
{
    v.iter().collect()
}

/// Appends the characters of `s` to `out`.
pub fn push_str(out: &mut Vec<char>, s: &str)
    ensures
        final(out)@ == old(out)@ + s@,
{
    let n = s.unicode_len();
    let mut i: usize = 0;
    while i < n
        invariant
            n == s@.len(),
            i <= n,
            out@ == old(out)@ + s@.subrange(0, i as int),
        decreases n - i,
    {
        let c = s.get_char(i);
        out.push(c);
        i = i + 1;
        assert(s@.subrange(0, i as int) =~= s@.subrange(0, i - 1) .push(c));
    }
    assert(s@.subrange(0, n as int) =~= s@);
}

/// Whether the characters in `v` spell exactly `s`.
pub fn eq_lit(v: &Vec<char>, s: &str) -> (r: bool)
    ensures
        r == (v@ == s@),
{
    let n = s.unicode_len();
    if v.len() != n {
        return false;
    }
    let mut i: usize = 0;
    while i < n
        invariant
            n == s@.len(),
            v@.len() == n,
            i <= n,
            forall|k: int| 0 <= k < i ==> v@[k] == s@[k],
        decreases n - i,
    {
        if v[i] != s.get_char(i) {
            return false;
        }
        i = i + 1;
    }
    assert(v@ =~= s@);
    true
}

/// The decimal digit character for `d < 10`.
pub open spec fn digit_char(d: nat) -> char {
    (('0' as u8) + d) as char
}

/// Decimal notation of `v`: no leading zeros, and "0" for zero.
pub open spec fn decimal(v: nat) -> Seq<char>
    decreases v,
{
    if v < 10 {
        seq![digit_char(v)]
    } else {
        decimal(v / 10).push(digit_char(v % 10))
    }
}

/// Appends the decimal notation of `v` to `out`.
pub fn push_decimal(out: &mut Vec<char>, v: u64)
    ensures
        final(out)@ == old(out)@ + decimal(v as nat),
    decreases v,
{
    if v >= 10 {
        push_decimal(out, v / 10);
    }
    let d = (v % 10) as u8;
    out.push((48u8 + d) as char);
    assert(out@ =~= old(out)@ + decimal(v as nat));
}

} // verus!
