//! Character-level helpers: decimal/hex rendering, whitespace, string building.
use vstd::prelude::*;
use vstd::std_specs::iter::IteratorSpec;

verus! {

/// Appends one character to a `String` (`String::push`).
#[verifier::external_body]
pub(crate) fn push_char(s: &mut String, c: char)
    ensures
        final(s)@ == old(s)@.push(c),
{
    s.push(c);
}

/// The characters of a string slice, in order.
pub fn chars_of(s: &str) -> (v: Vec<char>)
    ensures
        v@ == s@,
{
    let mut v: Vec<char> = Vec::new();
    let it = s.chars();
    for c in iter: it
        invariant
            v@ == iter.seq().take(iter.index() as int),
            iter.seq() == s@,
    {
        v.push(c);
    }
    v
}

/// A `String` holding exactly the given characters.
pub fn string_of(v: &Vec<char>) -> (s: String)
    ensures
        s@ == v@,
{
    let mut s = String::new();
    let mut i: usize = 0;
    while i < v.len()
        invariant
            i <= v.len(),
            s@ == v@.take(i as int),
        decreases v.len() - i,
    {
        push_char(&mut s, v[i]);
        i += 1;
        assert(s@ =~= v@.take(i as int));
    }
    assert(v@.take(i as int) =~= v@);
    s
}

/// Appends the characters of `add` to `v`.
pub fn extend_chars(v: &mut Vec<char>, src: &Vec<char>)
    ensures
        final(v)@ == old(v)@ + src@,
{
    let mut i: usize = 0;
    while i < src.len()
        invariant
            i <= src.len(),
            v@ == old(v)@ + src@.take(i as int),
        decreases src.len() - i,
    {
        v.push(src[i]);
        i += 1;
        assert(v@ =~= old(v)@ + src@.take(i as int));
    }
    assert(src@.take(i as int) =~= src@);
}

/// Appends the characters of a string slice.
pub fn push_str(v: &mut Vec<char>, s: &str)
    ensures
        final(v)@ == old(v)@ + s@,
{
    let c = chars_of(s);
    extend_chars(v, &c);
}

/// Appends the decimal rendering of `n`.
pub fn push_dec(v: &mut Vec<char>, n: u64)
    ensures
        final(v)@ == old(v)@ + dec_spec(n as nat),
{
    let d = dec_chars(n);
    extend_chars(v, &d);
}

/// The character for a digit value below 16 (lower-case hex letters).
pub open spec fn digit_char(d: nat) -> char {
    if d < 10 {
        (('0' as u32) + d) as char
    } else {
        (('a' as u32) + (d - 10)) as char
    }
}

/// Decimal rendering of a natural number, without leading zeros.
pub open spec fn dec_spec(n: nat) -> Seq<char>
    decreases n,
{
    if n < 10 {
        seq![digit_char(n)]
    } else {
        dec_spec(n / 10).push(digit_char(n % 10))
    }
}

/// The lowest `width` hex digits of `n`, most significant first.
pub open spec fn hex_spec(n: nat, width: nat) -> Seq<char>
    decreases width,
{
    if width == 0 {
        seq![]
    } else {
        hex_spec(n / 16, (width - 1) as nat).push(digit_char(n % 16))
    }
}

/// `16^w`.
pub open spec fn pow16(w: nat) -> nat
    decreases w,
{
    if w == 0 {
        1
    } else {
        16 * pow16((w - 1) as nat)
    }
}

/// A character `digit_char` produces.
pub open spec fn is_digit_char(c: char) -> bool {
    ('0' <= c && c <= '9') || ('a' <= c && c <= 'f')
}

pub proof fn lemma_digit_char(d: nat)
    requires
        d < 16,
    ensures
        is_digit_char(digit_char(d)),
        digit_char(d) as nat == (if d < 10 { 48 + d } else { 87 + d }),
        d < 10 ==> '0' <= digit_char(d) && digit_char(d) <= '9',
{
}

/// Every character of a decimal rendering is a decimal digit.
pub proof fn lemma_dec_digits(n: nat)
    ensures
        dec_spec(n).len() > 0,
        forall|i: int| 0 <= i < dec_spec(n).len() ==> '0' <= #[trigger] dec_spec(n)[i] && dec_spec(n)[i] <= '9',
    decreases n,
{
    lemma_digit_char(n % 10);
    if n >= 10 {
        lemma_dec_digits(n / 10);
    }
}

/// Every character of a hex rendering is a hex digit.
pub proof fn lemma_hex_digits(n: nat, w: nat)
    ensures
        hex_spec(n, w).len() == w,
        forall|i: int| 0 <= i < hex_spec(n, w).len() ==> is_digit_char(#[trigger] hex_spec(n, w)[i]),
    decreases w,
{
    if w > 0 {
        lemma_hex_digits(n / 16, (w - 1) as nat);
        lemma_digit_char(n % 16);
    }
}

fn digit_of(d: u64) -> (c: char)
    requires
        d < 16,
    ensures
        c == digit_char(d as nat),
{
    if d < 10 {
        let c = (('0' as u8) + (d as u8)) as char;
        assert(c == digit_char(d as nat)) by {
            assert(('0' as u32) + d as nat == ((('0' as u8) + (d as u8)) as u8) as u32);
        }
        c
    } else {
        let c = (('a' as u8) + ((d - 10) as u8)) as char;
        c
    }
}

/// Decimal rendering of `n` (`{}` formatting of an unsigned integer).
pub fn dec_chars(n: u64) -> (v: Vec<char>)
    ensures
        v@ == dec_spec(n as nat),
    decreases n,
{
    if n < 10 {
        let mut v = Vec::new();
        v.push(digit_of(n));
        v
    } else {
        let mut v = dec_chars(n / 10);
        v.push(digit_of(n % 10));
        v
    }
}

/// The lowest `width` hex digits of `n` (`{:0width$x}` formatting when `n` fits).
pub fn hex_chars(n: u64, width: u64) -> (v: Vec<char>)
    ensures
        v@ == hex_spec(n as nat, width as nat),
    decreases width,
{
    if width == 0 {
        Vec::new()
    } else {
        let mut v = hex_chars(n / 16, width - 1);
        v.push(digit_of(n % 16));
        v
    }
}

} // verus!
