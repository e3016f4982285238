//! UTF-8 encoding and FNV-1a hashing over the bytes of text.
use vstd::prelude::*;
use crate::state::fnv_mix;

verus! {

/// UTF-8 encoding of a character.
pub open spec fn utf8(c: char) -> Seq<u8> {
    let u = c as int;
    if u < 0x80 {
        seq![u as u8]
    } else if u < 0x800 {
        seq![(0xC0 + u / 64) as u8, (0x80 + u % 64) as u8]
    } else if u < 0x10000 {
        seq![(0xE0 + u / 4096) as u8, (0x80 + (u / 64) % 64) as u8, (0x80 + u % 64) as u8]
    } else {
        seq![(0xF0 + u / 262144) as u8, (0x80 + (u / 4096) % 64) as u8, (0x80 + (u / 64) % 64) as u8, (0x80 + u % 64) as u8]
    }
}

/// UTF-8 encoding of a string.
pub open spec fn utf8_seq(s: Seq<char>) -> Seq<u8>
    decreases s.len(),
{
    if s.len() == 0 {
        seq![]
    } else {
        utf8_seq(s.drop_last()) + utf8(s.last())
    }
}

/// FNV-1a over bytes, starting from `h`.
pub open spec fn fnv_bytes(h: u64, bs: Seq<u8>) -> u64
    decreases bs.len(),
{
    if bs.len() == 0 {
        h
    } else {
        fnv_mix(fnv_bytes(h, bs.drop_last()), bs.last() as u64)
    }
}

/// The UTF-8 bytes of a character.
pub fn utf8_bytes(c: char) -> (v: Vec<u8>)
    ensures
        v@ == utf8(c),
{
    let u = c as u32;
    let mut v: Vec<u8> = Vec::new();
    if u < 0x80 {
        v.push(u as u8);
    } else if u < 0x800 {
        v.push((0xC0 + u / 64) as u8);
        v.push((0x80 + u % 64) as u8);
    } else if u < 0x10000 {
        v.push((0xE0 + u / 4096) as u8);
        v.push((0x80 + (u / 64) % 64) as u8);
        v.push((0x80 + u % 64) as u8);
    } else {
        v.push((0xF0 + u / 262144) as u8);
        v.push((0x80 + (u / 4096) % 64) as u8);
        v.push((0x80 + (u / 64) % 64) as u8);
        v.push((0x80 + u % 64) as u8);
    }
    assert(v@ =~= utf8(c));
    v
}

pub proof fn lemma_fnv_bytes_concat(h: u64, a: Seq<u8>, b: Seq<u8>)
    ensures
        fnv_bytes(h, a + b) == fnv_bytes(fnv_bytes(h, a), b),
    decreases b.len(),
{
    if b.len() == 0 {
        assert(a + b =~= a);
    } else {
        lemma_fnv_bytes_concat(h, a, b.drop_last());
        assert((a + b).drop_last() =~= a + b.drop_last());
        assert((a + b).last() == b.last());
    }
}

/// FNV-1a over the UTF-8 bytes of `s`, from `h`.
pub fn fnv_chars(h: u64, s: &Vec<char>) -> (r: u64)
    ensures
        r == fnv_bytes(h, utf8_seq(s@)),
{
    let mut h = h;
    let ghost h0 = h;
    let mut i: usize = 0;
    while i < s.len()
        invariant
            i <= s@.len(),
            h == fnv_bytes(h0, utf8_seq(s@.take(i as int))),
        decreases s@.len() - i,
    {
        let bs = utf8_bytes(s[i]);
        let ghost hc = h;
        let mut j: usize = 0;
        while j < bs.len()
            invariant
                j <= bs@.len(),
                h == fnv_bytes(hc, bs@.take(j as int)),
            decreases bs@.len() - j,
        {
            assert(bs@.take(j as int + 1).drop_last() =~= bs@.take(j as int));
            h = (h ^ (bs[j] as u64)).wrapping_mul(crate::state::FNV_PRIME);
            j += 1;
        }
        proof {
            assert(bs@.take(j as int) =~= bs@);
            assert(s@.take(i as int + 1).drop_last() =~= s@.take(i as int));
            lemma_fnv_bytes_concat(h0, utf8_seq(s@.take(i as int)), utf8(s@[i as int]));
        }
        i += 1;
    }
    assert(s@.take(i as int) =~= s@);
    h
}

} // verus!
