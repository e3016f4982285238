//! 64-bit rotations and the facts the rest of the crate needs about them.
use vstd::prelude::*;

verus! {

/// `x.rotate_left(k % 64)`.
pub open spec fn rotl(x: u64, k: u32) -> u64 {
    let m = (k % 64) as u64;
    if m == 0 {
        x
    } else {
        (x << m) | (x >> ((64 - m) as u64))
    }
}

/// `x.rotate_right(k % 64)`.
pub open spec fn rotr(x: u64, k: u32) -> u64 {
    let m = (k % 64) as u64;
    if m == 0 {
        x
    } else {
        (x >> m) | (x << ((64 - m) as u64))
    }
}

/// Rotate left by `k & 63` bits.
pub fn rotate_left(x: u64, k: u32) -> (r: u64)
    ensures
        r == rotl(x, k),
{
    let m = (k & 63) as u64;
    assert(k & 63 == k % 64) by (bit_vector);
    if m == 0 {
        x
    } else {
        (x << m) | (x >> (64 - m))
    }
}

/// Rotate right by `k & 63` bits.
pub fn rotate_right(x: u64, k: u32) -> (r: u64)
    ensures
        r == rotr(x, k),
{
    let m = (k & 63) as u64;
    assert(k & 63 == k % 64) by (bit_vector);
    if m == 0 {
        x
    } else {
        (x >> m) | (x << (64 - m))
    }
}

proof fn lemma_rot_pair(x: u64, m: u64)
    requires
        0 < m < 64,
    ensures
        ((((x << m) | (x >> ((64 - m) as u64))) >> m) | (((x << m) | (x >> ((64 - m) as u64))) << ((64 - m) as u64))) == x,
        ((((x >> m) | (x << ((64 - m) as u64))) << m) | (((x >> m) | (x << ((64 - m) as u64))) >> ((64 - m) as u64))) == x,
{
    assert(((((x << m) | (x >> ((64 - m) as u64))) >> m) | (((x << m) | (x >> ((64 - m) as u64))) << ((64 - m) as u64))) == x) by (bit_vector)
        requires 0 < m < 64;
    assert(((((x >> m) | (x << ((64 - m) as u64))) << m) | (((x >> m) | (x << ((64 - m) as u64))) >> ((64 - m) as u64))) == x) by (bit_vector)
        requires 0 < m < 64;
}

/// Rotating right undoes rotating left by the same amount, and the converse.
pub proof fn lemma_rot_inverse(x: u64, k: u32)
    ensures
        rotr(rotl(x, k), k) == x,
        rotl(rotr(x, k), k) == x,
{
    let m = (k % 64) as u64;
    if m != 0 {
        lemma_rot_pair(x, m);
    }
}

/// Bit `i` of `x`.
pub open spec fn bit(x: u64, i: u64) -> u64 {
    (x >> i) & 1
}

proof fn lemma_bits_ext_bv(x: u64, y: u64)
    requires
        (x >> 0u64) & 1 == (y >> 0u64) & 1 &&
        (x >> 1u64) & 1 == (y >> 1u64) & 1 &&
        (x >> 2u64) & 1 == (y >> 2u64) & 1 &&
        (x >> 3u64) & 1 == (y >> 3u64) & 1 &&
        (x >> 4u64) & 1 == (y >> 4u64) & 1 &&
        (x >> 5u64) & 1 == (y >> 5u64) & 1 &&
        (x >> 6u64) & 1 == (y >> 6u64) & 1 &&
        (x >> 7u64) & 1 == (y >> 7u64) & 1 &&
        (x >> 8u64) & 1 == (y >> 8u64) & 1 &&
        (x >> 9u64) & 1 == (y >> 9u64) & 1 &&
        (x >> 10u64) & 1 == (y >> 10u64) & 1 &&
        (x >> 11u64) & 1 == (y >> 11u64) & 1 &&
        (x >> 12u64) & 1 == (y >> 12u64) & 1 &&
        (x >> 13u64) & 1 == (y >> 13u64) & 1 &&
        (x >> 14u64) & 1 == (y >> 14u64) & 1 &&
        (x >> 15u64) & 1 == (y >> 15u64) & 1 &&
        (x >> 16u64) & 1 == (y >> 16u64) & 1 &&
        (x >> 17u64) & 1 == (y >> 17u64) & 1 &&
        (x >> 18u64) & 1 == (y >> 18u64) & 1 &&
        (x >> 19u64) & 1 == (y >> 19u64) & 1 &&
        (x >> 20u64) & 1 == (y >> 20u64) & 1 &&
        (x >> 21u64) & 1 == (y >> 21u64) & 1 &&
        (x >> 22u64) & 1 == (y >> 22u64) & 1 &&
        (x >> 23u64) & 1 == (y >> 23u64) & 1 &&
        (x >> 24u64) & 1 == (y >> 24u64) & 1 &&
        (x >> 25u64) & 1 == (y >> 25u64) & 1 &&
        (x >> 26u64) & 1 == (y >> 26u64) & 1 &&
        (x >> 27u64) & 1 == (y >> 27u64) & 1 &&
        (x >> 28u64) & 1 == (y >> 28u64) & 1 &&
        (x >> 29u64) & 1 == (y >> 29u64) & 1 &&
        (x >> 30u64) & 1 == (y >> 30u64) & 1 &&
        (x >> 31u64) & 1 == (y >> 31u64) & 1 &&
        (x >> 32u64) & 1 == (y >> 32u64) & 1 &&
        (x >> 33u64) & 1 == (y >> 33u64) & 1 &&
        (x >> 34u64) & 1 == (y >> 34u64) & 1 &&
        (x >> 35u64) & 1 == (y >> 35u64) & 1 &&
        (x >> 36u64) & 1 == (y >> 36u64) & 1 &&
        (x >> 37u64) & 1 == (y >> 37u64) & 1 &&
        (x >> 38u64) & 1 == (y >> 38u64) & 1 &&
        (x >> 39u64) & 1 == (y >> 39u64) & 1 &&
        (x >> 40u64) & 1 == (y >> 40u64) & 1 &&
        (x >> 41u64) & 1 == (y >> 41u64) & 1 &&
        (x >> 42u64) & 1 == (y >> 42u64) & 1 &&
        (x >> 43u64) & 1 == (y >> 43u64) & 1 &&
        (x >> 44u64) & 1 == (y >> 44u64) & 1 &&
        (x >> 45u64) & 1 == (y >> 45u64) & 1 &&
        (x >> 46u64) & 1 == (y >> 46u64) & 1 &&
        (x >> 47u64) & 1 == (y >> 47u64) & 1 &&
        (x >> 48u64) & 1 == (y >> 48u64) & 1 &&
        (x >> 49u64) & 1 == (y >> 49u64) & 1 &&
        (x >> 50u64) & 1 == (y >> 50u64) & 1 &&
        (x >> 51u64) & 1 == (y >> 51u64) & 1 &&
        (x >> 52u64) & 1 == (y >> 52u64) & 1 &&
        (x >> 53u64) & 1 == (y >> 53u64) & 1 &&
        (x >> 54u64) & 1 == (y >> 54u64) & 1 &&
        (x >> 55u64) & 1 == (y >> 55u64) & 1 &&
        (x >> 56u64) & 1 == (y >> 56u64) & 1 &&
        (x >> 57u64) & 1 == (y >> 57u64) & 1 &&
        (x >> 58u64) & 1 == (y >> 58u64) & 1 &&
        (x >> 59u64) & 1 == (y >> 59u64) & 1 &&
        (x >> 60u64) & 1 == (y >> 60u64) & 1 &&
        (x >> 61u64) & 1 == (y >> 61u64) & 1 &&
        (x >> 62u64) & 1 == (y >> 62u64) & 1 &&
        (x >> 63u64) & 1 == (y >> 63u64) & 1,
    ensures
        x == y,
{
    assert(x == y) by (bit_vector)
        requires
        (x >> 0u64) & 1 == (y >> 0u64) & 1 &&
        (x >> 1u64) & 1 == (y >> 1u64) & 1 &&
        (x >> 2u64) & 1 == (y >> 2u64) & 1 &&
        (x >> 3u64) & 1 == (y >> 3u64) & 1 &&
        (x >> 4u64) & 1 == (y >> 4u64) & 1 &&
        (x >> 5u64) & 1 == (y >> 5u64) & 1 &&
        (x >> 6u64) & 1 == (y >> 6u64) & 1 &&
        (x >> 7u64) & 1 == (y >> 7u64) & 1 &&
        (x >> 8u64) & 1 == (y >> 8u64) & 1 &&
        (x >> 9u64) & 1 == (y >> 9u64) & 1 &&
        (x >> 10u64) & 1 == (y >> 10u64) & 1 &&
        (x >> 11u64) & 1 == (y >> 11u64) & 1 &&
        (x >> 12u64) & 1 == (y >> 12u64) & 1 &&
        (x >> 13u64) & 1 == (y >> 13u64) & 1 &&
        (x >> 14u64) & 1 == (y >> 14u64) & 1 &&
        (x >> 15u64) & 1 == (y >> 15u64) & 1 &&
        (x >> 16u64) & 1 == (y >> 16u64) & 1 &&
        (x >> 17u64) & 1 == (y >> 17u64) & 1 &&
        (x >> 18u64) & 1 == (y >> 18u64) & 1 &&
        (x >> 19u64) & 1 == (y >> 19u64) & 1 &&
        (x >> 20u64) & 1 == (y >> 20u64) & 1 &&
        (x >> 21u64) & 1 == (y >> 21u64) & 1 &&
        (x >> 22u64) & 1 == (y >> 22u64) & 1 &&
        (x >> 23u64) & 1 == (y >> 23u64) & 1 &&
        (x >> 24u64) & 1 == (y >> 24u64) & 1 &&
        (x >> 25u64) & 1 == (y >> 25u64) & 1 &&
        (x >> 26u64) & 1 == (y >> 26u64) & 1 &&
        (x >> 27u64) & 1 == (y >> 27u64) & 1 &&
        (x >> 28u64) & 1 == (y >> 28u64) & 1 &&
        (x >> 29u64) & 1 == (y >> 29u64) & 1 &&
        (x >> 30u64) & 1 == (y >> 30u64) & 1 &&
        (x >> 31u64) & 1 == (y >> 31u64) & 1 &&
        (x >> 32u64) & 1 == (y >> 32u64) & 1 &&
        (x >> 33u64) & 1 == (y >> 33u64) & 1 &&
        (x >> 34u64) & 1 == (y >> 34u64) & 1 &&
        (x >> 35u64) & 1 == (y >> 35u64) & 1 &&
        (x >> 36u64) & 1 == (y >> 36u64) & 1 &&
        (x >> 37u64) & 1 == (y >> 37u64) & 1 &&
        (x >> 38u64) & 1 == (y >> 38u64) & 1 &&
        (x >> 39u64) & 1 == (y >> 39u64) & 1 &&
        (x >> 40u64) & 1 == (y >> 40u64) & 1 &&
        (x >> 41u64) & 1 == (y >> 41u64) & 1 &&
        (x >> 42u64) & 1 == (y >> 42u64) & 1 &&
        (x >> 43u64) & 1 == (y >> 43u64) & 1 &&
        (x >> 44u64) & 1 == (y >> 44u64) & 1 &&
        (x >> 45u64) & 1 == (y >> 45u64) & 1 &&
        (x >> 46u64) & 1 == (y >> 46u64) & 1 &&
        (x >> 47u64) & 1 == (y >> 47u64) & 1 &&
        (x >> 48u64) & 1 == (y >> 48u64) & 1 &&
        (x >> 49u64) & 1 == (y >> 49u64) & 1 &&
        (x >> 50u64) & 1 == (y >> 50u64) & 1 &&
        (x >> 51u64) & 1 == (y >> 51u64) & 1 &&
        (x >> 52u64) & 1 == (y >> 52u64) & 1 &&
        (x >> 53u64) & 1 == (y >> 53u64) & 1 &&
        (x >> 54u64) & 1 == (y >> 54u64) & 1 &&
        (x >> 55u64) & 1 == (y >> 55u64) & 1 &&
        (x >> 56u64) & 1 == (y >> 56u64) & 1 &&
        (x >> 57u64) & 1 == (y >> 57u64) & 1 &&
        (x >> 58u64) & 1 == (y >> 58u64) & 1 &&
        (x >> 59u64) & 1 == (y >> 59u64) & 1 &&
        (x >> 60u64) & 1 == (y >> 60u64) & 1 &&
        (x >> 61u64) & 1 == (y >> 61u64) & 1 &&
        (x >> 62u64) & 1 == (y >> 62u64) & 1 &&
        (x >> 63u64) & 1 == (y >> 63u64) & 1;
}

/// Two words with the same 64 bits are equal.
pub proof fn lemma_bits_ext(x: u64, y: u64)
    requires
        forall|i: u64| i < 64 ==> #[trigger] bit(x, i) == bit(y, i),
    ensures
        x == y,
{
    assert(bit(x, 0u64) == bit(y, 0u64));
    assert(bit(x, 1u64) == bit(y, 1u64));
    assert(bit(x, 2u64) == bit(y, 2u64));
    assert(bit(x, 3u64) == bit(y, 3u64));
    assert(bit(x, 4u64) == bit(y, 4u64));
    assert(bit(x, 5u64) == bit(y, 5u64));
    assert(bit(x, 6u64) == bit(y, 6u64));
    assert(bit(x, 7u64) == bit(y, 7u64));
    assert(bit(x, 8u64) == bit(y, 8u64));
    assert(bit(x, 9u64) == bit(y, 9u64));
    assert(bit(x, 10u64) == bit(y, 10u64));
    assert(bit(x, 11u64) == bit(y, 11u64));
    assert(bit(x, 12u64) == bit(y, 12u64));
    assert(bit(x, 13u64) == bit(y, 13u64));
    assert(bit(x, 14u64) == bit(y, 14u64));
    assert(bit(x, 15u64) == bit(y, 15u64));
    assert(bit(x, 16u64) == bit(y, 16u64));
    assert(bit(x, 17u64) == bit(y, 17u64));
    assert(bit(x, 18u64) == bit(y, 18u64));
    assert(bit(x, 19u64) == bit(y, 19u64));
    assert(bit(x, 20u64) == bit(y, 20u64));
    assert(bit(x, 21u64) == bit(y, 21u64));
    assert(bit(x, 22u64) == bit(y, 22u64));
    assert(bit(x, 23u64) == bit(y, 23u64));
    assert(bit(x, 24u64) == bit(y, 24u64));
    assert(bit(x, 25u64) == bit(y, 25u64));
    assert(bit(x, 26u64) == bit(y, 26u64));
    assert(bit(x, 27u64) == bit(y, 27u64));
    assert(bit(x, 28u64) == bit(y, 28u64));
    assert(bit(x, 29u64) == bit(y, 29u64));
    assert(bit(x, 30u64) == bit(y, 30u64));
    assert(bit(x, 31u64) == bit(y, 31u64));
    assert(bit(x, 32u64) == bit(y, 32u64));
    assert(bit(x, 33u64) == bit(y, 33u64));
    assert(bit(x, 34u64) == bit(y, 34u64));
    assert(bit(x, 35u64) == bit(y, 35u64));
    assert(bit(x, 36u64) == bit(y, 36u64));
    assert(bit(x, 37u64) == bit(y, 37u64));
    assert(bit(x, 38u64) == bit(y, 38u64));
    assert(bit(x, 39u64) == bit(y, 39u64));
    assert(bit(x, 40u64) == bit(y, 40u64));
    assert(bit(x, 41u64) == bit(y, 41u64));
    assert(bit(x, 42u64) == bit(y, 42u64));
    assert(bit(x, 43u64) == bit(y, 43u64));
    assert(bit(x, 44u64) == bit(y, 44u64));
    assert(bit(x, 45u64) == bit(y, 45u64));
    assert(bit(x, 46u64) == bit(y, 46u64));
    assert(bit(x, 47u64) == bit(y, 47u64));
    assert(bit(x, 48u64) == bit(y, 48u64));
    assert(bit(x, 49u64) == bit(y, 49u64));
    assert(bit(x, 50u64) == bit(y, 50u64));
    assert(bit(x, 51u64) == bit(y, 51u64));
    assert(bit(x, 52u64) == bit(y, 52u64));
    assert(bit(x, 53u64) == bit(y, 53u64));
    assert(bit(x, 54u64) == bit(y, 54u64));
    assert(bit(x, 55u64) == bit(y, 55u64));
    assert(bit(x, 56u64) == bit(y, 56u64));
    assert(bit(x, 57u64) == bit(y, 57u64));
    assert(bit(x, 58u64) == bit(y, 58u64));
    assert(bit(x, 59u64) == bit(y, 59u64));
    assert(bit(x, 60u64) == bit(y, 60u64));
    assert(bit(x, 61u64) == bit(y, 61u64));
    assert(bit(x, 62u64) == bit(y, 62u64));
    assert(bit(x, 63u64) == bit(y, 63u64));
    lemma_bits_ext_bv(x, y);
}

/// Bit `i` of a left rotation by `m` is bit `i - m` (mod 64) of the input.
pub proof fn lemma_rotl_bit(x: u64, k: u32, i: u64)
    requires
        i < 64,
    ensures
        bit(rotl(x, k), i) == bit(x, ((i + 64 - (k % 64) as u64) % 64) as u64),
{
    let m = (k % 64) as u64;
    if m == 0 {
        assert((i + 64 - m) % 64 == i);
    } else {
        let j = ((i + 64 - m) % 64) as u64;
        assert(((((x << m) | (x >> ((64 - m) as u64))) >> i) & 1) == ((x >> j) & 1)) by (bit_vector)
            requires 0 < m < 64, i < 64, j == (i + 64 - m) % 64;
    }
}

proof fn lemma_index_add(i: u64, a: u64, b: u64)
    requires
        i < 64,
        a < 64,
        b < 64,
    ensures
        ((((i + 64 - b) % 64) as u64 + 64 - a) % 64) == (i + 64 - ((a + b) % 64)) % 64,
{
    let j = (i + 64 - b) % 64;
    if i >= b {
        assert(j == i - b);
    } else {
        assert(j == i + 64 - b);
    }
    if a + b >= 64 {
        assert((a + b) % 64 == a + b - 64);
    } else {
        assert((a + b) % 64 == a + b);
    }
}

/// Two left rotations compose into one by the sum of their amounts.
pub proof fn lemma_rotl_add(x: u64, a: u32, b: u32)
    requires
        a < 64,
        b < 64,
    ensures
        rotl(rotl(x, a), b) == rotl(x, ((a + b) % 64) as u32),
{
    let c = ((a + b) % 64) as u32;
    assert forall|i: u64| i < 64 implies #[trigger] bit(rotl(rotl(x, a), b), i) == bit(rotl(x, c), i) by {
        lemma_rotl_bit(rotl(x, a), b, i);
        let j = ((i + 64 - (b % 64) as u64) % 64) as u64;
        lemma_rotl_bit(x, a, j);
        lemma_rotl_bit(x, c, i);
        lemma_index_add(i, a as u64, b as u64);
    }
    lemma_bits_ext(rotl(rotl(x, a), b), rotl(x, c));
}

/// A right rotation is a left rotation by the complementary amount.
pub proof fn lemma_rotr_as_rotl(x: u64, k: u32)
    requires
        k < 64,
    ensures
        rotr(x, k) == rotl(x, ((64 - k) % 64) as u32),
{
    if k != 0 {
        let m = k as u64;
        let n = (64 - m) as u64;
        assert(((x >> m) | (x << n)) == ((x << n) | (x >> ((64 - n) as u64)))) by (bit_vector)
            requires 0 < m < 64, n == 64 - m;
    }
}

} // verus!
