//! Reversible integer mathematics: bijections on `Z/2^64` with analytic
//! inverses, which compose into reversible formulas.
use vstd::prelude::*;
use vstd::arithmetic::power2::{pow2, lemma2_to64, lemma2_to64_rest, lemma_pow2_adds, lemma_pow2_pos};
use vstd::arithmetic::div_mod::{
    lemma_fundamental_div_mod, lemma_mod_mod, lemma_mul_mod_noop_left, lemma_mod_multiples_vanish, lemma_mul_mod_noop_right,
    lemma_mul_mod_noop_general, lemma_sub_mod_noop_right,
};
use vstd::arithmetic::mul::lemma_mul_is_associative;
use vstd::wrapping::u64_specs::{wrapping_add, wrapping_mul, wrapping_sub};
use crate::bits::{lemma_rot_inverse, lemma_rotl_add, rotate_left, rotate_right, rotl, rotr};

verus! {

/// `2^64`.
pub open spec fn modulus() -> int {
    0x1_0000_0000_0000_0000
}

/// Precision, in bits, of the Newton iterate after `i` steps started from `x = a`.
spec fn precision(i: nat) -> nat
    decreases i,
{
    if i == 0 {
        3
    } else {
        let p = precision((i - 1) as nat);
        if 2 * p < 64 { 2 * p } else { 64 }
    }
}

/// An odd square is `1` modulo `8`: `x = a` is already an inverse to three bits.
proof fn lemma_odd_square(a: u64)
    requires
        a % 2 == 1,
    ensures
        (a * a) % (pow2(3) as int) == 1,
{
    lemma2_to64();
    lemma_mul_mod_noop_general(a as int, a as int, 8);
    let r = a % 8;
    assert(r == 1 || r == 3 || r == 5 || r == 7);
    assert((r * r) % 8 == 1);
}

/// One Newton step `x' = x * (2 - a * x)` doubles the number of correct low bits.
proof fn lemma_newton_step(a: u64, x: u64, p: nat)
    requires
        1 <= p <= 64,
        (a * x) % (pow2(p) as int) == 1,
    ensures
        (a * wrapping_mul(x, wrapping_sub(2, wrapping_mul(a, x)))) % (pow2(
            if 2 * p < 64 { 2 * p } else { 64 },
        ) as int) == 1,
{
    let m = modulus();
    lemma2_to64();
    lemma2_to64_rest();
    assert(pow2(64) == m);
    let p2: nat = if 2 * p < 64 { 2 * p } else { 64 };
    let q = pow2(p) as int;
    let big_q = pow2(p2) as int;
    let e_sq = pow2((2 * p - p2) as nat) as int;
    let e_m = pow2((64 - p2) as nat) as int;
    lemma_pow2_pos(p);
    lemma_pow2_pos(p2);
    lemma_pow2_pos((2 * p - p2) as nat);
    lemma_pow2_pos((64 - p2) as nat);
    lemma_pow2_adds(p, p);
    lemma_pow2_adds(p2, (2 * p - p2) as nat);
    lemma_pow2_adds(p2, (64 - p2) as nat);
    assert(q * q == big_q * e_sq);
    assert(m == big_q * e_m);
    assert(big_q >= 2) by {
        vstd::arithmetic::power2::lemma_pow2_strictly_increases(0, p2);
    }

    let u = a as int * x as int;
    let y = wrapping_mul(a, x);
    assert(y as int == u % m);
    let t = wrapping_sub(2, y);
    assert(t as int == (2 - u) % m) by {
        lemma_sub_mod_noop_right(2, u, m);
        if 2 - y < 0 {
            assert(t as int == 2 - y + m);
            assert((2 - y + m) % m == (2 - y) % m) by {
                lemma_mod_multiples_vanish(1, 2 - y, m);
            }
        } else {
            assert(t as int == 2 - y);
        }
    }
    let x1 = wrapping_mul(x, t);
    assert(x1 as int == (x as int * t as int) % m);
    let v = a as int * x1 as int;

    // a * x1 == u * (2 - u) (mod 2^64)
    assert(v % m == (u * (2 - u)) % m) by {
        lemma_mul_mod_noop_right(a as int, x as int * t as int, m);
        lemma_mul_is_associative(a as int, x as int, t as int);
        lemma_mul_mod_noop_right(u, 2 - u, m);
    }
    // u * (2 - u) == 1 - (u - 1)^2, and (u - 1) = q * r
    lemma_fundamental_div_mod(u, q);
    let r = u / q;
    assert(u - 1 == q * r);
    assert(u * (2 - u) == 1 + big_q * (-(r * r * e_sq))) by (nonlinear_arith)
        requires
            u - 1 == q * r,
            q * q == big_q * e_sq,
    ;
    let w = 1 + big_q * (-(r * r * e_sq));
    // reduce modulo big_q, which divides 2^64
    lemma_mod_mod(v, big_q, e_m);
    lemma_mod_mod(w, big_q, e_m);
    assert(v % big_q == w % big_q);
    lemma_mod_multiples_vanish(-(r * r * e_sq), 1, big_q);
    assert(w == big_q * (-(r * r * e_sq)) + 1);
    vstd::arithmetic::div_mod::lemma_small_mod(1, big_q as nat);
}

/// The multiplicative inverse of `a` modulo `2^64` (it exists, and is unique,
/// exactly when `a` is odd).
pub open spec fn inv64(a: u64) -> u64 {
    choose|r: u64| wrapping_mul(a, r) == 1
}

/// An inverse modulo `2^64` is unique.
pub proof fn lemma_inverse_unique(a: u64, i: u64, j: u64)
    requires
        wrapping_mul(a, i) == 1,
        wrapping_mul(a, j) == 1,
    ensures
        i == j,
{
    let m = modulus();
    let (ai, aj, ii, jj) = (a as int, i as int, i as int, j as int);
    // i == i * (a * j) == (i * a) * j == j   (mod 2^64)
    lemma_mul_mod_noop_right(ii, ai * jj, m);
    lemma_mul_is_associative(ii, ai, jj);
    lemma_mul_mod_noop_left(ii * ai, jj, m);
    assert(ii * ai == ai * ii) by (nonlinear_arith);
    assert(ii % m == ii);
    assert(jj % m == jj);
}

/// The inverse of an odd `a` modulo `2^64`, by Newton iteration: six steps
/// double the correct low bits from three to sixty-four.
pub fn mod_inv_odd(a: u64) -> (r: u64)
    requires
        a % 2 == 1,
    ensures
        wrapping_mul(a, r) == 1,
        r == inv64(a),
{
    let mut x = a;
    let ghost mut p: nat = 3;
    proof {
        lemma_odd_square(a);
    }
    let mut i: u64 = 0;
    while i < 6
        invariant
            i <= 6,
            p == precision(i as nat),
            1 <= p <= 64,
            (a * x) % (pow2(p) as int) == 1,
        decreases 6 - i,
    {
        proof {
            lemma_newton_step(a, x, p);
        }
        x = x.wrapping_mul(2u64.wrapping_sub(a.wrapping_mul(x)));
        proof {
            p = if 2 * p < 64 { 2 * p } else { 64 };
        }
        i += 1;
    }
    proof {
        reveal_with_fuel(precision, 7);
        assert(p == 64);
        lemma2_to64_rest();
        assert(wrapping_mul(a, x) == 1);
        lemma_inverse_unique(a, x, inv64(a));
    }
    x
}

/// A reversible operation on one 64-bit word.
#[derive(Debug, Clone, Copy, PartialEq, Eq)]
pub enum Op {
    /// `x * m` (wrapping); a bijection when `m` is odd.
    MulOdd(u64),
    /// `x + c` (wrapping).
    Add(u64),
    /// `x ^ k`; its own inverse.
    Xor(u64),
    /// Rotate left by `r & 63`.
    RotL(u32),
}

impl Op {
    /// A multiplier must be odd for the operation to be a bijection.
    pub open spec fn valid(self) -> bool {
        match self {
            Op::MulOdd(m) => m % 2 == 1,
            _ => true,
        }
    }

    /// The value of the operation at `x`.
    pub open spec fn value(self, x: u64) -> u64 {
        match self {
            Op::MulOdd(m) => wrapping_mul(x, m),
            Op::Add(c) => wrapping_add(x, c),
            Op::Xor(k) => x ^ k,
            Op::RotL(r) => rotl(x, r),
        }
    }

    /// The analytic inverse.
    pub open spec fn inverse_spec(self) -> Op {
        match self {
            Op::MulOdd(m) => Op::MulOdd(inv64(m)),
            Op::Add(c) => Op::Add(wrapping_sub(0, c)),
            Op::Xor(k) => Op::Xor(k),
            Op::RotL(r) => Op::RotL(((64 - r % 64) % 64) as u32),
        }
    }

    pub fn apply(&self, x: u64) -> (r: u64)
        ensures
            r == self.value(x),
    {
        match *self {
            Op::MulOdd(m) => x.wrapping_mul(m),
            Op::Add(c) => x.wrapping_add(c),
            Op::Xor(k) => x ^ k,
            Op::RotL(r) => rotate_left(x, r),
        }
    }

    /// The analytic inverse: `MulOdd(m⁻¹)`, `Add(-c)`, `Xor(k)`, `RotL(64 - r)`.
    pub fn inverse(&self) -> (r: Op)
        requires
            self.valid(),
        ensures
            r == self.inverse_spec(),
            r.valid(),
    {
        match *self {
            Op::MulOdd(m) => {
                let i = mod_inv_odd(m);
                proof {
                    lemma_inverse_odd(m, i);
                }
                Op::MulOdd(i)
            },
            Op::Add(c) => Op::Add(0u64.wrapping_sub(c)),
            Op::Xor(k) => Op::Xor(k),
            Op::RotL(r) => {
                let m = r & 63;
                assert(m <= 63) by (bit_vector)
                    requires m == r & 63;
                let d = 64 - m;
                let s = d & 63;
                assert(m == r % 64) by (bit_vector)
                    requires m == r & 63;
                assert(s == d % 64) by (bit_vector)
                    requires s == d & 63;
                Op::RotL(s)
            },
        }
    }
}

/// The inverse of an odd number is odd.
proof fn lemma_inverse_odd(a: u64, i: u64)
    requires
        wrapping_mul(a, i) == 1,
    ensures
        i % 2 == 1,
{
    let m = modulus();
    lemma_fundamental_div_mod(a as int * i as int, m);
    let q = (a as int * i as int) / m;
    assert(a as int * i as int == m * q + 1);
    if i % 2 == 0 {
        let h = i as int / 2;
        assert(i as int == 2 * h);
        assert(a as int * i as int == 2 * (a as int * h)) by (nonlinear_arith)
            requires i as int == 2 * h;
        assert(m * q == 2 * (0x8000_0000_0000_0000 * q));
        assert(false);
    }
}

/// Law: an operation's inverse undoes it, `F⁻¹(F(x)) == x`, and the
/// converse `F(F⁻¹(x)) == x`.
pub proof fn law_op_inverse(o: Op, x: u64)
    requires
        o.valid(),
    ensures
        o.inverse_spec().value(o.value(x)) == x,
        o.value(o.inverse_spec().value(x)) == x,
{
    let m = modulus();
    match o {
        Op::MulOdd(a) => {
            let i = inv64(a);
            assert(exists|r: u64| wrapping_mul(a, r) == 1) by {
                lemma_inverse_exists(a);
            }
            assert(wrapping_mul(a, i) == 1);
            lemma_mul_cancel(x, a, i);
            lemma_mul_cancel(x, i, a);
            assert(wrapping_mul(i, a) == 1) by {
                assert(i as int * a as int == a as int * i as int) by (nonlinear_arith);
            }
        },
        Op::Add(c) => {},
        Op::Xor(k) => {
            assert((x ^ k) ^ k == x) by (bit_vector);
        },
        Op::RotL(r) => {
            let a = (r % 64) as u32;
            let b = ((64 - r % 64) % 64) as u32;
            assert(rotl(x, r) == rotl(x, a));
            lemma_rotl_add(x, a, b);
            lemma_rotl_add(x, b, a);
            assert(rotl(rotl(x, b), r) == rotl(rotl(x, b), a));
            assert(rotl(x, 0) == x);
        },
    }
}

/// `(x * a) * b == x` modulo `2^64` when `a * b == 1`.
proof fn lemma_mul_cancel(x: u64, a: u64, b: u64)
    requires
        wrapping_mul(a, b) == 1,
    ensures
        wrapping_mul(wrapping_mul(x, a), b) == x,
{
    let m = modulus();
    let (xi, ai, bi) = (x as int, a as int, b as int);
    lemma_mul_mod_noop_left(xi * ai, bi, m);
    lemma_mul_is_associative(xi, ai, bi);
    lemma_mul_mod_noop_right(xi, ai * bi, m);
    assert(xi % m == xi);
}

/// Every odd number has an inverse modulo `2^64`.
proof fn lemma_inverse_exists(a: u64)
    requires
        a % 2 == 1,
    ensures
        exists|r: u64| wrapping_mul(a, r) == 1,
{
    let r = newton(a, a, 6);
    lemma_odd_square(a);
    lemma_newton_iterate(a, a, 3, 6);
    reveal_with_fuel(precision, 7);
    assert(after(3, 6) == 64) by {
        reveal_with_fuel(after, 7);
    }
    lemma2_to64_rest();
    assert(wrapping_mul(a, r) == 1);
}

/// `n` Newton steps from `x`.
spec fn newton(a: u64, x: u64, n: nat) -> u64
    decreases n,
{
    if n == 0 {
        x
    } else {
        newton(a, wrapping_mul(x, wrapping_sub(2, wrapping_mul(a, x))), (n - 1) as nat)
    }
}

/// Precision after `n` doublings from `p` bits, capped at 64.
spec fn after(p: nat, n: nat) -> nat
    decreases n,
{
    if n == 0 {
        p
    } else {
        after(if 2 * p < 64 { 2 * p } else { 64 }, (n - 1) as nat)
    }
}

proof fn lemma_newton_iterate(a: u64, x: u64, p: nat, n: nat)
    requires
        1 <= p <= 64,
        (a * x) % (pow2(p) as int) == 1,
    ensures
        1 <= after(p, n) <= 64,
        (a * newton(a, x, n)) % (pow2(after(p, n)) as int) == 1,
    decreases n,
{
    if n > 0 {
        lemma_newton_step(a, x, p);
        let x1 = wrapping_mul(x, wrapping_sub(2, wrapping_mul(a, x)));
        lemma_newton_iterate(a, x1, if 2 * p < 64 { 2 * p } else { 64 }, (n - 1) as nat);
    }
}

/// `ops` applied left to right.
pub open spec fn apply_seq(ops: Seq<Op>, x: u64) -> u64
    decreases ops.len(),
{
    if ops.len() == 0 {
        x
    } else {
        ops.last().value(apply_seq(ops.drop_last(), x))
    }
}

/// The inverses of `ops`, in reverse order.
pub open spec fn inverse_seq(ops: Seq<Op>) -> Seq<Op> {
    Seq::new(ops.len(), |j: int| ops[ops.len() - 1 - j].inverse_spec())
}

/// Every operation is a bijection.
pub open spec fn all_valid(ops: Seq<Op>) -> bool {
    forall|i: int| 0 <= i < ops.len() ==> #[trigger] ops[i].valid()
}

/// Apply a sequence of operations, left to right.
pub fn apply(ops: &[Op], x: u64) -> (r: u64)
    ensures
        r == apply_seq(ops@, x),
{
    let mut x = x;
    let ghost x0 = x;
    let mut i: usize = 0;
    while i < ops.len()
        invariant
            i <= ops.len(),
            x == apply_seq(ops@.take(i as int), x0),
        decreases ops.len() - i,
    {
        assert(ops@.take(i as int + 1).drop_last() == ops@.take(i as int));
        x = ops[i].apply(x);
        i += 1;
    }
    assert(ops@.take(ops.len() as int) == ops@);
    x
}

/// The analytic inverse of a sequence: reversed order, each operation inverted.
pub fn inverse(ops: &[Op]) -> (r: Vec<Op>)
    requires
        all_valid(ops@),
    ensures
        r@ == inverse_seq(ops@),
        all_valid(r@),
{
    let mut out: Vec<Op> = Vec::new();
    let mut i: usize = ops.len();
    while i > 0
        invariant
            i <= ops.len(),
            all_valid(ops@),
            out@.len() == ops.len() - i,
            forall|j: int| 0 <= j < out@.len() ==> out@[j] == #[trigger] ops@[ops.len() - 1 - j].inverse_spec(),
            all_valid(out@),
        decreases i,
    {
        i -= 1;
        let o = ops[i].inverse();
        out.push(o);
    }
    assert(out@ == inverse_seq(ops@));
    out
}

proof fn lemma_apply_concat(s1: Seq<Op>, s2: Seq<Op>, x: u64)
    ensures
        apply_seq(s1 + s2, x) == apply_seq(s2, apply_seq(s1, x)),
    decreases s2.len(),
{
    if s2.len() == 0 {
        assert(s1 + s2 == s1);
    } else {
        assert((s1 + s2).drop_last() == s1 + s2.drop_last());
        lemma_apply_concat(s1, s2.drop_last(), x);
    }
}

/// Law: the inverse of a composition undoes it, `F⁻¹(F(x)) == x`.
pub proof fn law_seq_inverse(ops: Seq<Op>, x: u64)
    requires
        all_valid(ops),
    ensures
        apply_seq(inverse_seq(ops), apply_seq(ops, x)) == x,
    decreases ops.len(),
{
    if ops.len() > 0 {
        let p = ops.drop_last();
        let o = ops.last();
        assert(all_valid(p)) by {
            assert forall|i: int| 0 <= i < p.len() implies #[trigger] p[i].valid() by {
                assert(p[i] == ops[i]);
            }
        }
        assert(o.valid()) by {
            assert(o == ops[ops.len() - 1]);
        }
        let y = apply_seq(p, x);
        assert(inverse_seq(ops) == seq![o.inverse_spec()] + inverse_seq(p));
        lemma_apply_concat(seq![o.inverse_spec()], inverse_seq(p), o.value(y));
        let one = seq![o.inverse_spec()];
        assert(one.drop_last() == Seq::<Op>::empty());
        assert(apply_seq(Seq::<Op>::empty(), o.value(y)) == o.value(y));
        assert(one.last() == o.inverse_spec());
        assert(apply_seq(one, o.value(y)) == o.inverse_spec().value(o.value(y)));
        law_op_inverse(o, y);
        law_seq_inverse(p, x);
        assert(apply_seq(ops, x) == o.value(y));
    }
}

/// Law: a composition undoes its inverse, `F(F⁻¹(x)) == x`: together with
/// `law_seq_inverse`, a composition of bijections is a bijection.
pub proof fn law_seq_inverse_right(ops: Seq<Op>, x: u64)
    requires
        all_valid(ops),
    ensures
        apply_seq(ops, apply_seq(inverse_seq(ops), x)) == x,
    decreases ops.len(),
{
    if ops.len() > 0 {
        let p = ops.drop_last();
        let o = ops.last();
        assert(all_valid(p)) by {
            assert forall|i: int| 0 <= i < p.len() implies #[trigger] p[i].valid() by {
                assert(p[i] == ops[i]);
            }
        }
        assert(o.valid()) by {
            assert(o == ops[ops.len() - 1]);
        }
        let y = o.inverse_spec().value(x);
        assert(inverse_seq(ops) == seq![o.inverse_spec()] + inverse_seq(p));
        lemma_apply_concat(seq![o.inverse_spec()], inverse_seq(p), x);
        let one = seq![o.inverse_spec()];
        assert(one.drop_last() == Seq::<Op>::empty());
        assert(apply_seq(Seq::<Op>::empty(), x) == x);
        assert(one.last() == o.inverse_spec());
        assert(apply_seq(one, x) == y);
        law_seq_inverse_right(p, y);
        law_op_inverse(o, x);
    }
}

/// `(a + b, rotl(b, k) ^ (a + b))`.
pub open spec fn arx_spec(a: u64, b: u64, k: u32) -> (u64, u64) {
    let s = wrapping_add(a, b);
    (s, rotl(b, k) ^ s)
}

/// `(s - b, b)` with `b = rotr(t ^ s, k)`.
pub open spec fn arx_inv_spec(s: u64, t: u64, k: u32) -> (u64, u64) {
    let b = rotr(t ^ s, k);
    (wrapping_sub(s, b), b)
}

/// One ARX round on a pair of words: `s = a + b; t = rotl(b, k) ^ s`.
pub fn arx_round(a: u64, b: u64, k: u32) -> (r: (u64, u64))
    ensures
        r == arx_spec(a, b, k),
{
    let s = a.wrapping_add(b);
    let t = rotate_left(b, k) ^ s;
    (s, t)
}

/// The inverse round: `b = rotr(t ^ s, k); a = s - b`.
pub fn arx_round_inv(s: u64, t: u64, k: u32) -> (r: (u64, u64))
    ensures
        r == arx_inv_spec(s, t, k),
{
    let b = rotate_right(t ^ s, k);
    let a = s.wrapping_sub(b);
    (a, b)
}

/// Law: the inverse round undoes the round, and the round undoes its inverse.
pub proof fn law_arx_inverse(a: u64, b: u64, k: u32)
    ensures
        arx_inv_spec(arx_spec(a, b, k).0, arx_spec(a, b, k).1, k) == (a, b),
        arx_spec(arx_inv_spec(a, b, k).0, arx_inv_spec(a, b, k).1, k) == (a, b),
{
    let s = wrapping_add(a, b);
    let rb = rotl(b, k);
    assert((rb ^ s) ^ s == rb) by (bit_vector);
    lemma_rot_inverse(b, k);
    let c = rotr(b ^ a, k);
    lemma_rot_inverse(b ^ a, k);
    assert(rotl(c, k) ^ a == b) by (bit_vector)
        requires rotl(c, k) == b ^ a;
}

} // verus!
