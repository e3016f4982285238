//! Kernel algebra: a sequence of reversible instructions is a word in the group
//! generated by the ISA. The optimizer applies sound rewrites only: adjacent
//! mutually inverse pairs cancel, rotations of one register add up.
use vstd::prelude::*;
use crate::bits::{rotl, rotr, lemma_rotl_add, lemma_rotr_as_rotl};
use crate::inst::{Inst, alias_spec, inverse_spec, invertible, set_reg, step, swap_regs};
use crate::machine::{RunOut, run_spec};
use crate::state::StateV;

verus! {

/// `a` followed by `b` is the identity (for the pairs the optimizer removes).
pub open spec fn cancel_pair_spec(a: Inst, b: Inst) -> bool {
    match (a, b) {
        (Inst::Add(d1, s1), Inst::Sub(d2, s2)) => d1 == d2 && s1 == s2,
        (Inst::Sub(d1, s1), Inst::Add(d2, s2)) => d1 == d2 && s1 == s2,
        (Inst::Xor(d1, s1), Inst::Xor(d2, s2)) => d1 == d2 && s1 == s2,
        (Inst::Swap(a1, b1), Inst::Swap(a2, b2)) => (a1 == a2 && b1 == b2) || (a1 == b2 && b1 == a2),
        (Inst::Not(r1), Inst::Not(r2)) => r1 == r2,
        (Inst::Inc(r1), Inst::Dec(r2)) => r1 == r2,
        (Inst::Dec(r1), Inst::Inc(r2)) => r1 == r2,
        (Inst::MAdd(a1, v1), Inst::MSub(a2, v2)) => a1 == a2 && v1 == v2,
        (Inst::MSub(a1, v1), Inst::MAdd(a2, v2)) => a1 == a2 && v1 == v2,
        (Inst::MXor(a1, v1), Inst::MXor(a2, v2)) => a1 == a2 && v1 == v2,
        _ => false,
    }
}

/// Adjacent pair that cancels out.
fn cancel_pair(a: Inst, b: Inst) -> (r: bool)
    ensures
        r == cancel_pair_spec(a, b),
{
    match (a, b) {
        (Inst::Add(d1, s1), Inst::Sub(d2, s2)) | (Inst::Sub(d1, s1), Inst::Add(d2, s2)) => d1 == d2 && s1 == s2,
        (Inst::Xor(d1, s1), Inst::Xor(d2, s2)) => d1 == d2 && s1 == s2,
        (Inst::Swap(a1, b1), Inst::Swap(a2, b2)) => {
            // swap is symmetric: swap(0,1) and swap(1,0) are the same
            let (x1, y1) = if a1 <= b1 { (a1, b1) } else { (b1, a1) };
            let (x2, y2) = if a2 <= b2 { (a2, b2) } else { (b2, a2) };
            x1 == x2 && y1 == y2
        },
        (Inst::Not(r1), Inst::Not(r2)) => r1 == r2,
        (Inst::Inc(r1), Inst::Dec(r2)) | (Inst::Dec(r1), Inst::Inc(r2)) => r1 == r2,
        (Inst::MAdd(a1, v1), Inst::MSub(a2, v2)) | (Inst::MSub(a1, v1), Inst::MAdd(a2, v2)) => a1 == a2 && v1 == v2,
        (Inst::MXor(a1, v1), Inst::MXor(a2, v2)) => a1 == a2 && v1 == v2,
        _ => false,
    }
}

/// A rotation as a signed amount: `rotl k` is `+(k & 63)`, `rotr k` is `-(k & 63)`.
pub open spec fn rot_signed_spec(i: Inst) -> Option<(u8, int)> {
    match i {
        Inst::RotL(r, k) => Some((r, (k % 64) as int)),
        Inst::RotR(r, k) => Some((r, -((k % 64) as int))),
        _ => None,
    }
}

fn rot_signed(i: Inst) -> (r: Option<(u8, i32)>)
    ensures
        match rot_signed_spec(i) {
            Some((reg, k)) => r == Some((reg, k as i32)) && -64 < k < 64,
            None => r is None,
        },
{
    match i {
        Inst::RotL(r, k) => {
            assert(k & 63 == k % 64) by (bit_vector);
            Some((r, (k & 63) as i32))
        },
        Inst::RotR(r, k) => {
            assert(k & 63 == k % 64) by (bit_vector);
            Some((r, -((k & 63) as i32)))
        },
        _ => None,
    }
}

/// Euclidean remainder modulo 64 of a small signed amount.
pub open spec fn mod64(k: int) -> nat {
    (if k >= 0 { k % 64 } else { (k + 128) % 64 }) as nat
}

/// Left-rotation amount in `0..64` of a rotation instruction.
pub open spec fn rot_amount(i: Inst) -> nat {
    match rot_signed_spec(i) {
        Some((_, k)) => mod64(k),
        None => 0,
    }
}

/// The shortest rotation by `k` (taken modulo 64): `rotl` up to 32, else `rotr`.
pub open spec fn rot_op_spec(r: u8, k: int) -> Inst {
    let m = mod64(k);
    if m == 0 {
        Inst::RotL(r, 0)
    } else if m <= 32 {
        Inst::RotL(r, m as u32)
    } else {
        Inst::RotR(r, (64 - m) as u32)
    }
}

fn rot_op(r: u8, k: i32) -> (i: Inst)
    requires
        -128 < k < 128,
    ensures
        i == rot_op_spec(r, k as int),
{
    let m: u32 = if k >= 0 { (k % 64) as u32 } else { ((k + 128) % 64) as u32 };
    if m == 0 {
        return Inst::RotL(r, 0);
    }
    if m <= 32 {
        Inst::RotL(r, m)
    } else {
        Inst::RotR(r, 64 - m)
    }
}

/// One step of rotation merging: `x` arrives after the merged prefix `a`.
pub open spec fn merge_step(a: Seq<Inst>, x: Inst) -> Seq<Inst> {
    match rot_signed_spec(x) {
        Some((r, k)) => {
            let last = if a.len() > 0 { rot_signed_spec(a.last()) } else { None };
            match last {
                Some((r2, k2)) if r2 == r => {
                    let kk = mod64(k + k2);
                    if kk != 0 {
                        a.drop_last().push(rot_op_spec(r, kk as int))
                    } else {
                        a.drop_last()
                    }
                },
                _ => if k != 0 {
                    a.push(x)
                } else {
                    a
                },
            }
        },
        None => a.push(x),
    }
}

/// Rotation merging over a whole kernel, left to right.
pub open spec fn merge_spec(p: Seq<Inst>) -> Seq<Inst>
    decreases p.len(),
{
    if p.len() == 0 {
        seq![]
    } else {
        merge_step(merge_spec(p.drop_last()), p.last())
    }
}

/// One step of pair cancellation with a stack.
pub open spec fn cancel_step(out: Seq<Inst>, x: Inst) -> Seq<Inst> {
    if out.len() > 0 && cancel_pair_spec(out.last(), x) {
        out.drop_last()
    } else {
        out.push(x)
    }
}

/// Pair cancellation over a whole kernel, left to right.
pub open spec fn cancel_spec(a: Seq<Inst>) -> Seq<Inst>
    decreases a.len(),
{
    if a.len() == 0 {
        seq![]
    } else {
        cancel_step(cancel_spec(a.drop_last()), a.last())
    }
}

/// One rewriting pass.
pub open spec fn pass_spec(p: Seq<Inst>) -> Seq<Inst> {
    cancel_spec(merge_spec(p))
}

/// Passes until one of them removes nothing.
pub open spec fn opt_loop(cur: Seq<Inst>) -> Seq<Inst>
    decreases cur.len(),
{
    let next = pass_spec(cur);
    if next.len() < cur.len() {
        opt_loop(next)
    } else {
        next
    }
}

/// What `optimize` returns.
pub open spec fn optimize_spec(p: Seq<Inst>) -> Seq<Inst> {
    opt_loop(p)
}

/// Rotation merging never lengthens a kernel, and leaves it as it is when it
/// does not shorten it.
pub proof fn lemma_merge_len(p: Seq<Inst>)
    ensures
        merge_spec(p).len() <= p.len(),
        merge_spec(p).len() == p.len() ==> merge_spec(p) == p,
    decreases p.len(),
{
    if p.len() > 0 {
        let q = p.drop_last();
        lemma_merge_len(q);
        assert(q.push(p.last()) =~= p);
    }
}

/// Pair cancellation never lengthens a kernel, and leaves it as it is when it
/// does not shorten it.
pub proof fn lemma_cancel_len(p: Seq<Inst>)
    ensures
        cancel_spec(p).len() <= p.len(),
        cancel_spec(p).len() == p.len() ==> cancel_spec(p) == p,
    decreases p.len(),
{
    if p.len() > 0 {
        let q = p.drop_last();
        lemma_cancel_len(q);
        assert(q.push(p.last()) =~= p);
    }
}

/// A pass that removes nothing changes nothing.
pub proof fn lemma_pass_len(p: Seq<Inst>)
    ensures
        pass_spec(p).len() <= p.len(),
        pass_spec(p).len() == p.len() ==> pass_spec(p) == p,
{
    lemma_merge_len(p);
    lemma_cancel_len(merge_spec(p));
}

/// The optimizer's result is a fixed point of a pass: rotation merging and
/// pair cancellation find nothing more to rewrite in it.
pub proof fn law_optimize_fixed_point(p: Seq<Inst>)
    ensures
        pass_spec(optimize_spec(p)) == optimize_spec(p),
    decreases p.len(),
{
    lemma_pass_len(p);
    let next = pass_spec(p);
    if next.len() < p.len() {
        law_optimize_fixed_point(next);
    } else {
        assert(next == p);
    }
}

/// The kinds whose adjacent mutually inverse pairs the optimizer cancels:
/// register and memory add/sub, xor, swap, not, inc/dec.
pub open spec fn cancellable(i: Inst) -> bool {
    i is Add || i is Sub || i is Xor || i is Swap || i is Not || i is Inc || i is Dec
        || i is MAdd || i is MSub || i is MXor
}

/// A rotation instruction of register `r`.
pub open spec fn rotates(i: Inst, r: u8) -> bool {
    match i {
        Inst::RotL(x, _) | Inst::RotR(x, _) => x == r,
        _ => false,
    }
}

/// A kernel that pair cancellation leaves as it is has no adjacent pair it
/// cancels.
proof fn lemma_cancel_stable(a: Seq<Inst>)
    requires
        cancel_spec(a) == a,
    ensures
        forall|i: int| 0 <= i < a.len() - 1 ==> !cancel_pair_spec(#[trigger] a[i], a[i + 1]),
    decreases a.len(),
{
    if a.len() > 0 {
        let d = a.drop_last();
        lemma_cancel_len(d);
        let cd = cancel_spec(d);
        if cd.len() > 0 && cancel_pair_spec(cd.last(), a.last()) {
            assert(cancel_spec(a).len() == cd.len() - 1);
            assert(false);
        }
        assert(cancel_spec(a) == cd.push(a.last()));
        assert(cd.len() == d.len());
        assert(cd == d);
        lemma_cancel_stable(d);
        assert forall|i: int| 0 <= i < a.len() - 1 implies !cancel_pair_spec(#[trigger] a[i], a[i + 1]) by {
            if i < a.len() - 2 {
                assert(a[i] == d[i] && a[i + 1] == d[i + 1]);
            } else {
                assert(a[i] == d.last());
            }
        }
    }
}

/// A kernel that rotation merging leaves as it is has no two adjacent
/// rotations of one register and no rotation by a multiple of 64.
proof fn lemma_merge_stable(a: Seq<Inst>)
    requires
        merge_spec(a) == a,
    ensures
        forall|i: int, r: u8| 0 <= i < a.len() - 1 ==> !(#[trigger] rotates(a[i], r) && rotates(a[i + 1], r)),
        forall|i: int| 0 <= i < a.len() ==> (#[trigger] rot_signed_spec(a[i]) matches Some((_, k)) ==> (k != 0)),
    decreases a.len(),
{
    if a.len() > 0 {
        let d = a.drop_last();
        let x = a.last();
        lemma_merge_len(d);
        let md = merge_spec(d);
        assert(merge_spec(a) == merge_step(md, x));
        if md.len() < d.len() {
            lemma_merge_len(a);
            assert(merge_step(md, x).len() <= md.len() + 1);
            assert(false);
        }
        assert(md == d);
        match rot_signed_spec(x) {
            Some((r, k)) => {
                let last = if md.len() > 0 { rot_signed_spec(md.last()) } else { None };
                if last matches Some((r2, _)) && r2 == r {
                    assert(merge_step(md, x).len() <= md.len());
                    assert(false);
                }
                if k == 0 {
                    assert(merge_step(md, x) == md);
                    assert(false);
                }
            },
            None => {},
        }
        lemma_merge_stable(d);
        assert forall|i: int, r: u8| 0 <= i < a.len() - 1 implies !(#[trigger] rotates(a[i], r) && rotates(a[i + 1], r)) by {
            if i < a.len() - 2 {
                assert(a[i] == d[i] && a[i + 1] == d[i + 1]);
            } else {
                assert(a[i] == d.last());
                assert(a[i + 1] == x);
            }
        }
        assert forall|i: int| 0 <= i < a.len() implies (#[trigger] rot_signed_spec(a[i]) matches Some((_, k)) ==> (k != 0)) by {
            if i < a.len() - 1 {
                assert(a[i] == d[i]);
            }
        }
    }
}

/// Law: the optimizer leaves nothing to cancel or merge. In its result no
/// instruction of a cancellable kind is directly followed by its inverse, no
/// two adjacent instructions rotate the same register, and no rotation is by
/// a multiple of 64 (the identity).
pub proof fn law_optimize_irreducible(p: Seq<Inst>)
    ensures
        ({
            let out = optimize_spec(p);
            &&& forall|i: int| 0 <= i < out.len() - 1 && cancellable(#[trigger] out[i])
                ==> inverse_spec(out[i]) != Some(out[i + 1])
            &&& forall|i: int, r: u8| 0 <= i < out.len() - 1 ==> !(#[trigger] rotates(out[i], r) && rotates(out[i + 1], r))
            &&& forall|i: int| 0 <= i < out.len() ==> (#[trigger] out[i] matches Inst::RotL(_, k) ==> (k % 64 != 0))
            &&& forall|i: int| 0 <= i < out.len() ==> (#[trigger] out[i] matches Inst::RotR(_, k) ==> (k % 64 != 0))
        }),
{
    let out = optimize_spec(p);
    law_optimize_fixed_point(p);
    lemma_merge_len(out);
    lemma_cancel_len(merge_spec(out));
    let m = merge_spec(out);
    assert(m.len() == out.len());
    assert(m == out);
    assert(cancel_spec(out) == out);
    lemma_cancel_stable(out);
    lemma_merge_stable(out);
    assert forall|i: int| 0 <= i < out.len() - 1 && cancellable(#[trigger] out[i])
        implies inverse_spec(out[i]) != Some(out[i + 1]) by {
        assert(!cancel_pair_spec(out[i], out[i + 1]));
    }
    assert forall|i: int| 0 <= i < out.len() implies (#[trigger] out[i] matches Inst::RotL(_, k) ==> (k % 64 != 0)) by {
        assert(rot_signed_spec(out[i]) matches Some((_, k)) ==> (k != 0));
    }
    assert forall|i: int| 0 <= i < out.len() implies (#[trigger] out[i] matches Inst::RotR(_, k) ==> (k % 64 != 0)) by {
        assert(rot_signed_spec(out[i]) matches Some((_, k)) ==> (k != 0));
    }
}

/// `q` does what `p` does: wherever `p` runs to completion, `q` runs to
/// completion and reaches the same state.
pub open spec fn refines(q: Seq<Inst>, p: Seq<Inst>) -> bool {
    forall|s: StateV| #[trigger] run_spec(p, s).ok ==> run_spec(q, s).ok && run_spec(q, s).state == run_spec(p, s).state
}

/// No instruction aliases its operands.
pub open spec fn alias_free(p: Seq<Inst>) -> bool {
    forall|i: int| 0 <= i < p.len() ==> alias_spec(#[trigger] p[i]) is None
}

/// Every instruction has an inverse and no aliasing.
pub open spec fn all_invertible(p: Seq<Inst>) -> bool {
    forall|i: int| 0 <= i < p.len() ==> invertible(#[trigger] p[i])
}

proof fn lemma_run_push(p: Seq<Inst>, x: Inst, s: StateV)
    ensures
        run_spec(p.push(x), s) == ({
            let r = run_spec(p, s);
            if !r.ok {
                r
            } else {
                match step(x, r.state) {
                    Some(t) => RunOut { state: t, done: r.done + 1, ok: true },
                    None => RunOut { state: r.state, done: r.done, ok: false },
                }
            }
        }),
{
    assert(p.push(x).drop_last() =~= p);
}

/// Effect of a rotation is a left rotation by its amount.
proof fn lemma_rot_effect(i: Inst, s: StateV)
    requires
        rot_signed_spec(i) is Some,
        step(i, s) is Some,
    ensures
        ({
            let r = rot_signed_spec(i).unwrap().0;
            &&& (r as int) < s.regs.len()
            &&& step(i, s) == Some(set_reg(s, r, rotl(s.regs[r as int], rot_amount(i) as u32)))
        }),
{
    match i {
        Inst::RotL(r, k) => {
            assert(rotl(s.regs[r as int], k) == rotl(s.regs[r as int], (k % 64) as u32));
        },
        Inst::RotR(r, k) => {
            let m = (k % 64) as u32;
            assert(rotr(s.regs[r as int], k) == rotr(s.regs[r as int], m));
            lemma_rotr_as_rotl(s.regs[r as int], m);
            assert(mod64(-(m as int)) == (64 - m) % 64);
        },
        _ => {},
    }
}

/// Running `rot_op(r, k)` rotates register `r` left by `k` modulo 64.
proof fn lemma_rot_op_effect(r: u8, k: int, s: StateV)
    requires
        (r as int) < s.regs.len(),
    ensures
        step(rot_op_spec(r, k), s) == Some(set_reg(s, r, rotl(s.regs[r as int], mod64(k) as u32))),
{
    let m = mod64(k);
    if m > 32 {
        let x = s.regs[r as int];
        lemma_rotr_as_rotl(x, (64 - m) as u32);
        assert((64 - (64 - m)) % 64 == m);
    }
}

proof fn lemma_rot_zero_identity(s: StateV, r: u8)
    requires
        (r as int) < s.regs.len(),
    ensures
        set_reg(s, r, rotl(s.regs[r as int], 0)) == s,
{
    assert(s.regs.update(r as int, s.regs[r as int]) =~= s.regs);
}

proof fn lemma_swap_twice(s: StateV, a: u8, b: u8)
    requires
        (a as int) < s.regs.len(),
        (b as int) < s.regs.len(),
    ensures
        swap_regs(swap_regs(s, a, b), a, b) == s,
        swap_regs(swap_regs(s, a, b), b, a) == s,
{
    assert(swap_regs(swap_regs(s, a, b), a, b).regs =~= s.regs);
    assert(swap_regs(swap_regs(s, a, b), b, a).regs =~= s.regs);
}

/// A cancelling pair of alias-free instructions is the identity.
pub proof fn lemma_cancel_identity(a: Inst, b: Inst, u: StateV)
    requires
        cancel_pair_spec(a, b),
        alias_spec(a) is None,
        step(a, u) is Some,
        step(b, step(a, u).unwrap()) is Some,
    ensures
        step(b, step(a, u).unwrap()) == Some(u),
{
    let t = step(a, u).unwrap();
    match a {
        Inst::Swap(x, y) => {
            lemma_swap_twice(u, x, y);
        },
        Inst::Not(r) => {
            crate::inst::law_inverse_undoes(a, u);
        },
        _ => {
            crate::inst::law_inverse_undoes(a, u);
        },
    }
}

proof fn lemma_set_reg_twice(s: StateV, r: u8, v1: u64, v2: u64)
    requires
        (r as int) < s.regs.len(),
    ensures
        set_reg(set_reg(s, r, v1), r, v2) == set_reg(s, r, v2),
{
    assert(set_reg(set_reg(s, r, v1), r, v2).regs =~= set_reg(s, r, v2).regs);
}

proof fn lemma_mod64_add(kx: int, ky: int)
    requires
        -64 < kx < 64,
        -64 < ky < 64,
    ensures
        mod64(kx + ky) == (mod64(kx) + mod64(ky)) % 64,
        mod64(kx) < 64,
{
    let a: int = if kx >= 0 { kx } else { kx + 64 };
    let b: int = if ky >= 0 { ky } else { ky + 64 };
    assert(mod64(kx) == a);
    assert(mod64(ky) == b);
    let s = kx + ky;
    let m: int = if s >= 0 { if s >= 64 { s - 64 } else { s } } else { if s + 128 >= 64 { s + 64 } else { s + 128 } };
    assert(mod64(s) == m);
    assert((a + b) % 64 == if a + b >= 64 { a + b - 64 } else { a + b });
}

/// Merging rotation `x` into the preceding rotation `y` of the same register.
#[verifier::rlimit(40)]
proof fn lemma_merge_rotations(y: Inst, x: Inst, u: StateV)
    requires
        rot_signed_spec(y) is Some,
        rot_signed_spec(x) is Some,
        rot_signed_spec(x).unwrap().0 == rot_signed_spec(y).unwrap().0,
        step(y, u) is Some,
        step(x, step(y, u).unwrap()) is Some,
    ensures
        ({
            let r = rot_signed_spec(x).unwrap().0;
            let kk = mod64(rot_signed_spec(x).unwrap().1 + rot_signed_spec(y).unwrap().1);
            &&& kk == 0 ==> step(x, step(y, u).unwrap()) == Some(u)
            &&& kk != 0 ==> step(rot_op_spec(r, kk as int), u) == step(x, step(y, u).unwrap())
        }),
{
    let r = rot_signed_spec(x).unwrap().0;
    let t = step(y, u).unwrap();
    lemma_rot_effect(y, u);
    lemma_rot_effect(x, t);
    let ay = rot_amount(y);
    let ax = rot_amount(x);
    let kx = rot_signed_spec(x).unwrap().1;
    let ky = rot_signed_spec(y).unwrap().1;
    lemma_mod64_add(kx, ky);
    lemma_mod64_add(ky, 0);
    let kk = mod64(kx + ky);
    assert(ay < 64 && ax < 64);
    assert(kk == (ay + ax) % 64);
    let v = u.regs[r as int];
    let v1 = rotl(v, ay as u32);
    let v2 = rotl(v1, ax as u32);
    lemma_rotl_add(v, ay as u32, ax as u32);
    assert(v2 == rotl(v, kk as u32));
    assert(t == set_reg(u, r, v1));
    assert(t.regs[r as int] == v1);
    assert(step(x, t) == Some(set_reg(t, r, v2)));
    lemma_set_reg_twice(u, r, v1, v2);
    if kk == 0 {
        lemma_rot_zero_identity(u, r);
    } else {
        lemma_rot_op_effect(r, kk as int, u);
        assert(mod64(kk as int) == kk);
    }
}

/// Phase 1 of a pass: merge adjacent rotations of one register, drop rotations by 0.
#[verifier::rlimit(60)]
fn merge_rotations(prog: &Vec<Inst>) -> (a: Vec<Inst>)
    ensures
        a@ == merge_spec(prog@),
        alias_free(prog@) ==> refines(a@, prog@) && alias_free(a@),
        all_invertible(prog@) ==> all_invertible(a@),
        a@.len() <= prog@.len(),
{
    let mut a: Vec<Inst> = Vec::new();
    let mut i: usize = 0;
    assert(prog@.take(0) =~= Seq::<Inst>::empty());
    while i < prog.len()
        invariant
            i <= prog@.len(),
            alias_free(prog@) ==> refines(a@, prog@.take(i as int)) && alias_free(a@),
            all_invertible(prog@) ==> all_invertible(a@),
            a@.len() <= i,
            a@ == merge_spec(prog@.take(i as int)),
        decreases prog@.len() - i,
    {
        let x = prog[i];
        let ghost p = prog@.take(i as int);
        let ghost a_old = a@;
        assert(prog@.take(i + 1) =~= p.push(x));
        assert(p.push(x).drop_last() =~= p);
        match rot_signed(x) {
            Some((r, k)) => {
                let last_rot = if a.len() > 0 { rot_signed(a[a.len() - 1]) } else { None };
                let same = match last_rot {
                    Some((r2, _)) => r2 == r,
                    None => false,
                };
                if same {
                    let k2: i32 = match last_rot {
                        Some((_, k2)) => k2,
                        None => 0,
                    };
                    let y = a.pop().unwrap();
                    let ghost a0 = a@;
                    assert(a_old == a0.push(y));
                    let s2 = k + k2;
                    let kk: i32 = if s2 >= 0 { s2 % 64 } else { (s2 + 128) % 64 };
                    assert(kk as nat == mod64(k as int + k2 as int));
                    if kk != 0 {
                        a.push(rot_op(r, kk));
                        assert(mod64(kk as int) == kk);
                    }
                    proof {
                        if alias_free(prog@) {
                        assert forall|s: StateV| #[trigger] run_spec(p.push(x), s).ok implies
                            run_spec(a@, s).ok && run_spec(a@, s).state == run_spec(p.push(x), s).state by {
                            lemma_run_push(p, x, s);
                            lemma_run_push(a0, y, s);
                            let u = run_spec(a0, s).state;
                            lemma_merge_rotations(y, x, u);
                            if kk != 0 {
                                lemma_run_push(a0, rot_op_spec(r, kk as int), s);
                                assert(rot_op_spec(r, kk as int) == rot_op_spec(r, mod64(k as int + k2 as int) as int));
                            }
                        }
                        assert forall|j: int| 0 <= j < a@.len() implies alias_spec(#[trigger] a@[j]) is None by {
                            if j < a0.len() {
                                assert(a_old[j] == a@[j]);
                            }
                        }
                        }
                        if all_invertible(prog@) {
                            assert forall|j: int| 0 <= j < a@.len() implies invertible(#[trigger] a@[j]) by {
                                if j < a0.len() {
                                    assert(a_old[j] == a@[j]);
                                }
                            }
                        }
                    }
                } else if k != 0 {
                    a.push(x);
                    proof {
                        if alias_free(prog@) {
                            assert(alias_spec(prog@[i as int]) is None);
                            assert forall|s: StateV| #[trigger] run_spec(p.push(x), s).ok implies
                                run_spec(a@, s).ok && run_spec(a@, s).state == run_spec(p.push(x), s).state by {
                                lemma_run_push(p, x, s);
                                lemma_run_push(a_old, x, s);
                            }
                        }
                        if all_invertible(prog@) {
                            assert(invertible(prog@[i as int]));
                        }
                    }
                } else {
                    proof {
                        if alias_free(prog@) {
                            assert forall|s: StateV| #[trigger] run_spec(p.push(x), s).ok implies
                                run_spec(a@, s).ok && run_spec(a@, s).state == run_spec(p.push(x), s).state by {
                                lemma_run_push(p, x, s);
                                let t = run_spec(p, s).state;
                                lemma_rot_effect(x, t);
                                lemma_rot_zero_identity(t, r);
                            }
                        }
                    }
                }
            },
            None => {
                a.push(x);
                proof {
                    if alias_free(prog@) {
                        assert(alias_spec(prog@[i as int]) is None);
                        assert forall|s: StateV| #[trigger] run_spec(p.push(x), s).ok implies
                            run_spec(a@, s).ok && run_spec(a@, s).state == run_spec(p.push(x), s).state by {
                            lemma_run_push(p, x, s);
                            lemma_run_push(a_old, x, s);
                        }
                    }
                    if all_invertible(prog@) {
                        assert(invertible(prog@[i as int]));
                    }
                }
            },
        }
        i += 1;
    }
    assert(prog@.take(i as int) =~= prog@);
    a
}

/// Phase 2 of a pass: cancel adjacent mutually inverse pairs with a stack.
fn cancel_pairs(a: &Vec<Inst>) -> (out: Vec<Inst>)
    ensures
        out@ == cancel_spec(a@),
        alias_free(a@) ==> refines(out@, a@) && alias_free(out@),
        all_invertible(a@) ==> all_invertible(out@),
        out@.len() <= a@.len(),
{
    let mut out: Vec<Inst> = Vec::new();
    let mut i: usize = 0;
    assert(a@.take(0) =~= Seq::<Inst>::empty());
    while i < a.len()
        invariant
            i <= a@.len(),
            alias_free(a@) ==> refines(out@, a@.take(i as int)) && alias_free(out@),
            all_invertible(a@) ==> all_invertible(out@),
            out@.len() <= i,
            out@ == cancel_spec(a@.take(i as int)),
        decreases a@.len() - i,
    {
        let x = a[i];
        let ghost p = a@.take(i as int);
        let ghost o_old = out@;
        assert(a@.take(i + 1) =~= p.push(x));
        assert(p.push(x).drop_last() =~= p);
        if out.len() > 0 && cancel_pair(out[out.len() - 1], x) {
            let top = out.pop().unwrap();
            let ghost o0 = out@;
            assert(o_old == o0.push(top));
            proof {
                if alias_free(a@) {
                assert(alias_spec(o_old[o_old.len() - 1]) is None);
                assert(alias_spec(a@[i as int]) is None);
                assert forall|s: StateV| #[trigger] run_spec(p.push(x), s).ok implies
                    run_spec(out@, s).ok && run_spec(out@, s).state == run_spec(p.push(x), s).state by {
                    lemma_run_push(p, x, s);
                    lemma_run_push(o0, top, s);
                    let u = run_spec(o0, s).state;
                    lemma_cancel_identity(top, x, u);
                }
                assert forall|j: int| 0 <= j < out@.len() implies alias_spec(#[trigger] out@[j]) is None by {
                    assert(o_old[j] == out@[j]);
                }
                }
                if all_invertible(a@) {
                    assert forall|j: int| 0 <= j < out@.len() implies invertible(#[trigger] out@[j]) by {
                        assert(o_old[j] == out@[j]);
                    }
                }
            }
        } else {
            out.push(x);
            proof {
                if alias_free(a@) {
                    assert(alias_spec(a@[i as int]) is None);
                    assert forall|s: StateV| #[trigger] run_spec(p.push(x), s).ok implies
                        run_spec(out@, s).ok && run_spec(out@, s).state == run_spec(p.push(x), s).state by {
                        lemma_run_push(p, x, s);
                        lemma_run_push(o_old, x, s);
                    }
                }
                if all_invertible(a@) {
                    assert(invertible(a@[i as int]));
                }
            }
        }
        i += 1;
    }
    assert(a@.take(i as int) =~= a@);
    out
}

/// One rewriting pass: rotation merging, then pair cancellation.
fn pass(prog: &Vec<Inst>) -> (out: Vec<Inst>)
    ensures
        out@ == pass_spec(prog@),
        alias_free(prog@) ==> refines(out@, prog@) && alias_free(out@),
        all_invertible(prog@) ==> all_invertible(out@),
        out@.len() <= prog@.len(),
{
    let a = merge_rotations(prog);
    let out = cancel_pairs(&a);
    proof {
        if alias_free(prog@) {
            lemma_refines_trans(out@, a@, prog@);
        }
    }
    out
}

pub proof fn lemma_refines_trans(r: Seq<Inst>, q: Seq<Inst>, p: Seq<Inst>)
    requires
        refines(r, q),
        refines(q, p),
    ensures
        refines(r, p),
{
    assert forall|s: StateV| #[trigger] run_spec(p, s).ok implies run_spec(r, s).ok && run_spec(r, s).state == run_spec(p, s).state by {
        assert(run_spec(q, s).ok);
    }
}

/// Optimize a straight-line kernel to a fixed point: passes run until one of
/// them removes nothing, so the result has nothing left to merge or cancel.
///
/// Sound for alias-free programs: wherever the input runs to completion, the
/// result runs to completion and reaches the same state. Never longer; keeps
/// every instruction invertible when the input's are.
pub fn optimize(prog: &[Inst]) -> (out: Vec<Inst>)
    ensures
        out@ == optimize_spec(prog@),
        pass_spec(out@) == out@,
        alias_free(prog@) ==> refines(out@, prog@) && alias_free(out@),
        all_invertible(prog@) ==> all_invertible(out@),
        out@.len() <= prog@.len(),
{
    let mut cur: Vec<Inst> = Vec::new();
    let mut i: usize = 0;
    while i < prog.len()
        invariant
            i <= prog@.len(),
            cur@ == prog@.take(i as int),
        decreases prog@.len() - i,
    {
        cur.push(prog[i]);
        i += 1;
        assert(cur@ =~= prog@.take(i as int));
    }
    assert(prog@.take(i as int) =~= prog@);
    assert forall|s: StateV| #[trigger] run_spec(prog@, s).ok implies run_spec(cur@, s).ok && run_spec(cur@, s).state == run_spec(prog@, s).state by {}
    loop
        invariant_except_break
            opt_loop(cur@) == optimize_spec(prog@),
        invariant
            alias_free(prog@) ==> refines(cur@, prog@) && alias_free(cur@),
            all_invertible(prog@) ==> all_invertible(cur@),
            cur@.len() <= prog@.len(),
        ensures
            cur@ == optimize_spec(prog@),
        decreases cur@.len(),
    {
        let next = pass(&cur);
        proof {
            if alias_free(prog@) {
                lemma_refines_trans(next@, cur@, prog@);
            }
        }
        if next.len() >= cur.len() {
            cur = next;
            break;
        }
        cur = next;
    }
    proof {
        law_optimize_fixed_point(prog@);
    }
    cur
}

} // verus!
