//! The machine: forward and backward execution over the expanded leaf stream,
//! and rollback of the reversible suffix.
//!
//! `rep` loops are expanded while walking the tree; the stream of leaves is
//! never built except by `iter_forward`/`iter_reverse`, which return it.
use vstd::prelude::*;
use crate::inst::{Inst, inverse_spec, invertible, law_inverse_undoes, operand_error, step, text_spec};
use crate::program::{Node, NodeV, lemma_nodes_view, node_view, nodes_view};
use crate::state::{State, StateV};
use crate::text::{dec_spec, extend_chars, push_dec, push_str, string_of};

verus! {

/// `n` copies of `s`, one after the other.
pub open spec fn repeat(s: Seq<Inst>, n: nat) -> Seq<Inst>
    decreases n,
{
    if n == 0 {
        seq![]
    } else {
        repeat(s, (n - 1) as nat) + s
    }
}

/// The expanded stream of leaves, in forward order.
pub open spec fn flatten(nodes: Seq<NodeV>) -> Seq<Inst>
    decreases nodes,
{
    if nodes.len() == 0 {
        seq![]
    } else {
        flatten(nodes.drop_last()) + flatten_node(nodes.last())
    }
}

pub open spec fn flatten_node(n: NodeV) -> Seq<Inst>
    decreases n,
{
    match n {
        NodeV::Inst(i) => seq![i],
        NodeV::Rep { count, body } => repeat(flatten(body), count as nat),
    }
}

/// The expanded stream of leaves, in backward order (built from the front).
pub open spec fn flatten_rev(nodes: Seq<NodeV>) -> Seq<Inst>
    decreases nodes,
{
    if nodes.len() == 0 {
        seq![]
    } else {
        flatten_rev(nodes.drop_first()) + flatten_node_rev(nodes[0])
    }
}

pub open spec fn flatten_node_rev(n: NodeV) -> Seq<Inst>
    decreases n,
{
    match n {
        NodeV::Inst(i) => seq![i],
        NodeV::Rep { count, body } => repeat(flatten_rev(body), count as nat),
    }
}

/// The leaves of an executable program.
pub open spec fn leaves(nodes: Seq<Node>) -> Seq<Inst> {
    flatten(nodes_view(nodes))
}

/// Outcome of running a stream forward: the state reached, how many leaves
/// ran, and whether all of them did.
pub ghost struct RunOut {
    pub state: StateV,
    pub done: nat,
    pub ok: bool,
}

/// Run leaves in order, stopping at the first one whose operands are out of range.
pub open spec fn run_spec(ls: Seq<Inst>, s: StateV) -> RunOut
    decreases ls.len(),
{
    if ls.len() == 0 {
        RunOut { state: s, done: 0, ok: true }
    } else {
        let r = run_spec(ls.drop_last(), s);
        if !r.ok {
            r
        } else {
            match step(ls.last(), r.state) {
                Some(t) => RunOut { state: t, done: r.done + 1, ok: true },
                None => RunOut { state: r.state, done: r.done, ok: false },
            }
        }
    }
}

/// Outcome of rolling back: state reached, leaves undone, whether a
/// non-invertible leaf stopped it, whether an inverse failed on its operands.
pub ghost struct RollOut {
    pub state: StateV,
    pub done: nat,
    pub stop: bool,
    pub err: bool,
}

/// Undo up to `n` leaves of a backward stream, stopping at the first leaf that
/// has no inverse or aliases its operands.
pub open spec fn rollback_spec(rl: Seq<Inst>, s: StateV, n: nat) -> RollOut
    decreases rl.len(),
{
    if rl.len() == 0 || n == 0 {
        RollOut { state: s, done: 0, stop: false, err: false }
    } else if !invertible(rl[0]) {
        RollOut { state: s, done: 0, stop: true, err: false }
    } else {
        match step(inverse_spec(rl[0]).unwrap(), s) {
            None => RollOut { state: s, done: 0, stop: false, err: true },
            Some(t) => {
                let r = rollback_spec(rl.drop_first(), t, (n - 1) as nat);
                RollOut { state: r.state, done: r.done + 1, stop: r.stop, err: r.err }
            },
        }
    }
}

/// How many leaves at the front of a backward stream are invertible.
pub open spec fn inv_prefix(rl: Seq<Inst>) -> nat
    decreases rl.len(),
{
    if rl.len() == 0 || !invertible(rl[0]) {
        0
    } else {
        1 + inv_prefix(rl.drop_first())
    }
}

/// `"лист #k (inst): e"`: the message of a forward run that failed at leaf `k`.
pub open spec fn leaf_msg(k: nat, i: Inst, s: StateV) -> Seq<char> {
    "лист #"@ + dec_spec(k) + " ("@ + text_spec(i) + "): "@ + operand_error(i, s).unwrap()
}

/// The message of a backward run whose inverse leaf `inv` failed after `k` leaves.
pub open spec fn back_msg(k: nat, inv: Inst, s: StateV) -> Seq<char> {
    "обратный лист #"@ + dec_spec(k) + " ("@ + text_spec(inv) + "): "@ + operand_error(inv, s).unwrap()
}

// ---------------------------------------------------------------- lemmas

pub proof fn lemma_repeat_len(s: Seq<Inst>, n: nat)
    ensures
        repeat(s, n).len() == n * s.len(),
    decreases n,
{
    if n > 0 {
        let m = (n - 1) as nat;
        lemma_repeat_len(s, m);
        assert(repeat(s, n).len() == repeat(s, m).len() + s.len());
        lemma_mul_pred(n, s.len());
    } else {
        assert(n * s.len() == 0) by (nonlinear_arith)
            requires n == 0;
    }
}

proof fn lemma_mul_pred(n: nat, l: nat)
    requires
        n >= 1,
    ensures
        n * l == ((n - 1) as nat) * l + l,
{
    assert(n * l == ((n - 1) as nat) * l + l) by (nonlinear_arith)
        requires n >= 1;
}

/// Running a concatenation runs the first part, then (if it succeeded) the second.
pub proof fn lemma_run_concat(a: Seq<Inst>, b: Seq<Inst>, s: StateV)
    ensures
        run_spec(a + b, s) == ({
            let r1 = run_spec(a, s);
            if !r1.ok {
                r1
            } else {
                let r2 = run_spec(b, r1.state);
                RunOut { state: r2.state, done: r1.done + r2.done, ok: r2.ok }
            }
        }),
    decreases b.len(),
{
    if b.len() == 0 {
        assert(a + b =~= a);
    } else {
        lemma_run_concat(a, b.drop_last(), s);
        assert((a + b).drop_last() =~= a + b.drop_last());
        assert((a + b).last() == b.last());
    }
}

/// Rolling back a concatenation rolls back the first part, then the second
/// with what is left of the budget, unless the first part stopped or failed.
pub proof fn lemma_rollback_concat(a: Seq<Inst>, b: Seq<Inst>, s: StateV, n: nat)
    ensures
        rollback_spec(a + b, s, n) == ({
            let r1 = rollback_spec(a, s, n);
            if r1.stop || r1.err {
                r1
            } else {
                let r2 = rollback_spec(b, r1.state, (n - r1.done) as nat);
                RollOut { state: r2.state, done: r1.done + r2.done, stop: r2.stop, err: r2.err }
            }
        }),
        rollback_spec(a, s, n).done <= n,
    decreases a.len(),
{
    if a.len() == 0 {
        assert(a + b =~= b);
    } else if n == 0 {
        lemma_rollback_zero(b, s);
        lemma_rollback_zero(a + b, s);
    } else {
        assert((a + b)[0] == a[0]);
        assert((a + b).drop_first() =~= a.drop_first() + b);
        if invertible(a[0]) {
            match step(inverse_spec(a[0]).unwrap(), s) {
                None => {},
                Some(t) => {
                    lemma_rollback_concat(a.drop_first(), b, t, (n - 1) as nat);
                },
            }
        }
    }
}

pub proof fn lemma_rollback_zero(a: Seq<Inst>, s: StateV)
    ensures
        rollback_spec(a, s, 0) == (RollOut { state: s, done: 0, stop: false, err: false }),
{
}

pub proof fn lemma_flatten_push(nodes: Seq<Node>, i: int)
    requires
        0 <= i < nodes.len(),
    ensures
        leaves(nodes.take(i + 1)) == leaves(nodes.take(i)) + flatten_node(node_view(nodes[i])),
{
    let a = nodes.take(i + 1);
    assert(a.drop_last() =~= nodes.take(i));
    assert(a.last() == nodes[i]);
    let v = nodes_view(a);
    assert(v == nodes_view(nodes.take(i)).push(node_view(nodes[i])));
    assert(v.drop_last() =~= nodes_view(nodes.take(i)));
    assert(v.last() == node_view(nodes[i]));
}


pub proof fn lemma_repeat_split(s: Seq<Inst>, a: nat, b: nat)
    ensures
        repeat(s, a + b) == repeat(s, a) + repeat(s, b),
    decreases b,
{
    if b == 0 {
        assert(repeat(s, a) + repeat(s, 0) =~= repeat(s, a));
    } else {
        lemma_repeat_split(s, a, (b - 1) as nat);
        assert(repeat(s, a) + (repeat(s, (b - 1) as nat) + s) =~= (repeat(s, a) + repeat(s, (b - 1) as nat)) + s);
    }
}

pub proof fn lemma_leaves_split(nodes: Seq<Node>, j: int)
    requires
        0 <= j <= nodes.len(),
    ensures
        leaves(nodes) == leaves(nodes.take(j)) + leaves(nodes.skip(j)),
    decreases nodes.len(),
{
    if j == nodes.len() {
        assert(nodes.take(j) =~= nodes);
        assert(nodes.skip(j) =~= Seq::<Node>::empty());
        assert(leaves(nodes.skip(j)) =~= Seq::<Inst>::empty());
        assert(leaves(nodes) + Seq::<Inst>::empty() =~= leaves(nodes));
    } else {
        let d = nodes.drop_last();
        lemma_leaves_split(d, j);
        let v = nodes_view(nodes);
        assert(v.drop_last() == nodes_view(d));
        assert(leaves(nodes) == leaves(d) + flatten_node(node_view(nodes.last())));
        let sk = nodes.skip(j);
        assert(sk.len() > 0);
        let vs = nodes_view(sk);
        assert(vs.drop_last() == nodes_view(sk.drop_last()));
        assert(vs.last() == node_view(sk.last()));
        assert(d.take(j) =~= nodes.take(j));
        assert(nodes.skip(j).drop_last() =~= d.skip(j));
        assert(nodes.skip(j).last() == nodes.last());
        assert(leaves(nodes.take(j)) + (leaves(d.skip(j)) + flatten_node(node_view(nodes.last())))
            =~= (leaves(nodes.take(j)) + leaves(d.skip(j))) + flatten_node(node_view(nodes.last())));
    }
}

/// A run that fails inside a middle chunk fails there for the whole stream.
pub proof fn lemma_run_fail_mid(x: Seq<Inst>, c: Seq<Inst>, y: Seq<Inst>, s: StateV)
    requires
        run_spec(x, s).ok,
        !run_spec(c, run_spec(x, s).state).ok,
    ensures
        ({
            let rx = run_spec(x, s);
            let rc = run_spec(c, rx.state);
            &&& run_spec(x + c + y, s) == (RunOut { state: rc.state, done: rx.done + rc.done, ok: false })
            &&& rx.done == x.len()
            &&& rc.done < c.len()
            &&& (x + c + y)[(rx.done + rc.done) as int] == c[rc.done as int]
        }),
{
    lemma_run_concat(x, c, s);
    lemma_run_concat(x + c, y, s);
    lemma_run_done(x, s);
    lemma_run_done(c, run_spec(x, s).state);
}

/// A successful run executes every leaf; a failed one stops before the end.
pub proof fn lemma_run_done(x: Seq<Inst>, s: StateV)
    ensures
        run_spec(x, s).ok ==> run_spec(x, s).done == x.len(),
        !run_spec(x, s).ok ==> run_spec(x, s).done < x.len() && step(x[run_spec(x, s).done as int], run_spec(x, s).state) is None,
    decreases x.len(),
{
    if x.len() > 0 {
        lemma_run_done(x.drop_last(), s);
    }
}

// ---------------------------------------------------------------- forward

/// The run of `ls` from `s` failed, and `msg` names the failing leaf by its
/// position counted from `base`.
pub open spec fn run_failed(ls: Seq<Inst>, s: StateV, base: nat, msg: Seq<char>) -> bool {
    let o = run_spec(ls, s);
    &&& !o.ok
    &&& o.done < ls.len()
    &&& msg == leaf_msg(base + o.done, ls[o.done as int], o.state)
}

pub(crate) fn leaf_error(k: u64, inst: Inst, e: String) -> (m: String)
    ensures
        m@ == "лист #"@ + dec_spec(k as nat) + " ("@ + text_spec(inst) + "): "@ + e@,
{
    let mut v: Vec<char> = Vec::new();
    push_str(&mut v, "лист #");
    push_dec(&mut v, k);
    push_str(&mut v, " (");
    let t = inst.text();
    extend_chars(&mut v, &t);
    push_str(&mut v, "): ");
    let ev = crate::text::chars_of(e.as_str());
    extend_chars(&mut v, &ev);
    string_of(&v)
}

fn run_seq(state: &mut State, nodes: &[Node], k: &mut u64) -> (r: Result<(), String>)
    requires
        *old(k) + leaves(nodes@).len() <= u64::MAX,
    ensures
        final(state)@ == run_spec(leaves(nodes@), old(state)@).state,
        *final(k) == *old(k) + run_spec(leaves(nodes@), old(state)@).done,
        (r is Ok) == run_spec(leaves(nodes@), old(state)@).ok,
        r is Err ==> run_failed(leaves(nodes@), old(state)@, *old(k) as nat, r->Err_0@),
    decreases nodes@,
{
    let ghost s0 = state@;
    let ghost k0 = *k;
    let ghost all = leaves(nodes@);
    let mut i: usize = 0;
    assert(leaves(nodes@.take(0)) =~= Seq::<Inst>::empty());
    while i < nodes.len()
        invariant
            i <= nodes@.len(),
            s0 == old(state)@,
            k0 == *old(k),
            all == leaves(nodes@),
            k0 + all.len() <= u64::MAX,
            run_spec(leaves(nodes@.take(i as int)), s0) == (RunOut { state: state@, done: (*k - k0) as nat, ok: true }),
            k0 <= *k,
            *k - k0 == leaves(nodes@.take(i as int)).len(),
        decreases nodes@.len() - i,
    {
        let ghost pre = leaves(nodes@.take(i as int));
        let ghost chunk = flatten_node(node_view(nodes@[i as int]));
        let ghost rest = leaves(nodes@.skip(i + 1));
        let ghost sp = state@;
        proof {
            lemma_flatten_push(nodes@, i as int);
            lemma_run_concat(pre, chunk, s0);
            lemma_leaves_split(nodes@, i + 1);
            assert(all == pre + chunk + rest);
        }
        match &nodes[i] {
            Node::Inst(inst) => {
                assert(chunk =~= seq![*inst]);
                assert(chunk.drop_last() =~= Seq::<Inst>::empty());
                match inst.exec(state) {
                    Ok(()) => {
                        *k += 1;
                        proof {
                            assert(chunk.last() == *inst);
                            assert(run_spec(chunk.drop_last(), sp) == (RunOut { state: sp, done: 0, ok: true }));
                            assert(run_spec(chunk, sp) == (RunOut { state: state@, done: 1, ok: true }));
                        }
                    },
                    Err(e) => {
                        proof {
                            assert(run_spec(chunk.drop_last(), sp).ok);
                            assert(chunk.last() == *inst);
                            assert(step(*inst, sp) is None);
                            assert(!run_spec(chunk, sp).ok);
                            lemma_run_fail_mid(pre, chunk, rest, s0);
                            let o = run_spec(all, s0);
                            assert(o.state == sp);
                            assert(o.done == pre.len());
                            assert(all[o.done as int] == *inst);
                            assert(!o.ok);
                        }
                        assert(e@ == operand_error(*inst, sp).unwrap());
                        let msg = leaf_error(*k, *inst, e);
                        assert(msg@ == leaf_msg(*k as nat, *inst, sp));
                        assert(state@ == sp);
                        assert(*k == k0 + pre.len());
                        assert(run_spec(leaves(nodes@), s0).state == sp);
                        assert(run_spec(leaves(nodes@), s0).done == pre.len());
                        return Err(msg);
                    },
                }
            },
            Node::Rep { count, body } => {
                let ghost fb = leaves(body@);
                assert(chunk == repeat(fb, *count as nat));
                proof {
                    lemma_repeat_len(fb, *count as nat);
                    lemma_nodes_view(nodes@);
                    assert(decreases_to!(nodes@ => nodes@[i as int]));
                    assert(decreases_to!(nodes@[i as int] => *body));
                    assert(decreases_to!(*body => body@));
                    assert(decreases_to!(nodes@ => body@));
                }
                let mut j: u64 = 0;
                while j < *count
                    invariant
                        j <= *count,
                        s0 == old(state)@,
                        k0 == *old(k),
                        chunk == repeat(fb, *count as nat),
                        fb == leaves(body@),
                        chunk.len() == (*count as nat) * fb.len(),
                        all == pre + chunk + rest,
                        all == leaves(nodes@),
                        i < nodes@.len(),
                        pre == leaves(nodes@.take(i as int)),
                        leaves(nodes@.take(i + 1)) == pre + chunk,
                        run_spec(pre + chunk, s0) == ({
                            let r1 = run_spec(pre, s0);
                            let r2 = run_spec(chunk, r1.state);
                            RunOut { state: r2.state, done: r1.done + r2.done, ok: r2.ok }
                        }),
                        k0 + all.len() <= u64::MAX,
                        run_spec(pre, s0) == (RunOut { state: sp, done: pre.len(), ok: true }),
                        run_spec(repeat(fb, j as nat), sp) == (RunOut { state: state@, done: (*k - k0 - pre.len()) as nat, ok: true }),
                        *k == k0 + pre.len() + j * fb.len(),
                        j * fb.len() >= 0,
                        decreases_to!(nodes@ => body@),
                    decreases *count - j,
                {
                    proof {
                        lemma_repeat_split(fb, j as nat, 1);
                        lemma_repeat_split(fb, (j + 1) as nat, (*count - j - 1) as nat);
                        assert(repeat(fb, 1) =~= fb);
                        lemma_run_concat(repeat(fb, j as nat), fb, sp);
                        assert((j + 1) * fb.len() <= (*count as nat) * fb.len()) by (nonlinear_arith)
                            requires j + 1 <= *count;
                        assert((j + 1) * fb.len() == j * fb.len() + fb.len()) by (nonlinear_arith);
                        assert((j + 1) * fb.len() >= 0) by (nonlinear_arith);
                    }
                    let ghost sj = state@;
                    let ghost kj = *k;
                    let bs: &[Node] = body.as_slice();
                    assert(bs@ == body@);
                    assert(decreases_to!(nodes@ => bs@));
                    let res = run_seq(state, bs, k);
                    proof {
                        lemma_run_done(fb, sj);
                    }
                    match res {
                        Ok(()) => {},
                        Err(e) => {
                            proof {
                                let x = pre + repeat(fb, j as nat);
                                    let y = repeat(fb, (*count - j - 1) as nat) + rest;
                                lemma_repeat_len(fb, j as nat);
                                lemma_run_concat(pre, repeat(fb, j as nat), s0);
                                lemma_run_fail_mid(x, fb, y, s0);
                                assert(all =~= x + fb + y);
                            }
                            return Err(e);
                        },
                    }
                    j += 1;
                }
                proof {
                    lemma_run_done(repeat(fb, *count as nat), sp);
                    let l = fb.len();
                    let c = *count as nat;
                    assert(c * l >= 0) by (nonlinear_arith);
                    assert(j == *count);
                    assert(*k >= k0 + pre.len());
                    assert(run_spec(pre + chunk, s0) == (RunOut { state: state@, done: (*k - k0) as nat, ok: true }));
                }
            },
        }
        i += 1;
    }
    assert(nodes@.take(i as int) =~= nodes@);
    Ok(())
}

/// Execute the program forward; returns the number of leaves executed.
/// Stops at the first leaf whose operands are out of range (its error names
/// the leaf); the state keeps the effect of every leaf before it.
pub fn run_forward(state: &mut State, nodes: &[Node]) -> (r: Result<u64, String>)
    requires
        leaves(nodes@).len() <= u64::MAX,
    ensures
        ({
            let o = run_spec(leaves(nodes@), old(state)@);
            &&& final(state)@ == o.state
            &&& o.ok ==> r == Ok::<u64, String>(o.done as u64) && o.done == leaves(nodes@).len()
            &&& !o.ok ==> r is Err && o.done < leaves(nodes@).len()
                && r->Err_0@ == leaf_msg(o.done, leaves(nodes@)[o.done as int], o.state)
        }),
{
    let mut k: u64 = 0;
    proof {
        lemma_run_done(leaves(nodes@), state@);
    }
    run_seq(state, nodes, &mut k)?;
    Ok(k)
}

// ---------------------------------------------------------------- backward

/// The leaves of an executable program, in backward order.
pub open spec fn leaves_rev(nodes: Seq<Node>) -> Seq<Inst> {
    flatten_rev(nodes_view(nodes))
}

pub proof fn lemma_reverse_concat(a: Seq<Inst>, b: Seq<Inst>)
    ensures
        (a + b).reverse() == b.reverse() + a.reverse(),
{
    assert((a + b).reverse() =~= b.reverse() + a.reverse());
}

pub proof fn lemma_repeat_reverse(s: Seq<Inst>, n: nat)
    ensures
        repeat(s, n).reverse() == repeat(s.reverse(), n),
    decreases n,
{
    if n > 0 {
        lemma_repeat_reverse(s, (n - 1) as nat);
        lemma_reverse_concat(repeat(s, (n - 1) as nat), s);
        // repeat(r, n) == r + repeat(r, n - 1)
        lemma_repeat_split(s.reverse(), 1, (n - 1) as nat);
        assert(repeat(s.reverse(), 0) =~= Seq::<Inst>::empty());
        assert(repeat(s.reverse(), 1) == repeat(s.reverse(), 0) + s.reverse());
        assert(repeat(s.reverse(), 1) =~= s.reverse());
        assert((1 + (n - 1)) as nat == n);
    } else {
        assert(Seq::<Inst>::empty().reverse() =~= Seq::<Inst>::empty());
    }
}

/// `flatten` split at the front.
pub proof fn lemma_flatten_front(x: Seq<NodeV>)
    requires
        x.len() > 0,
    ensures
        flatten(x) == flatten_node(x[0]) + flatten(x.drop_first()),
    decreases x.len(),
{
    if x.len() == 1 {
        assert(x.drop_last() =~= Seq::<NodeV>::empty());
        assert(x.drop_first() =~= Seq::<NodeV>::empty());
        assert(flatten_node(x[0]) + Seq::<Inst>::empty() =~= flatten_node(x[0]));
        assert(Seq::<Inst>::empty() + flatten_node(x[0]) =~= flatten_node(x[0]));
    } else {
        let d = x.drop_last();
        lemma_flatten_front(d);
        assert(d.drop_first() =~= x.drop_first().drop_last());
        assert(x.drop_first().last() == x.last());
        assert(d[0] == x[0]);
        assert(flatten_node(x[0]) + flatten(d.drop_first()) + flatten_node(x.last())
            =~= flatten_node(x[0]) + (flatten(d.drop_first()) + flatten_node(x.last())));
    }
}

/// The backward stream is the forward stream reversed.
pub proof fn lemma_flatten_rev(x: Seq<NodeV>)
    ensures
        flatten_rev(x) == flatten(x).reverse(),
    decreases x,
{
    if x.len() == 0 {
        assert(flatten(x).reverse() =~= Seq::<Inst>::empty());
    } else {
        lemma_flatten_front(x);
        lemma_flatten_rev(x.drop_first());
        lemma_flatten_node_rev(x[0]);
        lemma_reverse_concat(flatten_node(x[0]), flatten(x.drop_first()));
    }
}

pub proof fn lemma_flatten_node_rev(n: NodeV)
    ensures
        flatten_node_rev(n) == flatten_node(n).reverse(),
    decreases n,
{
    match n {
        NodeV::Inst(i) => {
            assert(seq![i].reverse() =~= seq![i]);
        },
        NodeV::Rep { count, body } => {
            lemma_flatten_rev(body);
            lemma_repeat_reverse(flatten(body), count as nat);
        },
    }
}

pub proof fn lemma_leaves_rev(nodes: Seq<Node>)
    ensures
        leaves_rev(nodes) == leaves(nodes).reverse(),
{
    lemma_flatten_rev(nodes_view(nodes));
}

proof fn lemma_rev_suffix_step(nodes: Seq<Node>, i: int)
    requires
        0 < i <= nodes.len(),
    ensures
        leaves_rev(nodes.subrange(i - 1, nodes.len() as int))
            == leaves_rev(nodes.subrange(i, nodes.len() as int)) + flatten_node_rev(node_view(nodes[i - 1])),
{
    let a = nodes.subrange(i - 1, nodes.len() as int);
    let b = nodes.subrange(i, nodes.len() as int);
    lemma_nodes_view(a);
    lemma_nodes_view(b);
    assert(nodes_view(a).drop_first() =~= nodes_view(b));
    assert(nodes_view(a)[0] == node_view(nodes[i - 1]));
}

/// When a prefix of a stream already halts the rollback (boundary, failed
/// inverse, or budget used up), the rest of the stream changes nothing.
pub proof fn lemma_rollback_halt(x: Seq<Inst>, y: Seq<Inst>, s: StateV, n: nat)
    requires
        ({
            let r = rollback_spec(x, s, n);
            r.stop || r.err || r.done == n
        }),
    ensures
        rollback_spec(x + y, s, n) == rollback_spec(x, s, n),
{
    lemma_rollback_concat(x, y, s, n);
    lemma_rollback_zero(y, rollback_spec(x, s, n).state);
}

/// A failed inverse is reported at the position where it happened.
pub proof fn lemma_rollback_err(x: Seq<Inst>, s: StateV, n: nat)
    requires
        rollback_spec(x, s, n).err,
    ensures
        ({
            let r = rollback_spec(x, s, n);
            &&& r.done < x.len()
            &&& r.done < n
            &&& invertible(x[r.done as int])
            &&& step(inverse_spec(x[r.done as int]).unwrap(), r.state) is None
        }),
    decreases x.len(),
{
    if x.len() > 0 && n > 0 && invertible(x[0]) {
        match step(inverse_spec(x[0]).unwrap(), s) {
            None => {},
            Some(t) => {
                lemma_rollback_err(x.drop_first(), t, (n - 1) as nat);
            },
        }
    }
}

/// The message of a rollback that failed, counting from `base`.
pub open spec fn rollback_failed(rl: Seq<Inst>, s: StateV, n: nat, base: nat, msg: Seq<char>) -> bool {
    let o = rollback_spec(rl, s, n);
    &&& o.err
    &&& o.done < rl.len()
    &&& msg == back_msg(base + o.done, inverse_spec(rl[o.done as int]).unwrap(), o.state)
}

pub(crate) fn back_error(k: u64, inv: Inst, e: String) -> (m: String)
    ensures
        m@ == "обратный лист #"@ + dec_spec(k as nat) + " ("@ + text_spec(inv) + "): "@ + e@,
{
    let mut v: Vec<char> = Vec::new();
    push_str(&mut v, "обратный лист #");
    push_dec(&mut v, k);
    push_str(&mut v, " (");
    let t = inv.text();
    extend_chars(&mut v, &t);
    push_str(&mut v, "): ");
    let ev = crate::text::chars_of(e.as_str());
    extend_chars(&mut v, &ev);
    string_of(&v)
}

/// Roll back the leaves of `nodes` (backward order) with budget `n - done`.
/// `Ok(true)` when the rollback halted: a boundary, or the budget used up.
fn rev_seq(state: &mut State, nodes: &[Node], n: u64, done: &mut u64) -> (r: Result<bool, String>)
    requires
        *old(done) <= n,
    ensures
        ({
            let o = rollback_spec(leaves_rev(nodes@), old(state)@, (n - *old(done)) as nat);
            &&& final(state)@ == o.state
            &&& *final(done) == *old(done) + o.done
            &&& *final(done) <= n
            &&& (r is Err) == o.err
            &&& r is Ok ==> r->Ok_0 == (o.stop || *final(done) == n)
            &&& r is Err ==> rollback_failed(leaves_rev(nodes@), old(state)@, (n - *old(done)) as nat, *old(done) as nat, r->Err_0@)
        }),
    decreases nodes@,
{
    let ghost s0 = state@;
    let ghost d0 = *done;
    let ghost all = leaves_rev(nodes@);
    let ghost len = nodes@.len();
    if *done == n {
        proof {
            lemma_rollback_zero(all, s0);
        }
        return Ok(true);
    }
    let mut i: usize = nodes.len();
    assert(nodes@.subrange(len as int, len as int) =~= Seq::<Node>::empty());
    assert(leaves_rev(nodes@.subrange(len as int, len as int)) =~= Seq::<Inst>::empty());
    while i > 0
        invariant
            i <= len,
            len == nodes@.len(),
            s0 == old(state)@,
            d0 == *old(done),
            all == leaves_rev(nodes@),
            d0 <= *done < n,
            rollback_spec(leaves_rev(nodes@.subrange(i as int, len as int)), s0, (n - d0) as nat)
                == (RollOut { state: state@, done: (*done - d0) as nat, stop: false, err: false }),
        decreases i,
    {
        let ghost pre = leaves_rev(nodes@.subrange(i as int, len as int));
        let ghost chunk = flatten_node_rev(node_view(nodes@[i - 1]));
        let ghost rest = leaves_rev(nodes@.subrange(0, i - 1));
        let ghost sp = state@;
        let ghost dp = *done;
        let ghost budget = (n - d0) as nat;
        proof {
            lemma_rev_suffix_step(nodes@, i as int);
            lemma_rollback_concat(pre, chunk, s0, budget);
            lemma_rollback_done_pre(pre, s0, budget);
            lemma_rev_split(nodes@, i - 1);
            assert(all == pre + chunk + rest);
        }
        match &nodes[i - 1] {
            Node::Inst(inst) => {
                assert(chunk =~= seq![*inst]);
                assert(chunk[0] == *inst);
                assert(chunk.drop_first() =~= Seq::<Inst>::empty());
                let inv = match inst.inverse() {
                    Some(x) => {
                        if inst.operand_alias().is_some() {
                            proof {
                                assert(!invertible(*inst));
                                lemma_rollback_halt(pre + chunk, rest, s0, budget);
                            }
                            return Ok(true);
                        }
                        x
                    },
                    None => {
                        proof {
                            assert(!invertible(*inst));
                            lemma_rollback_halt(pre + chunk, rest, s0, budget);
                        }
                        return Ok(true);
                    },
                };
                match inv.exec(state) {
                    Ok(()) => {
                        *done += 1;
                        proof {
                            lemma_rollback_zero(chunk.drop_first(), state@);
                            let nb = (budget - (dp - d0)) as nat;
                            assert(nb == n - dp);
                            assert(nb > 0);
                            assert(invertible(chunk[0]));
                            assert(step(inverse_spec(chunk[0]).unwrap(), sp) == Some(state@));
                            assert(rollback_spec(chunk.drop_first(), state@, (nb - 1) as nat) == (RollOut { state: state@, done: 0, stop: false, err: false }));
                            assert(rollback_spec(chunk, sp, nb) == (RollOut { state: state@, done: 1, stop: false, err: false }));
                        }
                        if *done == n {
                            proof {
                                lemma_rollback_halt(pre + chunk, rest, s0, budget);
                            }
                            return Ok(true);
                        }
                    },
                    Err(e) => {
                        proof {
                            lemma_rollback_halt(pre + chunk, rest, s0, budget);
                            lemma_rollback_err(all, s0, budget);
                            assert(all[(dp - d0) as int] == *inst) by {
                                assert((pre + chunk + rest)[pre.len() as int] == chunk[0]);
                            }
                            lemma_rollback_done_pre(pre, s0, budget);
                        }
                        return Err(back_error(*done, inv, e));
                    },
                }
            },
            Node::Rep { count, body } => {
                let ghost fb = leaves_rev(body@);
                assert(chunk == repeat(fb, *count as nat));
                proof {
                    lemma_nodes_view(nodes@);
                    assert(decreases_to!(nodes@ => nodes@[i - 1]));
                    assert(decreases_to!(nodes@[i - 1] => *body));
                    assert(decreases_to!(*body => body@));
                    assert(decreases_to!(nodes@ => body@));
                }
                let mut j: u64 = 0;
                while j < *count
                    invariant
                        j <= *count,
                        i > 0,
                        i <= len,
                        len == nodes@.len(),
                        s0 == old(state)@,
                        d0 == *old(done),
                        all == leaves_rev(nodes@),
                        all == pre + chunk + rest,
                        budget == (n - d0) as nat,
                        d0 <= *done < n,
                        chunk == repeat(fb, *count as nat),
                        fb == leaves_rev(body@),
                        pre == leaves_rev(nodes@.subrange(i as int, len as int)),
                        leaves_rev(nodes@.subrange(i - 1, len as int)) == pre + chunk,
                        rollback_spec(pre, s0, budget) == (RollOut { state: sp, done: (dp - d0) as nat, stop: false, err: false }),
                        rollback_spec(pre + repeat(fb, j as nat), s0, budget)
                            == (RollOut { state: state@, done: (*done - d0) as nat, stop: false, err: false }),
                        decreases_to!(nodes@ => body@),
                    decreases *count - j,
                {
                    proof {
                        lemma_repeat_split(fb, j as nat, 1);
                        lemma_repeat_split(fb, (j + 1) as nat, (*count - j - 1) as nat);
                        assert(repeat(fb, 1) =~= fb);
                        assert(pre + repeat(fb, (j + 1) as nat) =~= (pre + repeat(fb, j as nat)) + fb);
                        lemma_rollback_concat(pre + repeat(fb, j as nat), fb, s0, budget);
                        assert(all =~= (pre + repeat(fb, (j + 1) as nat)) + (repeat(fb, (*count - j - 1) as nat) + rest));
                    }
                    let bs: &[Node] = body.as_slice();
                    assert(bs@ == body@);
                    assert(decreases_to!(nodes@ => bs@));
                    let ghost sj = state@;
                    let ghost dj = *done;
                    let h = rev_seq(state, bs, n, done);
                    match h {
                        Err(e) => {
                            proof {
                                let p = pre + repeat(fb, j as nat);
                                let x = pre + repeat(fb, (j + 1) as nat);
                                let y = repeat(fb, (*count - j - 1) as nat) + rest;
                                lemma_rollback_halt(x, y, s0, budget);
                                lemma_rollback_done_pre(p, s0, budget);
                                assert(p.len() == dj - d0);
                                let r2 = rollback_spec(fb, sj, (n - dj) as nat);
                                assert((budget - (dj - d0)) as nat == (n - dj) as nat);
                                assert(r2.done < fb.len());
                                assert(all == x + y);
                                assert(x == p + fb);
                                assert((p + fb + y)[(p.len() + r2.done) as int] == fb[r2.done as int]);
                            }
                            return Err(e);
                        },
                        Ok(true) => {
                            proof {
                                let x = pre + repeat(fb, (j + 1) as nat);
                                lemma_rollback_halt(x, repeat(fb, (*count - j - 1) as nat) + rest, s0, budget);
                            }
                            return Ok(true);
                        },
                        Ok(false) => {},
                    }
                    j += 1;
                }
                proof {
                    assert(pre + repeat(fb, *count as nat) == pre + chunk);
                }
            },
        }
        i -= 1;
    }
    assert(nodes@.subrange(0, len as int) =~= nodes@);
    Ok(false)
}

proof fn lemma_rollback_done_pre(pre: Seq<Inst>, s: StateV, n: nat)
    ensures
        rollback_spec(pre, s, n).done <= n,
        rollback_spec(pre, s, n).done <= pre.len(),
        ({
            let r = rollback_spec(pre, s, n);
            !r.stop && !r.err && r.done < n ==> r.done == pre.len()
        }),
    decreases pre.len(),
{
    if pre.len() > 0 && n > 0 && invertible(pre[0]) {
        match step(inverse_spec(pre[0]).unwrap(), s) {
            None => {},
            Some(t) => {
                lemma_rollback_done_pre(pre.drop_first(), t, (n - 1) as nat);
            },
        }
    }
}

proof fn lemma_rev_split(nodes: Seq<Node>, k: int)
    requires
        0 <= k < nodes.len(),
    ensures
        leaves_rev(nodes) == leaves_rev(nodes.subrange(k + 1, nodes.len() as int))
            + flatten_node_rev(node_view(nodes[k])) + leaves_rev(nodes.subrange(0, k)),
{
    lemma_leaves_rev(nodes);
    lemma_leaves_rev(nodes.subrange(k + 1, nodes.len() as int));
    lemma_leaves_rev(nodes.subrange(0, k));
    lemma_leaves_split(nodes, k);
    lemma_leaves_split(nodes.skip(k), 1);
    assert(nodes.skip(k).take(1) =~= seq![nodes[k]]);
    assert(nodes.skip(k).skip(1) =~= nodes.subrange(k + 1, nodes.len() as int));
    assert(nodes.take(k) =~= nodes.subrange(0, k));
    let one = seq![nodes[k]];
    assert(one.drop_last() =~= Seq::<Node>::empty());
    assert(nodes_view(one.drop_last()) =~= Seq::<NodeV>::empty());
    assert(nodes_view(one) =~= seq![node_view(nodes[k])]);
    let nv = seq![node_view(nodes[k])];
    assert(nv.drop_last() =~= Seq::<NodeV>::empty());
    assert(flatten(nv.drop_last()) =~= Seq::<Inst>::empty());
    assert(leaves(one) =~= flatten_node(node_view(nodes[k])));
    lemma_flatten_node_rev(node_view(nodes[k]));
    let a = leaves(nodes.subrange(0, k));
    let b = flatten_node(node_view(nodes[k]));
    let c = leaves(nodes.subrange(k + 1, nodes.len() as int));
    lemma_reverse_concat(a, b + c);
    lemma_reverse_concat(b, c);
    assert(c.reverse() + (b.reverse() + a.reverse()) =~= c.reverse() + b.reverse() + a.reverse());
}

/// Undo up to `n` leaves from the end of the stream (at most the reversible
/// suffix). Returns how many leaves were undone; stops at a boundary (`set`,
/// `mset`) or an aliasing leaf.
pub fn reverse_n(state: &mut State, nodes: &[Node], n: u64) -> (r: Result<u64, String>)
    ensures
        ({
            let o = rollback_spec(leaves(nodes@).reverse(), old(state)@, n as nat);
            &&& final(state)@ == o.state
            &&& !o.err ==> r == Ok::<u64, String>(o.done as u64)
            &&& o.err ==> r is Err && rollback_failed(leaves(nodes@).reverse(), old(state)@, n as nat, 0, r->Err_0@)
        }),
{
    let mut done: u64 = 0;
    proof {
        lemma_leaves_rev(nodes@);
    }
    match rev_seq(state, nodes, n, &mut done) {
        Ok(_) => Ok(done),
        Err(e) => Err(e),
    }
}

/// Full rollback: undo the whole reversible suffix.
pub fn reverse_all(state: &mut State, nodes: &[Node]) -> (r: Result<u64, String>)
    ensures
        ({
            let o = rollback_spec(leaves(nodes@).reverse(), old(state)@, u64::MAX as nat);
            &&& final(state)@ == o.state
            &&& !o.err ==> r == Ok::<u64, String>(o.done as u64)
            &&& o.err ==> r is Err && rollback_failed(leaves(nodes@).reverse(), old(state)@, u64::MAX as nat, 0, r->Err_0@)
        }),
{
    reverse_n(state, nodes, u64::MAX)
}

/// Has an inverse and no operand aliasing.
fn invertible_for_rollback(inst: &Inst) -> (b: bool)
    ensures
        b == invertible(*inst),
{
    inst.inverse().is_some() && inst.operand_alias().is_none()
}

pub proof fn lemma_inv_prefix_concat(a: Seq<Inst>, b: Seq<Inst>)
    ensures
        inv_prefix(a + b) == if inv_prefix(a) < a.len() {
            inv_prefix(a)
        } else {
            a.len() + inv_prefix(b)
        },
        inv_prefix(a) <= a.len(),
    decreases a.len(),
{
    if a.len() == 0 {
        assert(a + b =~= b);
    } else {
        assert((a + b)[0] == a[0]);
        assert((a + b).drop_first() =~= a.drop_first() + b);
        lemma_inv_prefix_concat(a.drop_first(), b);
    }
}

/// Count the invertible leaves at the end of `nodes`' stream, adding to `acc`;
/// returns whether a non-invertible leaf was met.
fn suffix_seq(nodes: &[Node], acc: &mut u64) -> (stopped: bool)
    requires
        *old(acc) + leaves_rev(nodes@).len() <= u64::MAX,
    ensures
        *final(acc) == *old(acc) + inv_prefix(leaves_rev(nodes@)),
        stopped == (inv_prefix(leaves_rev(nodes@)) < leaves_rev(nodes@).len()),
    decreases nodes@,
{
    let ghost a0 = *acc;
    let ghost len = nodes@.len();
    let ghost all = leaves_rev(nodes@);
    let mut i: usize = nodes.len();
    assert(nodes@.subrange(len as int, len as int) =~= Seq::<Node>::empty());
    assert(leaves_rev(nodes@.subrange(len as int, len as int)) =~= Seq::<Inst>::empty());
    while i > 0
        invariant
            i <= len,
            len == nodes@.len(),
            a0 == *old(acc),
            all == leaves_rev(nodes@),
            a0 + all.len() <= u64::MAX,
            inv_prefix(leaves_rev(nodes@.subrange(i as int, len as int))) == *acc - a0,
            *acc - a0 == leaves_rev(nodes@.subrange(i as int, len as int)).len(),
            a0 <= *acc,
        decreases i,
    {
        let ghost pre = leaves_rev(nodes@.subrange(i as int, len as int));
        let ghost chunk = flatten_node_rev(node_view(nodes@[i - 1]));
        let ghost rest = leaves_rev(nodes@.subrange(0, i - 1));
        let ghost ap = *acc;
        proof {
            lemma_rev_suffix_step(nodes@, i as int);
            lemma_rev_split(nodes@, i - 1);
            assert(all == pre + chunk + rest);
            lemma_inv_prefix_concat(pre, chunk);
            lemma_inv_prefix_concat(pre + chunk, rest);
            lemma_inv_prefix_concat(chunk, rest);
            assert(pre + chunk + rest == pre + (chunk + rest));
            lemma_inv_prefix_concat(pre, chunk + rest);
        }
        match &nodes[i - 1] {
            Node::Inst(inst) => {
                assert(chunk =~= seq![*inst]);
                assert(chunk.drop_first() =~= Seq::<Inst>::empty());
                if !invertible_for_rollback(inst) {
                    return true;
                }
                *acc += 1;
            },
            Node::Rep { count, body } => {
                let ghost fb = leaves_rev(body@);
                assert(chunk == repeat(fb, *count as nat));
                proof {
                    lemma_nodes_view(nodes@);
                    assert(decreases_to!(nodes@ => nodes@[i - 1]));
                    assert(decreases_to!(nodes@[i - 1] => *body));
                    assert(decreases_to!(*body => body@));
                    assert(decreases_to!(nodes@ => body@));
                    lemma_repeat_len(fb, *count as nat);
                }
                let mut j: u64 = 0;
                while j < *count
                    invariant
                        j <= *count,
                        i > 0,
                        i <= len,
                        len == nodes@.len(),
                        a0 == *old(acc),
                        all == leaves_rev(nodes@),
                        all == pre + (chunk + rest),
                        a0 + all.len() <= u64::MAX,
                        chunk == repeat(fb, *count as nat),
                        chunk.len() == (*count as nat) * fb.len(),
                        fb == leaves_rev(body@),
                        pre == leaves_rev(nodes@.subrange(i as int, len as int)),
                        leaves_rev(nodes@.subrange(i - 1, len as int)) == pre + chunk,
                        inv_prefix(pre) == pre.len(),
                        ap - a0 == pre.len(),
                        inv_prefix(repeat(fb, j as nat)) == *acc - ap,
                        *acc - ap == repeat(fb, j as nat).len(),
                        ap <= *acc,
                        inv_prefix(pre + chunk) == pre.len() + inv_prefix(chunk),
                        inv_prefix(pre + (chunk + rest)) == if inv_prefix(chunk) < chunk.len() {
                            pre.len() + inv_prefix(chunk)
                        } else {
                            pre.len() + chunk.len() + inv_prefix(rest)
                        },
                        decreases_to!(nodes@ => body@),
                    decreases *count - j,
                {
                    proof {
                        lemma_repeat_split(fb, j as nat, 1);
                        lemma_repeat_split(fb, (j + 1) as nat, (*count - j - 1) as nat);
                        assert(repeat(fb, 1) =~= fb);
                        lemma_inv_prefix_concat(repeat(fb, j as nat), fb);
                        lemma_inv_prefix_concat(repeat(fb, (j + 1) as nat), repeat(fb, (*count - j - 1) as nat));
                        lemma_repeat_len(fb, (j + 1) as nat);
                        lemma_repeat_len(fb, (*count - j - 1) as nat);
                        assert(((j + 1) as nat) * fb.len() + ((*count - j - 1) as nat) * fb.len() == (*count as nat) * fb.len()) by (nonlinear_arith)
                            requires j + 1 <= *count;
                    }
                    let bs: &[Node] = body.as_slice();
                    assert(bs@ == body@);
                    assert(decreases_to!(nodes@ => bs@));
                    let st = suffix_seq(bs, acc);
                    if st {
                        return true;
                    }
                    j += 1;
                }
            },
        }
        i -= 1;
    }
    assert(nodes@.subrange(0, len as int) =~= nodes@);
    false
}

/// Length of the reversible suffix: how many leaves from the end can be rolled
/// back before a boundary (`set`/`mset`) or an aliasing leaf.
pub fn reversible_suffix_len(nodes: &[Node]) -> (n: u64)
    requires
        leaves(nodes@).len() <= u64::MAX,
    ensures
        n == inv_prefix(leaves(nodes@).reverse()),
{
    let mut acc: u64 = 0;
    proof {
        lemma_leaves_rev(nodes@);
    }
    suffix_seq(nodes, &mut acc);
    acc
}

// ---------------------------------------------------------------- queries

pub open spec fn sat(x: nat) -> nat {
    if x > u64::MAX {
        u64::MAX as nat
    } else {
        x
    }
}

proof fn lemma_sat_mul(c: nat, l: nat)
    ensures
        sat(c * sat(l)) == sat(c * l),
        c * l >= 0,
{
    assert(c * l >= 0) by (nonlinear_arith);
    if l > u64::MAX {
        if c == 0 {
            assert(c * sat(l) == 0 && c * l == 0) by (nonlinear_arith)
                requires c == 0;
        } else {
            assert(c * sat(l) >= sat(l) && c * l >= l) by (nonlinear_arith)
                requires c >= 1;
        }
    }
}

/// Number of leaves of the expanded stream, saturating at `u64::MAX`.
pub fn count_leaves(nodes: &[Node]) -> (n: u64)
    ensures
        n == sat(leaves(nodes@).len()),
    decreases nodes@,
{
    let mut total: u64 = 0;
    let mut i: usize = 0;
    assert(leaves(nodes@.take(0)) =~= Seq::<Inst>::empty());
    while i < nodes.len()
        invariant
            i <= nodes@.len(),
            total == sat(leaves(nodes@.take(i as int)).len()),
        decreases nodes@.len() - i,
    {
        proof {
            lemma_flatten_push(nodes@, i as int);
        }
        match &nodes[i] {
            Node::Inst(_) => {
                total = total.saturating_add(1);
            },
            Node::Rep { count, body } => {
                proof {
                    lemma_nodes_view(nodes@);
                    assert(decreases_to!(nodes@ => nodes@[i as int]));
                    assert(decreases_to!(nodes@[i as int] => *body));
                    assert(decreases_to!(*body => body@));
                }
                let bs: &[Node] = body.as_slice();
                assert(bs@ == body@);
                assert(decreases_to!(nodes@ => bs@));
                let b = count_leaves(bs);
                proof {
                    lemma_repeat_len(leaves(body@), *count as nat);
                    lemma_sat_mul(*count as nat, leaves(body@).len());
                }
                let m: u64 = match count.checked_mul(b) {
                    Some(x) => x,
                    None => u64::MAX,
                };
                total = total.saturating_add(m);
            },
        }
        i += 1;
    }
    assert(nodes@.take(i as int) =~= nodes@);
    total
}

fn collect_seq(nodes: &[Node], out: &mut Vec<Inst>)
    ensures
        final(out)@ == old(out)@ + leaves(nodes@),
    decreases nodes@,
{
    let ghost o0 = out@;
    let mut i: usize = 0;
    assert(leaves(nodes@.take(0)) =~= Seq::<Inst>::empty());
    assert(o0 + Seq::<Inst>::empty() =~= o0);
    while i < nodes.len()
        invariant
            i <= nodes@.len(),
            o0 == old(out)@,
            out@ == o0 + leaves(nodes@.take(i as int)),
        decreases nodes@.len() - i,
    {
        proof {
            lemma_flatten_push(nodes@, i as int);
        }
        let ghost pre = leaves(nodes@.take(i as int));
        match &nodes[i] {
            Node::Inst(inst) => {
                out.push(*inst);
                assert(out@ =~= o0 + leaves(nodes@.take(i + 1)));
            },
            Node::Rep { count, body } => {
                let ghost fb = leaves(body@);
                proof {
                    lemma_nodes_view(nodes@);
                    assert(decreases_to!(nodes@ => nodes@[i as int]));
                    assert(decreases_to!(nodes@[i as int] => *body));
                    assert(decreases_to!(*body => body@));
                    assert(decreases_to!(nodes@ => body@));
                    assert(repeat(fb, 0) =~= Seq::<Inst>::empty());
                    assert(o0 + pre + Seq::<Inst>::empty() =~= o0 + pre);
                }
                let mut j: u64 = 0;
                while j < *count
                    invariant
                        j <= *count,
                        o0 == old(out)@,
                        fb == leaves(body@),
                        out@ == o0 + pre + repeat(fb, j as nat),
                        decreases_to!(nodes@ => body@),
                    decreases *count - j,
                {
                    let bs: &[Node] = body.as_slice();
                    assert(bs@ == body@);
                    assert(decreases_to!(nodes@ => bs@));
                    collect_seq(bs, out);
                    proof {
                        assert(o0 + pre + repeat(fb, j as nat) + fb =~= o0 + pre + (repeat(fb, j as nat) + fb));
                    }
                    j += 1;
                }
                assert(out@ =~= o0 + leaves(nodes@.take(i + 1)));
            },
        }
        i += 1;
    }
    assert(nodes@.take(i as int) =~= nodes@);
}

/// The expanded leaf stream in forward order.
pub fn iter_forward(nodes: &[Node]) -> (out: Vec<Inst>)
    ensures
        out@ == leaves(nodes@),
{
    let mut out: Vec<Inst> = Vec::new();
    collect_seq(nodes, &mut out);
    assert(Seq::<Inst>::empty() + leaves(nodes@) =~= leaves(nodes@));
    out
}

/// The expanded leaf stream in backward order (the instructions themselves;
/// the caller applies their inverses).
pub fn iter_reverse(nodes: &[Node]) -> (out: Vec<Inst>)
    ensures
        out@ == leaves(nodes@).reverse(),
{
    let fwd = iter_forward(nodes);
    let mut out: Vec<Inst> = Vec::new();
    let mut k: usize = fwd.len();
    while k > 0
        invariant
            k <= fwd@.len(),
            out@.len() == fwd@.len() - k,
            forall|t: int| 0 <= t < out@.len() ==> out@[t] == fwd@[fwd@.len() - 1 - t],
        decreases k,
    {
        k -= 1;
        out.push(fwd[k]);
    }
    assert(out@ =~= fwd@.reverse());
    out
}

fn find_seq(nodes: &[Node], rem: &mut u64) -> (r: Option<Inst>)
    ensures
        (*old(rem) as nat) < leaves(nodes@).len() ==> r == Some(leaves(nodes@)[*old(rem) as int]),
        (*old(rem) as nat) >= leaves(nodes@).len() ==> r is None && *final(rem) == *old(rem) - leaves(nodes@).len(),
    decreases nodes@,
{
    let ghost r0 = *rem;
    let mut i: usize = 0;
    assert(leaves(nodes@.take(0)) =~= Seq::<Inst>::empty());
    while i < nodes.len()
        invariant
            i <= nodes@.len(),
            r0 == *old(rem),
            r0 >= leaves(nodes@.take(i as int)).len(),
            *rem == r0 - leaves(nodes@.take(i as int)).len(),
        decreases nodes@.len() - i,
    {
        proof {
            lemma_flatten_push(nodes@, i as int);
            lemma_leaves_split(nodes@, i + 1);
        }
        let ghost pre = leaves(nodes@.take(i as int));
        let ghost chunk = flatten_node(node_view(nodes@[i as int]));
        let ghost rest = leaves(nodes@.skip(i + 1));
        match &nodes[i] {
            Node::Inst(inst) => {
                if *rem == 0 {
                    assert((pre + chunk + rest)[pre.len() as int] == *inst);
                    return Some(*inst);
                }
                *rem -= 1;
            },
            Node::Rep { count, body } => {
                let ghost fb = leaves(body@);
                proof {
                    lemma_nodes_view(nodes@);
                    assert(decreases_to!(nodes@ => nodes@[i as int]));
                    assert(decreases_to!(nodes@[i as int] => *body));
                    assert(decreases_to!(*body => body@));
                    assert(decreases_to!(nodes@ => body@));
                    lemma_repeat_len(fb, 0);
                }
                let mut j: u64 = 0;
                while j < *count
                    invariant
                        j <= *count,
                        r0 == *old(rem),
                        fb == leaves(body@),
                        chunk == repeat(fb, *count as nat),
                        leaves(nodes@) == pre + chunk + rest,
                        leaves(nodes@.take(i + 1)) == pre + chunk,
                        r0 >= pre.len() + repeat(fb, j as nat).len(),
                        *rem == r0 - pre.len() - repeat(fb, j as nat).len(),
                        decreases_to!(nodes@ => body@),
                    decreases *count - j,
                {
                    proof {
                        lemma_repeat_split(fb, j as nat, 1);
                        lemma_repeat_split(fb, (j + 1) as nat, (*count - j - 1) as nat);
                        assert(repeat(fb, 1) =~= fb);
                    }
                    let bs: &[Node] = body.as_slice();
                    assert(bs@ == body@);
                    assert(decreases_to!(nodes@ => bs@));
                    let ghost rj = *rem;
                    let f = find_seq(bs, rem);
                    if f.is_some() {
                        proof {
                            let x = pre + repeat(fb, j as nat);
                            let y = repeat(fb, (*count - j - 1) as nat) + rest;
                            assert(leaves(nodes@) =~= x + fb + y);
                            assert((x + fb + y)[x.len() + rj] == fb[rj as int]);
                        }
                        return f;
                    }
                    j += 1;
                }
            },
        }
        i += 1;
    }
    assert(nodes@.take(i as int) =~= nodes@);
    None
}

/// The instruction at position `idx` of the expanded stream (for the debugger).
pub fn leaf_at(nodes: &[Node], idx: u64) -> (r: Option<Inst>)
    ensures
        (idx as nat) < leaves(nodes@).len() ==> r == Some(leaves(nodes@)[idx as int]),
        (idx as nat) >= leaves(nodes@).len() ==> r is None,
{
    let mut rem = idx;
    find_seq(nodes, &mut rem)
}

// ---------------------------------------------------------------- laws

/// Rolling back after a successful forward run: undoing `n` leaves (capped by
/// the reversible suffix `p`) lands exactly on the state the forward run had
/// after its first `len - min(n, p)` leaves. It stops at a boundary only when
/// the budget reaches past the suffix, and never fails.
pub proof fn law_rollback_rewinds(ls: Seq<Inst>, s: StateV, n: nat)
    requires
        run_spec(ls, s).ok,
    ensures
        ({
            let p = inv_prefix(ls.reverse());
            let m = if n < p { n } else { p };
            let o = rollback_spec(ls.reverse(), run_spec(ls, s).state, n);
            &&& p <= ls.len()
            &&& o.state == run_spec(ls.take(ls.len() - m), s).state
            &&& o.done == m
            &&& o.stop == (n > p && p < ls.len())
            &&& !o.err
        }),
    decreases ls.len(),
{
    let rev = ls.reverse();
    if ls.len() == 0 {
        assert(ls.take(0) =~= ls);
    } else {
        let d = ls.drop_last();
        let x = ls.last();
        assert(rev[0] == x);
        assert(rev.drop_first() =~= d.reverse());
        let t = run_spec(ls, s).state;
        let td = run_spec(d, s).state;
        assert(ls.take(ls.len() as int) =~= ls);
        lemma_inv_prefix_concat(rev, Seq::<Inst>::empty());
        assert(rev + Seq::<Inst>::empty() =~= rev);
        assert(ls.drop_last() == d);
        assert(run_spec(d, s).ok);
        assert(step(x, td) == Some(t));
        if n == 0 {
        } else if !invertible(x) {
            assert(inv_prefix(rev) == 0);
        } else {
            law_inverse_undoes(x, td);
            law_rollback_rewinds(d, s, (n - 1) as nat);
            let p1 = inv_prefix(d.reverse());
            let m1 = if ((n - 1) as nat) < p1 { (n - 1) as nat } else { p1 };
            assert(d.take(d.len() - m1) =~= ls.take(ls.len() - (m1 + 1)));
            assert(inv_prefix(rev) == 1 + p1);
            assert(step(inverse_spec(x).unwrap(), t) == Some(td));
        }
    }
}

/// F⁻¹(F(S)) == S: for a stream of invertible leaves that ran forward, undoing
/// all of it restores the starting state exactly.
pub proof fn law_roundtrip(ls: Seq<Inst>, s: StateV, n: nat)
    requires
        run_spec(ls, s).ok,
        forall|i: int| 0 <= i < ls.len() ==> invertible(#[trigger] ls[i]),
        n >= ls.len(),
    ensures
        rollback_spec(ls.reverse(), run_spec(ls, s).state, n)
            == (RollOut { state: s, done: ls.len(), stop: false, err: false }),
{
    let rl = ls.reverse();
    assert forall|i: int| 0 <= i < rl.len() implies invertible(#[trigger] rl[i]) by {
        assert(rl[i] == ls[ls.len() - 1 - i]);
    }
    lemma_inv_prefix_all(rl);
    law_rollback_rewinds(ls, s, n);
    assert(ls.take(0) =~= Seq::<Inst>::empty());
}

/// The inverses of a backward stream's leaves, in the same order.
pub open spec fn inverses(rl: Seq<Inst>) -> Seq<Inst> {
    rl.map_values(|i: Inst| inverse_spec(i).unwrap())
}

/// Law: a rollback with a budget of `n` leaves never crosses a boundary. It
/// undoes the first `k = min(n, p)` leaves of the backward stream, `p` being
/// the number of invertible leaves at its front, by applying their inverses
/// in that order; wherever those inverses run, it reports `k` leaves undone,
/// no error, and a stop at the boundary exactly when the budget reaches it.
pub proof fn law_rollback_partial(rl: Seq<Inst>, s: StateV, n: nat)
    requires
        run_spec(inverses(rl.take(if n < inv_prefix(rl) { n as int } else { inv_prefix(rl) as int })), s).ok,
    ensures
        ({
            let p = inv_prefix(rl);
            let k = if n < p { n } else { p };
            let o = rollback_spec(rl, s, n);
            &&& o.state == run_spec(inverses(rl.take(k as int)), s).state
            &&& o.done == k
            &&& !o.err
            &&& o.stop == (n > p && p < rl.len())
        }),
    decreases rl.len(),
{
    let p = inv_prefix(rl);
    let k = if n < p { n } else { p };
    if rl.len() == 0 || n == 0 || !invertible(rl[0]) {
        assert(inverses(rl.take(0)) =~= Seq::<Inst>::empty());
    } else {
        let x = rl[0];
        let inv = inverse_spec(x).unwrap();
        let d = rl.drop_first();
        lemma_inv_prefix_concat(d, Seq::<Inst>::empty());
        assert(p == 1 + inv_prefix(d));
        let kd = (k - 1) as nat;
        let lhs = inverses(rl.take(k as int));
        let rhs = seq![inv] + inverses(d.take(kd as int));
        assert forall|j: int| 0 <= j < lhs.len() implies lhs[j] == rhs[j] by {
            if j > 0 {
                assert(rl.take(k as int)[j] == d.take(kd as int)[j - 1]);
            }
        }
        assert(lhs =~= rhs);
        lemma_run_concat(seq![inv], inverses(d.take(kd as int)), s);
        assert(seq![inv].drop_last() =~= Seq::<Inst>::empty());
        assert(seq![inv].last() == inv);
        assert(run_spec(Seq::<Inst>::empty(), s).ok);
        assert(run_spec(seq![inv], s).ok);
        let t = step(inv, s).unwrap();
        assert(run_spec(seq![inv], s).state == t);
        assert(kd == if (n - 1) < inv_prefix(d) { (n - 1) as nat } else { inv_prefix(d) });
        law_rollback_partial(d, t, (n - 1) as nat);
        assert(rollback_spec(rl, s, n) == RollOut {
            state: rollback_spec(d, t, (n - 1) as nat).state,
            done: rollback_spec(d, t, (n - 1) as nat).done + 1,
            stop: rollback_spec(d, t, (n - 1) as nat).stop,
            err: rollback_spec(d, t, (n - 1) as nat).err,
        });
    }
}

proof fn lemma_inv_prefix_all(rl: Seq<Inst>)
    requires
        forall|i: int| 0 <= i < rl.len() ==> invertible(#[trigger] rl[i]),
    ensures
        inv_prefix(rl) == rl.len(),
    decreases rl.len(),
{
    if rl.len() > 0 {
        let d = rl.drop_first();
        assert forall|i: int| 0 <= i < d.len() implies invertible(#[trigger] d[i]) by {
            assert(rl[i + 1] == d[i]);
        }
        lemma_inv_prefix_all(d);
    }
}

} // verus!
