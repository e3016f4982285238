//! Synthesis of reversible kernels from samples.
//!
//! Given input/output pairs over `k` registers, search breadth-first, layer
//! by layer, for a shortest program over a pool of bijective operators that
//! maps every input to its output. Candidates whose results on the samples
//! were already reached are pruned. Every program
//! found is reversible by construction, since every operator in the pool is.
use vstd::prelude::*;
use crate::inst::{effect, invertible, step, Inst};
use crate::state::{State, StateV};

verus! {

/// A sample: an input state and the wanted output state.
pub type Sample = (State, State);

// ---------------------------------------------------------------- the pool

/// The rotations of one register in the pool.
pub open spec fn rots(a: u8) -> Seq<Inst> {
    seq![Inst::RotL(a, 1), Inst::RotL(a, 7), Inst::RotL(a, 13), Inst::RotL(a, 31)]
}

/// The two-register operators of register `a` with registers `0..b`.
pub open spec fn pairs(a: u8, b: nat) -> Seq<Inst>
    decreases b,
{
    if b == 0 {
        seq![]
    } else {
        let c = (b - 1) as u8;
        pairs(a, (b - 1) as nat) + if a != c {
            seq![Inst::Xor(a, c), Inst::Add(a, c), Inst::Sub(a, c)] + if a < c {
                seq![Inst::Swap(a, c)]
            } else {
                Seq::<Inst>::empty()
            }
        } else {
            Seq::<Inst>::empty()
        }
    }
}

/// The pool for registers `0..a` of `k`.
pub open spec fn pool_upto(k: u8, a: nat) -> Seq<Inst>
    decreases a,
{
    if a == 0 {
        seq![]
    } else {
        let r = (a - 1) as u8;
        pool_upto(k, (a - 1) as nat) + seq![Inst::Not(r)] + pairs(r, k as nat) + rots(r)
    }
}

/// The candidate operators for `k` registers.
pub open spec fn pool_spec(k: u8) -> Seq<Inst> {
    pool_upto(k, k as nat)
}

/// The candidate operators for `k` registers, in search order.
pub fn pool(k: u8) -> (p: Vec<Inst>)
    ensures
        p@ == pool_spec(k),
{
    let mut p: Vec<Inst> = Vec::new();
    let mut a: u8 = 0;
    while a < k
        invariant
            a <= k,
            p@ == pool_upto(k, a as nat),
        decreases k - a,
    {
        let ghost p0 = p@;
        p.push(Inst::Not(a));
        let mut b: u8 = 0;
        while b < k
            invariant
                b <= k,
                a < k,
                p@ == p0 + seq![Inst::Not(a)] + pairs(a, b as nat),
            decreases k - b,
        {
            let ghost p1 = p@;
            if a != b {
                p.push(Inst::Xor(a, b));
                p.push(Inst::Add(a, b));
                p.push(Inst::Sub(a, b));
                if a < b {
                    p.push(Inst::Swap(a, b));
                }
            }
            assert(((b + 1) as nat - 1) as u8 == b);
            assert(p@ =~= p1 + (if a != b {
                seq![Inst::Xor(a, b), Inst::Add(a, b), Inst::Sub(a, b)] + if a < b {
                    seq![Inst::Swap(a, b)]
                } else {
                    Seq::<Inst>::empty()
                }
            } else {
                Seq::<Inst>::empty()
            }));
            b += 1;
        }
        p.push(Inst::RotL(a, 1));
        p.push(Inst::RotL(a, 7));
        p.push(Inst::RotL(a, 13));
        p.push(Inst::RotL(a, 31));
        assert(((a + 1) as nat - 1) as u8 == a);
        assert(p@ =~= pool_upto(k, (a + 1) as nat));
        a += 1;
    }
    p
}

// ---------------------------------------------------------------- the search

/// Every sample state after one operator.
pub open spec fn step_all(states: Seq<StateV>, op: Inst) -> Seq<StateV> {
    states.map_values(|s: StateV| effect(op, s))
}

/// The states' registers are the wanted ones.
pub open spec fn meets(states: Seq<StateV>, samples: Seq<(StateV, StateV)>) -> bool {
    forall|i: int| 0 <= i < samples.len() ==> #[trigger] states[i].regs == samples[i].1.regs
}

/// The outcome of scanning one layer.
pub ghost enum Scan {
    Found(Seq<Inst>),
    Next(Seq<Seq<StateV>>, Seq<(Seq<Inst>, Seq<StateV>)>),
}

/// Scan the layer from entry `fi`, operator `oi` on: extend each entry by each
/// operator, stop at the first that meets the samples, and keep the others
/// whose results are new.
pub open spec fn scan(
    pool: Seq<Inst>,
    samples: Seq<(StateV, StateV)>,
    frontier: Seq<(Seq<Inst>, Seq<StateV>)>,
    fi: nat,
    oi: nat,
    visited: Seq<Seq<StateV>>,
    next: Seq<(Seq<Inst>, Seq<StateV>)>,
) -> Scan
    decreases frontier.len() - fi, pool.len() - oi,
{
    if fi >= frontier.len() {
        Scan::Next(visited, next)
    } else if oi >= pool.len() {
        scan(pool, samples, frontier, fi + 1, 0, visited, next)
    } else {
        let ns = step_all(frontier[fi as int].1, pool[oi as int]);
        let np = frontier[fi as int].0.push(pool[oi as int]);
        if meets(ns, samples) {
            Scan::Found(np)
        } else if visited.contains(ns) {
            scan(pool, samples, frontier, fi, oi + 1, visited, next)
        } else {
            scan(pool, samples, frontier, fi, oi + 1, visited.push(ns), next.push((np, ns)))
        }
    }
}

/// The layered search from `depth` on.
pub open spec fn bfs(
    pool: Seq<Inst>,
    samples: Seq<(StateV, StateV)>,
    depth: nat,
    max_depth: nat,
    frontier: Seq<(Seq<Inst>, Seq<StateV>)>,
    visited: Seq<Seq<StateV>>,
) -> Option<Seq<Inst>>
    decreases max_depth - depth,
{
    if depth >= max_depth {
        None
    } else {
        match scan(pool, samples, frontier, 0, 0, visited, seq![]) {
            Scan::Found(p) => Some(p),
            Scan::Next(v, n) => if n.len() == 0 {
                None
            } else {
                bfs(pool, samples, depth + 1, max_depth, n, v)
            },
        }
    }
}

pub open spec fn samples_view(s: Seq<(State, State)>) -> Seq<(StateV, StateV)> {
    s.map_values(|p: (State, State)| (p.0@, p.1@))
}

pub open spec fn inputs(s: Seq<(StateV, StateV)>) -> Seq<StateV> {
    s.map_values(|p: (StateV, StateV)| p.0)
}

/// The program the search returns.
pub open spec fn synth_spec(samples: Seq<(StateV, StateV)>, k: u8, max_depth: nat) -> Option<Seq<Inst>> {
    bfs(pool_spec(k), samples, 0, max_depth, seq![(seq![], inputs(samples))], seq![inputs(samples)])
}

// ---------------------------------------------------------------- executable search

/// A pool operator: registers below `k`, no aliasing.
pub open spec fn in_pool_range(i: Inst, k: u8) -> bool {
    match i {
        Inst::Not(a) => a < k,
        Inst::RotL(a, _) => a < k,
        Inst::Xor(a, b) | Inst::Add(a, b) | Inst::Sub(a, b) | Inst::Swap(a, b) => a < k && b < k && a != b,
        _ => false,
    }
}

proof fn lemma_pairs_range(a: u8, b: nat, k: u8)
    requires
        a < k,
        b <= k,
    ensures
        forall|i: int| 0 <= i < pairs(a, b).len() ==> in_pool_range(#[trigger] pairs(a, b)[i], k),
    decreases b,
{
    if b > 0 {
        lemma_pairs_range(a, (b - 1) as nat, k);
        let p = pairs(a, (b - 1) as nat);
        let c = (b - 1) as u8;
        let e = if a != c {
            seq![Inst::Xor(a, c), Inst::Add(a, c), Inst::Sub(a, c)] + if a < c {
                seq![Inst::Swap(a, c)]
            } else {
                Seq::<Inst>::empty()
            }
        } else {
            Seq::<Inst>::empty()
        };
        assert forall|i: int| 0 <= i < (p + e).len() implies in_pool_range(#[trigger] (p + e)[i], k) by {
            if i >= p.len() {
                assert((p + e)[i] == e[i - p.len()]);
            } else {
                assert((p + e)[i] == p[i]);
            }
        }
    }
}

proof fn lemma_pool_range(k: u8, a: nat)
    requires
        a <= k,
    ensures
        forall|i: int| 0 <= i < pool_upto(k, a).len() ==> in_pool_range(#[trigger] pool_upto(k, a)[i], k),
    decreases a,
{
    if a > 0 {
        lemma_pool_range(k, (a - 1) as nat);
        let r = (a - 1) as u8;
        lemma_pairs_range(r, k as nat, k);
        let p0 = pool_upto(k, (a - 1) as nat);
        let p1 = p0 + seq![Inst::Not(r)];
        let p2 = p1 + pairs(r, k as nat);
        let p3 = p2 + rots(r);
        assert forall|i: int| 0 <= i < p3.len() implies in_pool_range(#[trigger] p3[i], k) by {
            if i < p0.len() {
                assert(p3[i] == p0[i]);
            } else if i < p1.len() {
                assert(p3[i] == Inst::Not(r));
            } else if i < p2.len() {
                assert(p3[i] == pairs(r, k as nat)[i - p1.len()]);
            } else {
                assert(p3[i] == rots(r)[i - p2.len()]);
            }
        }
    }
}

pub open spec fn states_view(v: Seq<State>) -> Seq<StateV> {
    v.map_values(|s: State| s@)
}

pub open spec fn frontier_view(v: Seq<(Vec<Inst>, Vec<State>)>) -> Seq<(Seq<Inst>, Seq<StateV>)> {
    v.map_values(|e: (Vec<Inst>, Vec<State>)| (e.0@, states_view(e.1@)))
}

pub open spec fn visited_view(v: Seq<Vec<State>>) -> Seq<Seq<StateV>> {
    v.map_values(|t: Vec<State>| states_view(t@))
}

/// The sample states have the samples' shapes (as many, and as many registers).
pub open spec fn shaped(states: Seq<StateV>, samples: Seq<(StateV, StateV)>) -> bool {
    states.len() == samples.len() && forall|j: int| 0 <= j < samples.len() ==> #[trigger] states[j].regs.len() == samples[j].0.regs.len()
}

fn copy_state(s: &State) -> (r: State)
    ensures
        r@ == s@,
{
    let regs = s.regs.clone();
    let mem = s.mem.clone();
    assert(regs@ =~= s.regs@);
    assert(mem@ =~= s.mem@);
    State { regs, mem }
}

/// Apply one pool operator to every sample state.
fn step_states(states: &Vec<State>, op: Inst, k: u8, samples: Ghost<Seq<(StateV, StateV)>>) -> (r: Vec<State>)
    requires
        in_pool_range(op, k),
        shaped(states_view(states@), samples@),
        forall|j: int| 0 <= j < samples@.len() ==> #[trigger] samples@[j].0.regs.len() >= k,
    ensures
        states_view(r@) == step_all(states_view(states@), op),
        shaped(states_view(r@), samples@),
{
    let ghost sv = states_view(states@);
    let mut out: Vec<State> = Vec::new();
    let mut j: usize = 0;
    while j < states.len()
        invariant
            j <= states@.len(),
            sv == states_view(states@),
            in_pool_range(op, k),
            shaped(sv, samples@),
            forall|i: int| 0 <= i < samples@.len() ==> #[trigger] samples@[i].0.regs.len() >= k,
            states_view(out@) == step_all(sv, op).take(j as int),
            forall|i: int| 0 <= i < j ==> #[trigger] states_view(out@)[i].regs.len() == sv[i].regs.len(),
        decreases states@.len() - j,
    {
        let mut s = copy_state(&states[j]);
        assert(sv[j as int] == states@[j as int]@);
        assert(samples@[j as int].0.regs.len() >= k);
        let ghost s0 = s@;
        assert(step(op, s0) == Some(effect(op, s0)));
        let _ = op.exec(&mut s);
        assert(s@ == effect(op, s0));
        let ghost o0 = out@;
        out.push(s);
        proof {
            assert(states_view(out@) =~= states_view(o0).push(s@));
            assert(step_all(sv, op).take(j as int + 1) =~= step_all(sv, op).take(j as int).push(effect(op, sv[j as int])));
        }
        j += 1;
    }
    assert(step_all(sv, op).take(j as int) =~= step_all(sv, op));
    out
}

pub(crate) fn regs_equal(a: &Vec<u64>, b: &Vec<u64>) -> (r: bool)
    ensures
        r == (a@ == b@),
{
    if a.len() != b.len() {
        return false;
    }
    let mut i: usize = 0;
    while i < a.len()
        invariant
            i <= a@.len(),
            a@.len() == b@.len(),
            forall|j: int| 0 <= j < i ==> a@[j] == b@[j],
        decreases a@.len() - i,
    {
        if a[i] != b[i] {
            return false;
        }
        i += 1;
    }
    assert(a@ =~= b@);
    true
}

fn meets_exec(states: &Vec<State>, samples: &[Sample]) -> (r: bool)
    requires
        states@.len() == samples@.len(),
    ensures
        r == meets(states_view(states@), samples_view(samples@)),
{
    let ghost sv = samples_view(samples@);
    let ghost st = states_view(states@);
    let mut i: usize = 0;
    while i < samples.len()
        invariant
            i <= samples@.len(),
            states@.len() == samples@.len(),
            sv == samples_view(samples@),
            st == states_view(states@),
            forall|j: int| 0 <= j < i ==> #[trigger] st[j].regs == sv[j].1.regs,
        decreases samples@.len() - i,
    {
        if !regs_equal(&states[i].regs, &samples[i].1.regs) {
            assert(st[i as int].regs != sv[i as int].1.regs);
            return false;
        }
        i += 1;
    }
    true
}

/// Two states are the same: same registers, same memory.
fn state_equal(a: &State, b: &State) -> (r: bool)
    ensures
        r == (a@ == b@),
{
    regs_equal(&a.regs, &b.regs) && regs_equal(&a.mem, &b.mem)
}

/// Two sample results are the same, state by state.
fn states_equal(a: &Vec<State>, b: &Vec<State>) -> (r: bool)
    ensures
        r == (states_view(a@) == states_view(b@)),
{
    if a.len() != b.len() {
        assert(states_view(a@).len() != states_view(b@).len());
        return false;
    }
    let mut i: usize = 0;
    while i < a.len()
        invariant
            i <= a@.len(),
            a@.len() == b@.len(),
            forall|j: int| 0 <= j < i ==> #[trigger] states_view(a@)[j] == states_view(b@)[j],
        decreases a@.len() - i,
    {
        if !state_equal(&a[i], &b[i]) {
            assert(states_view(a@)[i as int] != states_view(b@)[i as int]);
            return false;
        }
        i += 1;
    }
    assert(states_view(a@) =~= states_view(b@));
    true
}

fn copy_states(v: &Vec<State>) -> (r: Vec<State>)
    ensures
        states_view(r@) == states_view(v@),
{
    let mut out: Vec<State> = Vec::new();
    let mut i: usize = 0;
    while i < v.len()
        invariant
            i <= v@.len(),
            states_view(out@) == states_view(v@).take(i as int),
        decreases v@.len() - i,
    {
        let ghost o0 = out@;
        out.push(copy_state(&v[i]));
        assert(states_view(out@) =~= states_view(o0).push(v@[i as int]@));
        assert(states_view(v@).take(i as int + 1) =~= states_view(v@).take(i as int).push(v@[i as int]@));
        i += 1;
    }
    assert(states_view(v@).take(i as int) =~= states_view(v@));
    out
}

fn visited_contains(visited: &Vec<Vec<State>>, t: &Vec<State>) -> (r: bool)
    ensures
        r == visited_view(visited@).contains(states_view(t@)),
{
    let ghost vv = visited_view(visited@);
    let mut i: usize = 0;
    while i < visited.len()
        invariant
            i <= visited@.len(),
            vv == visited_view(visited@),
            forall|j: int| 0 <= j < i ==> vv[j] != states_view(t@),
        decreases visited@.len() - i,
    {
        if states_equal(&visited[i], t) {
            assert(vv[i as int] == states_view(t@));
            return true;
        }
        i += 1;
    }
    false
}

fn copy_prog(p: &Vec<Inst>) -> (r: Vec<Inst>)
    ensures
        r@ == p@,
{
    let r = p.clone();
    assert(r@ =~= p@);
    r
}

/// Synthesize a shortest reversible program meeting the samples, searching
/// programs of at most `max_depth` operators; `None` if the search finds none.
pub fn synthesize(samples: &[Sample], k: u8, max_depth: usize) -> (r: Option<Vec<Inst>>)
    requires
        forall|j: int| 0 <= j < samples@.len() ==> #[trigger] samples@[j].0@.regs.len() >= k,
    ensures
        match synth_spec(samples_view(samples@), k, max_depth as nat) {
            Some(p) => r is Some && r->0@ == p,
            None => r is None,
        },
{
    let ghost sv = samples_view(samples@);
    let pool = pool(k);
    proof {
        lemma_pool_range(k, k as nat);
    }
    let mut init: Vec<State> = Vec::new();
    let mut j: usize = 0;
    while j < samples.len()
        invariant
            j <= samples@.len(),
            sv == samples_view(samples@),
            states_view(init@) == inputs(sv).take(j as int),
        decreases samples@.len() - j,
    {
        let c = copy_state(&samples[j].0);
        let ghost i0 = init@;
        init.push(c);
        assert(states_view(init@) =~= states_view(i0).push(c@));
        assert(c@ == inputs(sv)[j as int]);
        assert(inputs(sv).take(j as int + 1) =~= inputs(sv).take(j as int).push(inputs(sv)[j as int]));
        j += 1;
    }
    assert(inputs(sv).take(j as int) =~= inputs(sv));
    let ghost pv = pool@;
    let mut visited: Vec<Vec<State>> = Vec::new();
    visited.push(copy_states(&init));
    let mut frontier: Vec<(Vec<Inst>, Vec<State>)> = Vec::new();
    frontier.push((Vec::new(), init));
    proof {
        assert(visited_view(visited@) =~= seq![inputs(sv)]);
        assert(frontier_view(frontier@) =~= seq![(Seq::<Inst>::empty(), inputs(sv))]);
    }
    let mut depth: usize = 0;
    while depth < max_depth
        invariant
            depth <= max_depth,
            sv == samples_view(samples@),
            pv == pool@,
            pv == pool_spec(k),
            forall|i: int| 0 <= i < pv.len() ==> in_pool_range(#[trigger] pv[i], k),
            forall|i: int| 0 <= i < samples@.len() ==> #[trigger] sv[i].0.regs.len() >= k,
            forall|f: int| 0 <= f < frontier@.len() ==> shaped(#[trigger] frontier_view(frontier@)[f].1, sv),
            frontier@.len() > 0,
            synth_spec(sv, k, max_depth as nat)
                == bfs(pv, sv, depth as nat, max_depth as nat, frontier_view(frontier@), visited_view(visited@)),
        decreases max_depth - depth,
    {
        let ghost fv = frontier_view(frontier@);
        let ghost v0 = visited_view(visited@);
        let mut next: Vec<(Vec<Inst>, Vec<State>)> = Vec::new();
        let mut fi: usize = 0;
        assert(frontier_view(next@) =~= Seq::<(Seq<Inst>, Seq<StateV>)>::empty());
        while fi < frontier.len()
            invariant
                fi <= frontier@.len(),
                fv == frontier_view(frontier@),
                sv == samples_view(samples@),
                pv == pool@,
                forall|i: int| 0 <= i < pv.len() ==> in_pool_range(#[trigger] pv[i], k),
                forall|i: int| 0 <= i < samples@.len() ==> #[trigger] sv[i].0.regs.len() >= k,
                forall|f: int| 0 <= f < frontier@.len() ==> shaped(#[trigger] fv[f].1, sv),
                forall|f: int| 0 <= f < next@.len() ==> shaped(#[trigger] frontier_view(next@)[f].1, sv),
                scan(pv, sv, fv, 0, 0, v0, seq![])
                    == scan(pv, sv, fv, fi as nat, 0, visited_view(visited@), frontier_view(next@)),
                depth < max_depth,
                synth_spec(sv, k, max_depth as nat) == bfs(pv, sv, depth as nat, max_depth as nat, fv, v0),
            decreases frontier@.len() - fi,
        {
            let mut oi: usize = 0;
            while oi < pool.len()
                invariant
                    fi < frontier@.len(),
                    oi <= pool@.len(),
                    fv == frontier_view(frontier@),
                    sv == samples_view(samples@),
                    pv == pool@,
                    forall|i: int| 0 <= i < pv.len() ==> in_pool_range(#[trigger] pv[i], k),
                    forall|i: int| 0 <= i < samples@.len() ==> #[trigger] sv[i].0.regs.len() >= k,
                    forall|f: int| 0 <= f < frontier@.len() ==> shaped(#[trigger] fv[f].1, sv),
                    forall|f: int| 0 <= f < next@.len() ==> shaped(#[trigger] frontier_view(next@)[f].1, sv),
                    scan(pv, sv, fv, 0, 0, v0, seq![])
                        == scan(pv, sv, fv, fi as nat, oi as nat, visited_view(visited@), frontier_view(next@)),
                    depth < max_depth,
                    synth_spec(sv, k, max_depth as nat) == bfs(pv, sv, depth as nat, max_depth as nat, fv, v0),
                decreases pool@.len() - oi,
            {
                let op = pool[oi];
                assert(in_pool_range(pv[oi as int], k));
                assert(fv[fi as int].1 == states_view(frontier@[fi as int].1@));
                assert(shaped(fv[fi as int].1, sv));
                let ns = step_states(&frontier[fi].1, op, k, Ghost(sv));
                let mut np = copy_prog(&frontier[fi].0);
                np.push(op);
                assert(np@ == fv[fi as int].0.push(pv[oi as int]));
                if meets_exec(&ns, samples) {
                    return Some(np);
                }
                if visited_contains(&visited, &ns) {
                    oi += 1;
                    continue;
                }
                let ghost vb = visited@;
                let ghost nb = next@;
                visited.push(copy_states(&ns));
                next.push((np, ns));
                proof {
                    assert(visited_view(visited@) =~= visited_view(vb).push(states_view(ns@)));
                    assert(frontier_view(next@) =~= frontier_view(nb).push((np@, states_view(ns@))));
                }
                oi += 1;
            }
            fi += 1;
        }
        if next.len() == 0 {
            return None;
        }
        frontier = next;
        depth += 1;
    }
    None
}

// ---------------------------------------------------------------- laws

/// A program run on a state (every operator's effect, in order).
pub open spec fn run_prog(p: Seq<Inst>, s: StateV) -> StateV
    decreases p.len(),
{
    if p.len() == 0 {
        s
    } else {
        effect(p.last(), run_prog(p.drop_last(), s))
    }
}

/// A search entry at depth `d`: a program of `d` pool operators, with the
/// sample inputs run through it.
pub open spec fn entry_ok(e: (Seq<Inst>, Seq<StateV>), samples: Seq<(StateV, StateV)>, pool: Seq<Inst>, d: nat) -> bool {
    &&& e.0.len() == d
    &&& forall|i: int| 0 <= i < e.0.len() ==> pool.contains(#[trigger] e.0[i])
    &&& e.1 == inputs(samples).map_values(|s: StateV| run_prog(e.0, s))
}

pub open spec fn sound(p: Seq<Inst>, samples: Seq<(StateV, StateV)>, pool: Seq<Inst>) -> bool {
    &&& forall|i: int| 0 <= i < p.len() ==> pool.contains(#[trigger] p[i])
    &&& forall|j: int| 0 <= j < samples.len() ==> #[trigger] run_prog(p, samples[j].0).regs == samples[j].1.regs
}

proof fn lemma_extend(e: (Seq<Inst>, Seq<StateV>), samples: Seq<(StateV, StateV)>, pool: Seq<Inst>, d: nat, op: Inst)
    requires
        entry_ok(e, samples, pool, d),
        pool.contains(op),
    ensures
        entry_ok((e.0.push(op), step_all(e.1, op)), samples, pool, d + 1),
        meets(step_all(e.1, op), samples) ==> sound(e.0.push(op), samples, pool),
{
    let np = e.0.push(op);
    assert(np.drop_last() =~= e.0);
    assert forall|i: int| 0 <= i < np.len() implies pool.contains(#[trigger] np[i]) by {
        if i < e.0.len() {
            assert(np[i] == e.0[i]);
        }
    }
    assert(step_all(e.1, op) =~= inputs(samples).map_values(|s: StateV| run_prog(np, s)));
    if meets(step_all(e.1, op), samples) {
        assert forall|j: int| 0 <= j < samples.len() implies #[trigger] run_prog(np, samples[j].0).regs == samples[j].1.regs by {
            assert(step_all(e.1, op)[j].regs == samples[j].1.regs);
            assert(inputs(samples)[j] == samples[j].0);
        }
    }
}

proof fn lemma_scan_sound(
    pool: Seq<Inst>,
    samples: Seq<(StateV, StateV)>,
    frontier: Seq<(Seq<Inst>, Seq<StateV>)>,
    fi: nat,
    oi: nat,
    visited: Seq<Seq<StateV>>,
    next: Seq<(Seq<Inst>, Seq<StateV>)>,
    d: nat,
)
    requires
        forall|f: int| 0 <= f < frontier.len() ==> entry_ok(#[trigger] frontier[f], samples, pool, d),
        forall|f: int| 0 <= f < next.len() ==> entry_ok(#[trigger] next[f], samples, pool, d + 1),
    ensures
        match scan(pool, samples, frontier, fi, oi, visited, next) {
            Scan::Found(p) => p.len() == d + 1 && sound(p, samples, pool),
            Scan::Next(v, n) => forall|f: int| 0 <= f < n.len() ==> entry_ok(#[trigger] n[f], samples, pool, d + 1),
        },
    decreases frontier.len() - fi, pool.len() - oi,
{
    if fi >= frontier.len() {
    } else if oi >= pool.len() {
        lemma_scan_sound(pool, samples, frontier, fi + 1, 0, visited, next, d);
    } else {
        let e = frontier[fi as int];
        let op = pool[oi as int];
        assert(pool.contains(op));
        lemma_extend(e, samples, pool, d, op);
        let ns = step_all(e.1, op);
        let np = e.0.push(op);
        if meets(ns, samples) {
        } else if visited.contains(ns) {
            lemma_scan_sound(pool, samples, frontier, fi, oi + 1, visited, next, d);
        } else {
            let n2 = next.push((np, ns));
            assert forall|f: int| 0 <= f < n2.len() implies entry_ok(#[trigger] n2[f], samples, pool, d + 1) by {
                if f < next.len() {
                    assert(n2[f] == next[f]);
                }
            }
            lemma_scan_sound(pool, samples, frontier, fi, oi + 1, visited.push(ns), n2, d);
        }
    }
}

proof fn lemma_bfs_sound(
    pool: Seq<Inst>,
    samples: Seq<(StateV, StateV)>,
    depth: nat,
    max_depth: nat,
    frontier: Seq<(Seq<Inst>, Seq<StateV>)>,
    visited: Seq<Seq<StateV>>,
)
    requires
        forall|f: int| 0 <= f < frontier.len() ==> entry_ok(#[trigger] frontier[f], samples, pool, depth),
    ensures
        match bfs(pool, samples, depth, max_depth, frontier, visited) {
            Some(p) => depth < p.len() <= max_depth && sound(p, samples, pool),
            None => true,
        },
    decreases max_depth - depth,
{
    if depth < max_depth {
        lemma_scan_sound(pool, samples, frontier, 0, 0, visited, seq![], depth);
        match scan(pool, samples, frontier, 0, 0, visited, seq![]) {
            Scan::Found(p) => {},
            Scan::Next(v, n) => {
                if n.len() > 0 {
                    lemma_bfs_sound(pool, samples, depth + 1, max_depth, n, v);
                }
            },
        }
    }
}


/// The sample inputs run through a program.
pub open spec fn outs(samples: Seq<(StateV, StateV)>, q: Seq<Inst>) -> Seq<StateV> {
    inputs(samples).map_values(|s: StateV| run_prog(q, s))
}

/// Every operator of `q` is in the pool.
pub open spec fn from_pool(q: Seq<Inst>, pool: Seq<Inst>) -> bool {
    forall|i: int| 0 <= i < q.len() ==> pool.contains(#[trigger] q[i])
}

/// Some pool program of fewer than `n` operators takes the sample inputs to `t`.
pub open spec fn reached_within(samples: Seq<(StateV, StateV)>, pool: Seq<Inst>, t: Seq<StateV>, n: nat) -> bool {
    exists|q: Seq<Inst>| #![trigger outs(samples, q)] from_pool(q, pool) && q.len() < n && outs(samples, q) == t
}

/// What holds of a layer at depth `d`: its entries are programs of `d`
/// operators; no program of one to `d` operators meets the samples; every
/// result of at most `d` operators is visited, and every visited result is
/// such a result; every result first reached at `d` operators has an entry.
pub open spec fn layer_ok(
    samples: Seq<(StateV, StateV)>,
    pool: Seq<Inst>,
    d: nat,
    frontier: Seq<(Seq<Inst>, Seq<StateV>)>,
    visited: Seq<Seq<StateV>>,
) -> bool {
    &&& forall|f: int| 0 <= f < frontier.len() ==> entry_ok(#[trigger] frontier[f], samples, pool, d)
    &&& forall|q: Seq<Inst>| from_pool(q, pool) && 1 <= q.len() <= d ==> !meets(#[trigger] outs(samples, q), samples)
    &&& forall|q: Seq<Inst>| from_pool(q, pool) && q.len() <= d ==> visited.contains(#[trigger] outs(samples, q))
    &&& forall|j: int| 0 <= j < visited.len() ==> reached_within(samples, pool, #[trigger] visited[j], d + 1)
    &&& forall|q: Seq<Inst>| from_pool(q, pool) && q.len() == d && !reached_within(samples, pool, #[trigger] outs(samples, q), d)
            ==> exists|f: int| 0 <= f < frontier.len() && #[trigger] frontier[f].1 == outs(samples, q)
}

/// What a scanned pair (entry `f`, operator `o`) left behind.
pub open spec fn pair_ok(
    samples: Seq<(StateV, StateV)>,
    pool: Seq<Inst>,
    d: nat,
    frontier: Seq<(Seq<Inst>, Seq<StateV>)>,
    f: int,
    o: int,
    visited: Seq<Seq<StateV>>,
    next: Seq<(Seq<Inst>, Seq<StateV>)>,
) -> bool {
    let ns = step_all(frontier[f].1, pool[o]);
    &&& !meets(ns, samples)
    &&& visited.contains(ns)
    &&& (reached_within(samples, pool, ns, d + 1) || exists|k: int| 0 <= k < next.len() && #[trigger] next[k].1 == ns)
}

proof fn lemma_outs_push(samples: Seq<(StateV, StateV)>, q: Seq<Inst>, op: Inst)
    ensures
        outs(samples, q.push(op)) == step_all(outs(samples, q), op),
{
    assert(q.push(op).drop_last() =~= q);
    assert(outs(samples, q.push(op)) =~= step_all(outs(samples, q), op));
}

proof fn lemma_from_pool_push(q: Seq<Inst>, op: Inst, pool: Seq<Inst>)
    requires
        from_pool(q, pool),
        pool.contains(op),
    ensures
        from_pool(q.push(op), pool),
{
    assert forall|i: int| 0 <= i < q.push(op).len() implies pool.contains(#[trigger] q.push(op)[i]) by {
        if i < q.len() {
            assert(q.push(op)[i] == q[i]);
        }
    }
}

/// A program of `d + 1` operators is one of `d` operators and one more.
proof fn lemma_split_last(q: Seq<Inst>, pool: Seq<Inst>)
    requires
        from_pool(q, pool),
        q.len() > 0,
    ensures
        from_pool(q.drop_last(), pool),
        pool.contains(q.last()),
        q.drop_last().push(q.last()) == q,
{
    assert(q.drop_last().push(q.last()) =~= q);
    assert forall|i: int| 0 <= i < q.drop_last().len() implies pool.contains(#[trigger] q.drop_last()[i]) by {
        assert(q.drop_last()[i] == q[i]);
    }
}

/// A layer built from all the scanned pairs of the one before it.
proof fn lemma_layer_next(
    pool: Seq<Inst>,
    samples: Seq<(StateV, StateV)>,
    frontier: Seq<(Seq<Inst>, Seq<StateV>)>,
    d: nat,
    vis0: Seq<Seq<StateV>>,
    visited: Seq<Seq<StateV>>,
    next: Seq<(Seq<Inst>, Seq<StateV>)>,
)
    requires
        layer_ok(samples, pool, d, frontier, vis0),
        forall|f: int| 0 <= f < next.len() ==> entry_ok(#[trigger] next[f], samples, pool, d + 1),
        forall|x: Seq<StateV>| vis0.contains(x) ==> visited.contains(x),
        forall|j: int| 0 <= j < visited.len() ==> vis0.contains(#[trigger] visited[j])
            || exists|k: int| 0 <= k < next.len() && #[trigger] next[k].1 == visited[j],
        forall|f: int, o: int| 0 <= f < frontier.len() && 0 <= o < pool.len()
            ==> #[trigger] pair_ok(samples, pool, d, frontier, f, o, visited, next),
    ensures
        layer_ok(samples, pool, d + 1, next, visited),
{
    // no program of one to d + 1 operators meets the samples
    assert forall|q: Seq<Inst>| from_pool(q, pool) && 1 <= q.len() <= d + 1 implies !meets(#[trigger] outs(samples, q), samples) by {
        if q.len() == d + 1 {
            let q1 = q.drop_last();
            let op = q.last();
            lemma_split_last(q, pool);
            lemma_outs_push(samples, q1, op);
            let o = choose|o: int| 0 <= o < pool.len() && pool[o] == op;
            if reached_within(samples, pool, outs(samples, q1), d) {
                let q2 = choose|q2: Seq<Inst>| #![trigger outs(samples, q2)] from_pool(q2, pool) && q2.len() < d && outs(samples, q2) == outs(samples, q1);
                lemma_from_pool_push(q2, op, pool);
                lemma_outs_push(samples, q2, op);
                assert(!meets(outs(samples, q2.push(op)), samples));
            } else {
                let f = choose|f: int| 0 <= f < frontier.len() && #[trigger] frontier[f].1 == outs(samples, q1);
                assert(pair_ok(samples, pool, d, frontier, f, o, visited, next));
            }
        }
    }
    // every result of at most d + 1 operators is visited
    assert forall|q: Seq<Inst>| from_pool(q, pool) && q.len() <= d + 1 implies visited.contains(#[trigger] outs(samples, q)) by {
        if q.len() <= d {
            assert(vis0.contains(outs(samples, q)));
        } else {
            let q1 = q.drop_last();
            let op = q.last();
            lemma_split_last(q, pool);
            lemma_outs_push(samples, q1, op);
            let o = choose|o: int| 0 <= o < pool.len() && pool[o] == op;
            if reached_within(samples, pool, outs(samples, q1), d) {
                let q2 = choose|q2: Seq<Inst>| #![trigger outs(samples, q2)] from_pool(q2, pool) && q2.len() < d && outs(samples, q2) == outs(samples, q1);
                lemma_from_pool_push(q2, op, pool);
                lemma_outs_push(samples, q2, op);
                assert(vis0.contains(outs(samples, q2.push(op))));
            } else {
                let f = choose|f: int| 0 <= f < frontier.len() && #[trigger] frontier[f].1 == outs(samples, q1);
                assert(pair_ok(samples, pool, d, frontier, f, o, visited, next));
            }
        }
    }
    // every visited result is one of at most d + 1 operators
    assert forall|j: int| 0 <= j < visited.len() implies reached_within(samples, pool, #[trigger] visited[j], d + 2) by {
        if vis0.contains(visited[j]) {
            let j0 = choose|j0: int| 0 <= j0 < vis0.len() && vis0[j0] == visited[j];
            assert(reached_within(samples, pool, vis0[j0], d + 1));
            let q = choose|q: Seq<Inst>| #![trigger outs(samples, q)] from_pool(q, pool) && q.len() < d + 1 && outs(samples, q) == vis0[j0];
            assert(outs(samples, q) == outs(samples, q));
        } else {
            let k = choose|k: int| 0 <= k < next.len() && #[trigger] next[k].1 == visited[j];
            assert(entry_ok(next[k], samples, pool, d + 1));
            let q = next[k].0;
            assert(next[k].1 =~= outs(samples, q));
        }
    }
    // every result first reached at d + 1 operators has an entry
    assert forall|q: Seq<Inst>| from_pool(q, pool) && q.len() == d + 1 && !reached_within(samples, pool, #[trigger] outs(samples, q), d + 1)
        implies exists|f: int| 0 <= f < next.len() && #[trigger] next[f].1 == outs(samples, q) by {
        let q1 = q.drop_last();
        let op = q.last();
        lemma_split_last(q, pool);
        lemma_outs_push(samples, q1, op);
        let o = choose|o: int| 0 <= o < pool.len() && pool[o] == op;
        if reached_within(samples, pool, outs(samples, q1), d) {
            let q2 = choose|q2: Seq<Inst>| #![trigger outs(samples, q2)] from_pool(q2, pool) && q2.len() < d && outs(samples, q2) == outs(samples, q1);
            lemma_from_pool_push(q2, op, pool);
            lemma_outs_push(samples, q2, op);
            assert(outs(samples, q2.push(op)) == outs(samples, q));
            assert(false);
        } else {
            let f = choose|f: int| 0 <= f < frontier.len() && #[trigger] frontier[f].1 == outs(samples, q1);
            assert(pair_ok(samples, pool, d, frontier, f, o, visited, next));
        }
    }
}

proof fn lemma_scan_min(
    pool: Seq<Inst>,
    samples: Seq<(StateV, StateV)>,
    frontier: Seq<(Seq<Inst>, Seq<StateV>)>,
    fi: nat,
    oi: nat,
    visited: Seq<Seq<StateV>>,
    next: Seq<(Seq<Inst>, Seq<StateV>)>,
    d: nat,
    vis0: Seq<Seq<StateV>>,
    max_depth: nat,
)
    requires
        d < max_depth,
        layer_ok(samples, pool, d, frontier, vis0),
        forall|f: int| 0 <= f < next.len() ==> entry_ok(#[trigger] next[f], samples, pool, d + 1),
        forall|x: Seq<StateV>| vis0.contains(x) ==> visited.contains(x),
        forall|j: int| 0 <= j < visited.len() ==> vis0.contains(#[trigger] visited[j])
            || exists|k: int| 0 <= k < next.len() && #[trigger] next[k].1 == visited[j],
        forall|f: int, o: int| 0 <= f < frontier.len() && 0 <= o < pool.len() && (f < fi || (f == fi && o < oi))
            ==> #[trigger] pair_ok(samples, pool, d, frontier, f, o, visited, next),
    ensures
        match scan(pool, samples, frontier, fi, oi, visited, next) {
            Scan::Found(_) => true,
            Scan::Next(v, n) => layer_ok(samples, pool, d + 1, n, v),
        },
    decreases frontier.len() - fi, pool.len() - oi,
{
    if fi >= frontier.len() {
        lemma_layer_next(pool, samples, frontier, d, vis0, visited, next);
    } else if oi >= pool.len() {
        lemma_scan_min(pool, samples, frontier, fi + 1, 0, visited, next, d, vis0, max_depth);
    } else {
        let e = frontier[fi as int];
        let op = pool[oi as int];
        assert(pool.contains(op));
        assert(entry_ok(e, samples, pool, d));
        lemma_extend(e, samples, pool, d, op);
        let ns = step_all(e.1, op);
        let np = e.0.push(op);
        assert(ns =~= outs(samples, np));
        assert(from_pool(np, pool));
        if meets(ns, samples) {
        } else if visited.contains(ns) {
            let j = choose|j: int| 0 <= j < visited.len() && visited[j] == ns;
            if vis0.contains(visited[j]) {
                let j0 = choose|j0: int| 0 <= j0 < vis0.len() && vis0[j0] == visited[j];
                assert(reached_within(samples, pool, vis0[j0], d + 1));
            } else {
                let k = choose|k: int| 0 <= k < next.len() && #[trigger] next[k].1 == visited[j];
                assert(next[k].1 == ns);
            }
            assert(pair_ok(samples, pool, d, frontier, fi as int, oi as int, visited, next));
            lemma_scan_min(pool, samples, frontier, fi, oi + 1, visited, next, d, vis0, max_depth);
        } else {
            let v2 = visited.push(ns);
            let n2 = next.push((np, ns));
            assert(v2[visited.len() as int] == ns);
            assert(n2[next.len() as int].1 == ns);
            assert forall|f: int| 0 <= f < n2.len() implies entry_ok(#[trigger] n2[f], samples, pool, d + 1) by {
                if f < next.len() {
                    assert(n2[f] == next[f]);
                }
            }
            assert forall|x: Seq<StateV>| vis0.contains(x) implies v2.contains(x) by {
                assert(visited.contains(x));
                let j = choose|j: int| 0 <= j < visited.len() && visited[j] == x;
                assert(v2[j] == x);
            }
            assert forall|j: int| 0 <= j < v2.len() implies vis0.contains(#[trigger] v2[j])
                || exists|k: int| 0 <= k < n2.len() && #[trigger] n2[k].1 == v2[j] by {
                if j < visited.len() {
                    assert(v2[j] == visited[j]);
                    if !vis0.contains(visited[j]) {
                        let k = choose|k: int| 0 <= k < next.len() && #[trigger] next[k].1 == visited[j];
                        assert(n2[k] == next[k]);
                    }
                } else {
                    assert(n2[next.len() as int].1 == v2[j]);
                }
            }
            assert forall|f: int, o: int| 0 <= f < frontier.len() && 0 <= o < pool.len() && (f < fi || (f == fi && o < oi + 1))
                implies #[trigger] pair_ok(samples, pool, d, frontier, f, o, v2, n2) by {
                if f == fi && o == oi {
                    assert(v2.contains(ns));
                } else {
                    assert(pair_ok(samples, pool, d, frontier, f, o, visited, next));
                    let ms = step_all(frontier[f].1, pool[o]);
                    let j = choose|j: int| 0 <= j < visited.len() && visited[j] == ms;
                    assert(v2[j] == ms);
                    if !reached_within(samples, pool, ms, d + 1) {
                        let k = choose|k: int| 0 <= k < next.len() && #[trigger] next[k].1 == ms;
                        assert(n2[k] == next[k]);
                    }
                }
            }
            lemma_scan_min(pool, samples, frontier, fi, oi + 1, v2, n2, d, vis0, max_depth);
        }
    }
}

proof fn lemma_bfs_min(
    pool: Seq<Inst>,
    samples: Seq<(StateV, StateV)>,
    depth: nat,
    max_depth: nat,
    frontier: Seq<(Seq<Inst>, Seq<StateV>)>,
    visited: Seq<Seq<StateV>>,
)
    requires
        depth <= max_depth,
        layer_ok(samples, pool, depth, frontier, visited),
    ensures
        match bfs(pool, samples, depth, max_depth, frontier, visited) {
            Some(p) => forall|q: Seq<Inst>| from_pool(q, pool) && 1 <= q.len() < p.len() ==> !meets(#[trigger] outs(samples, q), samples),
            None => !meets(inputs(samples), samples) ==> forall|q: Seq<Inst>| from_pool(q, pool) && 1 <= q.len() <= max_depth
                ==> !meets(#[trigger] outs(samples, q), samples),
        },
    decreases max_depth - depth,
{
    if depth < max_depth {
        lemma_scan_min(pool, samples, frontier, 0, 0, visited, seq![], depth, visited, max_depth);
        lemma_scan_sound(pool, samples, frontier, 0, 0, visited, seq![], depth);
        match scan(pool, samples, frontier, 0, 0, visited, seq![]) {
            Scan::Found(p) => {},
            Scan::Next(v, n) => {
                if n.len() > 0 {
                    lemma_bfs_min(pool, samples, depth + 1, max_depth, n, v);
                } else if !meets(inputs(samples), samples) {
                    assert forall|q: Seq<Inst>| from_pool(q, pool) && 1 <= q.len() <= max_depth
                        implies !meets(#[trigger] outs(samples, q), samples) by {
                        lemma_all_reached(pool, samples, depth, v, n, q);
                        let q2 = choose|q2: Seq<Inst>| #![trigger outs(samples, q2)] from_pool(q2, pool) && q2.len() < depth + 1 && outs(samples, q2) == outs(samples, q);
                        if q2.len() == 0 {
                            assert(q2 =~= Seq::<Inst>::empty());
                            assert(outs(samples, q2) =~= inputs(samples));
                        }
                    }
                }
            },
        }
    }
}

/// Once a layer brings nothing new, every pool program's result on the
/// samples is one reached with at most `d` operators.
proof fn lemma_all_reached(
    pool: Seq<Inst>,
    samples: Seq<(StateV, StateV)>,
    d: nat,
    visited: Seq<Seq<StateV>>,
    next: Seq<(Seq<Inst>, Seq<StateV>)>,
    q: Seq<Inst>,
)
    requires
        layer_ok(samples, pool, d + 1, next, visited),
        next.len() == 0,
        from_pool(q, pool),
    ensures
        reached_within(samples, pool, outs(samples, q), d + 1),
    decreases q.len(),
{
    if q.len() <= d {
        assert(outs(samples, q) == outs(samples, q));
    } else if q.len() == d + 1 {
    } else {
        let q1 = q.drop_last();
        let op = q.last();
        lemma_split_last(q, pool);
        lemma_outs_push(samples, q1, op);
        lemma_all_reached(pool, samples, d, visited, next, q1);
        let q2 = choose|q2: Seq<Inst>| #![trigger outs(samples, q2)] from_pool(q2, pool) && q2.len() < d + 1 && outs(samples, q2) == outs(samples, q1);
        let q3 = q2.push(op);
        lemma_from_pool_push(q2, op, pool);
        lemma_outs_push(samples, q2, op);
        assert(outs(samples, q3) == outs(samples, q));
        if q3.len() == d + 1 {
            lemma_all_reached(pool, samples, d, visited, next, q3);
        }
    }
}

/// The first layer: the empty program, its result visited.
proof fn lemma_layer_zero(samples: Seq<(StateV, StateV)>, pool: Seq<Inst>)
    ensures
        layer_ok(samples, pool, 0, seq![(Seq::<Inst>::empty(), inputs(samples))], seq![inputs(samples)]),
{
    let ins = inputs(samples);
    let e0 = (Seq::<Inst>::empty(), ins);
    let f0 = seq![e0];
    let v0 = seq![ins];
    assert(outs(samples, Seq::<Inst>::empty()) =~= ins);
    assert(ins =~= ins.map_values(|s: StateV| run_prog(Seq::<Inst>::empty(), s)));
    assert(entry_ok(e0, samples, pool, 0));
    assert forall|f: int| 0 <= f < f0.len() implies entry_ok(#[trigger] f0[f], samples, pool, 0) by {
        assert(f0[f] == e0);
    }
    assert forall|q: Seq<Inst>| from_pool(q, pool) && q.len() <= 0 implies v0.contains(#[trigger] outs(samples, q)) by {
        assert(q =~= Seq::<Inst>::empty());
        assert(v0[0] == ins);
    }
    assert forall|j: int| 0 <= j < v0.len() implies reached_within(samples, pool, #[trigger] v0[j], 1) by {
        let q = Seq::<Inst>::empty();
        assert(from_pool(q, pool));
        assert(v0[j] == outs(samples, q));
    }
    assert forall|q: Seq<Inst>| from_pool(q, pool) && q.len() == 0 && !reached_within(samples, pool, #[trigger] outs(samples, q), 0)
        implies exists|f: int| 0 <= f < f0.len() && #[trigger] f0[f].1 == outs(samples, q) by {
        assert(q =~= Seq::<Inst>::empty());
        assert(f0[0].1 == outs(samples, q));
    }
    assert(layer_ok(samples, pool, 0, f0, v0));
}

/// Law: the synthesis finds a shortest program. No program of the pool with
/// fewer operators than the one returned (and at least one) maps every
/// sample input to its wanted registers.
pub proof fn law_synth_shortest(samples: Seq<(StateV, StateV)>, k: u8, max_depth: nat, p: Seq<Inst>)
    requires
        synth_spec(samples, k, max_depth) == Some(p),
    ensures
        forall|q: Seq<Inst>| from_pool(q, pool_spec(k)) && 1 <= q.len() < p.len() ==>
            exists|j: int| 0 <= j < samples.len() && #[trigger] run_prog(q, samples[j].0).regs != samples[j].1.regs,
{
    let pool = pool_spec(k);
    let ins = inputs(samples);
    let f0 = seq![(Seq::<Inst>::empty(), ins)];
    let v0 = seq![ins];
    lemma_layer_zero(samples, pool);
    lemma_bfs_min(pool, samples, 0, max_depth, f0, v0);
    assert forall|q: Seq<Inst>| from_pool(q, pool_spec(k)) && 1 <= q.len() < p.len() implies
        exists|j: int| 0 <= j < samples.len() && #[trigger] run_prog(q, samples[j].0).regs != samples[j].1.regs by {
        let o = outs(samples, q);
        assert(!meets(o, samples));
        let j = choose|j: int| 0 <= j < samples.len() && !(#[trigger] o[j].regs == samples[j].1.regs);
        assert(o[j] == run_prog(q, samples[j].0));
    }
}

/// Law: when the synthesis finds nothing, no program of one to `max_depth`
/// operators of the pool maps every sample input to its wanted registers,
/// unless the inputs already have them (the empty program, which the search
/// does not offer, and programs that lead back to the inputs, which it prunes).
pub proof fn law_synth_none(samples: Seq<(StateV, StateV)>, k: u8, max_depth: nat)
    requires
        synth_spec(samples, k, max_depth) is None,
        !meets(inputs(samples), samples),
    ensures
        forall|q: Seq<Inst>| from_pool(q, pool_spec(k)) && 1 <= q.len() <= max_depth ==>
            exists|j: int| 0 <= j < samples.len() && #[trigger] run_prog(q, samples[j].0).regs != samples[j].1.regs,
{
    let pool = pool_spec(k);
    let ins = inputs(samples);
    let f0 = seq![(Seq::<Inst>::empty(), ins)];
    let v0 = seq![ins];
    lemma_layer_zero(samples, pool);
    lemma_bfs_min(pool, samples, 0, max_depth, f0, v0);
    assert forall|q: Seq<Inst>| from_pool(q, pool_spec(k)) && 1 <= q.len() <= max_depth implies
        exists|j: int| 0 <= j < samples.len() && #[trigger] run_prog(q, samples[j].0).regs != samples[j].1.regs by {
        let o = outs(samples, q);
        assert(!meets(o, samples));
        let j = choose|j: int| 0 <= j < samples.len() && !(#[trigger] o[j].regs == samples[j].1.regs);
        assert(o[j] == run_prog(q, samples[j].0));
    }
}

/// Law: what the synthesis returns is a program of one to `max_depth`
/// operators of the pool that maps every sample input to its wanted
/// registers; and every operator of the pool can be rolled back, so the
/// program is reversible.
pub proof fn law_synth_sound(samples: Seq<(StateV, StateV)>, k: u8, max_depth: nat, p: Seq<Inst>)
    requires
        synth_spec(samples, k, max_depth) == Some(p),
    ensures
        1 <= p.len() <= max_depth,
        forall|i: int| 0 <= i < p.len() ==> pool_spec(k).contains(#[trigger] p[i]) && invertible(p[i]),
        forall|j: int| 0 <= j < samples.len() ==> #[trigger] run_prog(p, samples[j].0).regs == samples[j].1.regs,
{
    let pool = pool_spec(k);
    let e0 = (Seq::<Inst>::empty(), inputs(samples));
    assert(inputs(samples) =~= inputs(samples).map_values(|s: StateV| run_prog(Seq::<Inst>::empty(), s)));
    assert(entry_ok(e0, samples, pool, 0));
    let f0 = seq![e0];
    assert forall|f: int| 0 <= f < f0.len() implies entry_ok(#[trigger] f0[f], samples, pool, 0) by {
        assert(f0[f] == e0);
    }
    lemma_bfs_sound(pool, samples, 0, max_depth, f0, seq![inputs(samples)]);
    lemma_pool_range(k, k as nat);
    assert forall|i: int| 0 <= i < p.len() implies pool.contains(#[trigger] p[i]) && invertible(p[i]) by {
        let w = choose|w: int| 0 <= w < pool.len() && pool[w] == p[i];
        assert(in_pool_range(pool[w], k));
    }
}

} // verus!
