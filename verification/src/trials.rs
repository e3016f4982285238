//! Randomized round trips: run a purely reversible program forward from
//! pseudo-random states and roll it back, comparing bit for bit.
use vstd::prelude::*;
use vstd::wrapping::u64_specs::{wrapping_add, wrapping_mul};
use crate::check::{check, violations_spec};
use crate::inst::{Inst, invertible};
use crate::machine::{law_roundtrip, leaf_msg, leaves, reverse_all, run_forward, run_spec};
use crate::program::Node;
use crate::state::{State, StateV, seed_of, xorshift_after, xorshift_stream};
use crate::synth::regs_equal;

verus! {

/// The seed step between trials (the 64-bit golden ratio).
pub const TRIAL_STEP: u64 = 0x9E37_79B9_7F4A_7C15;

/// The starting state of trial `t`.
pub open spec fn trial_state(nregs: nat, nmem: nat, seed: u64, t: u64) -> StateV {
    let x = seed_of(wrapping_add(seed, wrapping_mul(t, TRIAL_STEP)));
    StateV { regs: xorshift_stream(x, nregs), mem: xorshift_stream(xorshift_after(x, nregs), nmem) }
}

/// The error of a forward run that stopped: the leaf it stopped at.
#[verifier::opaque]
pub open spec fn run_error(ls: Seq<Inst>, s: StateV) -> Seq<char> {
    let o = run_spec(ls, s);
    leaf_msg(o.done, ls[o.done as int], o.state)
}

/// The first trial from `t` on whose forward run stops on an operand out of
/// range, with the run's error.
#[verifier::opaque]
pub open spec fn first_failure(ls: Seq<Inst>, nregs: nat, nmem: nat, seed: u64, t: nat, trials: nat) -> Option<(nat, Seq<char>)>
    decreases trials - t,
{
    if t >= trials || t > u64::MAX {
        None
    } else {
        let o = run_spec(ls, trial_state(nregs, nmem, seed, t as u64));
        if !o.ok {
            Some((t, run_error(ls, trial_state(nregs, nmem, seed, t as u64))))
        } else {
            first_failure(ls, nregs, nmem, seed, t + 1, trials)
        }
    }
}

proof fn lemma_first_failure_step(ls: Seq<Inst>, nregs: nat, nmem: nat, seed: u64, t: nat, trials: nat)
    requires
        trials <= u64::MAX,
    ensures
        t >= trials ==> first_failure(ls, nregs, nmem, seed, t, trials) is None,
        t < trials ==> first_failure(ls, nregs, nmem, seed, t, trials) == ({
            let o = run_spec(ls, trial_state(nregs, nmem, seed, t as u64));
            if !o.ok {
                Some((t, run_error(ls, trial_state(nregs, nmem, seed, t as u64))))
            } else {
                first_failure(ls, nregs, nmem, seed, t + 1, trials)
            }
        }),
{
    reveal_with_fuel(first_failure, 2);
}

/// How a series of round trips ended.
pub enum Outcome {
    /// The program has boundaries or aliasing: it has `total` leaves, of
    /// which `irreversible` are not invertible.
    NotReversible { total: u64, irreversible: u64 },
    /// Every trial came back bit for bit; each ran `leaves` leaves.
    Passed { passes: u64, leaves: u64 },
    /// The forward run of a trial stopped with an error.
    RunError { trial: u64, msg: String },
    /// A trial did not come back to its starting state.
    Mismatch { trial: u64, orig: State, after: State, back: State },
}

fn same_state(a: &State, b: &State) -> (r: bool)
    ensures
        r == (a@ == b@),
{
    regs_equal(&a.regs, &b.regs) && regs_equal(&a.mem, &b.mem)
}

/// Every leaf is invertible.
#[verifier::opaque]
pub open spec fn pure_stream(ls: Seq<Inst>) -> bool {
    forall|i: int| 0 <= i < ls.len() ==> invertible(#[trigger] ls[i])
}

/// The starting state of trial `t`.
fn trial_start(nregs: usize, nmem: usize, seed: u64, t: u64) -> (s: State)
    ensures
        s@ == trial_state(nregs as nat, nmem as nat, seed, t),
{
    State::random(nregs, nmem, seed.wrapping_add(t.wrapping_mul(TRIAL_STEP)))
}

/// One trial: forward from `orig`, then the full rollback. `Ok(None)` when
/// it came back; `Ok(Some((after, back)))` when it did not.
fn one_trial(nodes: &[Node], orig: &State) -> (r: Result<Option<(State, State)>, String>)
    requires
        leaves(nodes@).len() <= u64::MAX,
        pure_stream(leaves(nodes@)),
    ensures
        ({
            let ls = leaves(nodes@);
            let o = run_spec(ls, orig@);
            &&& o.ok ==> r == Ok::<Option<(State, State)>, String>(None)
            &&& !o.ok ==> r is Err && r->Err_0@ == run_error(ls, orig@)
        }),
{
    proof {
        reveal(run_error);
    }
    let ghost ls = leaves(nodes@);
    let mut s = State { regs: orig.regs.clone(), mem: orig.mem.clone() };
    assert(s@ == orig@);
    run_forward(&mut s, nodes)?;
    let after = State { regs: s.regs.clone(), mem: s.mem.clone() };
    proof {
        reveal(pure_stream);
        law_roundtrip(ls, orig@, u64::MAX as nat);
    }
    let done = match reverse_all(&mut s, nodes) {
        Ok(d) => d,
        Err(_) => 0,
    };
    let total = crate::machine::count_leaves(nodes);
    if done != total || !same_state(&s, orig) {
        return Ok(Some((after, s)));
    }
    Ok(None)
}

/// Run `trials` round trips of a program from the states `State::random`
/// draws from `seed`, `seed + TRIAL_STEP`, … (wrapping). A program that is
/// not purely reversible is refused before any trial.
pub fn roundtrip(nodes: &[Node], nregs: usize, nmem: usize, seed: u64, trials: u64) -> (r: Outcome)
    requires
        leaves(nodes@).len() <= u64::MAX,
    ensures
        ({
            let ls = leaves(nodes@);
            let v = violations_spec(ls, 0);
            if v.len() > 0 {
                r matches Outcome::NotReversible { total, irreversible }
                    && total == ls.len() && irreversible == v.len()
            } else {
                match first_failure(ls, nregs as nat, nmem as nat, seed, 0, trials as nat) {
                    Some((t, m)) => r matches Outcome::RunError { trial, msg } && trial == t && msg@ == m,
                    None => r matches Outcome::Passed { passes, leaves } && passes == trials && leaves == ls.len(),
                }
            }
        }),
{
    let rep = check(nodes);
    if !rep.reversible() {
        return Outcome::NotReversible { total: rep.total_leaves, irreversible: rep.irreversible_leaves };
    }
    let ghost ls = leaves(nodes@);
    proof {
        crate::check::lemma_violations_bound(ls, 0);
        reveal(pure_stream);
    }
    let mut passes: u64 = 0;
    let mut t: u64 = 0;
    while t < trials
        invariant
            ls == leaves(nodes@),
            ls.len() <= u64::MAX,
            pure_stream(ls),
            violations_spec(ls, 0).len() == 0,
            t <= trials,
            passes == t,
            first_failure(ls, nregs as nat, nmem as nat, seed, 0, trials as nat)
                == first_failure(ls, nregs as nat, nmem as nat, seed, t as nat, trials as nat),
            rep.total_leaves == ls.len(),
        decreases trials - t,
    {
        let orig = trial_start(nregs, nmem, seed, t);
        proof {
            lemma_first_failure_step(ls, nregs as nat, nmem as nat, seed, t as nat, trials as nat);
        }
        let res = one_trial(nodes, &orig);
        match res {
            Ok(None) => {},
            Ok(Some((after, back))) => {
                return Outcome::Mismatch { trial: t, orig, after, back };
            },
            Err(msg) => {
                return Outcome::RunError { trial: t, msg };
            },
        }
        passes = passes + 1;
        t = t + 1;
    }
    proof {
        lemma_first_failure_step(ls, nregs as nat, nmem as nat, seed, t as nat, trials as nat);
    }
    Outcome::Passed { passes, leaves: rep.total_leaves }
}

} // verus!
