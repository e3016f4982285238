use phase_vm::inst::Inst;
use phase_vm::inst::Inst::{Add, Not, RotL, Sub, Swap, Xor};
use phase_vm::state::State;
use phase_vm::synth::{pool, synthesize};

fn state2(a: u64, b: u64) -> State {
    let mut s = State::new(2, 0);
    s.regs[0] = a;
    s.regs[1] = b;
    s
}

fn apply_all(s: &mut State, prog: &[Inst]) {
    for i in prog {
        i.exec(s).unwrap();
    }
}

#[test]
fn finds_xor_swap() {
    let mut samples = Vec::new();
    for &(a, b) in &[(1u64, 2u64), (7, 3), (0, 9), (0xDEAD, 0xBEEF), (u64::MAX, 1)] {
        let inp = state2(a, b);
        let want = state2(b, a);
        samples.push((inp, want));
    }
    let found = synthesize(&samples, 2, 6).expect("должен найти swap");
    assert!(found.len() <= 3, "нашёл не кратчайший: len={}", found.len());
    for &(a, b) in &[(42u64, 17u64), (12345, 6789)] {
        let mut s = state2(a, b);
        apply_all(&mut s, &found);
        assert_eq!((s.regs[0], s.regs[1]), (b, a));
    }
}

#[test]
fn rediscover_random_short_program() {
    let mut rng_state = 0x5EEDu64;
    let mut next = move || {
        rng_state ^= rng_state >> 12;
        rng_state ^= rng_state << 25;
        rng_state ^= rng_state >> 27;
        rng_state.wrapping_mul(0x2545_F491_4F6C_DD1D)
    };
    let pool = pool(2);
    let target = vec![
        pool[(next() % pool.len() as u64) as usize],
        pool[(next() % pool.len() as u64) as usize],
    ];
    let mut samples = Vec::new();
    for _ in 0..8 {
        let a = next();
        let b = next();
        let inp = state2(a, b);
        let mut want = inp.clone();
        apply_all(&mut want, &target);
        samples.push((inp, want));
    }
    let found = synthesize(&samples, 2, 3).expect("должен найти программу длины ≤2");
    assert!(found.len() <= 2);
    for _ in 0..200 {
        let a = next();
        let b = next();
        let mut s1 = state2(a, b);
        let mut s2 = s1.clone();
        apply_all(&mut s1, &target);
        apply_all(&mut s2, &found);
        assert_eq!(s1.regs, s2.regs, "синтез не эквивалентен цели");
    }
}

#[test]
fn synthesized_program_is_reversible() {
    let mut samples = Vec::new();
    for &(a, b) in &[(3u64, 5u64), (8, 13), (100, 200)] {
        samples.push((state2(a, b), state2(a + b, b)));
    }
    let found = synthesize(&samples, 2, 2).unwrap();
    for &(a, b) in &[(3u64, 5u64), (8, 13)] {
        let mut s = state2(a, b);
        apply_all(&mut s, &found);
        for inst in found.iter().rev() {
            inst.inverse().unwrap().exec(&mut s).unwrap();
        }
        assert_eq!((s.regs[0], s.regs[1]), (a, b), "F⁻¹(F(S)) != S");
    }
}

#[test]
fn pool_layout() {
    assert_eq!(pool(0), Vec::<Inst>::new());
    assert_eq!(pool(1), vec![Not(0), RotL(0, 1), RotL(0, 7), RotL(0, 13), RotL(0, 31)]);
    let p2 = pool(2);
    assert_eq!(p2.len(), 2 * 5 + 2 * 3 + 1);
    assert_eq!(&p2[..5], &[Not(0), Xor(0, 1), Add(0, 1), Sub(0, 1), Swap(0, 1)][..]);
    assert_eq!(p2[9], Not(1));
    assert_eq!(p2[10], Xor(1, 0));
}

#[test]
fn first_found_is_shortest_in_pool_order() {
    let samples = vec![(state2(3, 5), state2(8, 5)), (state2(1, 1), state2(2, 1))];
    assert_eq!(synthesize(&samples, 2, 3), Some(vec![Inst::Add(0, 1)]));
    let ident = vec![(state2(1, 2), state2(1, 2))];
    assert_eq!(synthesize(&ident, 2, 2), Some(vec![Inst::Not(0), Inst::Not(0)]));
    assert_eq!(synthesize(&ident, 2, 1), None);
    assert_eq!(synthesize(&ident, 2, 0), None);
}

#[test]
fn no_program_within_depth() {
    let samples = vec![(state2(0, 0), state2(12345, 0))];
    assert_eq!(synthesize(&samples, 2, 1), None);
}

#[test]
fn none_when_no_short_program_fits() {
    let mut samples = Vec::new();
    for &(a, b) in &[(1u64, 2u64), (7, 3), (0, 9), (0xDEAD, 0xBEEF)] {
        samples.push((state2(a, b), state2(!a, !b)));
    }
    assert!(synthesize(&samples, 2, 1).is_none());
    let found = synthesize(&samples, 2, 2).expect("два not");
    assert_eq!(found.len(), 2);
    let mut s = state2(5, 6);
    apply_all(&mut s, &found);
    assert_eq!((s.regs[0], s.regs[1]), (!5, !6));
}
