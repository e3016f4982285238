use phase_vm::inst::Inst;
use phase_vm::machine::{
    count_leaves, iter_forward, iter_reverse, leaf_at, reverse_all, reverse_n, reversible_suffix_len,
    run_forward,
};
use phase_vm::program::{parse, Node};
use phase_vm::state::State;

fn prog(src: &str) -> Vec<Node> {
    parse(src, 16).unwrap().nodes
}

#[test]
fn count_matches_expansion() {
    let nodes = prog("set r0 1\nrep 5\nadd r0 r1\nxor r0 r2\nend\nset r1 2\n");
    // 1 + 5*2 + 1 = 12
    assert_eq!(count_leaves(&nodes), 12);
}

#[test]
fn iter_reverse_matches_reversed_forward() {
    let nodes = prog("set r0 1\nrep 3\nadd r0 r1\nxor r0 r2\nend\n");
    let fwd: Vec<Inst> = iter_forward(&nodes);
    let rev: Vec<Inst> = iter_reverse(&nodes);
    let mut rev_expect = fwd.clone();
    rev_expect.reverse();
    assert_eq!(rev, rev_expect);
}

#[test]
fn forward_then_reverse_restores_state() {
    let nodes = prog(
        "set r0 0x1234\nset r1 7\nset r2 0\nrep 4\nadd r0 r1\nrotl r0 3\nxor r0 r2\nend\n",
    );
    let mut s = State::new(16, 0);
    run_forward(&mut s, &nodes).unwrap();
    let after = s.clone();
    let suffix = reversible_suffix_len(&nodes);
    assert_eq!(suffix, 4 * 3);
    let done = reverse_all(&mut s, &nodes).unwrap();
    assert_eq!(done, suffix);
    assert_eq!(s.regs[0], 0x1234);
    assert_eq!(s.regs[1], 7);
    assert_eq!(s.regs[2], 0);
    assert!(after.regs != s.regs);
}

#[test]
fn pure_reversible_roundtrip_from_random() {
    let nodes = prog("rep 5\nadd r0 r1\nrotl r1 3\nxor r1 r0\nswp r0 r1\nend\n");
    for seed in 1..50u64 {
        let mut s = State::random(16, 0, seed);
        let original = s.clone();
        run_forward(&mut s, &nodes).unwrap();
        assert_ne!(s.regs, original.regs, "seed {seed}: нет изменений");
        let done = reverse_all(&mut s, &nodes).unwrap();
        assert_eq!(done, 5 * 4);
        assert_eq!(s, original, "seed {seed}: F⁻¹(F(S)) != S");
    }
}

#[test]
fn partial_reverse_steps() {
    let nodes = prog("rep 2\ninc r0\nend\n");
    let mut s = State::new(4, 0);
    run_forward(&mut s, &nodes).unwrap();
    assert_eq!(s.regs[0], 2);
    let done = reverse_n(&mut s, &nodes, 1).unwrap();
    assert_eq!(done, 1);
    assert_eq!(s.regs[0], 1);
}

#[test]
fn boundary_stops_rollback() {
    let nodes = prog("inc r0\nset r1 5\ninc r0\n");
    let mut s = State::new(4, 0);
    run_forward(&mut s, &nodes).unwrap();
    assert_eq!((s.regs[0], s.regs[1]), (2, 5));
    assert_eq!(reversible_suffix_len(&nodes), 1);
    let done = reverse_all(&mut s, &nodes).unwrap();
    assert_eq!(done, 1);
    assert_eq!((s.regs[0], s.regs[1]), (1, 5));
}

#[test]
fn leaf_at_indexes_the_stream() {
    let nodes = prog("set r0 1\nrep 2\ninc r0\ndec r1\nend\n");
    assert_eq!(leaf_at(&nodes, 0), Some(Inst::SetReg(0, 1)));
    assert_eq!(leaf_at(&nodes, 1), Some(Inst::Inc(0)));
    assert_eq!(leaf_at(&nodes, 4), Some(Inst::Dec(1)));
    assert_eq!(leaf_at(&nodes, 5), None);
}

#[test]
fn forward_error_names_leaf_and_keeps_prefix() {
    let nodes = prog("inc r0\ninc r0\ninc r7\ninc r0\n");
    let mut s = State::new(4, 0);
    let e = run_forward(&mut s, &nodes).unwrap_err();
    assert_eq!(e, "лист #2 (inc r7): регистр r7 вне диапазона (4)");
    assert_eq!(s.regs[0], 2);
}

#[test]
fn backward_error_names_leaf() {
    let nodes = prog("madd r0 r1\n");
    let mut s = State::new(4, 2);
    s.regs[0] = 5;
    let e = reverse_all(&mut s, &nodes).unwrap_err();
    assert_eq!(e, "обратный лист #0 (msub r0 r1): адрес памяти 5 вне диапазона (2)");
}

#[test]
fn saturating_leaf_count() {
    let nodes = prog("rep 0xffffffffffffffff\nrep 4\nnop\nend\nend\n");
    assert_eq!(count_leaves(&nodes), u64::MAX);
}
