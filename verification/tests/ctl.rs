use phase_vm::ctl::{forward, parse, reverse, reverse_checked, Node, MAX_WHILE_ITERS};
use phase_vm::inst::Inst;
use phase_vm::state::State;

fn st(t: &str, n: usize) -> Vec<Node> {
    parse(t, n).unwrap()
}

#[test]
fn multiply_data_dependent_roundtrip() {
    let p = st("add r3 r1\nwz r3\n  add r2 r0\n  dec r3\nend\n", 8);
    let mut s = State::new(8, 0);
    s.regs[0] = 7;
    s.regs[1] = 12345;
    let orig = s.clone();
    let mut j = Vec::new();
    let mut steps = 0;
    forward(&mut s, &p, &mut j, &mut steps).unwrap();
    assert_eq!(s.regs[2], 7 * 12345);
    assert_eq!(s.regs[3], 0);
    assert_eq!(j.len(), 1, "журнал = O(решений): один счётчик цикла");
    assert_eq!(j[0], 12345);
    let mut steps2 = 0;
    reverse(&mut s, &p, &mut j, &mut steps2).unwrap();
    assert_eq!(s, orig, "F⁻¹(F(S)) != S для data-dependent while");
    assert!(j.is_empty(), "журнал исчерпан — ноль следов");
}

#[test]
fn ifnz_taken_and_skipped() {
    let p = st("add r2 r0\nifnz r1\n  add r2 r0\nend\nadd r2 r0\n", 8);
    for seed in 1..20u64 {
        let mut s = State::random(8, 0, seed);
        s.regs[1] &= 1;
        let orig = s.clone();
        let mut j = Vec::new();
        let mut st_ = 0;
        forward(&mut s, &p, &mut j, &mut st_).unwrap();
        assert_eq!(j.len(), 1, "ifnz пишет ровно один флаг");
        let mut st2 = 0;
        reverse(&mut s, &p, &mut j, &mut st2).unwrap();
        assert_eq!(s, orig, "seed {seed}");
    }
}

#[test]
fn while_skipped_when_zero() {
    let p = st("wz r1\n  add r2 r0\n  dec r1\nend\n", 8);
    let mut s = State::new(8, 0);
    s.regs[1] = 0;
    let orig = s.clone();
    let mut j = Vec::new();
    let mut st_ = 0;
    forward(&mut s, &p, &mut j, &mut st_).unwrap();
    assert_eq!(j, vec![0]);
    let mut st2 = 0;
    reverse(&mut s, &p, &mut j, &mut st2).unwrap();
    assert_eq!(s, orig);
}

#[test]
fn nested_rep_ifnz_while_roundtrip() {
    let p = st(
        "rep 3\n\
           add r0 r4\n\
           ifnz r1\n\
             wz r2\n\
               add r3 r5\n\
               dec r2\n\
             end\n\
           end\n\
           dec r1\n\
         end\n",
        8,
    );
    for seed in 1..100u64 {
        let mut s = State::random(8, 0, seed);
        s.regs[1] = seed % 4;
        s.regs[2] = seed % 5;
        let orig = s.clone();
        let mut j = Vec::new();
        let mut st_ = 0;
        forward(&mut s, &p, &mut j, &mut st_).unwrap();
        let mut st2 = 0;
        reverse_checked(&mut s, &p, &mut j, &mut st2).unwrap();
        assert_eq!(s, orig, "seed {seed}");
        assert!(j.is_empty());
    }
}

#[test]
fn journal_corruption_detected() {
    let p = st("ifnz r1\n  add r2 r0\nend\n", 8);
    let mut s = State::new(8, 0);
    s.regs[1] = 1;
    let mut j = Vec::new();
    let mut st_ = 0;
    forward(&mut s, &p, &mut j, &mut st_).unwrap();
    let orig = State::new(8, 0);
    let mut s1 = s.clone();
    j[0] = 0;
    let mut st2 = 0;
    reverse(&mut s1, &p, &mut j, &mut st2).unwrap();
    assert_ne!(s1, orig, "с испорченным журналом откат не должен восстановить состояние");
    let mut s2 = s.clone();
    let mut j2 = vec![0u64];
    let mut st3 = 0;
    let res = reverse_checked(&mut s2, &p, &mut j2, &mut st3);
    assert!(res.is_err(), "reverse_checked обязан детектировать порчу журнала");
}

#[test]
fn steps_count_leaves_both_ways() {
    let p = st("rep 3\n  inc r0\nend\nifnz r0\n  inc r1\nend\n", 4);
    let mut s = State::new(4, 0);
    let mut j = Vec::new();
    let mut steps = 0;
    forward(&mut s, &p, &mut j, &mut steps).unwrap();
    assert_eq!(steps, 4);
    assert_eq!(j, vec![1]);
    let mut back = 0;
    reverse(&mut s, &p, &mut j, &mut back).unwrap();
    assert_eq!(back, 4);
    assert_eq!(s, State::new(4, 0));
}

#[test]
fn boundary_refused_on_reverse() {
    let p = st("set r0 5\n", 4);
    let mut s = State::new(4, 0);
    let mut j = Vec::new();
    let mut steps = 0;
    forward(&mut s, &p, &mut j, &mut steps).unwrap();
    assert_eq!(s.regs[0], 5);
    let mut back = 0;
    assert!(reverse(&mut s, &p, &mut j, &mut back).is_err());
}

#[test]
fn runaway_while_is_refused() {
    let p = vec![Node::WhileN { reg: 0, body: vec![Node::Inst(Inst::Inc(1))] }];
    let mut s = State::new(2, 0);
    s.regs[0] = 1;
    let mut j = Vec::new();
    let mut steps = 0;
    let r = forward(&mut s, &p, &mut j, &mut steps);
    assert!(r.is_err());
    assert_eq!(s.regs[1], MAX_WHILE_ITERS);
}

#[test]
fn ctl_parse_errors() {
    assert_eq!(parse("end\n", 4).unwrap_err().contains("end без rep/ifnz/wz"), true);
    assert!(parse("rep 2\ninc r0\n", 4).unwrap_err().contains("незакрытый блок"));
    assert!(parse("ifnz r9\nend\n", 4).is_err());
    assert!(parse("wz\nend\n", 4).is_err());
    let ok = parse("rep 2\n  ifnz r1\n    wz r2\n      dec r2\n    end\n  end\nend\n", 4).unwrap();
    assert_eq!(ok.len(), 1);
    match &ok[0] {
        Node::Rep { count, body } => {
            assert_eq!(*count, 2);
            assert!(matches!(&body[0], Node::IfN { reg: 1, .. }));
        }
        _ => panic!("ожидался rep"),
    }
}

#[test]
fn checked_reverse_refuses_an_aliasing_leaf() {
    let p = vec![Node::Inst(Inst::Xor(1, 1))];
    let mut s = State::new(2, 0);
    s.regs[1] = 5;
    let orig = s.clone();
    let mut j: Vec<u64> = Vec::new();
    let mut steps = 0;
    let e = reverse_checked(&mut s, &p, &mut j, &mut steps).unwrap_err();
    assert!(e.contains("граница"));
    assert_eq!(s, orig);
    assert_eq!(steps, 0);
    let mut steps2 = 0;
    let e2 = reverse(&mut s, &p, &mut j, &mut steps2).unwrap_err();
    assert_eq!(e, e2);
}

#[test]
fn conditions_are_read_only_where_the_run_goes() {
    // r12 exceeds this state's registers, but the run never tests it
    let p = st("rep 0\n  ifnz r12\n    inc r0\n  end\nend\nifnz r1\n  wz r13\n  end\nend\ninc r0\n", 16);
    let mut s = State::new(8, 0);
    let orig = s.clone();
    let mut j = Vec::new();
    let mut steps = 0;
    forward(&mut s, &p, &mut j, &mut steps).unwrap();
    assert_eq!(s.regs[0], 1);
    assert_eq!(j, vec![0]);
    let mut steps2 = 0;
    reverse_checked(&mut s, &p, &mut j, &mut steps2).unwrap();
    assert_eq!(s, orig);
    assert_eq!(steps2, steps);
}
