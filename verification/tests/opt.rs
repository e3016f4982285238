use phase_vm::inst::Inst;
use phase_vm::inst::Inst::{Add, Dec, Inc, MAdd, MSub, Not, RotL, RotR, SetReg, Sub, Swap, Xor};
use phase_vm::opt::optimize;
use phase_vm::state::State;

fn eval(s: &mut State, p: &[Inst]) {
    for i in p {
        i.exec(s).unwrap();
    }
}

#[test]
fn removes_canceling_pairs() {
    let p = vec![Add(0, 1), Sub(0, 1), Xor(2, 3), Xor(2, 3), Add(0, 1)];
    let o = optimize(&p);
    assert_eq!(o.len(), 1);
    assert_eq!(o[0], Add(0, 1));
}

#[test]
fn merges_rotations() {
    let p = vec![RotL(0, 10), RotL(0, 20), RotL(0, 30), RotR(0, 30)];
    let o = optimize(&p);
    assert_eq!(o, vec![RotL(0, 30)]);
}

#[test]
fn soundness_on_random_states() {
    let mut seed = 0xACEu64;
    let mut next = move || {
        seed ^= seed >> 12;
        seed ^= seed << 25;
        seed ^= seed >> 27;
        seed.wrapping_mul(0x2545_F491_4F6C_DD1D)
    };
    for _ in 0..100 {
        let mut p: Vec<Inst> = Vec::new();
        for _ in 0..60 {
            let op = next() % 6;
            let (d, s) = (next() % 4, next() % 4);
            if d == s {
                continue;
            }
            match op {
                0 => p.push(Inst::Add(d as u8, s as u8)),
                1 => p.push(Inst::Sub(d as u8, s as u8)),
                2 => p.push(Inst::Xor(d as u8, s as u8)),
                3 => p.push(Inst::Swap(d as u8, s as u8)),
                4 => p.push(Inst::RotL(d as u8, (next() % 63) as u32)),
                _ => p.push(Inst::RotR(d as u8, (next() % 63) as u32)),
            }
        }
        let o = optimize(&p);
        assert!(o.len() <= p.len());
        let mut s1 = State::random(4, 0, next());
        let orig = s1.clone();
        let mut s2 = orig.clone();
        eval(&mut s1, &p);
        eval(&mut s2, &o);
        if s1 != s2 {
            println!("P  = {:?}", p);
            println!("opt= {:?}", o);
            panic!("opt(P) != P (forward)");
        }
        for i in o.iter().rev() {
            i.inverse().unwrap().exec(&mut s2).unwrap();
        }
        assert_eq!(s2, orig, "opt(P) необратима");
    }
}

#[test]
fn rotation_normal_form_and_zero_drop() {
    assert_eq!(optimize(&[RotL(1, 40)]), vec![RotL(1, 40)]);
    assert_eq!(optimize(&[RotL(1, 40), RotL(1, 0)]), vec![RotR(1, 24)]);
    assert_eq!(optimize(&[RotL(2, 0)]), Vec::<Inst>::new());
    assert_eq!(optimize(&[RotL(2, 64)]), Vec::<Inst>::new());
    assert_eq!(optimize(&[RotR(3, 5), RotR(3, 5)]), vec![RotR(3, 10)]);
    assert_eq!(optimize(&[RotL(0, 5), RotL(1, 5)]), vec![RotL(0, 5), RotL(1, 5)]);
}

#[test]
fn nested_pairs_cancel_through_the_stack() {
    let p = vec![Inc(0), Swap(1, 2), Not(3), Not(3), Swap(2, 1), Dec(0), MAdd(0, 1), MSub(0, 1)];
    assert_eq!(optimize(&p), Vec::<Inst>::new());
    let q = vec![Inc(0), Inc(0), Dec(0)];
    assert_eq!(optimize(&q), vec![Inc(0)]);
    let boundary = vec![SetReg(0, 1), SetReg(0, 1)];
    assert_eq!(optimize(&boundary), boundary);
}

#[test]
fn nested_levels_reach_the_fixed_point() {
    let levels = 9;
    let mut p = Vec::new();
    for _ in 0..levels {
        p.push(Add(1, 2));
        p.push(RotL(0, 1));
    }
    for _ in 0..levels {
        p.push(RotR(0, 1));
        p.push(Sub(1, 2));
    }
    assert!(optimize(&p).is_empty());
    let q = optimize(&[RotL(0, 3), Add(1, 2), RotL(0, 5)]);
    assert_eq!(optimize(&q), q);
}
