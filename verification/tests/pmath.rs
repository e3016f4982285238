use phase_vm::pmath::{apply, arx_round, arx_round_inv, inverse, mod_inv_odd, Op};

fn xs(seed: u64) -> impl FnMut() -> u64 {
    let mut rng = seed;
    move || {
        rng ^= rng >> 12;
        rng ^= rng << 25;
        rng ^= rng >> 27;
        rng.wrapping_mul(0x2545_F491_4F6C_DD1D)
    }
}

#[test]
fn modular_inverse() {
    let mut next = xs(0xACE1);
    for _ in 0..2000 {
        let a = next() | 1;
        let inv = mod_inv_odd(a);
        assert_eq!(a.wrapping_mul(inv), 1, "a*inv != 1 mod 2^64");
    }
    assert_eq!(3u64.wrapping_mul(mod_inv_odd(3)), 1);
}

#[test]
fn op_roundtrip_random() {
    let ops = vec![
        Op::MulOdd(0x9E3779B97F4A7C15),
        Op::Add(0xD1B54A32D192ED03),
        Op::Xor(0xABCDEF0123456789),
        Op::RotL(17),
        Op::MulOdd(3),
        Op::RotL(33),
    ];
    let g = inverse(&ops);
    let mut next = xs(0xFEED);
    for _ in 0..5000 {
        let x = next();
        assert_eq!(apply(&g, apply(&ops, x)), x, "F⁻¹(F(x)) != x");
    }
}

#[test]
fn arx_round_invertible() {
    let mut next = xs(0xBEEF5);
    for _ in 0..3000 {
        let (a, b) = (next(), next());
        let k = (next() % 63) as u32 + 1;
        let (x, y) = arx_round(a, b, k);
        let (a2, b2) = arx_round_inv(x, y, k);
        assert_eq!((a2, b2), (a, b), "ARX-инверсия не точна");
    }
}

#[test]
fn known_inverses() {
    assert_eq!(mod_inv_odd(1), 1);
    assert_eq!(mod_inv_odd(3), 0xAAAA_AAAA_AAAA_AAAB);
    assert_eq!(mod_inv_odd(u64::MAX), u64::MAX);
}

#[test]
fn op_inverse_forms() {
    assert_eq!(Op::Add(5).inverse(), Op::Add(5u64.wrapping_neg()));
    assert_eq!(Op::Xor(9).inverse(), Op::Xor(9));
    assert_eq!(Op::RotL(10).inverse(), Op::RotL(54));
    assert_eq!(Op::RotL(0).inverse(), Op::RotL(0));
    assert_eq!(Op::RotL(64).inverse(), Op::RotL(0));
    assert_eq!(Op::MulOdd(3).inverse(), Op::MulOdd(0xAAAA_AAAA_AAAA_AAAB));
    assert_eq!(Op::MulOdd(3).apply(5), 15);
    assert_eq!(Op::RotL(1).apply(1u64 << 63), 1);
}

#[test]
fn sequence_inverse_reverses_order() {
    let ops = vec![Op::Add(1), Op::RotL(4)];
    assert_eq!(inverse(&ops), vec![Op::RotL(60), Op::Add(u64::MAX)]);
    assert_eq!(apply(&ops, 0), 16);
    assert_eq!(apply(&[], 7), 7);
}

#[test]
fn arx_round_value() {
    let (s, t) = arx_round(1, 2, 1);
    assert_eq!(s, 3);
    assert_eq!(t, 3 ^ 4);
    assert_eq!(arx_round_inv(s, t, 1), (1, 2));
}
