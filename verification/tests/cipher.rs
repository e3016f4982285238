use phase_vm::check;
use phase_vm::cipher::{pc1_decrypt, pc1_encrypt, pc1_kernel};
use phase_vm::inst::Inst;
use phase_vm::machine::{count_leaves, iter_forward};

fn xorshift(seed: &mut u64) -> u64 {
    let mut x = *seed;
    x ^= x >> 12;
    x ^= x << 25;
    x ^= x >> 27;
    x = x.wrapping_mul(0x2545_F491_4F6C_DD1D);
    *seed = x;
    x
}

fn popcount(x: u64) -> u32 {
    x.count_ones()
}

fn four(seed: &mut u64) -> [u64; 4] {
    [xorshift(seed), xorshift(seed), xorshift(seed), xorshift(seed)]
}

#[test]
fn kernel_is_pure_reversible_no_branches() {
    let kernel = pc1_kernel(12);
    let rep = check::check(&kernel.nodes);
    assert!(rep.reversible(), "{:?}", rep.violations);
    let mut n_cswp = 0u64;
    for inst in iter_forward(&kernel.nodes) {
        if matches!(inst, Inst::CSwap(..)) {
            n_cswp += 1;
        }
    }
    assert_eq!(n_cswp, 0, "в раунде не должно быть ветвлений по данным");
}

#[test]
fn encrypt_decrypt_roundtrip_random() {
    let mut seed = 0xDEAD_BEEF_u64;
    for rounds in [8u64, 12, 16] {
        for _ in 0..200 {
            let key = four(&mut seed);
            let pt = four(&mut seed);
            let ct = pc1_encrypt(pt, key, rounds).unwrap();
            let back = pc1_decrypt(ct, key, rounds).unwrap();
            assert_eq!(back, pt, "rounds={rounds}: decrypt(encrypt(pt)) != pt");
        }
    }
}

#[test]
fn deterministic_known_answer() {
    let key = [1, 2, 3, 4];
    let pt = [0x0123_4567_89AB_CDEF, 0xFEDC_BA98_7654_3210, 0, u64::MAX];
    let ct = pc1_encrypt(pt, key, 12).unwrap();
    assert_eq!(ct, pc1_encrypt(pt, key, 12).unwrap(), "детерминизм нарушен");
    assert_ne!(ct, pt, "шифр не должен быть тождеством");
    println!("PC1 KAT (key=1,2,3,4 rounds=12): {ct:016x?}");
}

#[test]
fn avalanche_one_bit_flips_half_bits() {
    let mut seed = 0xF00D_u64;
    let mut total_flip_rate = 0.0f64;
    let mut n = 0u32;
    for _ in 0..100 {
        let key = four(&mut seed);
        let pt = four(&mut seed);
        let ct0 = pc1_encrypt(pt, key, 12).unwrap();
        for w in 0..4u32 {
            for bit in 0..64u32 {
                let mut pt1 = pt;
                pt1[w as usize] ^= 1u64 << bit;
                let ct1 = pc1_encrypt(pt1, key, 12).unwrap();
                let diff: u32 = (0..4).map(|i| popcount(ct0[i] ^ ct1[i])).sum();
                let rate = diff as f64 / 256.0;
                total_flip_rate += rate;
                n += 1;
                assert!(
                    (24..=232).contains(&diff),
                    "w{w} bit{bit}: diff={diff} — лавина не работает"
                );
            }
        }
    }
    let avg = total_flip_rate / n as f64;
    assert!(
        (0.45..=0.55).contains(&avg),
        "средняя доля перевёрнутых бит {avg} вне [0.45,0.55]"
    );
    println!("PC1 avalanche: средняя доля перевёрнутых бит = {avg:.4}");
}

#[test]
fn kernel_has_eighteen_leaves_per_round() {
    assert_eq!(count_leaves(&pc1_kernel(12).nodes), 12 * 18);
    assert_eq!(count_leaves(&pc1_kernel(0).nodes), 0);
}

#[test]
fn zero_rounds_is_identity() {
    let pt = [5, 6, 7, 8];
    assert_eq!(pc1_encrypt(pt, [1, 2, 3, 4], 0).unwrap(), pt);
    assert_eq!(pc1_decrypt(pt, [1, 2, 3, 4], 0).unwrap(), pt);
}

#[test]
fn decrypt_is_not_encrypt() {
    let key = [9, 8, 7, 6];
    let pt = [1, 2, 3, 4];
    let ct = pc1_encrypt(pt, key, 4).unwrap();
    assert_ne!(pc1_encrypt(ct, key, 4).unwrap(), pt);
    assert_eq!(pc1_decrypt(ct, key, 4).unwrap(), pt);
}
