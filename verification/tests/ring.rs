use phase_vm::ring::{readv_sqe, OP_READV, SQE_BYTES};

#[test]
fn readv_entry_layout() {
    let e = readv_sqe(3, 0x1122_3344_5566_7788, 0xdead_beef, 42);
    assert_eq!(e.len(), SQE_BYTES);
    assert_eq!(e[0], OP_READV);
    assert_eq!(&e[1..4], &[0, 0, 0]);
    assert_eq!(&e[4..8], &3i32.to_le_bytes());
    assert_eq!(&e[8..16], &0x1122_3344_5566_7788u64.to_le_bytes());
    assert_eq!(&e[16..24], &0xdead_beefu64.to_le_bytes());
    assert_eq!(&e[24..28], &1u32.to_le_bytes());
    assert_eq!(&e[28..32], &[0, 0, 0, 0]);
    assert_eq!(&e[32..40], &42u64.to_le_bytes());
    assert!(e[40..].iter().all(|&b| b == 0));
}

#[test]
fn negative_descriptor_is_twos_complement() {
    let e = readv_sqe(-1, 0, 0, 0);
    assert_eq!(&e[4..8], &[0xff, 0xff, 0xff, 0xff]);
}
