use phase_vm::arena::Arena;

#[test]
fn bump_reuse_after_rollback_is_exact() {
    let mut a = Arena::new();
    let m = a.push_mark();
    let o1 = a.alloc_bytes(64).unwrap();
    a.write_u64(o1, 42);
    assert_eq!(a.read_u64(o1), 42);
    a.rollback(m);
    assert_eq!(a.used_bytes(), m);
    let o2 = a.alloc_bytes(64).unwrap();
    assert_eq!(o1, o2, "rollback не освободил место детерминированно");
    a.write_u64(o2, 7);
    assert_eq!(a.read_u64(o2), 7);
}

#[test]
fn rollback_many_objects_o1() {
    let mut a = Arena::new();
    let m = a.push_mark();
    for i in 0..100_000u64 {
        let o = a.alloc_bytes(16).unwrap();
        a.write_u64(o, i);
    }
    assert_eq!(a.used_bytes(), m + 100_000 * 16);
    a.rollback(m);
    assert_eq!(a.used_bytes(), m, "rollback должен быть O(1)-truncate");
    assert_eq!(a.live_marks(), 0);
}

#[test]
fn nested_marks_commit_and_abort() {
    let mut a = Arena::new();
    let outer = a.push_mark();
    let o0 = a.alloc_bytes(8).unwrap();
    let _ = o0;

    let _inner = a.push_mark();
    let o1 = a.alloc_bytes(8).unwrap();
    let _ = o1;
    a.commit();

    a.rollback(outer);
    assert_eq!(a.used_bytes(), outer);
    assert_eq!(a.live_marks(), 0);
}

#[test]
fn reset_and_capacity() {
    let mut a = Arena::new();
    let m = a.push_mark();
    a.alloc_bytes(4096).unwrap();
    assert!(a.used_bytes() > m);
    a.reset();
    assert_eq!(a.used_bytes(), 0);
    assert_eq!(a.live_marks(), 0);
    assert!(a.capacity_bytes() > 0, "capacity сохраняется после reset");
}

#[test]
fn no_metadata_no_alloc_headers() {
    let mut a = Arena::new();
    let m = a.push_mark();
    for _ in 0..1000 {
        a.alloc_bytes(8).unwrap();
    }
    assert_eq!(a.used_bytes() - m, 1000 * 8);
    a.rollback(m);
}

#[test]
fn alloc_rounds_up_to_words_and_zeroes() {
    let mut a = Arena::new();
    let o = a.alloc_bytes(1).unwrap();
    assert_eq!(o, 0);
    assert_eq!(a.used_bytes(), 8);
    assert_eq!(a.read_u64(0), 0);
    let o2 = a.alloc_bytes(9).unwrap();
    assert_eq!(o2, 8);
    assert_eq!(a.used_bytes(), 24);
    assert_eq!(a.allocs, 2);
    let o3 = a.alloc_words(0).unwrap();
    assert_eq!(o3, 24);
    assert_eq!(a.used_bytes(), 24);
}

#[test]
fn rollback_then_alloc_sees_zeroed_words() {
    let mut a = Arena::new();
    let m = a.push_mark();
    let o = a.alloc_bytes(8).unwrap();
    a.write_u64(o, 0xdead_beef);
    a.rollback(m);
    let o2 = a.alloc_bytes(8).unwrap();
    assert_eq!(o2, o);
    assert_eq!(a.read_u64(o2), 0);
}

#[test]
fn rollback_drops_inner_marks_only() {
    let mut a = Arena::new();
    let m0 = a.push_mark();
    a.alloc_bytes(8).unwrap();
    let _m1 = a.push_mark();
    a.alloc_bytes(8).unwrap();
    let _m2 = a.push_mark();
    assert_eq!(a.live_marks(), 3);
    a.rollback(8);
    assert_eq!(a.used_bytes(), 8);
    assert_eq!(a.live_marks(), 1);
    assert_eq!(a.mark(), 8);
    a.rollback(m0);
    assert_eq!(a.live_marks(), 0);
}

#[test]
fn with_capacity_words_and_words_view() {
    let mut a = Arena::with_capacity_words(4);
    assert!(a.capacity_bytes() >= 32);
    let o = a.alloc_words(2).unwrap();
    a.write_u64(o + 8, 5);
    assert_eq!(a.words(), &[0u64, 5][..]);
    let d = Arena::default();
    assert_eq!(d.used_bytes(), 0);
}

#[test]
fn empty_request_succeeds_and_oversized_one_fails() {
    let mut a = Arena::new();
    let o = a.alloc_bytes(24).unwrap();
    assert_eq!(o, 0);
    assert_eq!(a.alloc_bytes(0), Some(24));
    assert_eq!(a.used_bytes(), 24);
    let before = a.allocs;
    assert_eq!(a.alloc_bytes(usize::MAX), None);
    assert_eq!(a.alloc_words(usize::MAX / 8), None);
    assert_eq!(a.used_bytes(), 24);
    assert_eq!(a.allocs, before);
}

#[test]
fn rollback_and_reset_keep_the_words_held() {
    let mut a = Arena::with_capacity_words(2);
    let cap = a.capacity_bytes();
    assert!(cap >= 16);
    let m = a.push_mark();
    let o = a.alloc_words(2).unwrap();
    a.write_u64(o, 7);
    a.rollback(m);
    assert_eq!(a.capacity_bytes(), cap);
    assert_eq!(a.alloc_words(2), Some(0));
    assert_eq!(a.words(), &[0u64, 0][..]);
    a.reset();
    assert_eq!(a.capacity_bytes(), cap);
    assert_eq!(a.used_bytes(), 0);
    assert_eq!(a.words(), &[][..]);
    assert_eq!(a.alloc_words(3), Some(0));
    assert_eq!(a.words(), &[0u64, 0, 0][..]);
    assert_eq!(a.allocs, 3);
}
