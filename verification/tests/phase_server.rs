use phase_vm::phase_server::KV;

#[test]
fn transaction_rollback_and_commit() {
    let mut kv = KV::new();
    assert_eq!(kv.handle("SET a 1"), "ok");
    assert_eq!(kv.handle("BEGIN"), "tx begin");
    assert_eq!(kv.handle("SET a 2"), "ok");
    assert_eq!(kv.handle("SET b 3"), "ok");
    assert_eq!(kv.handle("GET a"), "2");
    assert_eq!(kv.handle("ROLLBACK"), "rolled back 2 op(s)");
    assert_eq!(kv.handle("GET a"), "1");
    assert_eq!(kv.handle("GET b"), "nil");
    kv.handle("BEGIN");
    kv.handle("SET b 9");
    assert_eq!(kv.handle("COMMIT"), "committed 1 op(s)");
    assert_eq!(kv.handle("GET b"), "9");
}

#[test]
fn undo_pops_committed() {
    let mut kv = KV::new();
    kv.handle("SET a 1");
    kv.handle("SET a 2");
    assert_eq!(kv.handle("GET a"), "2");
    assert_eq!(kv.handle("UNDO"), "undone 1 op(s)");
    assert_eq!(kv.handle("GET a"), "1");
    assert_eq!(kv.handle("UNDO"), "undone 1 op(s)");
    assert_eq!(kv.handle("GET a"), "nil");
    assert_eq!(kv.handle("UNDO"), "undone 0 op(s)");
}

#[test]
fn audit_is_deterministic_and_changes() {
    let mut kv = KV::new();
    let d0 = kv.handle("AUDIT");
    kv.handle("SET a 1");
    kv.handle("SET b 2");
    let d1 = kv.handle("AUDIT");
    assert_ne!(d0, d1);
    let mut kv2 = KV::new();
    kv2.handle("SET a 1");
    kv2.handle("SET b 2");
    assert_eq!(kv2.handle("AUDIT"), d1, "детерминизм нарушен");
}

#[test]
fn delete_inverse_restores() {
    let mut kv = KV::new();
    kv.handle("SET a 1");
    kv.handle("DEL a");
    assert_eq!(kv.handle("GET a"), "nil");
    kv.handle("UNDO");
    assert_eq!(kv.handle("GET a"), "1");
}

#[test]
fn error_replies() {
    let mut kv = KV::new();
    assert_eq!(kv.handle("   "), "err: пустая команда");
    assert_eq!(kv.handle("FROB"), "err: неизвестная команда");
    assert_eq!(kv.handle("SET a"), "err: неизвестная команда");
    assert_eq!(kv.handle("COMMIT"), "err: нет транзакции");
    assert_eq!(kv.handle("ROLLBACK"), "err: нет транзакции");
    assert_eq!(kv.handle("BEGIN"), "tx begin");
    assert_eq!(kv.handle("BEGIN"), "err: уже в транзакции");
    assert_eq!(kv.handle("UNDO"), "err: undo внутри транзакции запрещён");
    assert_eq!(kv.handle("QUIT"), "");
}

#[test]
fn commands_are_case_insensitive_and_undo_counts() {
    let mut kv = KV::new();
    assert_eq!(kv.handle("set a 1"), "ok");
    assert_eq!(kv.handle("Set b 2"), "ok");
    assert_eq!(kv.handle("set c 3"), "ok");
    assert_eq!(kv.handle("undo 2"), "undone 2 op(s)");
    assert_eq!(kv.handle("get a"), "1");
    assert_eq!(kv.handle("get b"), "nil");
    assert_eq!(kv.handle("UNDO 9"), "undone 1 op(s)");
    assert_eq!(kv.handle("UNDO x"), "undone 0 op(s)");
}

#[test]
fn audit_reply_format_and_empty_digest() {
    let kv = KV::new();
    assert_eq!(kv.audit_digest(), 0xcbf2_9ce4_8422_2325);
    let mut kv = KV::new();
    assert_eq!(kv.handle("AUDIT"), "digest=0xcbf29ce484222325 keys=0");
    kv.handle("SET a b");
    let prime = 0x100000001b3u64;
    let mut h = 0xcbf2_9ce4_8422_2325u64;
    for b in [b'a', b'b'] {
        h = (h ^ b as u64).wrapping_mul(prime);
    }
    assert_eq!(kv.audit_digest(), h);
    assert_eq!(kv.handle("AUDIT"), format!("digest=0x{h:016x} keys=1"));
}

#[test]
fn snapshot_sorted_and_reloaded() {
    let mut kv = KV::new();
    kv.handle("SET b 2");
    kv.handle("SET a 1");
    kv.handle("SET c 3");
    let snap = kv.snapshot();
    assert_eq!(snap, "a 1\nb 2\nc 3");
    let mut back = KV::from_snapshot(&snap);
    assert_eq!(back.snapshot(), snap);
    assert_eq!(back.handle("GET b"), "2");
    assert_eq!(back.audit_digest(), kv.audit_digest());
    let odd = KV::from_snapshot("k v w\nnospace\nz 1\n");
    assert_eq!(odd.snapshot(), "k v w\nz 1");
}

#[test]
fn rollback_counts_writes_and_restores_the_snapshot() {
    let mut kv = KV::new();
    kv.handle("SET a 1");
    kv.handle("SET b 2");
    let s0 = kv.snapshot();
    assert_eq!(kv.handle("BEGIN"), "tx begin");
    kv.handle("SET a 9");
    kv.handle("GET a");
    kv.handle("DEL b");
    kv.handle("SET c 3");
    kv.handle("AUDIT");
    kv.handle("SET x");
    assert_eq!(kv.handle("ROLLBACK"), "rolled back 3 op(s)");
    assert_eq!(kv.snapshot(), s0);
    let back = KV::from_snapshot(&kv.snapshot());
    assert_eq!(back.snapshot(), s0);
    assert_eq!(back.audit_digest(), kv.audit_digest());
}

#[test]
fn undo_last_n_writes_restores_the_store() {
    let mut kv = KV::new();
    kv.handle("SET a 1");
    let s0 = kv.snapshot();
    kv.handle("SET a 2");
    kv.handle("GET a");
    kv.handle("SET b 3");
    kv.handle("DEL a");
    assert_eq!(kv.handle("UNDO 3"), "undone 3 op(s)");
    assert_eq!(kv.snapshot(), s0);
    assert_eq!(kv.handle("UNDO 5"), "undone 1 op(s)");
    assert_eq!(kv.snapshot(), "");
}
