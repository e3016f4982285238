use phase_vm::check::{check, ViolationKind};
use phase_vm::program::parse;

#[test]
fn counts_and_violations() {
    let p = parse("inc r0\nset r1 5\nrep 2\n  add r0 r1\nend\nadd r2 r2\n", 4).unwrap();
    let rep = check(&p.nodes);
    assert_eq!(rep.total_leaves, 5);
    assert_eq!(rep.invertible_leaves, 3);
    assert_eq!(rep.irreversible_leaves, 2);
    assert_eq!(rep.violations.len(), 2);
    assert_eq!(rep.violations[0].leaf, 1);
    assert_eq!(rep.violations[0].kind, ViolationKind::Boundary);
    assert_eq!(rep.violations[0].reason, "Set: уничтожает старое значение регистра без источника");
    assert_eq!(rep.violations[1].leaf, 4);
    assert_eq!(rep.violations[1].kind, ViolationKind::Alias);
    assert!(!rep.reversible());
}

#[test]
fn pure_kernel_is_reversible() {
    let p = parse("rep 3\n  xor r0 r1\n  rotl r0 5\nend\n", 2).unwrap();
    let rep = check(&p.nodes);
    assert!(rep.reversible());
    assert_eq!(rep.total_leaves, 6);
    assert_eq!(rep.invertible_leaves, 6);
    let empty = check(&[]);
    assert!(empty.reversible());
    assert_eq!(empty.total_leaves, 0);
}
