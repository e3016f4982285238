use phase_vm::program::parse;
use phase_vm::trials::{roundtrip, Outcome};

#[test]
fn reversible_program_passes_every_trial() {
    let p = parse("rep 3\n  add r0 r1\n  rotl r1 5\n  xor r2 r0\nend\n", 4).unwrap();
    match roundtrip(&p.nodes, 4, 0, 7, 50) {
        Outcome::Passed { passes, leaves } => {
            assert_eq!(passes, 50);
            assert_eq!(leaves, 9);
        }
        _ => panic!("roundtrip провален"),
    }
}

#[test]
fn boundaries_are_refused_before_trials() {
    let p = parse("set r0 1\ninc r0\nadd r1 r1\n", 2).unwrap();
    match roundtrip(&p.nodes, 2, 0, 1, 10) {
        Outcome::NotReversible { total, irreversible } => {
            assert_eq!(total, 3);
            assert_eq!(irreversible, 2);
        }
        _ => panic!("ожидался отказ"),
    }
}

#[test]
fn memory_index_out_of_range_is_a_run_error() {
    let p = parse("madd r0 r1\n", 2).unwrap();
    match roundtrip(&p.nodes, 2, 1, 3, 5) {
        Outcome::RunError { trial, msg } => {
            assert_eq!(trial, 0);
            assert!(msg.starts_with("лист #0 (madd r0 r1): "));
        }
        _ => panic!("ожидалась ошибка прогона"),
    }
}

#[test]
fn zero_trials_pass_trivially() {
    let p = parse("inc r0\n", 1).unwrap();
    assert!(matches!(roundtrip(&p.nodes, 1, 0, 0, 0), Outcome::Passed { passes: 0, leaves: 1 }));
}
