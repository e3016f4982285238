use phase_vm::program::parse;
use phase_vm::report::{check_text, rev_text, rewind, show_lines};
use phase_vm::state::State;

#[test]
fn show_only_nonzero() {
    let s = State { regs: vec![0, 5, 0, 7], mem: vec![] };
    assert_eq!(show_lines(&s), vec!["regs: r1=0x0000000000000005 r3=0x0000000000000007".to_string()]);
    let z = State { regs: vec![0, 0], mem: vec![0, 9] };
    assert_eq!(
        show_lines(&z),
        vec!["regs: (все нули)".to_string(), "mem : m[1]=0x0000000000000009".to_string()]
    );
    let zm = State { regs: vec![1], mem: vec![0] };
    assert_eq!(show_lines(&zm)[1], "mem : (все нули)");
}

#[test]
fn check_report_text() {
    let p = parse("inc r0\n", 2).unwrap();
    assert_eq!(
        check_text("a.phase", &p.nodes),
        vec![
            "файл: a.phase".to_string(),
            "листьев всего:       1".to_string(),
            "обратимых:           1".to_string(),
            "необратимых(границ): 0".to_string(),
            "ВЕРДИКТ: программа ЧИСТО обратима (F⁻¹∘F = Id, reverse по всей длине)".to_string(),
        ]
    );
    let q = parse("set r0 1\nadd r1 r1\ninc r0\n", 2).unwrap();
    let t = check_text("b", &q.nodes);
    assert_eq!(t[4], "ВЕРДИКТ: НЕ чисто обратима (есть границы/нарушения)");
    assert_eq!(t[5], "  граница на листе #0: Set: уничтожает старое значение регистра без источника");
    assert!(t[6].starts_with("  алиасинг на листе #1: "));
    assert_eq!(t[7], "откатываемый суффикс после последней границы: 1 листьев");
    assert_eq!(t.len(), 8);
}

#[test]
fn rewind_to_boundary_and_partway() {
    let p = parse("set r0 10\ninc r0\ninc r0\ninc r0\n", 1).unwrap();
    let mut s = State::new(1, 0);
    let rw = rewind(&mut s, &p.nodes, None).unwrap();
    assert_eq!((rw.total, rw.suffix, rw.done), (4, 3, 3));
    assert_eq!(s.regs, vec![10]);
    let lines = rev_text(&rw, &s);
    assert_eq!(lines[0], "forward: 4 листьев; обратимый суффикс: 3; откачено: 3");
    assert_eq!(lines[1], "regs: r0=0x000000000000000a");
    assert_eq!(lines[2], "state = состояние сразу после границ (ввод не тронут)");
    let mut s2 = State::new(1, 0);
    let rw2 = rewind(&mut s2, &p.nodes, Some(1)).unwrap();
    assert_eq!(rw2.done, 1);
    assert_eq!(s2.regs, vec![12]);
    assert_eq!(rev_text(&rw2, &s2)[2], "state = промежуточная точка внутри ядра");
}

#[test]
fn rewind_reports_forward_error() {
    let p = parse("inc r0\nmadd r0 r0\n", 1).unwrap();
    let mut s = State::new(1, 1);
    let e = rewind(&mut s, &p.nodes, None);
    assert!(e.is_err());
    assert_eq!(s.regs, vec![1]);
}
