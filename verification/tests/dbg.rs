use phase_vm::dbg::{Dbg, Refusal};
use phase_vm::program::parse;
use phase_vm::state::State;

fn session(src: &str, regs: usize, mem: usize) -> Dbg {
    let p = parse(src, regs).unwrap();
    match Dbg::open(p.nodes, State::new(regs, mem)) {
        Ok(d) => d,
        Err(_) => panic!("сессия не открылась"),
    }
}

#[test]
fn step_forward_and_back_restores() {
    let mut d = session("inc r0\nrep 2\n  add r1 r0\nend\nrotl r1 3\n", 2, 0);
    assert_eq!(d.total(), 4);
    d.step_fwd(4).unwrap();
    assert_eq!(d.pos(), 4);
    assert_eq!(d.state().regs, vec![1, 16]);
    d.step_back(4).unwrap();
    assert_eq!(d.pos(), 0);
    assert_eq!(d.state().regs, vec![0, 0]);
    d.step_fwd(100).unwrap();
    assert_eq!(d.pos(), 4);
    d.goto(1).unwrap();
    assert_eq!(d.state().regs, vec![1, 0]);
}

#[test]
fn boundary_stops_step_back() {
    let mut d = session("set r0 5\ninc r0\n", 1, 0);
    d.step_fwd(2).unwrap();
    d.step_back(1).unwrap();
    assert_eq!(d.state().regs, vec![5]);
    let e = d.step_back(1).unwrap_err();
    assert_eq!(e, "лист #0 (set r0 0x5) — граница: откат через set/mset требует лога/чекпоинта");
    assert_eq!(d.pos(), 1);
}

#[test]
fn continue_stops_before_breakpoint() {
    let mut d = session("inc r0\ninc r0\ninc r0\n", 1, 0);
    let r = d.command("br 2");
    assert_eq!(r.out, vec!["брейкпоинт на pos=2".to_string()]);
    d.command("br 2");
    assert_eq!(d.breaks(), &[2u64][..]);
    let r = d.command("c");
    assert_eq!(r.out, vec!["стоп на брейкпоинте pos=2".to_string()]);
    assert_eq!(d.state().regs, vec![2]);
    let r = d.command("c");
    assert_eq!(r.out, vec!["стоп на брейкпоинте pos=2".to_string()]);
    d.command("bd 2");
    let r = d.command("c");
    assert_eq!(r.out, vec!["конец программы".to_string()]);
    assert_eq!(d.pos(), 3);
}

#[test]
fn command_replies() {
    let mut d = session("inc r0\nxor r1 r0\n", 2, 2);
    let r = d.command("f");
    assert_eq!(r.out, vec!["→ лист #1: xor r1 r0".to_string()]);
    assert!(r.err.is_empty());
    let r = d.command("f 5");
    assert_eq!(r.out, vec!["конец программы (pos=2)".to_string()]);
    let r = d.command("b");
    assert_eq!(r.out, vec!["→ лист #1: xor r1 r0 (следующий к исполнению)".to_string()]);
    let r = d.command("p");
    assert_eq!(r.out, vec!["r0=0x0000000000000001 r1=0x0000000000000000".to_string()]);
    let r = d.command("p r0 rx R1 r9");
    assert_eq!(r.out, vec!["r0=0x0000000000000001".to_string(), "r1=0x0000000000000000".to_string()]);
    assert_eq!(r.err, vec!["нет регистра rx".to_string(), "нет регистра r9".to_string()]);
    let r = d.command("pm 1");
    assert_eq!(r.out, vec!["m[0]=0x0000000000000000 … (всего 2 слов)".to_string()]);
    let r = d.command("bl");
    assert_eq!(r.out, vec!["брейкпоинты: []".to_string()]);
    d.command("br 1");
    d.command("br 0");
    let r = d.command("s");
    assert_eq!(r.out, vec!["pos=1/2 листьев | откатываемый суффикс=2 | брейкпоинты=[1, 0]".to_string()]);
    let r = d.command("br");
    assert_eq!(r.err, vec!["br N".to_string()]);
    let r = d.command("zz");
    assert_eq!(r.err, vec!["неизвестно: zz".to_string()]);
    let r = d.command("   ");
    assert!(r.out.is_empty() && r.err.is_empty() && !r.quit);
    let r = d.command("g");
    assert!(r.err.is_empty());
    assert_eq!(d.pos(), 0);
    assert!(d.command("quit").quit);
}

#[test]
fn operand_error_reported_by_leaf() {
    let mut d = session("inc r0\nmadd r0 r1\n", 2, 1);
    let e = d.step_fwd(2);
    assert!(e.is_err());
    assert_eq!(d.pos(), 1);
    assert!(e.unwrap_err().starts_with("лист #1 (madd r0 r1)"));
}

#[test]
fn aliasing_program_refused() {
    let p = parse("add r0 r0\ninc r1\nxor r1 r1\n", 2).unwrap();
    match Dbg::open(p.nodes, State::new(2, 0)) {
        Err(Refusal::Aliasing(lines)) => {
            assert_eq!(lines.len(), 3);
            assert_eq!(lines[0], "программа содержит небиективные инструкции (алиасинг) — отладка невозможна:");
            assert!(lines[1].starts_with("  лист #0: "));
            assert!(lines[2].starts_with("  лист #2: "));
        }
        _ => panic!("алиасинг не обнаружен"),
    }
}

#[test]
fn describe_counts_rollback_suffix() {
    let d = session("set r0 1\ninc r0\ninc r0\n", 1, 0);
    assert_eq!(d.describe(), "pos=0/3 листьев | откатываемый суффикс=2 | брейкпоинты=[]");
    assert_eq!(d.cur_inst().unwrap().to_text(), "set r0 0x1");
}

#[test]
fn uncountable_program_refused() {
    let p = parse("rep 18446744073709551615\n  inc r0\n  inc r0\nend\n", 1).unwrap();
    assert!(matches!(Dbg::open(p.nodes, State::new(1, 0)), Err(Refusal::TooLong)));
}
