use phase_vm::cap::{export, export_with, import, importable, Manifest};
use phase_vm::state::State;

#[test]
fn export_import_roundtrip() {
    let mut st = State::random(8, 4, 7);
    st.regs[2] = 0xABCD;
    let src = "set r0 1\nadd r0 r1\n";
    let eml = export("t1", src, &st, 0x1234);
    assert!(importable(&eml));
    let cap = import(&eml).unwrap();
    assert_eq!(cap.state, st);
    assert_eq!(cap.tag, "t1");
    assert_eq!(cap.boundary_hash, 0x1234);
    assert_eq!(cap.kernel_src, src);
}

#[test]
fn manifest_vcf_embedded() {
    let st = State::random(4, 0, 9);
    let mf = Manifest {
        registers: vec!["FACT", "LOGIC"],
        ports: vec!["in:a".into(), "out:b".into()],
        role: "r".into(),
    };
    let eml = export_with("m", "add r0 r1\n", &st, 0, Some(&mf));
    assert!(eml.contains("BEGIN:VCARD"));
    assert!(eml.contains("REGISTERS:FACT,LOGIC"));
    assert!(eml.contains("PORTS:in:a;out:b"));
    assert!(eml.contains("END:VCARD"));
}

#[test]
fn tamper_detected() {
    let st = State::random(8, 0, 3);
    let src = "add r0 r1\n";
    let eml = export("t", src, &st, 0);
    let bad = eml.replace("REGS: ", "REGS: 0000000000000001 ");
    assert!(importable(&bad));
    assert!(import(&bad).is_err(), "порча тела не обнаружена");
}

#[test]
fn export_layout_is_exact() {
    let st = State { regs: vec![1, 0], mem: vec![] };
    let eml = export("x", "inc r0\n", &st, 0xff);
    let expect_head = "From: phase-vm@localhost\nTo: x\nSubject: phase capsule [x]\n\
Message-ID: <phase.capsule@localhost>\nDate: Thu, 03 Sep 2026 00:00:00 +0000\nX-Phase-Tag: x\n";
    assert!(eml.starts_with(expect_head));
    assert!(eml.contains("X-Phase-Boundary-Hash: 00000000000000ff\n"));
    assert!(eml.contains("X-Phase-NRegs: 2\nX-Phase-NMem: 0\nContent-Type: text/plain; charset=utf-8\n\n"));
    assert!(eml.ends_with(";; phase-state\nREGS: 0000000000000001 0000000000000000\n;; phase-program\ninc r0\n"));
    assert!(!eml.contains("MEM: "));
}

#[test]
fn export_with_mem_and_empty_manifest() {
    let st = State { regs: vec![3], mem: vec![7, 8] };
    let mf = Manifest { registers: vec![], ports: vec![], role: "gate".into() };
    let eml = export_with("m", "", &st, 0, Some(&mf));
    assert!(eml.contains("X-Phase-Vcf: BEGIN:VCARD\nX-Phase-Vcf: VERSION:3.0\nX-Phase-Vcf: ROLE:gate\nX-Phase-Vcf: END:VCARD\n"));
    assert!(!eml.contains("REGISTERS:"));
    assert!(eml.contains("MEM: 0000000000000007 0000000000000008\n"));
    assert!(importable(&eml));
    let cap = import(&eml).unwrap();
    assert_eq!(cap.state, st);
    assert_eq!(cap.kernel_src, "");
}

#[test]
fn import_errors() {
    assert!(importable("no separator"));
    assert_eq!(import("no separator").unwrap_err(), "нет разделителя заголовков");
    assert!(importable("A: b\n\nbody"));
    assert_eq!(import("A: b\n\nbody").unwrap_err(), "нет заголовка X-Phase-Tag");
    let st = State { regs: vec![1], mem: vec![] };
    let eml = export("t", "inc r0\n", &st, 0);
    let no_prog = eml.replace(";; phase-program\n", "");
    assert!(importable(&no_prog));
    assert_eq!(import(&no_prog).unwrap_err(), "нет секции program");
    let bad_kernel = eml.replace("inc r0\n", "dec r0\n");
    assert_eq!(import(&bad_kernel).unwrap_err(), "kernel-hash не совпал");
    let bad_state = eml.replace("REGS: 0000000000000001", "REGS: 0000000000000002");
    assert_eq!(import(&bad_state).unwrap_err(), "state-hash не совпал: капсула повреждена");
}

#[test]
fn import_refuses_non_numeric_fields_up_front() {
    let st = State { regs: vec![1], mem: vec![] };
    let eml = export("t", "inc r0\n", &st, 0);
    let bad = eml.replace("X-Phase-NRegs: 1", "X-Phase-NRegs: one");
    assert!(!importable(&bad));
    let bad_word = eml.replace("REGS: 0000000000000001", "REGS: zz");
    assert!(!importable(&bad_word));
}

#[test]
fn wrong_length_regs_line_keeps_zeros() {
    let st = State { regs: vec![0, 0], mem: vec![] };
    let eml = export("t", "", &st, 0);
    let short = eml.replace("REGS: 0000000000000000 0000000000000000", "REGS: 0000000000000005");
    assert!(importable(&short));
    let cap = import(&short).unwrap();
    assert_eq!(cap.state.regs, vec![0, 0]);
}

#[test]
fn manifest_capsule_imports_back() {
    let st = State { regs: vec![1, 2, 3], mem: vec![4] };
    let mf = Manifest {
        registers: vec!["SENSE", "FACT"],
        ports: vec!["in:x".into()],
        role: "gate".into(),
    };
    let eml = export_with("cap", "inc r0\n", &st, 9, Some(&mf));
    assert!(importable(&eml));
    let cap = import(&eml).unwrap();
    assert_eq!(cap.state, st);
    assert_eq!(cap.tag, "cap");
    assert_eq!(cap.kernel_src, "inc r0\n");
    assert_eq!(cap.boundary_hash, 9);
    assert_eq!(cap.state_hash, st.hash());
}

#[test]
fn manifest_with_carriage_returns_imports_back() {
    let st = State { regs: vec![5, 6], mem: vec![] };
    let mf = Manifest {
        registers: vec!["FACT\r"],
        ports: vec!["in:x\r".into(), "out:\ry".into()],
        role: "gate\r\r".into(),
    };
    let eml = export_with("cr", "dec r1\n", &st, 3, Some(&mf));
    let cap = import(&eml).unwrap();
    assert_eq!(cap.state, st);
    assert_eq!(cap.tag, "cr");
    assert_eq!(cap.kernel_src, "dec r1\n");
    assert_eq!(cap.boundary_hash, 3);
    assert_eq!(cap.state_hash, st.hash());
}
