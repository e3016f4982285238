use phase_vm::inst::Inst;
use phase_vm::program::{parse, parse_imm, parse_reg, Node};

#[test]
fn parse_simple() {
    let p = parse("set r0 5\nadd r0 r1\nrep 3\n  xor r0 r1\nend\n", 8).unwrap();
    assert_eq!(p.nodes.len(), 3);
    match &p.nodes[2] {
        Node::Rep { count, body } => {
            assert_eq!(*count, 3);
            assert_eq!(body.len(), 1);
        }
        _ => panic!("ожидался rep"),
    }
}

#[test]
fn parse_hex_and_neg() {
    let p = parse("set r0 0xff\nset r1 -1\nset r2 0b101\n", 8).unwrap();
    if let Node::Inst(Inst::SetReg(_, v)) = p.nodes[0] {
        assert_eq!(v, 255);
    } else {
        panic!()
    }
    if let Node::Inst(Inst::SetReg(_, v)) = p.nodes[1] {
        assert_eq!(v, u64::MAX);
    } else {
        panic!()
    }
    if let Node::Inst(Inst::SetReg(_, v)) = p.nodes[2] {
        assert_eq!(v, 5);
    } else {
        panic!()
    }
}

#[test]
fn parse_errors() {
    assert!(parse("frob r0\n", 8).is_err());
    assert!(parse("rep 3\nset r0 1\n", 8).is_err()); // незакрытый rep
    assert!(parse("set r8 1\n", 8).is_err()); // вне диапазона
}

#[test]
fn parse_error_messages_name_the_line() {
    assert_eq!(parse("nop\nfrob r0\n", 8).unwrap_err(), "строка 2: неизвестная инструкция 'frob'");
    assert_eq!(parse("rep 3\nset r0 1\n", 8).unwrap_err(), "незакрытый rep");
    assert_eq!(
        parse("set r8 1\n", 8).unwrap_err(),
        "строка 1: регистр r8 вне диапазона (--regs 8)"
    );
    assert_eq!(parse("end\n", 8).unwrap_err(), "строка 1: end без rep");
    assert_eq!(parse("add r0\n", 8).unwrap_err(), "строка 1: add: ожидалось 2 аргументов, дано 1");
    assert_eq!(parse("rep\n", 8).unwrap_err(), "строка 1: rep: ожидается 'rep <count>'");
    assert_eq!(parse("end 1\n", 8).unwrap_err(), "строка 1: end: лишние токены");
}

#[test]
fn parse_comments_blank_lines_and_case() {
    let p = parse("# header\n\n  ADD r0 R1   # sum\r\nrep 2\n  NOT r2\nEND\n", 4).unwrap();
    assert_eq!(p.nodes.len(), 2);
    match &p.nodes[0] {
        Node::Inst(i) => assert_eq!(*i, Inst::Add(0, 1)),
        _ => panic!(),
    }
    match &p.nodes[1] {
        Node::Rep { count, body } => {
            assert_eq!(*count, 2);
            assert_eq!(body.len(), 1);
        }
        _ => panic!(),
    }
    assert_eq!(p.nregs, 4);
}

#[test]
fn parse_nested_reps() {
    let p = parse("rep 2\nrep 3\ninc r0\nend\ndec r1\nend\n", 4).unwrap();
    assert_eq!(p.nodes.len(), 1);
    match &p.nodes[0] {
        Node::Rep { count, body } => {
            assert_eq!(*count, 2);
            assert_eq!(body.len(), 2);
            match &body[0] {
                Node::Rep { count, body } => {
                    assert_eq!(*count, 3);
                    assert_eq!(body.len(), 1);
                }
                _ => panic!(),
            }
        }
        _ => panic!(),
    }
}

#[test]
fn immediates_and_errors() {
    assert_eq!(parse_imm("42"), Ok(42));
    assert_eq!(parse_imm(" 0X1F "), Ok(31));
    assert_eq!(parse_imm("0b11"), Ok(3));
    assert_eq!(parse_imm("-2"), Ok(u64::MAX - 1));
    assert_eq!(parse_imm("+7"), Ok(7));
    assert_eq!(parse_imm("18446744073709551615"), Ok(u64::MAX));
    assert_eq!(
        parse_imm("18446744073709551616"),
        Err("imm '18446744073709551616': number too large to fit in target type".to_string())
    );
    assert_eq!(parse_imm("0x"), Err("imm '0x': cannot parse integer from empty string".to_string()));
    assert_eq!(parse_imm("12a"), Err("imm '12a': invalid digit found in string".to_string()));
    assert_eq!(parse_imm("0b2"), Err("imm '0b2': invalid digit found in string".to_string()));
}

#[test]
fn registers() {
    assert_eq!(parse_reg("r3", 8), Ok(3));
    assert_eq!(parse_reg("R7", 8), Ok(7));
    assert_eq!(parse_reg("x1", 8), Err("ожидался регистр rN, получено 'x1'".to_string()));
    assert_eq!(parse_reg("r", 8), Err("регистр 'r': cannot parse integer from empty string".to_string()));
    assert_eq!(parse_reg("r9", 8), Err("регистр r9 вне диапазона (--regs 8)".to_string()));
}

#[test]
fn instruction_text_form() {
    assert_eq!(Inst::Add(0, 1).to_text(), "add r0 r1");
    assert_eq!(Inst::SetReg(2, 255).to_text(), "set r2 0xff");
    assert_eq!(Inst::MSet(3, 0).to_text(), "mset 3 0x0");
    assert_eq!(Inst::RotL(1, 17).to_text(), "rotl r1 17");
    assert_eq!(Inst::CSwap(0, 1, 2).to_text(), "cswp r0 r1 r2");
    assert_eq!(Inst::Nop.to_text(), "nop");
}

#[test]
fn text_form_parses_back() {
    let all = [
        Inst::Nop,
        Inst::Not(1),
        Inst::Inc(2),
        Inst::Dec(3),
        Inst::Xor(0, 1),
        Inst::Add(7, 6),
        Inst::Sub(5, 4),
        Inst::Swap(3, 2),
        Inst::RotL(1, 63),
        Inst::RotR(0, 4000000000),
        Inst::Toff(0, 1, 2),
        Inst::CSwap(2, 1, 0),
        Inst::SetReg(7, u64::MAX),
        Inst::MAdd(1, 2),
        Inst::MSub(2, 1),
        Inst::MXor(0, 7),
        Inst::RAdd(4, 5),
        Inst::RSub(5, 4),
        Inst::MSet(u64::MAX, 0),
    ];
    for i in all {
        let p = parse(&format!("{}\n", i.to_text()), 8).unwrap();
        assert_eq!(p.nodes.len(), 1);
        match &p.nodes[0] {
            Node::Inst(j) => assert_eq!(*j, i),
            _ => panic!("ожидалась инструкция"),
        }
    }
}
