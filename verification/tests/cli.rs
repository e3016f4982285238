use phase_vm::cli::{cipher_report, collect_opts, init_state, parse_cipher_args, parse_imm, parse_set, CipherArgError, CliError};

fn args(v: &[&str]) -> Vec<String> {
    v.iter().map(|s| s.to_string()).collect()
}

#[test]
fn immediates() {
    assert_eq!(parse_imm("42"), Some(42));
    assert_eq!(parse_imm(" 0xff "), Some(255));
    assert_eq!(parse_imm("0XFF"), Some(255));
    assert_eq!(parse_imm("-1"), Some(u64::MAX));
    assert_eq!(parse_imm("-0"), Some(0));
    assert_eq!(parse_imm("0x"), None);
    assert_eq!(parse_imm("abc"), None);
    assert_eq!(parse_imm("18446744073709551616"), None);
}

#[test]
fn set_pairs() {
    assert_eq!(parse_set("r0=5"), Some((0, 5)));
    assert_eq!(parse_set("R3=0x10"), Some((3, 16)));
    assert_eq!(parse_set("rr7=-2"), Some((7, u64::MAX - 1)));
    assert_eq!(parse_set("r300=1"), Some((44, 1)));
    assert_eq!(parse_set("r0"), None);
    assert_eq!(parse_set("rx=1"), None);
    assert_eq!(parse_set("r1=zz"), None);
}

#[test]
fn options_and_defaults() {
    let (f, o) = collect_opts(&args(&["p.phase"])).unwrap();
    assert_eq!(f, "p.phase");
    assert_eq!((o.regs, o.mem, o.trials, o.seed, o.steps, o.rounds), (16, 0, 100, 0x1234_5678, None, 100));
    assert!(o.sets.is_empty());
    let (f, o) = collect_opts(&args(&[
        "--regs", "8", "x.phase", "--mem", "4", "--set", "r1=7", "--set=r2=0x10", "--steps", "3",
        "--trials", "5", "--seed", "9", "--rounds", "2",
    ]))
    .unwrap();
    assert_eq!(f, "x.phase");
    assert_eq!((o.regs, o.mem, o.trials, o.seed, o.steps, o.rounds), (8, 4, 5, 9, Some(3), 2));
    assert_eq!(o.sets, vec![(1, 7), (2, 16)]);
}

#[test]
fn refused_command_lines() {
    assert_eq!(collect_opts(&args(&[])).unwrap_err(), CliError::Usage);
    assert_eq!(collect_opts(&args(&["--regs"])).unwrap_err(), CliError::MissingValue);
    assert_eq!(collect_opts(&args(&["f", "--set"])).unwrap_err(), CliError::MissingValue);
    assert_eq!(collect_opts(&args(&["f", "--regs", "x"])).unwrap_err(), CliError::Usage);
    assert_eq!(collect_opts(&args(&["f", "g"])).unwrap_err(), CliError::Usage);
    assert_eq!(collect_opts(&args(&["f", "--bogus"])).unwrap_err(), CliError::Usage);
    assert_eq!(collect_opts(&args(&["f", "--set", "q"])).unwrap_err(), CliError::Usage);
    assert_eq!(collect_opts(&args(&["f", "--set=r1"])).unwrap_err(), CliError::Usage);
}

#[test]
fn cipher_arguments() {
    let key = "0000000000000001000000000000000200000000000000030000000000000004";
    let a = parse_cipher_args(&args(&["--key", key, "--rounds", "8"])).unwrap();
    assert_eq!(a.key, [1, 2, 3, 4]);
    assert_eq!(a.pt, [0, 0, 0, 0]);
    assert_eq!(a.rounds, 8);
    let d = parse_cipher_args(&args(&[])).unwrap();
    assert_eq!(d.rounds, 12);
    assert_eq!(parse_cipher_args(&args(&["--key", "00"])).unwrap_err(), CipherArgError::KeyLength);
    assert_eq!(parse_cipher_args(&args(&["--pt", "00"])).unwrap_err(), CipherArgError::PtLength);
    assert_eq!(parse_cipher_args(&args(&["--pt"])).unwrap_err(), CipherArgError::MissingValue);
    let bad = "zz00000000000001000000000000000200000000000000030000000000000004";
    assert_eq!(parse_cipher_args(&args(&["--pt", bad])).unwrap_err(), CipherArgError::BadHex);
    let wide = "é00000000000000000000000000000000000000000000000000000000000000";
    assert_eq!(wide.len(), 64);
    assert_eq!(parse_cipher_args(&args(&["--key", wide])).unwrap_err(), CipherArgError::BadHex);
    assert_eq!(parse_cipher_args(&args(&["--rounds", "x"])).unwrap_err(), CipherArgError::Usage);
    assert_eq!(parse_cipher_args(&args(&["--bogus"])).unwrap_err(), CipherArgError::Usage);
}

#[test]
fn cipher_report_lines() {
    let r = cipher_report(&[1, 2, 3, 4], &[5, 6, 7, 8], &[9, 10, 11, 12], &[5, 6, 7, 8], 12);
    assert_eq!(r[0], "PC1 rounds=12");
    assert_eq!(r[1], "key = 0000000000000001000000000000000200000000000000030000000000000004");
    assert_eq!(r[4], "pt' = 0000000000000005000000000000000600000000000000070000000000000008  (decrypt = обратный прогон ядра)");
    assert_eq!(r[5], "OK: decrypt(ct) == pt, F⁻¹ без отдельного алгоритма расшифрования");
    let bad = cipher_report(&[0; 4], &[1, 0, 0, 0], &[0; 4], &[0; 4], 1);
    assert_eq!(bad[5], "ПРОВАЛ: расшифрование не сошлось");
}

#[test]
fn initial_state_from_sets() {
    let (_, o) = collect_opts(&args(&["f", "--regs", "3", "--mem", "2", "--set", "r1=7", "--set", "r1=9", "--set", "r0=-1"])).unwrap();
    let s = init_state(&o).unwrap();
    assert_eq!(s.regs, vec![u64::MAX, 9, 0]);
    assert_eq!(s.mem, vec![0, 0]);
    let (_, bad) = collect_opts(&args(&["f", "--regs", "2", "--set", "r1=1", "--set", "r5=1", "--set", "r7=1"])).unwrap();
    assert_eq!(init_state(&bad).unwrap_err(), 5);
}
