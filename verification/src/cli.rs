//! Command-line options of the `phase-vm` tool: the file, `--regs N`,
//! `--mem N`, `--set rN=val`, `--trials T`, `--seed S`, `--steps K`,
//! `--rounds R`. Parsing decides; printing the usage and exiting is the
//! caller's business.
use vstd::prelude::*;
use crate::lex::{from_str_radix, from_str_radix_spec, trim, trim_chars};
use crate::patch::{cut_at_exec, starts_with};
use crate::lex::cut_at;
use crate::phase_server::take_chars;
use crate::lex::skip_chars;
use crate::text::{chars_of, dec_spec, extend_chars, hex_chars, hex_spec, push_dec, push_str, string_of};
use crate::fnv::{utf8_bytes, utf8_seq};
use crate::state::{State, StateV};

verus! {

/// Why the command line was refused.
#[derive(Debug, Clone, Copy, PartialEq, Eq, Structural)]
pub enum CliError {
    /// Print the usage and exit with status 2.
    Usage,
    /// An option that takes a value came last, with no value after it.
    MissingValue,
}

/// The options of a subcommand.
#[derive(Debug, Clone)]
pub struct Opts {
    pub regs: usize,
    pub mem: usize,
    pub sets: Vec<(u8, u64)>,
    pub trials: u64,
    pub seed: u64,
    pub steps: Option<u64>,
    pub rounds: u64,
}

/// Mathematical value of `Opts`.
pub ghost struct OptsV {
    pub regs: usize,
    pub mem: usize,
    pub sets: Seq<(u8, u64)>,
    pub trials: u64,
    pub seed: u64,
    pub steps: Option<u64>,
    pub rounds: u64,
}

impl View for Opts {
    type V = OptsV;

    open spec fn view(&self) -> OptsV {
        OptsV {
            regs: self.regs,
            mem: self.mem,
            sets: self.sets@,
            trials: self.trials,
            seed: self.seed,
            steps: self.steps,
            rounds: self.rounds,
        }
    }
}

/// The defaults: 16 registers, no memory, 100 trials and rounds.
pub open spec fn default_opts() -> OptsV {
    OptsV { regs: 16, mem: 0, sets: seq![], trials: 100, seed: 0x1234_5678, steps: None, rounds: 100 }
}

/// `s.parse::<u64>()`.
pub open spec fn dec_u64(s: Seq<char>) -> Option<u64> {
    match from_str_radix_spec(s, 10, u64::MAX as nat) {
        Ok(v) => Some(v as u64),
        Err(_) => None,
    }
}

/// An immediate: `0x…`/`0X…` hex, `-N` (two's complement), or decimal.
pub open spec fn imm_spec(s: Seq<char>) -> Option<u64> {
    let t = trim(s);
    if starts_with(t, "0x"@) || starts_with(t, "0X"@) {
        match from_str_radix_spec(t.skip(2), 16, u64::MAX as nat) {
            Ok(v) => Some(v as u64),
            Err(_) => None,
        }
    } else if t.len() > 0 && t[0] == '-' {
        match dec_u64(t.skip(1)) {
            Some(v) => Some(vstd::wrapping::u64_specs::wrapping_sub(0, v)),
            None => None,
        }
    } else {
        dec_u64(t)
    }
}

/// `s.trim_start_matches(['r', 'R'])`.
pub open spec fn strip_r(s: Seq<char>) -> Seq<char>
    decreases s.len(),
{
    if s.len() > 0 && (s[0] == 'r' || s[0] == 'R') {
        strip_r(s.drop_first())
    } else {
        s
    }
}

/// `rN=val`: the register (its number taken modulo 256) and the value.
pub open spec fn set_spec(kv: Seq<char>) -> Option<(u8, u64)> {
    let c = cut_at(kv, '=');
    if c == kv.len() {
        None
    } else {
        match from_str_radix_spec(strip_r(kv.take(c as int)), 10, usize::MAX as nat) {
            Err(_) => None,
            Ok(r) => match imm_spec(kv.skip(c as int + 1)) {
                None => None,
                Some(v) => Some(((r % 256) as u8, v)),
            },
        }
    }
}

/// The options that take a numeric value.
pub open spec fn num_flag(a: Seq<char>) -> bool {
    a == "--regs"@ || a == "--mem"@ || a == "--trials"@ || a == "--seed"@ || a == "--steps"@ || a == "--rounds"@
}

/// Record a numeric option's value.
pub open spec fn with_num(o: OptsV, flag: Seq<char>, v: u64) -> OptsV {
    if flag == "--regs"@ {
        OptsV { regs: v as usize, ..o }
    } else if flag == "--mem"@ {
        OptsV { mem: v as usize, ..o }
    } else if flag == "--trials"@ {
        OptsV { trials: v, ..o }
    } else if flag == "--seed"@ {
        OptsV { seed: v, ..o }
    } else if flag == "--steps"@ {
        OptsV { steps: Some(v), ..o }
    } else {
        OptsV { rounds: v, ..o }
    }
}

/// The file and options the arguments from `i` on give, after `file` and `o`.
pub open spec fn collect_spec(args: Seq<Seq<char>>, i: nat, file: Option<Seq<char>>, o: OptsV) -> Result<(Seq<char>, OptsV), CliError>
    decreases args.len() - i,
{
    if i >= args.len() {
        match file {
            Some(f) => Ok((f, o)),
            None => Err(CliError::Usage),
        }
    } else {
        let a = args[i as int];
        if num_flag(a) {
            if i + 1 >= args.len() {
                Err(CliError::MissingValue)
            } else {
                match dec_u64(args[i as int + 1]) {
                    None => Err(CliError::Usage),
                    Some(v) => collect_spec(args, i + 2, file, with_num(o, a, v)),
                }
            }
        } else if a == "--set"@ {
            if i + 1 >= args.len() {
                Err(CliError::MissingValue)
            } else {
                match set_spec(args[i as int + 1]) {
                    None => Err(CliError::Usage),
                    Some(p) => collect_spec(args, i + 2, file, OptsV { sets: o.sets.push(p), ..o }),
                }
            }
        } else if starts_with(a, "--set="@) {
            match set_spec(a.skip(6)) {
                None => Err(CliError::Usage),
                Some(p) => collect_spec(args, i + 1, file, OptsV { sets: o.sets.push(p), ..o }),
            }
        } else if !(a.len() > 0 && a[0] == '-') && file is None {
            collect_spec(args, i + 1, Some(a), o)
        } else {
            Err(CliError::Usage)
        }
    }
}

fn starts_with_lit(s: &Vec<char>, p: &str) -> (r: bool)
    ensures
        r == starts_with(s@, p@),
{
    let pv = chars_of(p);
    if pv.len() > s.len() {
        return false;
    }
    let head = take_chars(s, pv.len());
    crate::phase_server::same(&head, &pv)
}

pub(crate) fn dec_u64_exec(s: &Vec<char>) -> (r: Option<u64>)
    ensures
        r == dec_u64(s@),
{
    match from_str_radix(s, 10, u64::MAX) {
        Ok(v) => Some(v),
        Err(_) => None,
    }
}

fn imm_chars(s: &Vec<char>) -> (r: Option<u64>)
    ensures
        r == imm_spec(s@),
{
    let t = trim_chars(s);
    if starts_with_lit(&t, "0x") || starts_with_lit(&t, "0X") {
        proof {
            reveal_strlit("0x");
            reveal_strlit("0X");
        }
        let h = skip_chars(&t, 2);
        match from_str_radix(&h, 16, u64::MAX) {
            Ok(v) => Some(v),
            Err(_) => None,
        }
    } else if t.len() > 0 && t[0] == '-' {
        let b = skip_chars(&t, 1);
        match dec_u64_exec(&b) {
            Some(v) => Some(0u64.wrapping_sub(v)),
            None => None,
        }
    } else {
        dec_u64_exec(&t)
    }
}

/// Parse an immediate: `0x…`/`0X…` hex, `-N` (two's complement), or decimal;
/// `None` when it is none of these.
pub fn parse_imm(s: &str) -> (r: Option<u64>)
    ensures
        r == imm_spec(s@),
{
    let v = chars_of(s);
    imm_chars(&v)
}

fn set_chars(kv: &Vec<char>) -> (r: Option<(u8, u64)>)
    ensures
        r == set_spec(kv@),
{
    let c = cut_at_exec(kv, '=');
    if c == kv.len() {
        return None;
    }
    let reg = take_chars(kv, c);
    let mut i: usize = 0;
    assert(reg@.skip(0) =~= reg@);
    while i < reg.len() && (reg[i] == 'r' || reg[i] == 'R')
        invariant
            i <= reg@.len(),
            strip_r(reg@) == strip_r(reg@.skip(i as int)),
        decreases reg@.len() - i,
    {
        assert(reg@.skip(i as int).drop_first() =~= reg@.skip(i as int + 1));
        i += 1;
    }
    let digits = skip_chars(&reg, i);
    let r = match from_str_radix(&digits, 10, usize::MAX as u64) {
        Ok(r) => r,
        Err(_) => {
            return None;
        },
    };
    let val = skip_chars(kv, c + 1);
    match imm_chars(&val) {
        Some(v) => Some(((r % 256) as u8, v)),
        None => None,
    }
}

/// Parse `rN=val` (the register number taken modulo 256); `None` when
/// malformed.
pub fn parse_set(kv: &str) -> (r: Option<(u8, u64)>)
    ensures
        r == set_spec(kv@),
{
    let v = chars_of(kv);
    set_chars(&v)
}

fn eq_lit(a: &Vec<char>, s: &str) -> (r: bool)
    ensures
        r == (a@ == s@),
{
    crate::lex::chars_eq(a, s)
}

/// Collect the file and the options from the arguments after the subcommand.
pub fn collect_opts(args: &[String]) -> (r: Result<(String, Opts), CliError>)
    ensures
        match collect_spec(args@.map_values(|a: String| a@), 0, None, default_opts()) {
            Ok((f, o)) => r is Ok && r->Ok_0.0@ == f && r->Ok_0.1@ == o,
            Err(e) => r == Err::<(String, Opts), CliError>(e),
        },
{
    let ghost av = args@.map_values(|a: String| a@);
    let mut file: Option<String> = None;
    let mut o = Opts { regs: 16, mem: 0, sets: Vec::new(), trials: 100, seed: 0x1234_5678, steps: None, rounds: 100 };
    assert(o@ == default_opts());
    let mut i: usize = 0;
    while i < args.len()
        invariant
            i <= args@.len(),
            av == args@.map_values(|a: String| a@),
            collect_spec(av, 0, None, default_opts()) == collect_spec(
                av,
                i as nat,
                match file {
                    Some(f) => Some(f@),
                    None => None,
                },
                o@,
            ),
        decreases args@.len() - i,
    {
        let a = chars_of(args[i].as_str());
        assert(a@ == av[i as int]);
        proof {
            reveal_strlit("--regs");
            reveal_strlit("--mem");
            reveal_strlit("--trials");
            reveal_strlit("--seed");
            reveal_strlit("--steps");
            reveal_strlit("--rounds");
            reveal_strlit("--set");
            reveal_strlit("--set=");
        }
        let is_num = eq_lit(&a, "--regs") || eq_lit(&a, "--mem") || eq_lit(&a, "--trials") || eq_lit(&a, "--seed")
            || eq_lit(&a, "--steps") || eq_lit(&a, "--rounds");
        if is_num {
            if i + 1 >= args.len() {
                return Err(CliError::MissingValue);
            }
            let vch = chars_of(args[i + 1].as_str());
            assert(vch@ == av[i + 1]);
            let v = match dec_u64_exec(&vch) {
                Some(v) => v,
                None => {
                    return Err(CliError::Usage);
                },
            };
            if eq_lit(&a, "--regs") {
                o.regs = v as usize;
            } else if eq_lit(&a, "--mem") {
                o.mem = v as usize;
            } else if eq_lit(&a, "--trials") {
                o.trials = v;
            } else if eq_lit(&a, "--seed") {
                o.seed = v;
            } else if eq_lit(&a, "--steps") {
                o.steps = Some(v);
            } else {
                o.rounds = v;
            }
            i += 2;
        } else if eq_lit(&a, "--set") {
            if i + 1 >= args.len() {
                return Err(CliError::MissingValue);
            }
            let kv = chars_of(args[i + 1].as_str());
            assert(kv@ == av[i + 1]);
            let p = match set_chars(&kv) {
                Some(p) => p,
                None => {
                    return Err(CliError::Usage);
                },
            };
            o.sets.push(p);
            i += 2;
        } else if starts_with_lit(&a, "--set=") {
            let rest = skip_chars(&a, 6);
            let p = match set_chars(&rest) {
                Some(p) => p,
                None => {
                    return Err(CliError::Usage);
                },
            };
            o.sets.push(p);
            i += 1;
        } else if !(a.len() > 0 && a[0] == '-') && file.is_none() {
            file = Some(crate::text::string_of(&a));
            i += 1;
        } else {
            return Err(CliError::Usage);
        }
    }
    match file {
        Some(f) => Ok((f, o)),
        None => Err(CliError::Usage),
    }
}

// ---------------------------------------------------------------- initial state

/// The registers after the `--set` pairs from the first on, in order; the
/// first pair naming a register past `nregs` refuses the whole line.
pub open spec fn apply_sets(regs: Seq<u64>, sets: Seq<(u8, u64)>) -> Result<Seq<u64>, u8>
    decreases sets.len(),
{
    if sets.len() == 0 {
        Ok(regs)
    } else {
        match apply_sets(regs, sets.drop_last()) {
            Err(r) => Err(r),
            Ok(rs) => {
                let (r, v) = sets.last();
                if r as nat >= rs.len() {
                    Err(r)
                } else {
                    Ok(rs.update(r as int, v))
                }
            },
        }
    }
}

/// The starting state of a run: `--regs` zero registers and `--mem` zero
/// words, then the `--set` pairs; `Err(r)` names the first register out of range.
pub fn init_state(o: &Opts) -> (r: Result<State, u8>)
    ensures
        match apply_sets(Seq::new(o.regs as nat, |i: int| 0u64), o.sets@) {
            Ok(regs) => r is Ok && r->Ok_0@ == (StateV { regs, mem: Seq::new(o.mem as nat, |i: int| 0u64) }),
            Err(x) => r == Err::<State, u8>(x),
        },
{
    let mut s = State::new(o.regs, o.mem);
    let ghost z = s@.regs;
    let mut i: usize = 0;
    while i < o.sets.len()
        invariant
            i <= o.sets@.len(),
            s@.mem == Seq::new(o.mem as nat, |i: int| 0u64),
            z == Seq::new(o.regs as nat, |i: int| 0u64),
            apply_sets(z, o.sets@.take(i as int)) == Ok::<Seq<u64>, u8>(s@.regs),
            s@.regs.len() == o.regs,
        decreases o.sets@.len() - i,
    {
        proof {
            assert(o.sets@.take(i as int + 1).drop_last() =~= o.sets@.take(i as int));
        }
        let (r, v) = o.sets[i];
        if r as usize >= o.regs {
            proof {
                let t = o.sets@.take(i as int + 1);
                assert(t.last() == o.sets@[i as int]);
                assert(apply_sets(z, t) == Err::<Seq<u64>, u8>(r));
                lemma_apply_sets_err(z, o.sets@, i as int + 1);
            }
            return Err(r);
        }
        s.regs.set(r as usize, v);
        i += 1;
    }
    assert(o.sets@.take(i as int) =~= o.sets@);
    Ok(s)
}

proof fn lemma_apply_sets_err(regs: Seq<u64>, sets: Seq<(u8, u64)>, k: int)
    requires
        0 <= k <= sets.len(),
        apply_sets(regs, sets.take(k)) is Err,
    ensures
        apply_sets(regs, sets) == apply_sets(regs, sets.take(k)),
    decreases sets.len() - k,
{
    if k < sets.len() {
        assert(sets.take(k + 1).drop_last() =~= sets.take(k));
        lemma_apply_sets_err(regs, sets, k + 1);
    } else {
        assert(sets.take(k) =~= sets);
    }
}

// ---------------------------------------------------------------- cipher

/// Why the `cipher` arguments were refused.
#[derive(Debug, Clone, Copy, PartialEq, Eq, Structural)]
pub enum CipherArgError {
    /// Print the usage and exit with status 2.
    Usage,
    /// An option that takes a value came last.
    MissingValue,
    /// `--key` is not 64 bytes long.
    KeyLength,
    /// `--pt` is not 64 bytes long.
    PtLength,
    /// A 64-byte value whose 16-byte quarters are not all hexadecimal numbers.
    BadHex,
}

/// The parsed `cipher` arguments.
#[derive(Debug, Clone, Copy)]
pub struct CipherArgs {
    pub key: [u64; 4],
    pub pt: [u64; 4],
    pub rounds: u64,
}

/// `u64::from_str_radix(s, 16)`.
pub open spec fn hex_u64(s: Seq<char>) -> Option<u64> {
    match from_str_radix_spec(s, 16, u64::MAX as nat) {
        Ok(v) => Some(v as u64),
        Err(_) => None,
    }
}

/// A 256-bit value in 64 hex digits: four words, most significant first.
/// `Err(true)`: not 64 bytes long; `Err(false)`: 64 bytes that are not
/// four 16-digit hex numbers.
pub open spec fn hex4_spec(h: Seq<char>) -> Result<Seq<u64>, bool> {
    if utf8_seq(h).len() != 64 {
        Err(true)
    } else if h.len() != 64 {
        Err(false)
    } else {
        match (hex_u64(h.subrange(0, 16)), hex_u64(h.subrange(16, 32)), hex_u64(h.subrange(32, 48)), hex_u64(h.subrange(48, 64))) {
            (Some(a), Some(b), Some(c), Some(d)) => Ok(seq![a, b, c, d]),
            _ => Err(false),
        }
    }
}

/// The `cipher` arguments from `i` on, after the values gathered so far.
pub open spec fn cipher_spec(args: Seq<Seq<char>>, i: nat, key: Seq<u64>, pt: Seq<u64>, rounds: u64) -> Result<(Seq<u64>, Seq<u64>, u64), CipherArgError>
    decreases args.len() - i,
{
    if i >= args.len() {
        Ok((key, pt, rounds))
    } else {
        let a = args[i as int];
        if a == "--key"@ || a == "--pt"@ {
            if i + 1 >= args.len() {
                Err(CipherArgError::MissingValue)
            } else {
                match hex4_spec(args[i as int + 1]) {
                    Err(true) => Err(if a == "--key"@ { CipherArgError::KeyLength } else { CipherArgError::PtLength }),
                    Err(false) => Err(CipherArgError::BadHex),
                    Ok(w) => if a == "--key"@ {
                        cipher_spec(args, i + 2, w, pt, rounds)
                    } else {
                        cipher_spec(args, i + 2, key, w, rounds)
                    },
                }
            }
        } else if a == "--rounds"@ {
            if i + 1 >= args.len() {
                Err(CipherArgError::MissingValue)
            } else {
                match dec_u64(args[i as int + 1]) {
                    None => Err(CipherArgError::Usage),
                    Some(v) => cipher_spec(args, i + 2, key, pt, v),
                }
            }
        } else {
            Err(CipherArgError::Usage)
        }
    }
}

proof fn lemma_utf8_seq_grows(h: Seq<char>, i: int, j: int)
    requires
        0 <= i <= j <= h.len(),
    ensures
        utf8_seq(h.take(i)).len() <= utf8_seq(h.take(j)).len(),
    decreases j - i,
{
    if i < j {
        lemma_utf8_seq_grows(h, i, j - 1);
        assert(h.take(j).drop_last() =~= h.take(j - 1));
    }
}

/// Whether the UTF-8 encoding of `h` is exactly 64 bytes long.
fn utf8_len_is_64(h: &Vec<char>) -> (b: bool)
    ensures
        b == (utf8_seq(h@).len() == 64),
{
    let mut n: usize = 0;
    let mut i: usize = 0;
    while i < h.len()
        invariant
            i <= h@.len(),
            n == utf8_seq(h@.take(i as int)).len(),
            n <= 64,
        decreases h@.len() - i,
    {
        proof {
            assert(h@.take(i as int + 1).drop_last() =~= h@.take(i as int));
        }
        let b = utf8_bytes(h[i]);
        n = n + b.len();
        i += 1;
        if n > 64 {
            proof {
                lemma_utf8_seq_grows(h@, i as int, h@.len() as int);
                assert(h@.take(h@.len() as int) =~= h@);
            }
            return false;
        }
    }
    assert(h@.take(i as int) =~= h@);
    n == 64
}

fn hex_u64_exec(h: &Vec<char>, from: usize) -> (r: Option<u64>)
    requires
        from + 16 <= h@.len(),
    ensures
        r == hex_u64(h@.subrange(from as int, from + 16)),
{
    let mut q: Vec<char> = Vec::new();
    let _n = h.len();
    let end = from + 16;
    let mut i: usize = from;
    while i < end
        invariant
            from <= i <= end,
            end == from + 16,
            end <= h@.len(),
            q@ == h@.subrange(from as int, i as int),
        decreases end - i,
    {
        q.push(h[i]);
        i += 1;
        assert(q@ =~= h@.subrange(from as int, i as int));
    }
    match from_str_radix(&q, 16, u64::MAX) {
        Ok(v) => Some(v),
        Err(_) => None,
    }
}

fn hex4(h: &Vec<char>) -> (r: Result<[u64; 4], bool>)
    ensures
        match hex4_spec(h@) {
            Ok(w) => r is Ok && r->Ok_0@ == w,
            Err(e) => r == Err::<[u64; 4], bool>(e),
        },
{
    if !utf8_len_is_64(h) {
        return Err(true);
    }
    if h.len() != 64 {
        return Err(false);
    }
    let a = hex_u64_exec(h, 0);
    let b = hex_u64_exec(h, 16);
    let c = hex_u64_exec(h, 32);
    let d = hex_u64_exec(h, 48);
    match (a, b, c, d) {
        (Some(a), Some(b), Some(c), Some(d)) => {
            let w = [a, b, c, d];
            assert(w@ =~= seq![a, b, c, d]);
            Ok(w)
        },
        _ => Err(false),
    }
}

/// Parse the arguments of the `cipher` subcommand: `--key HEX64`,
/// `--pt HEX64`, `--rounds R` (defaults: zero key and text, 12 rounds).
pub fn parse_cipher_args(args: &[String]) -> (r: Result<CipherArgs, CipherArgError>)
    ensures
        match cipher_spec(args@.map_values(|a: String| a@), 0, seq![0u64, 0, 0, 0], seq![0u64, 0, 0, 0], 12) {
            Ok((k, p, n)) => r is Ok && r->Ok_0.key@ == k && r->Ok_0.pt@ == p && r->Ok_0.rounds == n,
            Err(e) => r == Err::<CipherArgs, CipherArgError>(e),
        },
{
    let ghost av = args@.map_values(|a: String| a@);
    let mut key: [u64; 4] = [0, 0, 0, 0];
    let mut pt: [u64; 4] = [0, 0, 0, 0];
    let mut rounds: u64 = 12;
    assert(key@ =~= seq![0u64, 0, 0, 0]);
    assert(pt@ =~= seq![0u64, 0, 0, 0]);
    let mut i: usize = 0;
    while i < args.len()
        invariant
            i <= args@.len(),
            av == args@.map_values(|a: String| a@),
            cipher_spec(av, 0, seq![0u64, 0, 0, 0], seq![0u64, 0, 0, 0], 12) == cipher_spec(av, i as nat, key@, pt@, rounds),
        decreases args@.len() - i,
    {
        let a = chars_of(args[i].as_str());
        assert(a@ == av[i as int]);
        let is_key = crate::lex::chars_eq(&a, "--key");
        let is_pt = crate::lex::chars_eq(&a, "--pt");
        if is_key || is_pt {
            if i + 1 >= args.len() {
                return Err(CipherArgError::MissingValue);
            }
            let h = chars_of(args[i + 1].as_str());
            assert(h@ == av[i + 1]);
            match hex4(&h) {
                Err(true) => {
                    return Err(if is_key { CipherArgError::KeyLength } else { CipherArgError::PtLength });
                },
                Err(false) => {
                    return Err(CipherArgError::BadHex);
                },
                Ok(w) => {
                    if is_key {
                        key = w;
                    } else {
                        pt = w;
                    }
                },
            }
            i += 2;
        } else if crate::lex::chars_eq(&a, "--rounds") {
            if i + 1 >= args.len() {
                return Err(CipherArgError::MissingValue);
            }
            let v = chars_of(args[i + 1].as_str());
            assert(v@ == av[i + 1]);
            match dec_u64_exec(&v) {
                Some(n) => {
                    rounds = n;
                },
                None => {
                    return Err(CipherArgError::Usage);
                },
            }
            i += 2;
        } else {
            return Err(CipherArgError::Usage);
        }
    }
    Ok(CipherArgs { key, pt, rounds })
}

/// Four words as 64 hex digits.
pub open spec fn hex256(w: Seq<u64>) -> Seq<char> {
    hex_spec(w[0] as nat, 16) + hex_spec(w[1] as nat, 16) + hex_spec(w[2] as nat, 16) + hex_spec(w[3] as nat, 16)
}

/// The lines the `cipher` subcommand prints.
pub open spec fn cipher_report_spec(key: Seq<u64>, pt: Seq<u64>, ct: Seq<u64>, back: Seq<u64>, rounds: u64) -> Seq<Seq<char>> {
    seq![
        "PC1 rounds="@ + dec_spec(rounds as nat),
        "key = "@ + hex256(key),
        "pt  = "@ + hex256(pt),
        "ct  = "@ + hex256(ct),
        "pt' = "@ + hex256(back) + "  (decrypt = обратный прогон ядра)"@,
        if back == pt {
            "OK: decrypt(ct) == pt, F⁻¹ без отдельного алгоритма расшифрования"@
        } else {
            "ПРОВАЛ: расшифрование не сошлось"@
        },
    ]
}

fn hex256_chars(w: &[u64; 4]) -> (v: Vec<char>)
    ensures
        v@ == hex256(w@),
{
    let mut v: Vec<char> = Vec::new();
    let mut i: usize = 0;
    while i < 4
        invariant
            i <= 4,
            v@ == (if i == 0 { Seq::<char>::empty() } else if i == 1 { hex_spec(w@[0] as nat, 16) } else if i == 2 {
                hex_spec(w@[0] as nat, 16) + hex_spec(w@[1] as nat, 16)
            } else if i == 3 {
                hex_spec(w@[0] as nat, 16) + hex_spec(w@[1] as nat, 16) + hex_spec(w@[2] as nat, 16)
            } else {
                hex256(w@)
            }),
        decreases 4 - i,
    {
        let h = hex_chars(w[i], 16);
        extend_chars(&mut v, &h);
        i += 1;
    }
    v
}

/// The report of one encryption and decryption.
pub fn cipher_report(key: &[u64; 4], pt: &[u64; 4], ct: &[u64; 4], back: &[u64; 4], rounds: u64) -> (r: Vec<String>)
    ensures
        r@.map_values(|x: String| x@) == cipher_report_spec(key@, pt@, ct@, back@, rounds),
{
    let mut l0: Vec<char> = Vec::new();
    push_str(&mut l0, "PC1 rounds=");
    push_dec(&mut l0, rounds);
    let mut l1: Vec<char> = Vec::new();
    push_str(&mut l1, "key = ");
    let h = hex256_chars(key);
    extend_chars(&mut l1, &h);
    let mut l2: Vec<char> = Vec::new();
    push_str(&mut l2, "pt  = ");
    let h = hex256_chars(pt);
    extend_chars(&mut l2, &h);
    let mut l3: Vec<char> = Vec::new();
    push_str(&mut l3, "ct  = ");
    let h = hex256_chars(ct);
    extend_chars(&mut l3, &h);
    let mut l4: Vec<char> = Vec::new();
    push_str(&mut l4, "pt' = ");
    let h = hex256_chars(back);
    extend_chars(&mut l4, &h);
    push_str(&mut l4, "  (decrypt = обратный прогон ядра)");
    let same = back[0] == pt[0] && back[1] == pt[1] && back[2] == pt[2] && back[3] == pt[3];
    proof {
        if back@ =~= pt@ {
            assert(same);
        }
        if same {
            assert(back@ =~= pt@);
        }
    }
    let l5 = if same {
        chars_of("OK: decrypt(ct) == pt, F⁻¹ без отдельного алгоритма расшифрования")
    } else {
        chars_of("ПРОВАЛ: расшифрование не сошлось")
    };
    let mut r: Vec<String> = Vec::new();
    r.push(string_of(&l0));
    r.push(string_of(&l1));
    r.push(string_of(&l2));
    r.push(string_of(&l3));
    r.push(string_of(&l4));
    r.push(string_of(&l5));
    assert(r@.map_values(|x: String| x@) =~= cipher_report_spec(key@, pt@, ct@, back@, rounds));
    r
}

} // verus!
