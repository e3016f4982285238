//! A phase capsule in an `.eml` envelope.
//!
//! The headers carry the invariants' metadata (state hash, boundary hash,
//! kernel hash, sizes); the body carries the state (registers, memory) and
//! the kernel source. A capsule is self-contained: the receiving machine can
//! check the state hash, roll back to the boundary and check its hash, and
//! recompute forward to confirm determinism, trusting nothing the sender says.
use vstd::prelude::*;
use crate::fnv::{fnv_bytes, fnv_chars, utf8_seq};
use crate::state::{fnv_words, State, StateV, FNV_OFFSET};
use crate::lex::{is_ws, join_nl, lemma_cut_at, lemma_join_no_blank, lemma_lines_join_nl, lemma_lines_join_strip, strip_cr, lemma_parse_dec, lemma_parse_hex16, lemma_trim_after_space, lemma_trim_plain, lemma_ws_fold_plain, no_char, no_ws, ws_fold, cut_at, from_str_radix, from_str_radix_spec, lines_spec, skip_chars, split_lines, split_words, trim, trim_chars, words};
use crate::patch::{lemma_find_sub_first, cut_at_exec, find_sub, find_sub_exec, lines_view, parse_usize, starts_with};
use crate::phase_server::{same, take_chars};
use crate::text::{is_digit_char, lemma_dec_digits, lemma_hex_digits, chars_of, dec_spec, extend_chars, hex_chars, hex_spec, push_dec, push_str, string_of};

verus! {

/// An imported capsule.
#[derive(Debug, Clone)]
pub struct Capsule {
    pub tag: String,
    pub state: State,
    pub kernel_src: String,
    pub state_hash: u64,
    pub boundary_hash: u64,
    pub kernel_hash: u64,
}

/// A VCF-style manifest: semantic registers, ports, role.
#[derive(Debug, Clone)]
pub struct Manifest {
    pub registers: Vec<&'static str>,
    pub ports: Vec<String>,
    pub role: String,
}

/// Mathematical value of a `Manifest`.
pub ghost struct ManifestV {
    pub registers: Seq<Seq<char>>,
    pub ports: Seq<Seq<char>>,
    pub role: Seq<char>,
}

impl View for Manifest {
    type V = ManifestV;

    open spec fn view(&self) -> ManifestV {
        ManifestV {
            registers: self.registers@.map_values(|s: &'static str| s@),
            ports: self.ports@.map_values(|s: String| s@),
            role: self.role@,
        }
    }
}

impl Default for Manifest {
    fn default() -> (m: Manifest)
        ensures
            m@.registers == Seq::<Seq<char>>::empty(),
            m@.ports == Seq::<Seq<char>>::empty(),
            m@.role == Seq::<char>::empty(),
    {
        let m = Manifest { registers: Vec::new(), ports: Vec::new(), role: String::new() };
        assert(m@.registers =~= Seq::<Seq<char>>::empty());
        assert(m@.ports =~= Seq::<Seq<char>>::empty());
        m
    }
}

/// The state hash a capsule records (`State::hash`).
pub open spec fn state_hash_spec(s: StateV) -> u64 {
    fnv_words(fnv_words(FNV_OFFSET, s.regs), s.mem)
}

/// FNV-1a of a text's UTF-8 bytes.
pub open spec fn text_hash(s: Seq<char>) -> u64 {
    fnv_bytes(FNV_OFFSET, utf8_seq(s))
}

pub open spec fn hex16(n: u64) -> Seq<char> {
    hex_spec(n as nat, 16)
}

/// Words as 16 hex digits each, joined by single spaces.
pub open spec fn hex_words_spec(v: Seq<u64>) -> Seq<char>
    decreases v.len(),
{
    if v.len() == 0 {
        seq![]
    } else if v.len() == 1 {
        hex16(v[0])
    } else {
        hex_words_spec(v.drop_last()) + " "@ + hex16(v.last())
    }
}

/// Pieces joined by a separator.
pub open spec fn join_with(ls: Seq<Seq<char>>, sep: Seq<char>) -> Seq<char>
    decreases ls.len(),
{
    if ls.len() == 0 {
        seq![]
    } else if ls.len() == 1 {
        ls[0]
    } else {
        join_with(ls.drop_last(), sep) + sep + ls.last()
    }
}

/// The VCF header lines of a manifest.
#[verifier::opaque]
pub open spec fn vcf_spec(m: ManifestV) -> Seq<char> {
    "X-Phase-Vcf: BEGIN:VCARD\nX-Phase-Vcf: VERSION:3.0\nX-Phase-Vcf: ROLE:"@ + m.role + "\n"@
        + (if m.registers.len() > 0 {
        "X-Phase-Vcf: REGISTERS:"@ + join_with(m.registers, ","@) + "\n"@
    } else {
        Seq::<char>::empty()
    }) + (if m.ports.len() > 0 {
        "X-Phase-Vcf: PORTS:"@ + join_with(m.ports, ";"@) + "\n"@
    } else {
        Seq::<char>::empty()
    }) + "X-Phase-Vcf: END:VCARD\n"@
}

/// The envelope headers before the manifest.
#[verifier::opaque]
pub open spec fn headers_spec(tag: Seq<char>, src: Seq<char>, s: StateV, bh: u64) -> Seq<char> {
    "From: phase-vm@localhost\n"@ + "To: "@ + tag + "\n"@ + "Subject: phase capsule ["@ + tag + "]\n"@
        + "Message-ID: <phase.capsule@localhost>\n"@ + "Date: Thu, 03 Sep 2026 00:00:00 +0000\n"@
        + "X-Phase-Tag: "@ + tag + "\n"@ + "X-Phase-Kernel-Hash: "@ + hex16(text_hash(src)) + "\n"@
        + "X-Phase-Boundary-Hash: "@ + hex16(bh) + "\n"@ + "X-Phase-State-Hash: "@ + hex16(state_hash_spec(s))
        + "\n"@ + "X-Phase-NRegs: "@ + dec_spec(s.regs.len()) + "\n"@ + "X-Phase-NMem: "@ + dec_spec(s.mem.len())
        + "\n"@
}

/// The body: the state section, then the program section.
#[verifier::opaque]
pub open spec fn body_spec(src: Seq<char>, s: StateV) -> Seq<char> {
    "Content-Type: text/plain; charset=utf-8\n"@ + "\n"@ + ";; phase-state\n"@ + "REGS: "@
        + hex_words_spec(s.regs) + "\n"@ + (if s.mem.len() > 0 {
        "MEM: "@ + hex_words_spec(s.mem) + "\n"@
    } else {
        Seq::<char>::empty()
    }) + ";; phase-program\n"@ + src
}

/// The `.eml` text of a capsule.
pub open spec fn export_spec(tag: Seq<char>, src: Seq<char>, s: StateV, bh: u64, mf: Option<ManifestV>) -> Seq<char> {
    headers_spec(tag, src, s, bh) + (match mf {
        Some(m) => vcf_spec(m),
        None => Seq::<char>::empty(),
    }) + body_spec(src, s)
}

fn push_hex_words(out: &mut Vec<char>, v: &Vec<u64>)
    ensures
        final(out)@ == old(out)@ + hex_words_spec(v@),
{
    proof {
        reveal_strlit(" ");
    }
    let ghost o0 = out@;
    let mut i: usize = 0;
    assert(v@.take(0) =~= Seq::<u64>::empty());
    assert(out@ =~= o0 + hex_words_spec(v@.take(0)));
    while i < v.len()
        invariant
            i <= v@.len(),
            out@ == o0 + hex_words_spec(v@.take(i as int)),
        decreases v@.len() - i,
    {
        proof {
            reveal_strlit(" ");
        }
        let ghost t = v@.take(i as int + 1);
        assert(t.drop_last() =~= v@.take(i as int));
        assert(t.last() == v@[i as int]);
        if i > 0 {
            out.push(' ');
        }
        let h = hex_chars(v[i], 16);
        extend_chars(out, &h);
        if i == 0 {
            assert(out@ =~= o0 + hex_words_spec(t));
        } else {
            assert(out@ =~= o0 + hex_words_spec(t));
        }
        i += 1;
    }
    assert(v@.take(i as int) =~= v@);
}

fn push_joined(out: &mut Vec<char>, ls: &Vec<String>, sep: char)
    ensures
        final(out)@ == old(out)@ + join_with(ls@.map_values(|s: String| s@), seq![sep]),
{
    let ghost o0 = out@;
    let ghost lv = ls@.map_values(|s: String| s@);
    let mut i: usize = 0;
    assert(out@ =~= o0 + join_with(lv.take(0), seq![sep]));
    while i < ls.len()
        invariant
            i <= ls@.len(),
            lv == ls@.map_values(|s: String| s@),
            out@ == o0 + join_with(lv.take(i as int), seq![sep]),
        decreases ls@.len() - i,
    {
        let ghost t = lv.take(i as int + 1);
        assert(t.drop_last() =~= lv.take(i as int));
        assert(t.last() == ls@[i as int]@);
        if i > 0 {
            out.push(sep);
        }
        let piece = chars_of(ls[i].as_str());
        extend_chars(out, &piece);
        assert(out@ =~= o0 + join_with(t, seq![sep]));
        i += 1;
    }
    assert(lv.take(i as int) =~= lv);
}

fn push_joined_strs(out: &mut Vec<char>, ls: &Vec<&'static str>, sep: char)
    ensures
        final(out)@ == old(out)@ + join_with(ls@.map_values(|s: &'static str| s@), seq![sep]),
{
    let ghost o0 = out@;
    let ghost lv = ls@.map_values(|s: &'static str| s@);
    let mut i: usize = 0;
    assert(out@ =~= o0 + join_with(lv.take(0), seq![sep]));
    while i < ls.len()
        invariant
            i <= ls@.len(),
            lv == ls@.map_values(|s: &'static str| s@),
            out@ == o0 + join_with(lv.take(i as int), seq![sep]),
        decreases ls@.len() - i,
    {
        let ghost t = lv.take(i as int + 1);
        assert(t.drop_last() =~= lv.take(i as int));
        assert(t.last() == ls@[i as int]@);
        if i > 0 {
            out.push(sep);
        }
        let piece = chars_of(ls[i]);
        extend_chars(out, &piece);
        assert(out@ =~= o0 + join_with(t, seq![sep]));
        i += 1;
    }
    assert(lv.take(i as int) =~= lv);
}

fn push_hex16(out: &mut Vec<char>, n: u64)
    ensures
        final(out)@ == old(out)@ + hex16(n),
{
    let h = hex_chars(n, 16);
    extend_chars(out, &h);
}

/// Export a capsule as `.eml` text.
pub fn export(tag: &str, kernel_src: &str, state: &State, boundary_hash: u64) -> (s: String)
    ensures
        s@ == export_spec(tag@, kernel_src@, state@, boundary_hash, None),
{
    export_with(tag, kernel_src, state, boundary_hash, None)
}

fn push_headers(out: &mut Vec<char>, t: &Vec<char>, kernel_hash: u64, boundary_hash: u64, state_hash: u64, nregs: usize, nmem: usize)
    ensures
        final(out)@ == old(out)@ + "From: phase-vm@localhost\n"@ + "To: "@ + t@ + "\n"@ + "Subject: phase capsule ["@ + t@ + "]\n"@
            + "Message-ID: <phase.capsule@localhost>\n"@ + "Date: Thu, 03 Sep 2026 00:00:00 +0000\n"@
            + "X-Phase-Tag: "@ + t@ + "\n"@ + "X-Phase-Kernel-Hash: "@ + hex16(kernel_hash) + "\n"@
            + "X-Phase-Boundary-Hash: "@ + hex16(boundary_hash) + "\n"@ + "X-Phase-State-Hash: "@ + hex16(state_hash)
            + "\n"@ + "X-Phase-NRegs: "@ + dec_spec(nregs as nat) + "\n"@ + "X-Phase-NMem: "@ + dec_spec(nmem as nat)
            + "\n"@,
{
    push_str(out, "From: phase-vm@localhost\n");
    push_str(out, "To: ");
    extend_chars(out, t);
    push_str(out, "\n");
    push_str(out, "Subject: phase capsule [");
    extend_chars(out, t);
    push_str(out, "]\n");
    push_str(out, "Message-ID: <phase.capsule@localhost>\n");
    push_str(out, "Date: Thu, 03 Sep 2026 00:00:00 +0000\n");
    push_str(out, "X-Phase-Tag: ");
    extend_chars(out, t);
    push_str(out, "\n");
    push_str(out, "X-Phase-Kernel-Hash: ");
    push_hex16(out, kernel_hash);
    push_str(out, "\n");
    push_str(out, "X-Phase-Boundary-Hash: ");
    push_hex16(out, boundary_hash);
    push_str(out, "\n");
    push_str(out, "X-Phase-State-Hash: ");
    push_hex16(out, state_hash);
    push_str(out, "\n");
    push_str(out, "X-Phase-NRegs: ");
    push_dec(out, nregs as u64);
    push_str(out, "\n");
    push_str(out, "X-Phase-NMem: ");
    push_dec(out, nmem as u64);
    push_str(out, "\n");
}

fn push_vcf(out: &mut Vec<char>, m: &Manifest)
    ensures
        final(out)@ == old(out)@ + vcf_spec(m@),
{
    reveal(vcf_spec);
    let ghost v0 = out@;
    push_str(out, "X-Phase-Vcf: BEGIN:VCARD\nX-Phase-Vcf: VERSION:3.0\nX-Phase-Vcf: ROLE:");
    let role = chars_of(m.role.as_str());
    extend_chars(out, &role);
    push_str(out, "\n");
    let ghost v1 = out@;
    if m.registers.len() > 0 {
        push_str(out, "X-Phase-Vcf: REGISTERS:");
        push_joined_strs(out, &m.registers, ',');
        push_str(out, "\n");
    }
    let ghost v2 = out@;
    if m.ports.len() > 0 {
        push_str(out, "X-Phase-Vcf: PORTS:");
        push_joined(out, &m.ports, ';');
        push_str(out, "\n");
    }
    push_str(out, "X-Phase-Vcf: END:VCARD\n");
    proof {
        reveal_strlit(",");
        reveal_strlit(";");
        assert(","@ =~= seq![',']);
        assert(";"@ =~= seq![';']);
        assert(out@ =~= v0 + vcf_spec(m@));
    }
}

fn push_body(out: &mut Vec<char>, src: &Vec<char>, state: &State)
    ensures
        final(out)@ == old(out)@ + body_spec(src@, state@),
{
    reveal(body_spec);
    let ghost v0 = out@;
    push_str(out, "Content-Type: text/plain; charset=utf-8\n");
    push_str(out, "\n");
    push_str(out, ";; phase-state\n");
    push_str(out, "REGS: ");
    push_hex_words(out, &state.regs);
    push_str(out, "\n");
    let ghost v1 = out@;
    if state.mem.len() > 0 {
        push_str(out, "MEM: ");
        push_hex_words(out, &state.mem);
        push_str(out, "\n");
    }
    let ghost v2 = out@;
    push_str(out, ";; phase-program\n");
    extend_chars(out, src);
    assert(out@ =~= v0 + body_spec(src@, state@));
}

/// Export with a VCF manifest: the capsule carries registers, ports and role.
pub fn export_with(tag: &str, kernel_src: &str, state: &State, boundary_hash: u64, mf: Option<&Manifest>) -> (s: String)
    ensures
        s@ == export_spec(
            tag@,
            kernel_src@,
            state@,
            boundary_hash,
            match mf {
                Some(m) => Some(m@),
                None => None,
            },
        ),
{
    let state_hash = state.hash();
    let src = chars_of(kernel_src);
    let kernel_hash = fnv_chars(FNV_OFFSET, &src);
    let t = chars_of(tag);
    let mut out: Vec<char> = Vec::new();
    push_headers(&mut out, &t, kernel_hash, boundary_hash, state_hash, state.regs.len(), state.mem.len());
    proof {
        reveal(headers_spec);
    }
    assert(out@ =~= headers_spec(tag@, kernel_src@, state@, boundary_hash));
    let ghost head = out@;
    match mf {
        Some(m) => push_vcf(&mut out, m),
        None => {},
    }
    let ghost mid = out@;
    push_body(&mut out, &src, state);
    proof {
        let mv = match mf {
            Some(m) => Some(m@),
            None => None::<ManifestV>,
        };
        assert(mid =~= head + match mv {
            Some(m) => vcf_spec(m),
            None => Seq::<char>::empty(),
        });
        assert(out@ =~= export_spec(tag@, kernel_src@, state@, boundary_hash, mv));
    }
    string_of(&out)
}

// ---------------------------------------------------------------- import

/// Mathematical value of a `Capsule`.
pub ghost struct CapsuleV {
    pub tag: Seq<char>,
    pub state: StateV,
    pub kernel_src: Seq<char>,
    pub state_hash: u64,
    pub boundary_hash: u64,
    pub kernel_hash: u64,
}

pub open spec fn capsule_view(c: Capsule) -> CapsuleV {
    CapsuleV {
        tag: c.tag@,
        state: c.state@,
        kernel_src: c.kernel_src@,
        state_hash: c.state_hash,
        boundary_hash: c.boundary_hash,
        kernel_hash: c.kernel_hash,
    }
}

/// The value of header `key`: the last header line whose trimmed name is
/// `key`, its trimmed text after the first `':'`.
pub open spec fn hdr_get(ls: Seq<Seq<char>>, key: Seq<char>) -> Option<Seq<char>>
    decreases ls.len(),
{
    if ls.len() == 0 {
        None
    } else {
        let l = ls.last();
        let c = cut_at(l, ':');
        if c < l.len() && trim(l.take(c as int)) == key {
            Some(trim(l.skip(c as int + 1)))
        } else {
            hdr_get(ls.drop_last(), key)
        }
    }
}

/// `u64::from_str_radix(s, 16)`.
pub open spec fn hex_value(s: Seq<char>) -> Option<u64> {
    match from_str_radix_spec(s, 16, u64::MAX as nat) {
        Ok(v) => Some(v as u64),
        Err(_) => None,
    }
}

/// Hex words; `None` if one of them is not a hex number.
pub open spec fn hex_words_of(ws: Seq<Seq<char>>) -> Option<Seq<u64>>
    decreases ws.len(),
{
    if ws.len() == 0 {
        Some(seq![])
    } else {
        match (hex_words_of(ws.drop_last()), hex_value(ws.last())) {
            (Some(a), Some(b)) => Some(a.push(b)),
            _ => None,
        }
    }
}

/// The registers and memory a state section gives: a `REGS:`/`MEM:` line of
/// the right length replaces the zeros; `None` if such a line holds a token
/// that is not a hex number.
pub open spec fn scan_state(ls: Seq<Seq<char>>, nregs: nat, nmem: nat) -> Option<(Seq<u64>, Seq<u64>)>
    decreases ls.len(),
{
    if ls.len() == 0 {
        Some((Seq::new(nregs, |i: int| 0u64), Seq::new(nmem, |i: int| 0u64)))
    } else {
        match scan_state(ls.drop_last(), nregs, nmem) {
            None => None,
            Some((r, m)) => {
                let l = ls.last();
                if starts_with(l, "REGS: "@) {
                    match hex_words_of(words(l.skip(6))) {
                        None => None,
                        Some(w) => Some((if w.len() == nregs { w } else { r }, m)),
                    }
                } else if starts_with(l, "MEM: "@) {
                    match hex_words_of(words(l.skip(5))) {
                        None => None,
                        Some(w) => Some((r, if w.len() == nmem { w } else { m })),
                    }
                } else {
                    Some((r, m))
                }
            },
        }
    }
}

pub open spec fn missing_msg(key: Seq<char>) -> Seq<char> {
    "нет заголовка "@ + key
}

/// The body part of an import, once the headers are read.
pub open spec fn import_body(body: Seq<char>, tag: Seq<char>, sh: u64, bh: u64, kh: u64, nregs: nat, nmem: nat) -> Result<CapsuleV, Option<Seq<char>>> {
    match find_sub(body, ";; phase-program\n"@, 0) {
        None => Err(Some("нет секции program"@)),
        Some(q) => {
            let prog = body.skip(q as int + 17);
            match scan_state(lines_spec(body.take(q as int)), nregs, nmem) {
                None => Err(None),
                Some((regs, mem)) => if text_hash(prog) != kh {
                    Err(Some("kernel-hash не совпал"@))
                } else if state_hash_spec(StateV { regs, mem }) != sh {
                    Err(Some("state-hash не совпал: капсула повреждена"@))
                } else {
                    Ok(CapsuleV { tag, state: StateV { regs, mem }, kernel_src: prog, state_hash: sh, boundary_hash: bh, kernel_hash: kh })
                },
            }
        },
    }
}

/// The outcome of importing a text: the capsule, or the error; `Err(None)`
/// for a text whose hash or size fields or state words are not numbers.
pub open spec fn import_spec(text: Seq<char>) -> Result<CapsuleV, Option<Seq<char>>> {
    match find_sub(text, "\n\n"@, 0) {
        None => Err(Some("нет разделителя заголовков"@)),
        Some(p) => {
            let hl = lines_spec(text.take(p as int));
            let body = text.skip(p as int + 2);
            match hdr_get(hl, "X-Phase-Tag"@) {
                None => Err(Some(missing_msg("X-Phase-Tag"@))),
                Some(tag) => match hdr_get(hl, "X-Phase-State-Hash"@) {
                    None => Err(Some(missing_msg("X-Phase-State-Hash"@))),
                    Some(shs) => match hex_value(shs) {
                        None => Err(None),
                        Some(sh) => match hdr_get(hl, "X-Phase-Boundary-Hash"@) {
                            None => Err(Some(missing_msg("X-Phase-Boundary-Hash"@))),
                            Some(bhs) => match hex_value(bhs) {
                                None => Err(None),
                                Some(bh) => match hdr_get(hl, "X-Phase-Kernel-Hash"@) {
                                    None => Err(Some(missing_msg("X-Phase-Kernel-Hash"@))),
                                    Some(khs) => match hex_value(khs) {
                                        None => Err(None),
                                        Some(kh) => match hdr_get(hl, "X-Phase-NRegs"@) {
                                            None => Err(Some(missing_msg("X-Phase-NRegs"@))),
                                            Some(nrs) => match parse_usize(nrs) {
                                                None => Err(None),
                                                Some(nregs) => match hdr_get(hl, "X-Phase-NMem"@) {
                                                    None => Err(Some(missing_msg("X-Phase-NMem"@))),
                                                    Some(nms) => match parse_usize(nms) {
                                                        None => Err(None),
                                                        Some(nmem) => import_body(body, tag, sh, bh, kh, nregs, nmem),
                                                    },
                                                },
                                            },
                                        },
                                    },
                                },
                            },
                        },
                    },
                },
            }
        },
    }
}

fn hdr_get_exec(ls: &Vec<Vec<char>>, key: &str) -> (r: Option<Vec<char>>)
    ensures
        match hdr_get(lines_view(ls@), key@) {
            Some(v) => r is Some && r->0@ == v,
            None => r is None,
        },
{
    let ghost lv = lines_view(ls@);
    let kv = chars_of(key);
    let mut i: usize = ls.len();
    assert(lv.take(lv.len() as int) =~= lv);
    while i > 0
        invariant
            i <= ls@.len(),
            lv == lines_view(ls@),
            kv@ == key@,
            hdr_get(lv, key@) == hdr_get(lv.take(i as int), key@),
        decreases i,
    {
        let l = &ls[i - 1];
        let ghost t = lv.take(i as int);
        assert(t.last() == l@);
        assert(t.drop_last() =~= lv.take(i as int - 1));
        let c = cut_at_exec(l, ':');
        if c < l.len() {
            let name = take_chars(l, c);
            let tn = trim_chars(&name);
            if same(&tn, &kv) {
                let rest = skip_chars(l, c + 1);
                return Some(trim_chars(&rest));
            }
        }
        i -= 1;
    }
    None
}

fn missing(key: &str) -> (m: String)
    ensures
        m@ == missing_msg(key@),
{
    let mut v = chars_of("нет заголовка ");
    push_str(&mut v, key);
    string_of(&v)
}

fn hex_value_exec(s: &Vec<char>) -> (r: Option<u64>)
    ensures
        r == hex_value(s@),
{
    match from_str_radix(s, 16, u64::MAX) {
        Ok(v) => Some(v),
        Err(_) => None,
    }
}

fn usize_value_exec(s: &Vec<char>) -> (r: Option<usize>)
    ensures
        match parse_usize(s@) {
            Some(v) => r == Some(v as usize),
            None => r is None,
        },
{
    match from_str_radix(s, 10, usize::MAX as u64) {
        Ok(v) => Some(v as usize),
        Err(_) => None,
    }
}

fn hex_words_exec(s: &Vec<char>) -> (r: Option<Vec<u64>>)
    ensures
        match hex_words_of(words(s@)) {
            Some(w) => r is Some && r->0@ == w,
            None => r is None,
        },
{
    let ws = split_words(s, s.len());
    assert(s@.take(s@.len() as int) =~= s@);
    let ghost wv = words(s@);
    let mut out: Vec<u64> = Vec::new();
    let mut i: usize = 0;
    assert(wv.take(0) =~= Seq::<Seq<char>>::empty());
    while i < ws.len()
        invariant
            i <= ws@.len(),
            wv == words(s@),
            ws@.len() == wv.len(),
            forall|k: int| 0 <= k < ws@.len() ==> #[trigger] ws@[k]@ == wv[k],
            hex_words_of(wv.take(i as int)) == Some(out@),
        decreases ws@.len() - i,
    {
        let ghost t = wv.take(i as int + 1);
        assert(t.drop_last() =~= wv.take(i as int));
        assert(t.last() == ws@[i as int]@);
        match hex_value_exec(&ws[i]) {
            Some(v) => {
                out.push(v);
            },
            None => {
                proof {
                    assert(hex_words_of(t) is None);
                    lemma_hex_words_none(wv, (i + 1) as nat);
                }
                return None;
            },
        }
        i += 1;
    }
    assert(wv.take(i as int) =~= wv);
    Some(out)
}

proof fn lemma_hex_words_none(ws: Seq<Seq<char>>, k: nat)
    requires
        k <= ws.len(),
        hex_words_of(ws.take(k as int)) is None,
    ensures
        hex_words_of(ws) is None,
    decreases ws.len() - k,
{
    if k < ws.len() {
        let t = ws.take(k as int + 1);
        assert(t.drop_last() =~= ws.take(k as int));
        lemma_hex_words_none(ws, k + 1);
    } else {
        assert(ws.take(k as int) =~= ws);
    }
}

proof fn lemma_scan_none(ls: Seq<Seq<char>>, k: nat, nregs: nat, nmem: nat)
    requires
        k <= ls.len(),
        scan_state(ls.take(k as int), nregs, nmem) is None,
    ensures
        scan_state(ls, nregs, nmem) is None,
    decreases ls.len() - k,
{
    if k < ls.len() {
        let t = ls.take(k as int + 1);
        assert(t.drop_last() =~= ls.take(k as int));
        lemma_scan_none(ls, k + 1, nregs, nmem);
    } else {
        assert(ls.take(k as int) =~= ls);
    }
}

fn scan_state_exec(ls: &Vec<Vec<char>>, nregs: usize, nmem: usize) -> (r: Option<(Vec<u64>, Vec<u64>)>)
    ensures
        match scan_state(lines_view(ls@), nregs as nat, nmem as nat) {
            Some((a, b)) => r matches Some((x, y)) && x@ == a && y@ == b,
            None => r is None,
        },
{
    let ghost lv = lines_view(ls@);
    let mut regs: Vec<u64> = vec![0u64; nregs];
    let mut mem: Vec<u64> = vec![0u64; nmem];
    assert(regs@ =~= Seq::new(nregs as nat, |i: int| 0u64));
    assert(mem@ =~= Seq::new(nmem as nat, |i: int| 0u64));
    let mut i: usize = 0;
    assert(lv.take(0) =~= Seq::<Seq<char>>::empty());
    while i < ls.len()
        invariant
            i <= ls@.len(),
            lv == lines_view(ls@),
            scan_state(lv.take(i as int), nregs as nat, nmem as nat) == Some((regs@, mem@)),
        decreases ls@.len() - i,
    {
        let l = &ls[i];
        let ghost t = lv.take(i as int + 1);
        assert(t.drop_last() =~= lv.take(i as int));
        assert(t.last() == l@);
        proof {
            reveal_strlit("REGS: ");
            reveal_strlit("MEM: ");
        }
        if l.len() >= 6 && l[0] == 'R' && l[1] == 'E' && l[2] == 'G' && l[3] == 'S' && l[4] == ':' && l[5] == ' ' {
            assert(l@.take(6) =~= "REGS: "@);
            let rest = skip_chars(l, 6);
            match hex_words_exec(&rest) {
                Some(w) => {
                    if w.len() == nregs {
                        regs = w;
                    }
                },
                None => {
                    proof {
                        lemma_scan_none(lv, (i + 1) as nat, nregs as nat, nmem as nat);
                    }
                    return None;
                },
            }
        } else if l.len() >= 5 && l[0] == 'M' && l[1] == 'E' && l[2] == 'M' && l[3] == ':' && l[4] == ' ' {
            assert(l@.take(5) =~= "MEM: "@);
            assert(!starts_with(l@, "REGS: "@)) by {
                if starts_with(l@, "REGS: "@) {
                    assert(l@.take(6)[0] == 'R');
                }
            }
            let rest = skip_chars(l, 5);
            match hex_words_exec(&rest) {
                Some(w) => {
                    if w.len() == nmem {
                        mem = w;
                    }
                },
                None => {
                    proof {
                        lemma_scan_none(lv, (i + 1) as nat, nregs as nat, nmem as nat);
                    }
                    return None;
                },
            }
        } else {
            assert(!starts_with(l@, "REGS: "@)) by {
                if starts_with(l@, "REGS: "@) {
                    assert(l@.take(6) == "REGS: "@);
                    assert forall|k: int| 0 <= k < 6 implies l@[k] == "REGS: "@[k] by {
                        assert(l@[k] == l@.take(6)[k]);
                    }
                }
            }
            assert(!starts_with(l@, "MEM: "@)) by {
                if starts_with(l@, "MEM: "@) {
                    assert(l@.take(5) == "MEM: "@);
                    assert forall|k: int| 0 <= k < 5 implies l@[k] == "MEM: "@[k] by {
                        assert(l@[k] == l@.take(5)[k]);
                    }
                }
            }
        }
        i += 1;
    }
    assert(lv.take(i as int) =~= lv);
    Some((regs, mem))
}

/// Whether an import outcome is the one `import_spec` describes.
pub open spec fn import_matches(r: Result<Capsule, Option<String>>, o: Result<CapsuleV, Option<Seq<char>>>) -> bool {
    match o {
        Ok(c) => r is Ok && capsule_view(r->Ok_0) == c,
        Err(Some(e)) => r matches Err(Some(m)) && m@ == e,
        Err(None) => r matches Err(None),
    }
}

fn import_body_exec(body: &Vec<char>, tag: Vec<char>, sh: u64, bh: u64, kh: u64, nregs: usize, nmem: usize) -> (r: Result<Capsule, Option<String>>)
    ensures
        import_matches(r, import_body(body@, tag@, sh, bh, kh, nregs as nat, nmem as nat)),
{
    let marker = chars_of(";; phase-program\n");
    proof {
        reveal_strlit(";; phase-program\n");
    }
    let q = match find_sub_exec(body, &marker) {
        Some(q) => q,
        None => {
            return Err(Some(str_msg("нет секции program")));
        },
    };
    let bl = body.len();
    let state_sec = take_chars(body, q);
    let prog = skip_chars(body, q + marker.len());
    let sl = split_lines(&state_sec);
    assert(lines_view(sl@) =~= lines_spec(state_sec@));
    let (regs, mem) = match scan_state_exec(&sl, nregs, nmem) {
        Some(x) => x,
        None => {
            return Err(None);
        },
    };
    if fnv_chars(FNV_OFFSET, &prog) != kh {
        return Err(Some(str_msg("kernel-hash не совпал")));
    }
    let state = State { regs, mem };
    if state.hash() != sh {
        return Err(Some(str_msg("state-hash не совпал: капсула повреждена")));
    }
    Ok(Capsule {
        tag: string_of(&tag),
        state,
        kernel_src: string_of(&prog),
        state_hash: sh,
        boundary_hash: bh,
        kernel_hash: kh,
    })
}

fn str_msg(t: &str) -> (m: String)
    ensures
        m@ == t@,
{
    let v = chars_of(t);
    string_of(&v)
}

fn import_inner(text: &str) -> (r: Result<Capsule, Option<String>>)
    ensures
        import_matches(r, import_spec(text@)),
{
    let tv = chars_of(text);
    let tl = tv.len();
    let sep = chars_of("\n\n");
    proof {
        reveal_strlit("\n\n");
    }
    let p = match find_sub_exec(&tv, &sep) {
        Some(p) => p,
        None => {
            return Err(Some(str_msg("нет разделителя заголовков")));
        },
    };
    let head = take_chars(&tv, p);
    let body = skip_chars(&tv, p + sep.len());
    let hl = split_lines(&head);
    assert(lines_view(hl@) =~= lines_spec(head@));
    let tag = match hdr_get_exec(&hl, "X-Phase-Tag") {
        Some(v) => v,
        None => {
            return Err(Some(missing("X-Phase-Tag")));
        },
    };
    let sh = match hdr_get_exec(&hl, "X-Phase-State-Hash") {
        Some(v) => match hex_value_exec(&v) {
            Some(x) => x,
            None => {
                return Err(None);
            },
        },
        None => {
            return Err(Some(missing("X-Phase-State-Hash")));
        },
    };
    let bh = match hdr_get_exec(&hl, "X-Phase-Boundary-Hash") {
        Some(v) => match hex_value_exec(&v) {
            Some(x) => x,
            None => {
                return Err(None);
            },
        },
        None => {
            return Err(Some(missing("X-Phase-Boundary-Hash")));
        },
    };
    let kh = match hdr_get_exec(&hl, "X-Phase-Kernel-Hash") {
        Some(v) => match hex_value_exec(&v) {
            Some(x) => x,
            None => {
                return Err(None);
            },
        },
        None => {
            return Err(Some(missing("X-Phase-Kernel-Hash")));
        },
    };
    let nregs = match hdr_get_exec(&hl, "X-Phase-NRegs") {
        Some(v) => match usize_value_exec(&v) {
            Some(x) => x,
            None => {
                return Err(None);
            },
        },
        None => {
            return Err(Some(missing("X-Phase-NRegs")));
        },
    };
    let nmem = match hdr_get_exec(&hl, "X-Phase-NMem") {
        Some(v) => match usize_value_exec(&v) {
            Some(x) => x,
            None => {
                return Err(None);
            },
        },
        None => {
            return Err(Some(missing("X-Phase-NMem")));
        },
    };
    import_body_exec(&body, tag, sh, bh, kh, nregs, nmem)
}

/// Whether `import` accepts the text without failing on a malformed number
/// (a hash or size field, or a state word, that is not a number).
pub fn importable(text: &str) -> (b: bool)
    ensures
        b == !(import_spec(text@) matches Err(None)),
{
    match import_inner(text) {
        Err(None) => false,
        _ => true,
    }
}

/// Import a capsule from `.eml` text, checking the kernel hash and the state
/// hash against the headers.
pub fn import(text: &str) -> (r: Result<Capsule, String>)
    requires
        !(import_spec(text@) matches Err(None)),
    ensures
        match import_spec(text@) {
            Ok(c) => r is Ok && capsule_view(r->Ok_0) == c,
            Err(e) => r is Err && e == Some(r->Err_0@),
        },
{
    match import_inner(text) {
        Ok(c) => Ok(c),
        Err(Some(m)) => Err(m),
        Err(None) => Err(String::new()),
    }
}

// ---------------------------------------------------------------- round trip

proof fn lemma_hex16_plain(x: u64)
    ensures
        hex16(x).len() == 16,
        no_ws(hex16(x)),
        forall|i: int| 0 <= i < hex16(x).len() ==> is_digit_char(#[trigger] hex16(x)[i]),
{
    lemma_hex_digits(x as nat, 16);
    let h = hex16(x);
    assert forall|i: int| 0 <= i < h.len() implies !is_ws(#[trigger] h[i]) by {
        assert(is_digit_char(h[i]));
    }
}

/// The characters of hex words are hex digits and spaces.
proof fn lemma_hex_words_chars(v: Seq<u64>)
    ensures
        forall|i: int| 0 <= i < hex_words_spec(v).len() ==> is_digit_char(#[trigger] hex_words_spec(v)[i]) || hex_words_spec(v)[i] == ' ',
    decreases v.len(),
{
    reveal_strlit(" ");
    if v.len() > 0 {
        lemma_hex16_plain(v.last());
        if v.len() == 1 {
            lemma_hex16_plain(v[0]);
        } else {
            lemma_hex_words_chars(v.drop_last());
            let a = hex_words_spec(v.drop_last());
            let t = hex_words_spec(v);
            assert(t == a + " "@ + hex16(v.last()));
            assert forall|i: int| 0 <= i < t.len() implies is_digit_char(#[trigger] t[i]) || t[i] == ' ' by {
                if i < a.len() {
                    assert(t[i] == a[i]);
                } else if i > a.len() {
                    assert(t[i] == hex16(v.last())[i - a.len() - 1]);
                }
            }
        }
    }
}

proof fn lemma_ws_fold_hex(v: Seq<u64>)
    requires
        v.len() > 0,
    ensures
        ws_fold(hex_words_spec(v)) == (v.drop_last().map_values(|x: u64| hex16(x)), hex16(v.last())),
    decreases v.len(),
{
    reveal_strlit(" ");
    lemma_hex16_plain(v.last());
    if v.len() == 1 {
        lemma_ws_fold_plain(seq![], hex16(v[0]));
        assert(Seq::<char>::empty() + hex16(v[0]) =~= hex16(v[0]));
        assert(v.drop_last().map_values(|x: u64| hex16(x)) =~= Seq::<Seq<char>>::empty());
    } else {
        let d = v.drop_last();
        lemma_ws_fold_hex(d);
        lemma_hex16_plain(d.last());
        let a = hex_words_spec(d);
        let sp = a + " "@;
        assert(sp.drop_last() =~= a);
        assert(sp.last() == ' ');
        assert(hex_words_spec(v) == sp + hex16(v.last()));
        lemma_ws_fold_plain(sp, hex16(v.last()));
        assert(Seq::<char>::empty() + hex16(v.last()) =~= hex16(v.last()));
        assert(d.drop_last().map_values(|x: u64| hex16(x)).push(hex16(d.last())) =~= d.map_values(|x: u64| hex16(x)));
    }
}

/// The words of hex words are the 16-digit renderings, one per word.
proof fn lemma_words_hex(v: Seq<u64>)
    ensures
        words(hex_words_spec(v)) == v.map_values(|x: u64| hex16(x)),
{
    if v.len() == 0 {
        assert(v.map_values(|x: u64| hex16(x)) =~= Seq::<Seq<char>>::empty());
    } else {
        lemma_ws_fold_hex(v);
        lemma_hex16_plain(v.last());
        assert(v.drop_last().map_values(|x: u64| hex16(x)).push(hex16(v.last())) =~= v.map_values(|x: u64| hex16(x)));
    }
}

/// 16-digit renderings parse back to the words.
proof fn lemma_hex_words_back(v: Seq<u64>)
    ensures
        hex_words_of(v.map_values(|x: u64| hex16(x))) == Some(v),
    decreases v.len(),
{
    let ws = v.map_values(|x: u64| hex16(x));
    if v.len() > 0 {
        lemma_hex_words_back(v.drop_last());
        assert(ws.drop_last() =~= v.drop_last().map_values(|x: u64| hex16(x)));
        lemma_parse_hex16(v.last());
        assert(v.drop_last().push(v.last()) =~= v);
    } else {
        assert(ws =~= Seq::<Seq<char>>::empty());
        assert(v =~= Seq::<u64>::empty());
    }
}

/// The name of a header line: its trimmed text before the first `':'`.
pub open spec fn line_name(l: Seq<char>) -> Option<Seq<char>> {
    let c = cut_at(l, ':');
    if c < l.len() {
        Some(trim(l.take(c as int)))
    } else {
        None
    }
}

proof fn lemma_hdr_get_last(ls: Seq<Seq<char>>, key: Seq<char>, k: int)
    requires
        0 <= k < ls.len(),
        line_name(ls[k]) == Some(key),
        forall|j: int| k < j < ls.len() ==> line_name(#[trigger] ls[j]) != Some(key),
    ensures
        hdr_get(ls, key) == Some(trim(ls[k].skip(cut_at(ls[k], ':') as int + 1))),
    decreases ls.len(),
{
    if k < ls.len() - 1 {
        let d = ls.drop_last();
        assert(line_name(ls.last()) != Some(key)) by {
            assert(ls.last() == ls[ls.len() - 1]);
        }
        assert forall|j: int| k < j < d.len() implies line_name(#[trigger] d[j]) != Some(key) by {
            assert(d[j] == ls[j]);
        }
        assert(d[k] == ls[k]);
        lemma_hdr_get_last(d, key, k);
    }
}

/// `name: val`.
pub open spec fn hline(name: Seq<char>, val: Seq<char>) -> Seq<char> {
    name + ": "@ + val
}

/// No whitespace at either end.
pub open spec fn unpadded(v: Seq<char>) -> bool {
    v.len() == 0 || (!is_ws(v[0]) && !is_ws(v.last()))
}

proof fn lemma_hline(name: Seq<char>, val: Seq<char>)
    requires
        no_char(name, ':'),
        name.len() > 0,
        unpadded(name),
        unpadded(val),
        no_char(name, '\n'),
        no_char(val, '\n'),
    ensures
        line_name(hline(name, val)) == Some(name),
        cut_at(hline(name, val), ':') == name.len(),
        trim(hline(name, val).skip(name.len() as int + 1)) == val,
        no_char(hline(name, val), '\n'),
        hline(name, val).len() > 0,
        !(hline(name, val).last() == '\r'),
{
    reveal_strlit(": ");
    let l = hline(name, val);
    assert forall|j: int| 0 <= j < name.len() implies l[j] != ':' by {
        assert(l[j] == name[j]);
    }
    lemma_cut_at(l, ':', name.len() as int);
    assert(l.take(name.len() as int) =~= name);
    lemma_trim_plain(name);
    assert(l.skip(name.len() as int + 1) =~= seq![' '] + val);
    lemma_trim_after_space(val);
    lemma_trim_plain(val);
    assert forall|j: int| 0 <= j < l.len() implies l[j] != '\n' by {
        if j < name.len() {
            assert(l[j] == name[j]);
        } else if j >= name.len() + 2 {
            assert(l[j] == val[j - name.len() - 2]);
        }
    }
    if val.len() > 0 {
        assert(l.last() == val.last());
        assert(is_ws('\r'));
    }
}

/// The envelope header lines of an exported capsule, before the manifest.
pub open spec fn base_lines(tag: Seq<char>, src: Seq<char>, s: StateV, bh: u64) -> Seq<Seq<char>> {
    seq![
        hline("From"@, "phase-vm@localhost"@),
        hline("To"@, tag),
        hline("Subject"@, "phase capsule ["@ + tag + "]"@),
        hline("Message-ID"@, "<phase.capsule@localhost>"@),
        hline("Date"@, "Thu, 03 Sep 2026 00:00:00 +0000"@),
        hline("X-Phase-Tag"@, tag),
        hline("X-Phase-Kernel-Hash"@, hex16(text_hash(src))),
        hline("X-Phase-Boundary-Hash"@, hex16(bh)),
        hline("X-Phase-State-Hash"@, hex16(state_hash_spec(s))),
        hline("X-Phase-NRegs"@, dec_spec(s.regs.len())),
        hline("X-Phase-NMem"@, dec_spec(s.mem.len())),
    ]
}

/// The content-type line that ends the headers.
pub open spec fn ct_line() -> Seq<char> {
    hline("Content-Type"@, "text/plain; charset=utf-8"@)
}

/// The manifest's header lines.
pub open spec fn vcf_lines(m: ManifestV) -> Seq<Seq<char>> {
    seq![hline("X-Phase-Vcf"@, "BEGIN:VCARD"@), hline("X-Phase-Vcf"@, "VERSION:3.0"@), hline("X-Phase-Vcf"@, "ROLE:"@ + m.role)]
        + (if m.registers.len() > 0 {
        seq![hline("X-Phase-Vcf"@, "REGISTERS:"@ + join_with(m.registers, ","@))]
    } else {
        Seq::<Seq<char>>::empty()
    }) + (if m.ports.len() > 0 {
        seq![hline("X-Phase-Vcf"@, "PORTS:"@ + join_with(m.ports, ";"@))]
    } else {
        Seq::<Seq<char>>::empty()
    }) + seq![hline("X-Phase-Vcf"@, "END:VCARD"@)]
}

/// The manifest's header lines, if there is a manifest.
pub open spec fn manifest_lines(mf: Option<ManifestV>) -> Seq<Seq<char>> {
    match mf {
        Some(m) => vcf_lines(m),
        None => seq![],
    }
}

/// The header lines of an exported capsule: the envelope, the manifest's
/// lines `v`, the content type last.
pub open spec fn header_lines(tag: Seq<char>, src: Seq<char>, s: StateV, bh: u64, v: Seq<Seq<char>>) -> Seq<Seq<char>> {
    base_lines(tag, src, s, bh) + v + seq![ct_line()]
}

/// The lines of an exported capsule's state section.
pub open spec fn state_lines(s: StateV) -> Seq<Seq<char>> {
    if s.mem.len() > 0 {
        seq![";; phase-state"@, "REGS: "@ + hex_words_spec(s.regs), "MEM: "@ + hex_words_spec(s.mem)]
    } else {
        seq![";; phase-state"@, "REGS: "@ + hex_words_spec(s.regs)]
    }
}

proof fn lemma_join_step(ls: Seq<Seq<char>>, k: int)
    requires
        1 <= k < ls.len(),
    ensures
        join_nl(ls.take(k + 1)) == join_nl(ls.take(k)) + seq!['\n'] + ls[k],
{
    assert(ls.take(k + 1).drop_last() =~= ls.take(k));
}

proof fn lemma_line_step(q: Seq<char>, a: Seq<char>, name: Seq<char>, v: Seq<char>)
    requires
        a == name + ": "@,
    ensures
        q + a + v + "\n"@ == q + hline(name, v) + seq!['\n'],
{
    reveal_strlit("\n");
    assert(q + a + v + "\n"@ =~= q + hline(name, v) + seq!['\n']);
}

/// The header text is the header lines (all but the content type), each
/// followed by a newline.
#[verifier::spinoff_prover]
#[verifier::rlimit(40)]
proof fn lemma_headers_shape(tag: Seq<char>, src: Seq<char>, s: StateV, bh: u64)
    ensures
        headers_spec(tag, src, s, bh) == join_nl(base_lines(tag, src, s, bh)) + seq!['\n'],
{
    reveal(headers_spec);
    let hl = base_lines(tag, src, s, bh);
    let kh = text_hash(src);
    let sh = state_hash_spec(s);
    let q1 = "From: phase-vm@localhost\n"@;
    let q2 = q1 + "To: "@ + tag + "\n"@;
    let q3 = q2 + "Subject: phase capsule ["@ + tag + "]\n"@;
    let q4 = q3 + "Message-ID: <phase.capsule@localhost>\n"@;
    let q5 = q4 + "Date: Thu, 03 Sep 2026 00:00:00 +0000\n"@;
    let q6 = q5 + "X-Phase-Tag: "@ + tag + "\n"@;
    let q7 = q6 + "X-Phase-Kernel-Hash: "@ + hex16(kh) + "\n"@;
    let q8 = q7 + "X-Phase-Boundary-Hash: "@ + hex16(bh) + "\n"@;
    let q9 = q8 + "X-Phase-State-Hash: "@ + hex16(sh) + "\n"@;
    let q10 = q9 + "X-Phase-NRegs: "@ + dec_spec(s.regs.len()) + "\n"@;
    let q11 = q10 + "X-Phase-NMem: "@ + dec_spec(s.mem.len()) + "\n"@;
    assert(headers_spec(tag, src, s, bh) == q11);
    assert(q1 == join_nl(hl.take(1)) + seq!['\n']) by {
        reveal_strlit("From: phase-vm@localhost\n");
        reveal_strlit("From");
        reveal_strlit(": ");
        reveal_strlit("phase-vm@localhost");
        assert(hl.take(1).len() == 1);
        assert(hl.take(1)[0] == hl[0]);
        assert(q1 =~= hl[0] + seq!['\n']);
    }
    assert(q2 == join_nl(hl.take(2)) + seq!['\n']) by {
        assert("To: "@ == "To"@ + ": "@) by {
            reveal_strlit("To: ");
            reveal_strlit("To");
            reveal_strlit(": ");
            assert("To: "@ =~= "To"@ + ": "@);
        }
        lemma_line_step(q1, "To: "@, "To"@, tag);
        lemma_join_step(hl, 1);
        assert(join_nl(hl.take(1)) + seq!['\n'] + hl[1] + seq!['\n'] =~= join_nl(hl.take(2)) + seq!['\n']);
    }
    assert(q3 == join_nl(hl.take(3)) + seq!['\n']) by {
        reveal_strlit("Subject: phase capsule [");
        reveal_strlit("Subject");
        reveal_strlit(": ");
        reveal_strlit("phase capsule [");
        reveal_strlit("]\n");
        reveal_strlit("]");
        lemma_join_step(hl, 2);
        assert(q3 =~= join_nl(hl.take(3)) + seq!['\n']);
    }
    assert(q4 == join_nl(hl.take(4)) + seq!['\n']) by {
        reveal_strlit("Message-ID: <phase.capsule@localhost>\n");
        reveal_strlit("Message-ID");
        reveal_strlit(": ");
        reveal_strlit("<phase.capsule@localhost>");
        lemma_join_step(hl, 3);
        assert(q4 =~= join_nl(hl.take(4)) + seq!['\n']);
    }
    assert(q5 == join_nl(hl.take(5)) + seq!['\n']) by {
        reveal_strlit("Date: Thu, 03 Sep 2026 00:00:00 +0000\n");
        reveal_strlit("Date");
        reveal_strlit(": ");
        reveal_strlit("Thu, 03 Sep 2026 00:00:00 +0000");
        lemma_join_step(hl, 4);
        assert(q5 =~= join_nl(hl.take(5)) + seq!['\n']);
    }
    assert(q6 == join_nl(hl.take(6)) + seq!['\n']) by {
        assert("X-Phase-Tag: "@ == "X-Phase-Tag"@ + ": "@) by {
            reveal_strlit("X-Phase-Tag: ");
            reveal_strlit("X-Phase-Tag");
            reveal_strlit(": ");
            assert("X-Phase-Tag: "@ =~= "X-Phase-Tag"@ + ": "@);
        }
        lemma_line_step(q5, "X-Phase-Tag: "@, "X-Phase-Tag"@, tag);
        lemma_join_step(hl, 5);
        assert(join_nl(hl.take(5)) + seq!['\n'] + hl[5] + seq!['\n'] =~= join_nl(hl.take(6)) + seq!['\n']);
    }
    assert(q7 == join_nl(hl.take(7)) + seq!['\n']) by {
        assert("X-Phase-Kernel-Hash: "@ == "X-Phase-Kernel-Hash"@ + ": "@) by {
            reveal_strlit("X-Phase-Kernel-Hash: ");
            reveal_strlit("X-Phase-Kernel-Hash");
            reveal_strlit(": ");
            assert("X-Phase-Kernel-Hash: "@ =~= "X-Phase-Kernel-Hash"@ + ": "@);
        }
        lemma_line_step(q6, "X-Phase-Kernel-Hash: "@, "X-Phase-Kernel-Hash"@, hex16(kh));
        lemma_join_step(hl, 6);
        assert(join_nl(hl.take(6)) + seq!['\n'] + hl[6] + seq!['\n'] =~= join_nl(hl.take(7)) + seq!['\n']);
    }
    assert(q8 == join_nl(hl.take(8)) + seq!['\n']) by {
        assert("X-Phase-Boundary-Hash: "@ == "X-Phase-Boundary-Hash"@ + ": "@) by {
            reveal_strlit("X-Phase-Boundary-Hash: ");
            reveal_strlit("X-Phase-Boundary-Hash");
            reveal_strlit(": ");
            assert("X-Phase-Boundary-Hash: "@ =~= "X-Phase-Boundary-Hash"@ + ": "@);
        }
        lemma_line_step(q7, "X-Phase-Boundary-Hash: "@, "X-Phase-Boundary-Hash"@, hex16(bh));
        lemma_join_step(hl, 7);
        assert(join_nl(hl.take(7)) + seq!['\n'] + hl[7] + seq!['\n'] =~= join_nl(hl.take(8)) + seq!['\n']);
    }
    assert(q9 == join_nl(hl.take(9)) + seq!['\n']) by {
        assert("X-Phase-State-Hash: "@ == "X-Phase-State-Hash"@ + ": "@) by {
            reveal_strlit("X-Phase-State-Hash: ");
            reveal_strlit("X-Phase-State-Hash");
            reveal_strlit(": ");
            assert("X-Phase-State-Hash: "@ =~= "X-Phase-State-Hash"@ + ": "@);
        }
        lemma_line_step(q8, "X-Phase-State-Hash: "@, "X-Phase-State-Hash"@, hex16(sh));
        lemma_join_step(hl, 8);
        assert(join_nl(hl.take(8)) + seq!['\n'] + hl[8] + seq!['\n'] =~= join_nl(hl.take(9)) + seq!['\n']);
    }
    assert(q10 == join_nl(hl.take(10)) + seq!['\n']) by {
        assert("X-Phase-NRegs: "@ == "X-Phase-NRegs"@ + ": "@) by {
            reveal_strlit("X-Phase-NRegs: ");
            reveal_strlit("X-Phase-NRegs");
            reveal_strlit(": ");
            assert("X-Phase-NRegs: "@ =~= "X-Phase-NRegs"@ + ": "@);
        }
        lemma_line_step(q9, "X-Phase-NRegs: "@, "X-Phase-NRegs"@, dec_spec(s.regs.len()));
        lemma_join_step(hl, 9);
        assert(join_nl(hl.take(9)) + seq!['\n'] + hl[9] + seq!['\n'] =~= join_nl(hl.take(10)) + seq!['\n']);
    }
    assert(q11 == join_nl(hl.take(11)) + seq!['\n']) by {
        assert("X-Phase-NMem: "@ == "X-Phase-NMem"@ + ": "@) by {
            reveal_strlit("X-Phase-NMem: ");
            reveal_strlit("X-Phase-NMem");
            reveal_strlit(": ");
            assert("X-Phase-NMem: "@ =~= "X-Phase-NMem"@ + ": "@);
        }
        lemma_line_step(q10, "X-Phase-NMem: "@, "X-Phase-NMem"@, dec_spec(s.mem.len()));
        lemma_join_step(hl, 10);
        assert(join_nl(hl.take(10)) + seq!['\n'] + hl[10] + seq!['\n'] =~= join_nl(hl.take(11)) + seq!['\n']);
    }
    assert(hl.take(11) =~= hl);
}

/// The body text: the content-type line, a blank line, the state section's
/// lines each followed by a newline, the program marker and the source.
proof fn lemma_body_shape(src: Seq<char>, s: StateV)
    ensures
        body_spec(src, s) == hline("Content-Type"@, "text/plain; charset=utf-8"@) + seq!['\n', '\n'] + join_nl(state_lines(s))
            + seq!['\n'] + ";; phase-program\n"@ + src,
{
    reveal(body_spec);
    reveal_strlit("Content-Type: text/plain; charset=utf-8\n");
    reveal_strlit("Content-Type");
    reveal_strlit(": ");
    reveal_strlit("text/plain; charset=utf-8");
    reveal_strlit("\n");
    reveal_strlit(";; phase-state\n");
    reveal_strlit(";; phase-state");
    let sl = state_lines(s);
    reveal_with_fuel(join_nl, 4);
    if s.mem.len() > 0 {
        assert(sl.take(2).drop_last() =~= sl.take(1));
        assert(sl.drop_last() =~= sl.take(2));
        assert(join_nl(sl) == join_nl(sl.take(2)) + seq!['\n'] + sl[2]);
        assert(body_spec(src, s) =~= hline("Content-Type"@, "text/plain; charset=utf-8"@) + seq!['\n', '\n'] + join_nl(sl)
            + seq!['\n'] + ";; phase-program\n"@ + src);
    } else {
        assert(sl.drop_last() =~= sl.take(1));
        assert(body_spec(src, s) =~= hline("Content-Type"@, "text/plain; charset=utf-8"@) + seq!['\n', '\n'] + join_nl(sl)
            + seq!['\n'] + ";; phase-program\n"@ + src);
    }
}

proof fn lemma_join_concat(a: Seq<Seq<char>>, b: Seq<Seq<char>>)
    requires
        a.len() > 0,
        b.len() > 0,
    ensures
        join_nl(a + b) == join_nl(a) + seq!['\n'] + join_nl(b),
    decreases b.len(),
{
    if b.len() == 1 {
        assert((a + b).drop_last() =~= a);
        assert((a + b).last() == b[0]);
    } else {
        lemma_join_concat(a, b.drop_last());
        assert((a + b).drop_last() =~= a + b.drop_last());
        assert((a + b).last() == b.last());
        assert(join_nl(a) + seq!['\n'] + join_nl(b.drop_last()) + seq!['\n'] + b.last() =~= join_nl(a) + seq!['\n'] + join_nl(b));
    }
}

/// The manifest's header text is its lines, each followed by a newline.
proof fn lemma_vcf_shape(m: ManifestV)
    ensures
        vcf_spec(m) == join_nl(vcf_lines(m)) + seq!['\n'],
{
    reveal(vcf_spec);
    reveal_strlit("X-Phase-Vcf: BEGIN:VCARD\nX-Phase-Vcf: VERSION:3.0\nX-Phase-Vcf: ROLE:");
    reveal_strlit("X-Phase-Vcf");
    reveal_strlit(": ");
    reveal_strlit("BEGIN:VCARD");
    reveal_strlit("VERSION:3.0");
    reveal_strlit("ROLE:");
    reveal_strlit("\n");
    reveal_strlit("X-Phase-Vcf: REGISTERS:");
    reveal_strlit("REGISTERS:");
    reveal_strlit("X-Phase-Vcf: PORTS:");
    reveal_strlit("PORTS:");
    reveal_strlit("X-Phase-Vcf: END:VCARD\n");
    reveal_strlit("END:VCARD");
    let first = seq![hline("X-Phase-Vcf"@, "BEGIN:VCARD"@), hline("X-Phase-Vcf"@, "VERSION:3.0"@), hline("X-Phase-Vcf"@, "ROLE:"@ + m.role)];
    let rl = if m.registers.len() > 0 {
        seq![hline("X-Phase-Vcf"@, "REGISTERS:"@ + join_with(m.registers, ","@))]
    } else {
        Seq::<Seq<char>>::empty()
    };
    let pl = if m.ports.len() > 0 {
        seq![hline("X-Phase-Vcf"@, "PORTS:"@ + join_with(m.ports, ";"@))]
    } else {
        Seq::<Seq<char>>::empty()
    };
    let el = seq![hline("X-Phase-Vcf"@, "END:VCARD"@)];
    let rpart = if m.registers.len() > 0 {
        "X-Phase-Vcf: REGISTERS:"@ + join_with(m.registers, ","@) + "\n"@
    } else {
        Seq::<char>::empty()
    };
    let ppart = if m.ports.len() > 0 {
        "X-Phase-Vcf: PORTS:"@ + join_with(m.ports, ";"@) + "\n"@
    } else {
        Seq::<char>::empty()
    };
    let t1 = join_nl(first) + seq!['\n'];
    assert(t1 =~= "X-Phase-Vcf: BEGIN:VCARD\nX-Phase-Vcf: VERSION:3.0\nX-Phase-Vcf: ROLE:"@ + m.role + "\n"@) by {
        assert(first.take(2).drop_last() =~= first.take(1));
        assert(first.drop_last() =~= first.take(2));
        assert(join_nl(first.take(1)) == first[0]);
        assert(join_nl(first.take(2)) == first[0] + seq!['\n'] + first[1]);
        assert(join_nl(first) == join_nl(first.take(2)) + seq!['\n'] + first[2]);
    }
    let x = first + rl;
    assert(join_nl(x) + seq!['\n'] =~= t1 + rpart) by {
        if m.registers.len() > 0 {
            lemma_join_concat(first, rl);
            assert(join_nl(rl) == rl[0]);
        } else {
            assert(x =~= first);
        }
    }
    let y = x + pl;
    assert(join_nl(y) + seq!['\n'] =~= t1 + rpart + ppart) by {
        if m.ports.len() > 0 {
            lemma_join_concat(x, pl);
            assert(join_nl(pl) == pl[0]);
        } else {
            assert(y =~= x);
        }
    }
    let z = y + el;
    lemma_join_concat(y, el);
    assert(join_nl(el) == el[0]);
    assert(z =~= vcf_lines(m));
    assert(vcf_spec(m) =~= join_nl(z) + seq!['\n']);
}

proof fn lemma_export_parts(tag: Seq<char>, src: Seq<char>, s: StateV, bh: u64, mf: Option<ManifestV>)
    ensures
        export_spec(tag, src, s, bh, mf) == join_nl(base_lines(tag, src, s, bh)) + seq!['\n'] + (match mf {
            Some(m) => join_nl(vcf_lines(m)) + seq!['\n'],
            None => Seq::<char>::empty(),
        }) + ct_line() + seq!['\n', '\n'] + join_nl(state_lines(s)) + seq!['\n'] + ";; phase-program\n"@ + src,
{
    let h = headers_spec(tag, src, s, bh);
    let b = body_spec(src, s);
    let vpart = match mf {
        Some(m) => vcf_spec(m),
        None => Seq::<char>::empty(),
    };
    assert(export_spec(tag, src, s, bh, mf) == h + vpart + b);
    lemma_headers_shape(tag, src, s, bh);
    lemma_body_shape(src, s);
    if let Some(m) = mf {
        lemma_vcf_shape(m);
    }
    let rest = join_nl(state_lines(s)) + seq!['\n'] + ";; phase-program\n"@ + src;
    assert(b == ct_line() + seq!['\n', '\n'] + rest);
    assert(h + vpart + b =~= join_nl(base_lines(tag, src, s, bh)) + seq!['\n'] + vpart + ct_line() + seq!['\n', '\n'] + rest);
}

proof fn lemma_export_shape(tag: Seq<char>, src: Seq<char>, s: StateV, bh: u64, mf: Option<ManifestV>)
    ensures
        export_spec(tag, src, s, bh, mf) == join_nl(header_lines(tag, src, s, bh, manifest_lines(mf))) + seq!['\n', '\n']
            + join_nl(state_lines(s)) + seq!['\n'] + ";; phase-program\n"@ + src,
{
    let base = base_lines(tag, src, s, bh);
    let v = manifest_lines(mf);
    let hl = header_lines(tag, src, s, bh, v);
    let rest = join_nl(state_lines(s)) + seq!['\n'] + ";; phase-program\n"@ + src;
    lemma_export_parts(tag, src, s, bh, mf);
    assert(join_nl(seq![ct_line()]) == ct_line());
    match mf {
        Some(m) => {
            lemma_join_concat(base, v);
            lemma_join_concat(base + v, seq![ct_line()]);
            assert(hl =~= (base + v) + seq![ct_line()]);
            assert(join_nl(base) + seq!['\n'] + (join_nl(v) + seq!['\n']) + ct_line() + seq!['\n', '\n'] + rest
                =~= join_nl(hl) + seq!['\n', '\n'] + rest);
        },
        None => {
            lemma_join_concat(base, seq![ct_line()]);
            assert(hl =~= base + seq![ct_line()]);
            assert(join_nl(base) + seq!['\n'] + Seq::<char>::empty() + ct_line() + seq!['\n', '\n'] + rest
                =~= join_nl(hl) + seq!['\n', '\n'] + rest);
        },
    }
}

proof fn lemma_dec_plain(n: nat)
    ensures
        no_char(dec_spec(n), '\n'),
        unpadded(dec_spec(n)),
        dec_spec(n).len() > 0,
{
    lemma_dec_digits(n);
    let d = dec_spec(n);
    assert(d[0] != '\n' && !is_ws(d[0]));
    assert(d.last() == d[d.len() - 1]);
}

proof fn lemma_hex_plain(x: u64)
    ensures
        no_char(hex16(x), '\n'),
        unpadded(hex16(x)),
{
    lemma_hex16_plain(x);
    let h = hex16(x);
    assert(!is_ws(h[0]));
    assert(!is_ws(h[15]));
    assert forall|i: int| 0 <= i < h.len() implies h[i] != '\n' by {
        assert(is_digit_char(h[i]));
    }
}

/// A header line `name: w`, whatever `w` holds before its end, is named `name`.
proof fn lemma_line_name(name: Seq<char>, w: Seq<char>)
    requires
        no_char(name, ':'),
        name.len() > 0,
        unpadded(name),
    ensures
        line_name(hline(name, w)) == Some(name),
        no_char(name, '\n') && no_char(w, '\n') ==> no_char(hline(name, w), '\n'),
        hline(name, w).len() > 0,
        (w.len() == 0 || w.last() != '\r') ==> hline(name, w).last() != '\r',
{
    reveal_strlit(": ");
    let l = hline(name, w);
    assert forall|j: int| 0 <= j < name.len() implies l[j] != ':' by {
        assert(l[j] == name[j]);
    }
    lemma_cut_at(l, ':', name.len() as int);
    assert(l.take(name.len() as int) =~= name);
    lemma_trim_plain(name);
    if no_char(name, '\n') && no_char(w, '\n') {
        assert forall|j: int| 0 <= j < l.len() implies l[j] != '\n' by {
            if j < name.len() {
                assert(l[j] == name[j]);
            } else if j >= name.len() + 2 {
                assert(l[j] == w[j - name.len() - 2]);
            }
        }
    }
    if w.len() > 0 {
        assert(l.last() == w.last());
    }
}

/// Each header line of an exported capsule is one nonempty line.
proof fn lemma_header_lines_ok(tag: Seq<char>, src: Seq<char>, s: StateV, bh: u64, v: Seq<Seq<char>>)
    requires
        no_char(tag, '\n'),
        unpadded(tag),
        forall|i: int| 0 <= i < v.len() ==> line_name(#[trigger] v[i]) == Some("X-Phase-Vcf"@) && no_char(v[i], '\n')
            && v[i].len() > 0,
    ensures
        forall|i: int| 0 <= i < header_lines(tag, src, s, bh, v).len() ==> no_char(#[trigger] header_lines(tag, src, s, bh, v)[i], '\n')
            && header_lines(tag, src, s, bh, v)[i].len() > 0,
{
    lemma_header_facts(tag, src, s, bh, v);
}

/// What the header lines of an exported capsule give: each is one line,
/// and each header the import reads finds its value. `v` are the manifest's
/// lines, all named `X-Phase-Vcf`.
#[verifier::spinoff_prover]
#[verifier::rlimit(60)]
proof fn lemma_header_facts(tag: Seq<char>, src: Seq<char>, s: StateV, bh: u64, v: Seq<Seq<char>>)
    requires
        no_char(tag, '\n'),
        unpadded(tag),
        forall|i: int| 0 <= i < v.len() ==> line_name(#[trigger] v[i]) == Some("X-Phase-Vcf"@) && no_char(v[i], '\n')
            && v[i].len() > 0,
    ensures
        ({
            let hl = header_lines(tag, src, s, bh, v);
            &&& forall|i: int| 0 <= i < hl.len() ==> no_char(#[trigger] hl[i], '\n') && hl[i].len() > 0
            &&& forall|i: int| 0 <= i < hl.len() && !(11 <= i < 11 + v.len()) ==> !(#[trigger] hl[i].last() == '\r')
            &&& hdr_get(hl, "X-Phase-Tag"@) == Some(tag)
            &&& hdr_get(hl, "X-Phase-Kernel-Hash"@) == Some(hex16(text_hash(src)))
            &&& hdr_get(hl, "X-Phase-Boundary-Hash"@) == Some(hex16(bh))
            &&& hdr_get(hl, "X-Phase-State-Hash"@) == Some(hex16(state_hash_spec(s)))
            &&& hdr_get(hl, "X-Phase-NRegs"@) == Some(dec_spec(s.regs.len()))
            &&& hdr_get(hl, "X-Phase-NMem"@) == Some(dec_spec(s.mem.len()))
        }),
{
    let base = base_lines(tag, src, s, bh);
    let hl = header_lines(tag, src, s, bh, v);
    reveal_strlit("From");
    reveal_strlit("To");
    reveal_strlit("Subject");
    reveal_strlit("Message-ID");
    reveal_strlit("Date");
    reveal_strlit("X-Phase-Tag");
    reveal_strlit("X-Phase-Kernel-Hash");
    reveal_strlit("X-Phase-Boundary-Hash");
    reveal_strlit("X-Phase-State-Hash");
    reveal_strlit("X-Phase-NRegs");
    reveal_strlit("X-Phase-NMem");
    reveal_strlit("X-Phase-Vcf");
    reveal_strlit("Content-Type");
    reveal_strlit("phase-vm@localhost");
    reveal_strlit("phase capsule [");
    reveal_strlit("]");
    reveal_strlit("<phase.capsule@localhost>");
    reveal_strlit("Thu, 03 Sep 2026 00:00:00 +0000");
    reveal_strlit("text/plain; charset=utf-8");
    let subj = "phase capsule ["@ + tag + "]"@;
    assert(no_char(subj, '\n')) by {
        assert forall|i: int| 0 <= i < subj.len() implies subj[i] != '\n' by {
            if i >= 15 && i < 15 + tag.len() {
                assert(subj[i] == tag[i - 15]);
            }
        }
    }
    assert(unpadded(subj)) by {
        assert(subj[0] == 'p');
        assert(subj.last() == ']');
    }
    lemma_hex_plain(text_hash(src));
    lemma_hex_plain(bh);
    lemma_hex_plain(state_hash_spec(s));
    lemma_dec_plain(s.regs.len());
    lemma_dec_plain(s.mem.len());
    lemma_hline("From"@, "phase-vm@localhost"@);
    lemma_hline("To"@, tag);
    lemma_hline("Subject"@, subj);
    lemma_hline("Message-ID"@, "<phase.capsule@localhost>"@);
    lemma_hline("Date"@, "Thu, 03 Sep 2026 00:00:00 +0000"@);
    lemma_hline("X-Phase-Tag"@, tag);
    lemma_hline("X-Phase-Kernel-Hash"@, hex16(text_hash(src)));
    lemma_hline("X-Phase-Boundary-Hash"@, hex16(bh));
    lemma_hline("X-Phase-State-Hash"@, hex16(state_hash_spec(s)));
    lemma_hline("X-Phase-NRegs"@, dec_spec(s.regs.len()));
    lemma_hline("X-Phase-NMem"@, dec_spec(s.mem.len()));
    lemma_hline("Content-Type"@, "text/plain; charset=utf-8"@);
    let n = v.len() as int;
    assert(hl.len() == 12 + n);
    assert forall|i: int| 0 <= i < 11 implies #[trigger] hl[i] == base[i] by {}
    assert forall|i: int| 11 <= i < 11 + n implies #[trigger] hl[i] == v[i - 11] by {}
    assert(hl[11 + n] == ct_line());
    assert forall|i: int| 0 <= i < hl.len() implies no_char(#[trigger] hl[i], '\n') && hl[i].len() > 0 by {
        if i >= 11 && i < 11 + n {
            assert(hl[i] == v[i - 11]);
        }
    }
    assert forall|i: int| 0 <= i < hl.len() && !(11 <= i < 11 + n) implies !(#[trigger] hl[i].last() == '\r') by {}
    assert("X-Phase-NMem"@ != "Content-Type"@) by {
        assert("X-Phase-NMem"@[0] != "Content-Type"@[0]);
    }
    assert("X-Phase-Tag"@ != "X-Phase-Vcf"@) by {
        assert("X-Phase-Tag"@[8] != "X-Phase-Vcf"@[8]);
    }
    assert forall|k: int, j: int| 5 <= k <= 10 && k < j < hl.len() implies line_name(#[trigger] hl[j]) != line_name(#[trigger] hl[k]) by {
        if j >= 11 && j < 11 + n {
            assert(hl[j] == v[j - 11]);
        }
    }
    lemma_hdr_get_last(hl, "X-Phase-Tag"@, 5);
    lemma_hdr_get_last(hl, "X-Phase-Kernel-Hash"@, 6);
    lemma_hdr_get_last(hl, "X-Phase-Boundary-Hash"@, 7);
    lemma_hdr_get_last(hl, "X-Phase-State-Hash"@, 8);
    lemma_hdr_get_last(hl, "X-Phase-NRegs"@, 9);
    lemma_hdr_get_last(hl, "X-Phase-NMem"@, 10);
}

/// Pieces without `c`, joined by a separator without `c`, have no `c`.
proof fn lemma_join_with_no_char(ls: Seq<Seq<char>>, sep: Seq<char>, c: char)
    requires
        forall|i: int| 0 <= i < ls.len() ==> no_char(#[trigger] ls[i], c),
        no_char(sep, c),
    ensures
        no_char(join_with(ls, sep), c),
    decreases ls.len(),
{
    if ls.len() > 1 {
        let d = ls.drop_last();
        assert forall|i: int| 0 <= i < d.len() implies no_char(#[trigger] d[i], c) by {
            assert(d[i] == ls[i]);
        }
        lemma_join_with_no_char(d, sep, c);
        let a = join_with(d, sep);
        let l = ls.last();
        assert(no_char(l, c));
        let t = join_with(ls, sep);
        assert(t == a + sep + l);
        assert forall|j: int| 0 <= j < t.len() implies t[j] != c by {
            if j < a.len() {
                assert(t[j] == a[j]);
            } else if j < a.len() + sep.len() {
                assert(t[j] == sep[j - a.len()]);
            } else {
                assert(t[j] == l[j - a.len() - sep.len()]);
            }
        }
    } else if ls.len() == 1 {
        assert(no_char(ls[0], c));
    }
}

/// Manifest text that fits on header lines: no newline in the role, the
/// registers or the ports.
pub open spec fn manifest_fits(m: ManifestV) -> bool {
    &&& no_char(m.role, '\n')
    &&& forall|i: int| 0 <= i < m.registers.len() ==> no_char(#[trigger] m.registers[i], '\n')
    &&& forall|i: int| 0 <= i < m.ports.len() ==> no_char(#[trigger] m.ports[i], '\n')
}

proof fn lemma_tail_fits(p: Seq<char>, w: Seq<char>)
    requires
        p.len() > 0,
        no_char(p, '\n'),
        no_char(w, '\n'),
    ensures
        no_char(p + w, '\n'),
        (p + w).len() > 0,
{
    let t = p + w;
    assert forall|j: int| 0 <= j < t.len() implies t[j] != '\n' by {
        if j < p.len() {
            assert(t[j] == p[j]);
        } else {
            assert(t[j] == w[j - p.len()]);
        }
    }
}

/// A trailing carriage return comes off the value of a header line.
proof fn lemma_strip_hline(name: Seq<char>, w: Seq<char>)
    ensures
        strip_cr(hline(name, w)) == hline(name, strip_cr(w)),
{
    reveal_strlit(": ");
    let l = hline(name, w);
    if w.len() > 0 {
        assert(l.last() == w.last());
        if w.last() == '\r' {
            assert(l.drop_last() =~= hline(name, w.drop_last()));
        }
    } else {
        assert(l.last() == ' ');
    }
}

/// `strip_cr` keeps a text free of newlines.
proof fn lemma_strip_no_nl(w: Seq<char>)
    requires
        no_char(w, '\n'),
    ensures
        no_char(strip_cr(w), '\n'),
{
    assert forall|j: int| 0 <= j < strip_cr(w).len() implies strip_cr(w)[j] != '\n' by {
        assert(strip_cr(w)[j] == w[j]);
    }
}

/// The manifest's lines are header lines named `X-Phase-Vcf`, and so they
/// stay with a trailing carriage return taken off.
proof fn lemma_manifest_lines(mf: Option<ManifestV>)
    requires
        mf matches Some(m) ==> manifest_fits(m),
    ensures
        forall|i: int| 0 <= i < manifest_lines(mf).len() ==> line_name(#[trigger] manifest_lines(mf)[i]) == Some("X-Phase-Vcf"@)
            && no_char(manifest_lines(mf)[i], '\n') && manifest_lines(mf)[i].len() > 0
            && line_name(strip_cr(manifest_lines(mf)[i])) == Some("X-Phase-Vcf"@)
            && no_char(strip_cr(manifest_lines(mf)[i]), '\n') && strip_cr(manifest_lines(mf)[i]).len() > 0,
{
    if let Some(m) = mf {
        reveal_strlit("X-Phase-Vcf");
        reveal_strlit("BEGIN:VCARD");
        reveal_strlit("VERSION:3.0");
        reveal_strlit("ROLE:");
        reveal_strlit("REGISTERS:");
        reveal_strlit("PORTS:");
        reveal_strlit("END:VCARD");
        reveal_strlit(",");
        reveal_strlit(";");
        let name = "X-Phase-Vcf"@;
        lemma_join_with_no_char(m.registers, ","@, '\n');
        lemma_join_with_no_char(m.ports, ";"@, '\n');
        let ws = seq![
            "BEGIN:VCARD"@,
            "VERSION:3.0"@,
            "ROLE:"@ + m.role,
            "REGISTERS:"@ + join_with(m.registers, ","@),
            "PORTS:"@ + join_with(m.ports, ";"@),
            "END:VCARD"@,
        ];
        lemma_tail_fits("BEGIN:VCARD"@, seq![]);
        assert("BEGIN:VCARD"@ + Seq::<char>::empty() =~= "BEGIN:VCARD"@);
        lemma_tail_fits("VERSION:3.0"@, seq![]);
        assert("VERSION:3.0"@ + Seq::<char>::empty() =~= "VERSION:3.0"@);
        lemma_tail_fits("END:VCARD"@, seq![]);
        assert("END:VCARD"@ + Seq::<char>::empty() =~= "END:VCARD"@);
        lemma_tail_fits("ROLE:"@, m.role);
        lemma_tail_fits("REGISTERS:"@, join_with(m.registers, ","@));
        lemma_tail_fits("PORTS:"@, join_with(m.ports, ";"@));
        assert forall|i: int| 0 <= i < ws.len() implies no_char(#[trigger] ws[i], '\n') && ws[i].len() > 0 by {}
        let v = vcf_lines(m);
        assert forall|i: int| 0 <= i < v.len() implies line_name(#[trigger] v[i]) == Some(name) && no_char(v[i], '\n')
            && v[i].len() > 0 && line_name(strip_cr(v[i])) == Some(name) && no_char(strip_cr(v[i]), '\n')
            && strip_cr(v[i]).len() > 0 by {
            let k: int = if i < 3 {
                i
            } else if i == v.len() - 1 {
                5
            } else if i == 3 && m.registers.len() > 0 {
                3
            } else {
                4
            };
            assert(v[i] == hline(name, ws[k]));
            lemma_line_name(name, ws[k]);
            lemma_strip_hline(name, ws[k]);
            lemma_strip_no_nl(ws[k]);
            lemma_line_name(name, strip_cr(ws[k]));
        }
    }
}

proof fn lemma_prefixed_words(p: Seq<char>, v: Seq<u64>)
    requires
        p.len() > 0,
        no_char(p, '\n'),
        p.last() == ' ',
    ensures
        no_char(p + hex_words_spec(v), '\n'),
        no_char(p + hex_words_spec(v), ';') <== no_char(p, ';'),
        !((p + hex_words_spec(v)).last() == '\r'),
        (p + hex_words_spec(v)).len() > 0,
{
    lemma_hex_words_chars(v);
    let h = hex_words_spec(v);
    let l = p + h;
    assert forall|i: int| 0 <= i < l.len() implies l[i] != '\n' by {
        if i >= p.len() {
            assert(l[i] == h[i - p.len()]);
        }
    }
    if no_char(p, ';') {
        assert forall|i: int| 0 <= i < l.len() implies l[i] != ';' by {
            if i >= p.len() {
                assert(l[i] == h[i - p.len()]);
            }
        }
    }
    if h.len() > 0 {
        assert(l.last() == h[h.len() - 1]);
    } else {
        assert(l.last() == p.last());
    }
}

/// The state section of an exported capsule: its lines, where the program
/// marker is found after it, and the registers and memory it scans to.
proof fn lemma_state_facts(s: StateV)
    requires
        s.regs.len() <= usize::MAX,
        s.mem.len() <= usize::MAX,
    ensures
        ({
            let sl = state_lines(s);
            let js = join_nl(sl);
            &&& forall|i: int| 0 <= i < sl.len() ==> no_char(#[trigger] sl[i], '\n') && !(sl[i].len() > 0 && sl[i].last() == '\r')
            &&& js.len() > 9
            &&& js[9] == 's' && js[2] == ' ' && js[0] == ';'
            &&& forall|j: int| 2 <= j < js.len() ==> #[trigger] js[j] != ';'
            &&& scan_state(sl, s.regs.len(), s.mem.len()) == Some((s.regs, s.mem))
        }),
{
    let sl = state_lines(s);
    let js = join_nl(sl);
    reveal_strlit(";; phase-state");
    reveal_strlit("REGS: ");
    reveal_strlit("MEM: ");
    let s0 = ";; phase-state"@;
    let r = "REGS: "@ + hex_words_spec(s.regs);
    lemma_prefixed_words("REGS: "@, s.regs);
    lemma_prefixed_words("MEM: "@, s.mem);
    assert(no_char(s0, '\n'));
    assert(no_char("REGS: "@, ';'));
    assert(no_char("MEM: "@, ';'));
    // the lines
    assert(sl[0] == s0 && sl[1] == r);
    assert forall|i: int| 0 <= i < sl.len() implies no_char(#[trigger] sl[i], '\n') && !(sl[i].len() > 0 && sl[i].last() == '\r') by {}
    // the joined text
    let j2 = s0 + seq!['\n'] + r;
    assert(sl.take(1).len() == 1 && sl.take(1)[0] == s0);
    assert(sl.take(2).drop_last() =~= sl.take(1));
    assert(join_nl(sl.take(1)) == s0);
    assert(sl.take(2).last() == r);
    assert(join_nl(sl.take(2)) == join_nl(sl.take(1)) + seq!['\n'] + r);
    assert(join_nl(sl.take(2)) == j2);
    assert forall|j: int| 2 <= j < j2.len() implies #[trigger] j2[j] != ';' by {
        if j >= 15 {
            assert(j2[j] == r[j - 15]);
        } else if j < 14 {
            assert(j2[j] == s0[j]);
        }
    }
    if s.mem.len() > 0 {
        let m = "MEM: "@ + hex_words_spec(s.mem);
        assert(sl.drop_last() =~= sl.take(2));
        assert(js == j2 + seq!['\n'] + m);
        assert forall|j: int| 2 <= j < js.len() implies #[trigger] js[j] != ';' by {
            if j < j2.len() {
                assert(js[j] == j2[j]);
            } else if j > j2.len() {
                assert(js[j] == m[j - j2.len() - 1]);
            }
        }
        assert(js[9] == j2[9] && js[2] == j2[2] && js[0] == j2[0]);
    } else {
        assert(sl =~= sl.take(2));
    }
    // scanning
    let nr = s.regs.len();
    let nm = s.mem.len();
    let z = (Seq::new(nr, |i: int| 0u64), Seq::new(nm, |i: int| 0u64));
    assert(!starts_with(s0, "REGS: "@)) by {
        assert(s0.take(6)[0] != "REGS: "@[0]);
    }
    assert(!starts_with(s0, "MEM: "@)) by {
        assert(s0.take(5)[0] != "MEM: "@[0]);
    }
    assert(sl.take(1).drop_last() =~= Seq::<Seq<char>>::empty());
    assert(scan_state(sl.take(1).drop_last(), nr, nm) == Some(z));
    assert(sl.take(1).last() == s0);
    assert(scan_state(sl.take(1), nr, nm) == Some(z));
    assert(starts_with(r, "REGS: "@)) by {
        assert(r.take(6) =~= "REGS: "@);
    }
    assert(r.skip(6) =~= hex_words_spec(s.regs));
    lemma_words_hex(s.regs);
    lemma_hex_words_back(s.regs);
    assert(scan_state(sl.take(2), nr, nm) == Some((s.regs, z.1)));
    if nm > 0 {
        let m = "MEM: "@ + hex_words_spec(s.mem);
        assert(!starts_with(m, "REGS: "@)) by {
            if m.len() >= 6 {
                assert(m.take(6)[0] != "REGS: "@[0]);
            }
        }
        assert(starts_with(m, "MEM: "@)) by {
            assert(m.take(5) =~= "MEM: "@);
        }
        assert(m.skip(5) =~= hex_words_spec(s.mem));
        lemma_words_hex(s.mem);
        lemma_hex_words_back(s.mem);
        assert(sl.drop_last() =~= sl.take(2));
        assert(scan_state(sl, nr, nm) == Some((s.regs, s.mem)));
    } else {
        assert(z.1 =~= s.mem);
    }
}

/// The text of an exported capsule, cut at its first blank line.
proof fn lemma_head_cut(tag: Seq<char>, src: Seq<char>, s: StateV, bh: u64, mf: Option<ManifestV>)
    requires
        no_char(tag, '\n'),
        unpadded(tag),
        mf matches Some(m) ==> manifest_fits(m),
    ensures
        ({
            let jh = join_nl(header_lines(tag, src, s, bh, manifest_lines(mf)));
            let body = join_nl(state_lines(s)) + seq!['\n'] + ";; phase-program\n"@ + src;
            let t = export_spec(tag, src, s, bh, mf);
            &&& find_sub(t, "\n\n"@, 0) == Some(jh.len())
            &&& t.take(jh.len() as int) == jh
            &&& t.skip(jh.len() as int + 2) == body
        }),
{
    let hl = header_lines(tag, src, s, bh, manifest_lines(mf));
    let jh = join_nl(hl);
    let body = join_nl(state_lines(s)) + seq!['\n'] + ";; phase-program\n"@ + src;
    let t = export_spec(tag, src, s, bh, mf);
    lemma_export_shape(tag, src, s, bh, mf);
    assert(t =~= jh + seq!['\n', '\n'] + body);
    lemma_manifest_lines(mf);
    lemma_header_lines_ok(tag, src, s, bh, manifest_lines(mf));
    reveal_strlit("\n\n");
    lemma_join_no_blank(hl);
    assert forall|j: int| 0 <= j < jh.len() implies #[trigger] t.subrange(j, j + "\n\n"@.len()) != "\n\n"@ by {
        if t.subrange(j, j + 2) == "\n\n"@ {
            assert(t.subrange(j, j + 2)[0] == t[j] && t.subrange(j, j + 2)[1] == t[j + 1]);
            if j + 1 < jh.len() {
                assert(t[j] == jh[j] && t[j + 1] == jh[j + 1]);
            } else {
                assert(t[j] == jh.last());
            }
        }
    }
    assert(t.subrange(jh.len() as int, jh.len() as int + 2) =~= "\n\n"@);
    lemma_find_sub_first(t, "\n\n"@, 0, jh.len());
    assert(t.take(jh.len() as int) =~= jh);
    assert(t.skip(jh.len() as int + 2) =~= body);
}

/// The body of an exported capsule, cut at the program marker.
proof fn lemma_body_cut(src: Seq<char>, s: StateV)
    requires
        s.regs.len() <= usize::MAX,
        s.mem.len() <= usize::MAX,
    ensures
        ({
            let js = join_nl(state_lines(s));
            let body = js + seq!['\n'] + ";; phase-program\n"@ + src;
            &&& find_sub(body, ";; phase-program\n"@, 0) == Some(js.len() + 1)
            &&& body.take(js.len() as int + 1) == js + seq!['\n']
            &&& body.skip(js.len() as int + 1 + 17) == src
        }),
{
    let js = join_nl(state_lines(s));
    let pp = ";; phase-program\n"@;
    let body = js + seq!['\n'] + pp + src;
    lemma_state_facts(s);
    reveal_strlit(";; phase-program\n");
    let q = js.len() + 1;
    assert forall|j: int| 0 <= j < q implies #[trigger] body.subrange(j, j + pp.len()) != pp by {
        if body.subrange(j, j + 17) == pp {
            assert(body.subrange(j, j + 17)[0] == body[j]);
            if j == 0 {
                assert(body.subrange(j, j + 17)[9] == body[9]);
                assert(body[9] == js[9]);
            } else if j == 1 {
                assert(body.subrange(j, j + 17)[1] == body[2]);
                assert(body[2] == js[2]);
            } else if j < js.len() {
                assert(body[j] == js[j]);
            } else {
                assert(body[j] == '\n');
            }
        }
    }
    assert(body.subrange(q as int, q as int + 17) =~= pp);
    lemma_find_sub_first(body, pp, 0, q as nat);
    assert(body.take(q as int) =~= js + seq!['\n']);
    assert(body.skip(q as int + 17) =~= src);
}

/// A capsule survives the envelope: importing the text `export_with` writes
/// gives back the tag, the state, the kernel source and the boundary hash it
/// was given, with the hashes of the state and the source, with or without a
/// manifest. The tag must fit on its header line (no newline, no whitespace
/// at either end), and the manifest's text must hold no newline.
pub proof fn law_capsule_roundtrip(tag: Seq<char>, src: Seq<char>, s: StateV, bh: u64, mf: Option<ManifestV>)
    requires
        no_char(tag, '\n'),
        unpadded(tag),
        mf matches Some(m) ==> manifest_fits(m),
        s.regs.len() <= usize::MAX,
        s.mem.len() <= usize::MAX,
    ensures
        import_spec(export_spec(tag, src, s, bh, mf)) == Ok::<CapsuleV, Option<Seq<char>>>(
            CapsuleV {
                tag,
                state: s,
                kernel_src: src,
                state_hash: state_hash_spec(s),
                boundary_hash: bh,
                kernel_hash: text_hash(src),
            },
        ),
{
    let v = manifest_lines(mf);
    let hl = header_lines(tag, src, s, bh, v);
    let v2 = v.map_values(|l: Seq<char>| strip_cr(l));
    let hl2 = header_lines(tag, src, s, bh, v2);
    let sl = state_lines(s);
    lemma_head_cut(tag, src, s, bh, mf);
    lemma_body_cut(src, s);
    lemma_manifest_lines(mf);
    lemma_header_facts(tag, src, s, bh, v);
    assert forall|i: int| 0 <= i < v2.len() implies line_name(#[trigger] v2[i]) == Some("X-Phase-Vcf"@) && no_char(v2[i], '\n')
        && v2[i].len() > 0 by {
        assert(v2[i] == strip_cr(v[i]));
    }
    lemma_header_facts(tag, src, s, bh, v2);
    lemma_state_facts(s);
    lemma_lines_join_strip(hl);
    let n = v.len() as int;
    let lh = hl.drop_last().map_values(|l: Seq<char>| strip_cr(l)).push(hl.last());
    assert(lh =~= hl2) by {
        assert forall|i: int| 0 <= i < hl2.len() implies #[trigger] lh[i] == hl2[i] by {
            if i < 11 {
                assert(hl[i] == hl2[i]);
                assert(!(hl[i].last() == '\r'));
            } else if i < 11 + n {
                assert(hl[i] == v[i - 11]);
                assert(hl2[i] == v2[i - 11]);
            } else {
                assert(hl[i] == hl2[i]);
            }
        }
    }
    lemma_lines_join_nl(sl);
    lemma_parse_hex16(state_hash_spec(s));
    lemma_parse_hex16(bh);
    lemma_parse_hex16(text_hash(src));
    lemma_parse_dec(s.regs.len(), usize::MAX as nat);
    lemma_parse_dec(s.mem.len(), usize::MAX as nat);
}

} // verus!
