//! Programs: the tree of instructions and `rep` loops, and its text format.
//!
//! One instruction per line, `#` starts a comment. Registers `r0..rN`;
//! immediates in decimal, `0x…`, `0b…` or negative (two's complement in u64).
//! `rep N … end` repeats its body N times.
use vstd::prelude::*;
use crate::inst::{Inst, hex_min, hex_width, mnemonic_spec, text_spec};
use crate::lex::{cut_at, is_ws, join_nl, lemma_cut_at, lemma_lines_join_nl, lemma_parse_dec, lemma_parse_hex, lemma_trim_plain, lemma_ws_fold_plain, lower_char, no_char, no_ws, words, ws_fold, line_tokens, lines_spec, lower, lower_chars, split_lines, tokens_of_line, chars_eq, from_str_radix, from_str_radix_spec, int_error_msg, skip_chars, trim, trim_chars, IntError};
use crate::text::{chars_of, dec_spec, extend_chars, hex_spec, is_digit_char, lemma_dec_digits, lemma_hex_digits, pow16, push_dec, push_str, string_of};

verus! {

#[derive(Debug)]
pub enum Node {
    Inst(Inst),
    Rep { count: u64, body: Vec<Node> },
}

/// Mathematical value of a `Node`.
pub ghost enum NodeV {
    Inst(Inst),
    Rep { count: u64, body: Seq<NodeV> },
}

pub open spec fn node_view(n: Node) -> NodeV
    decreases n,
{
    match n {
        Node::Inst(i) => NodeV::Inst(i),
        Node::Rep { count, body } => NodeV::Rep { count, body: nodes_view(body@) },
    }
}

pub open spec fn nodes_view(s: Seq<Node>) -> Seq<NodeV>
    decreases s,
{
    if s.len() == 0 {
        seq![]
    } else {
        nodes_view(s.drop_last()).push(node_view(s.last()))
    }
}

pub proof fn lemma_nodes_view(s: Seq<Node>)
    ensures
        nodes_view(s).len() == s.len(),
        forall|i: int| 0 <= i < s.len() ==> #[trigger] nodes_view(s)[i] == node_view(s[i]),
    decreases s.len(),
{
    if s.len() > 0 {
        lemma_nodes_view(s.drop_last());
    }
}

#[derive(Debug)]
pub struct Program {
    pub nodes: Vec<Node>,
    pub nregs: usize,
}

pub open spec fn max_u64() -> nat {
    0xffff_ffff_ffff_ffff
}

/// `"строка N: msg"` for the 0-based line `lineno`.
pub open spec fn err_at(lineno: nat, msg: Seq<char>) -> Seq<char> {
    "строка "@ + dec_spec(lineno + 1) + ": "@ + msg
}

/// The value of an immediate: decimal, `0x`/`0X` hex, `0b`/`0B` binary, or
/// `-` followed by a decimal (negated modulo 2^64); surrounding whitespace ignored.
pub open spec fn imm_value(t: Seq<char>) -> Result<nat, IntError> {
    if t.len() >= 2 && t[0] == '0' && (t[1] == 'x' || t[1] == 'X') {
        from_str_radix_spec(t.skip(2), 16, max_u64())
    } else if t.len() >= 2 && t[0] == '0' && (t[1] == 'b' || t[1] == 'B') {
        from_str_radix_spec(t.skip(2), 2, max_u64())
    } else if t.len() >= 1 && t[0] == '-' {
        match from_str_radix_spec(t.skip(1), 10, max_u64()) {
            Ok(v) => Ok(if v == 0 { 0 } else { (0x1_0000_0000_0000_0000 - v) as nat }),
            Err(e) => Err(e),
        }
    } else {
        from_str_radix_spec(t, 10, max_u64())
    }
}

pub open spec fn parse_imm_spec(tok: Seq<char>) -> Result<u64, Seq<char>> {
    match imm_value(trim(tok)) {
        Ok(v) => Ok(v as u64),
        Err(e) => Err("imm '"@ + tok + "': "@ + int_error_msg(e)),
    }
}

pub open spec fn parse_reg_spec(tok: Seq<char>, nregs: nat) -> Result<u8, Seq<char>> {
    if tok.len() == 0 || (tok[0] != 'r' && tok[0] != 'R') {
        Err("ожидался регистр rN, получено '"@ + tok + "'"@)
    } else {
        match from_str_radix_spec(tok.skip(1), 10, usize::MAX as nat) {
            Err(e) => Err("регистр '"@ + tok + "': "@ + int_error_msg(e)),
            Ok(n) => if n >= nregs {
                Err("регистр r"@ + dec_spec(n) + " вне диапазона (--regs "@ + dec_spec(nregs) + ")"@)
            } else {
                Ok(n as u8)
            },
        }
    }
}

pub open spec fn need_msg(mnem: Seq<char>, n: nat, given: nat) -> Seq<char> {
    mnem + ": ожидалось "@ + dec_spec(n) + " аргументов, дано "@ + dec_spec(given)
}

/// The instruction shapes of the text format.
pub enum Shape {
    /// no operands
    None0,
    /// one register
    R,
    /// two registers
    RR,
    /// three registers
    RRR,
    /// a register and an immediate
    RI,
    /// two immediates
    II,
}

/// Mnemonic table: shape of each known mnemonic.
pub open spec fn shape_of(m: Seq<char>) -> Option<Shape> {
    if m == "nop"@ {
        Some(Shape::None0)
    } else if m == "not"@ || m == "inc"@ || m == "dec"@ {
        Some(Shape::R)
    } else if m == "xor"@ || m == "add"@ || m == "sub"@ || m == "swp"@ || m == "madd"@ || m == "msub"@
        || m == "mxor"@ || m == "rmadd"@ || m == "rmsub"@ {
        Some(Shape::RR)
    } else if m == "toff"@ || m == "cswp"@ {
        Some(Shape::RRR)
    } else if m == "rotl"@ || m == "rotr"@ || m == "set"@ {
        Some(Shape::RI)
    } else if m == "mset"@ {
        Some(Shape::II)
    } else {
        None
    }
}

pub open spec fn arity(sh: Shape) -> nat {
    match sh {
        Shape::None0 => 0,
        Shape::R => 1,
        Shape::RR => 2,
        Shape::RRR => 3,
        Shape::RI => 2,
        Shape::II => 2,
    }
}

/// The instruction named by `m` with its decoded operands.
pub open spec fn build_inst(m: Seq<char>, a: u8, b: u8, c: u8, x: u64, y: u64) -> Inst {
    if m == "nop"@ {
        Inst::Nop
    } else if m == "not"@ {
        Inst::Not(a)
    } else if m == "inc"@ {
        Inst::Inc(a)
    } else if m == "dec"@ {
        Inst::Dec(a)
    } else if m == "xor"@ {
        Inst::Xor(a, b)
    } else if m == "add"@ {
        Inst::Add(a, b)
    } else if m == "sub"@ {
        Inst::Sub(a, b)
    } else if m == "swp"@ {
        Inst::Swap(a, b)
    } else if m == "madd"@ {
        Inst::MAdd(a, b)
    } else if m == "msub"@ {
        Inst::MSub(a, b)
    } else if m == "mxor"@ {
        Inst::MXor(a, b)
    } else if m == "rmadd"@ {
        Inst::RAdd(a, b)
    } else if m == "rmsub"@ {
        Inst::RSub(a, b)
    } else if m == "toff"@ {
        Inst::Toff(a, b, c)
    } else if m == "cswp"@ {
        Inst::CSwap(a, b, c)
    } else if m == "rotl"@ {
        Inst::RotL(a, y as u32)
    } else if m == "rotr"@ {
        Inst::RotR(a, y as u32)
    } else if m == "set"@ {
        Inst::SetReg(a, y)
    } else {
        Inst::MSet(x, y)
    }
}

/// Decoding one instruction line: the mnemonic (already lower-cased) and its
/// argument tokens. Operands are decoded left to right; the first error wins.
pub open spec fn parse_inst_spec(m: Seq<char>, args: Seq<Seq<char>>, nregs: nat) -> Result<Inst, Seq<char>> {
    match shape_of(m) {
        None => Err("неизвестная инструкция '"@ + m + "'"@),
        Some(sh) => if args.len() != arity(sh) {
            Err(need_msg(m, arity(sh), args.len()))
        } else {
            match sh {
                Shape::None0 => Ok(build_inst(m, 0, 0, 0, 0, 0)),
                Shape::R => match parse_reg_spec(args[0], nregs) {
                    Err(e) => Err(e),
                    Ok(a) => Ok(build_inst(m, a, 0, 0, 0, 0)),
                },
                Shape::RR => match parse_reg_spec(args[0], nregs) {
                    Err(e) => Err(e),
                    Ok(a) => match parse_reg_spec(args[1], nregs) {
                        Err(e) => Err(e),
                        Ok(b) => Ok(build_inst(m, a, b, 0, 0, 0)),
                    },
                },
                Shape::RRR => match parse_reg_spec(args[0], nregs) {
                    Err(e) => Err(e),
                    Ok(a) => match parse_reg_spec(args[1], nregs) {
                        Err(e) => Err(e),
                        Ok(b) => match parse_reg_spec(args[2], nregs) {
                            Err(e) => Err(e),
                            Ok(c) => Ok(build_inst(m, a, b, c, 0, 0)),
                        },
                    },
                },
                Shape::RI => match parse_reg_spec(args[0], nregs) {
                    Err(e) => Err(e),
                    Ok(a) => match parse_imm_spec(args[1]) {
                        Err(e) => Err(e),
                        Ok(y) => Ok(build_inst(m, a, 0, 0, 0, y)),
                    },
                },
                Shape::II => match parse_imm_spec(args[0]) {
                    Err(e) => Err(e),
                    Ok(x) => match parse_imm_spec(args[1]) {
                        Err(e) => Err(e),
                        Ok(y) => Ok(build_inst(m, 0, 0, 0, x, y)),
                    },
                },
            }
        },
    }
}

pub(crate) fn imm_chars(tok: &Vec<char>) -> (r: Result<u64, String>)
    ensures
        match parse_imm_spec(tok@) {
            Ok(v) => r == Ok::<u64, String>(v),
            Err(e) => r is Err && r->Err_0@ == e,
        },
{
    let t = trim_chars(tok);
    let max: u64 = 0xffff_ffff_ffff_ffff;
    let res: Result<u64, IntError> = if t.len() >= 2 && t[0] == '0' && (t[1] == 'x' || t[1] == 'X') {
        let d = skip_chars(&t, 2);
        from_str_radix(&d, 16, max)
    } else if t.len() >= 2 && t[0] == '0' && (t[1] == 'b' || t[1] == 'B') {
        let d = skip_chars(&t, 2);
        from_str_radix(&d, 2, max)
    } else if t.len() >= 1 && t[0] == '-' {
        let d = skip_chars(&t, 1);
        match from_str_radix(&d, 10, max) {
            Ok(v) => Ok(0u64.wrapping_sub(v)),
            Err(e) => Err(e),
        }
    } else {
        from_str_radix(&t, 10, max)
    };
    match res {
        Ok(v) => Ok(v),
        Err(e) => {
            let mut m: Vec<char> = Vec::new();
            push_str(&mut m, "imm '");
            extend_chars(&mut m, tok);
            push_str(&mut m, "': ");
            push_int_error(&mut m, e);
            Err(string_of(&m))
        },
    }
}

fn push_int_error(m: &mut Vec<char>, e: IntError)
    ensures
        final(m)@ == old(m)@ + int_error_msg(e),
{
    match e {
        IntError::Empty => push_str(m, "cannot parse integer from empty string"),
        IntError::InvalidDigit => push_str(m, "invalid digit found in string"),
        IntError::PosOverflow => push_str(m, "number too large to fit in target type"),
    }
}

/// Parse an immediate (decimal, `0x…`, `0b…`, or negative).
pub fn parse_imm(tok: &str) -> (r: Result<u64, String>)
    ensures
        match parse_imm_spec(tok@) {
            Ok(v) => r == Ok::<u64, String>(v),
            Err(e) => r is Err && r->Err_0@ == e,
        },
{
    let t = chars_of(tok);
    imm_chars(&t)
}

pub(crate) fn reg_chars(tok: &Vec<char>, nregs: usize) -> (r: Result<u8, String>)
    ensures
        match parse_reg_spec(tok@, nregs as nat) {
            Ok(v) => r == Ok::<u8, String>(v),
            Err(e) => r is Err && r->Err_0@ == e,
        },
{
    if tok.len() == 0 || (tok[0] != 'r' && tok[0] != 'R') {
        let mut m: Vec<char> = Vec::new();
        push_str(&mut m, "ожидался регистр rN, получено '");
        extend_chars(&mut m, tok);
        push_str(&mut m, "'");
        return Err(string_of(&m));
    }
    let d = skip_chars(tok, 1);
    match from_str_radix(&d, 10, usize::MAX as u64) {
        Err(e) => {
            let mut m: Vec<char> = Vec::new();
            push_str(&mut m, "регистр '");
            extend_chars(&mut m, tok);
            push_str(&mut m, "': ");
            push_int_error(&mut m, e);
            Err(string_of(&m))
        },
        Ok(n) => {
            if n >= nregs as u64 {
                let mut m: Vec<char> = Vec::new();
                push_str(&mut m, "регистр r");
                push_dec(&mut m, n);
                push_str(&mut m, " вне диапазона (--regs ");
                push_dec(&mut m, nregs as u64);
                push_str(&mut m, ")");
                Err(string_of(&m))
            } else {
                Ok(n as u8)
            }
        },
    }
}

/// Parse a register operand `rN`/`RN` with `N < nregs`.
pub fn parse_reg(tok: &str, nregs: usize) -> (r: Result<u8, String>)
    ensures
        match parse_reg_spec(tok@, nregs as nat) {
            Ok(v) => r == Ok::<u8, String>(v),
            Err(e) => r is Err && r->Err_0@ == e,
        },
{
    let t = chars_of(tok);
    reg_chars(&t, nregs)
}

fn shape_exec(m: &Vec<char>) -> (r: Option<Shape>)
    ensures
        r == shape_of(m@),
{
    if chars_eq(m, "nop") {
        Some(Shape::None0)
    } else if chars_eq(m, "not") || chars_eq(m, "inc") || chars_eq(m, "dec") {
        Some(Shape::R)
    } else if chars_eq(m, "xor") || chars_eq(m, "add") || chars_eq(m, "sub") || chars_eq(m, "swp")
        || chars_eq(m, "madd") || chars_eq(m, "msub") || chars_eq(m, "mxor") || chars_eq(m, "rmadd")
        || chars_eq(m, "rmsub") {
        Some(Shape::RR)
    } else if chars_eq(m, "toff") || chars_eq(m, "cswp") {
        Some(Shape::RRR)
    } else if chars_eq(m, "rotl") || chars_eq(m, "rotr") || chars_eq(m, "set") {
        Some(Shape::RI)
    } else if chars_eq(m, "mset") {
        Some(Shape::II)
    } else {
        None
    }
}

fn build_exec(m: &Vec<char>, a: u8, b: u8, c: u8, x: u64, y: u64) -> (r: Inst)
    ensures
        r == build_inst(m@, a, b, c, x, y),
{
    if chars_eq(m, "nop") {
        Inst::Nop
    } else if chars_eq(m, "not") {
        Inst::Not(a)
    } else if chars_eq(m, "inc") {
        Inst::Inc(a)
    } else if chars_eq(m, "dec") {
        Inst::Dec(a)
    } else if chars_eq(m, "xor") {
        Inst::Xor(a, b)
    } else if chars_eq(m, "add") {
        Inst::Add(a, b)
    } else if chars_eq(m, "sub") {
        Inst::Sub(a, b)
    } else if chars_eq(m, "swp") {
        Inst::Swap(a, b)
    } else if chars_eq(m, "madd") {
        Inst::MAdd(a, b)
    } else if chars_eq(m, "msub") {
        Inst::MSub(a, b)
    } else if chars_eq(m, "mxor") {
        Inst::MXor(a, b)
    } else if chars_eq(m, "rmadd") {
        Inst::RAdd(a, b)
    } else if chars_eq(m, "rmsub") {
        Inst::RSub(a, b)
    } else if chars_eq(m, "toff") {
        Inst::Toff(a, b, c)
    } else if chars_eq(m, "cswp") {
        Inst::CSwap(a, b, c)
    } else if chars_eq(m, "rotl") {
        Inst::RotL(a, y as u32)
    } else if chars_eq(m, "rotr") {
        Inst::RotR(a, y as u32)
    } else if chars_eq(m, "set") {
        Inst::SetReg(a, y)
    } else {
        Inst::MSet(x, y)
    }
}

/// Decode one instruction from its (lower-cased) mnemonic and argument tokens.
pub fn parse_inst(mnem: &Vec<char>, args: &Vec<Vec<char>>, nregs: usize) -> (r: Result<Inst, String>)
    ensures
        match parse_inst_spec(mnem@, args@.map_values(|a: Vec<char>| a@), nregs as nat) {
            Ok(v) => r == Ok::<Inst, String>(v),
            Err(e) => r is Err && r->Err_0@ == e,
        },
{
    let ghost av = args@.map_values(|a: Vec<char>| a@);
    let sh = match shape_exec(mnem) {
        None => {
            let mut m: Vec<char> = Vec::new();
            push_str(&mut m, "неизвестная инструкция '");
            extend_chars(&mut m, mnem);
            push_str(&mut m, "'");
            return Err(string_of(&m));
        },
        Some(sh) => sh,
    };
    let n: usize = match sh {
        Shape::None0 => 0,
        Shape::R => 1,
        Shape::RR => 2,
        Shape::RRR => 3,
        Shape::RI => 2,
        Shape::II => 2,
    };
    if args.len() != n {
        let mut m: Vec<char> = Vec::new();
        extend_chars(&mut m, mnem);
        push_str(&mut m, ": ожидалось ");
        push_dec(&mut m, n as u64);
        push_str(&mut m, " аргументов, дано ");
        push_dec(&mut m, args.len() as u64);
        return Err(string_of(&m));
    }
    match sh {
        Shape::None0 => Ok(build_exec(mnem, 0, 0, 0, 0, 0)),
        Shape::R => {
            let a = reg_chars(&args[0], nregs)?;
            Ok(build_exec(mnem, a, 0, 0, 0, 0))
        },
        Shape::RR => {
            let a = reg_chars(&args[0], nregs)?;
            let b = reg_chars(&args[1], nregs)?;
            Ok(build_exec(mnem, a, b, 0, 0, 0))
        },
        Shape::RRR => {
            let a = reg_chars(&args[0], nregs)?;
            let b = reg_chars(&args[1], nregs)?;
            let c = reg_chars(&args[2], nregs)?;
            Ok(build_exec(mnem, a, b, c, 0, 0))
        },
        Shape::RI => {
            let a = reg_chars(&args[0], nregs)?;
            let y = imm_chars(&args[1])?;
            Ok(build_exec(mnem, a, 0, 0, 0, y))
        },
        Shape::II => {
            let x = imm_chars(&args[0])?;
            let y = imm_chars(&args[1])?;
            Ok(build_exec(mnem, 0, 0, 0, x, y))
        },
    }
}

/// Parser state after some lines: finished top-level nodes, open `rep`s.
pub ghost struct PState {
    pub root: Seq<NodeV>,
    pub stack: Seq<(u64, Seq<NodeV>)>,
}

/// Append a node to the innermost open `rep`, or to the top level.
pub open spec fn push_node_spec(st: PState, n: NodeV) -> PState {
    if st.stack.len() > 0 {
        let top = st.stack.last();
        PState { root: st.root, stack: st.stack.drop_last().push((top.0, top.1.push(n))) }
    } else {
        PState { root: st.root.push(n), stack: st.stack }
    }
}

/// One non-empty line (its tokens) applied to the parser state.
pub open spec fn parse_line_spec(st: PState, toks: Seq<Seq<char>>, lineno: nat, nregs: nat) -> Result<PState, Seq<char>> {
    let head = lower(toks[0]);
    if head == "rep"@ {
        if toks.len() != 2 {
            Err(err_at(lineno, "rep: ожидается 'rep <count>'"@))
        } else {
            match parse_imm_spec(toks[1]) {
                Err(e) => Err(err_at(lineno, e)),
                Ok(c) => Ok(PState { root: st.root, stack: st.stack.push((c, seq![])) }),
            }
        }
    } else if head == "end"@ {
        if toks.len() != 1 {
            Err(err_at(lineno, "end: лишние токены"@))
        } else if st.stack.len() == 0 {
            Err(err_at(lineno, "end без rep"@))
        } else {
            let top = st.stack.last();
            Ok(push_node_spec(PState { root: st.root, stack: st.stack.drop_last() }, NodeV::Rep { count: top.0, body: top.1 }))
        }
    } else {
        match parse_inst_spec(head, toks.drop_first(), nregs) {
            Err(e) => Err(err_at(lineno, e)),
            Ok(i) => Ok(push_node_spec(st, NodeV::Inst(i))),
        }
    }
}

/// The parser state after the first `k` lines.
pub open spec fn parse_lines_spec(lines: Seq<Seq<char>>, k: nat, nregs: nat) -> Result<PState, Seq<char>>
    decreases k,
{
    if k == 0 {
        Ok(PState { root: seq![], stack: seq![] })
    } else {
        match parse_lines_spec(lines, (k - 1) as nat, nregs) {
            Err(e) => Err(e),
            Ok(st) => {
                let toks = line_tokens(lines[k - 1]);
                if toks.len() == 0 {
                    Ok(st)
                } else {
                    parse_line_spec(st, toks, (k - 1) as nat, nregs)
                }
            },
        }
    }
}

/// The program a text denotes, or the first error.
pub open spec fn parse_spec(text: Seq<char>, nregs: nat) -> Result<Seq<NodeV>, Seq<char>> {
    let ls = lines_spec(text);
    match parse_lines_spec(ls, ls.len(), nregs) {
        Err(e) => Err(e),
        Ok(st) => if st.stack.len() > 0 {
            Err("незакрытый rep"@)
        } else {
            Ok(st.root)
        },
    }
}

pub proof fn lemma_parse_lines_err(ls: Seq<Seq<char>>, k: nat, n: nat, nregs: nat)
    requires
        k <= n,
        parse_lines_spec(ls, k, nregs) is Err,
    ensures
        parse_lines_spec(ls, n, nregs) == parse_lines_spec(ls, k, nregs),
    decreases n - k,
{
    if n > k {
        lemma_parse_lines_err(ls, k, (n - 1) as nat, nregs);
    }
}

pub open spec fn stack_view(s: Seq<(u64, Vec<Node>)>) -> Seq<(u64, Seq<NodeV>)> {
    s.map_values(|e: (u64, Vec<Node>)| (e.0, nodes_view(e.1@)))
}

fn push_node(rep_stack: &mut Vec<(u64, Vec<Node>)>, root: &mut Vec<Node>, node: Node)
    ensures
        push_node_spec(PState { root: nodes_view(old(root)@), stack: stack_view(old(rep_stack)@) }, node_view(node))
            == (PState { root: nodes_view(final(root)@), stack: stack_view(final(rep_stack)@) }),
{
    let ghost n = node;
    if rep_stack.len() > 0 {
        let (c, mut b) = rep_stack.pop().unwrap();
        b.push(node);
        proof {
            assert(b@.drop_last() =~= old(rep_stack)@.last().1@);
        }
        rep_stack.push((c, b));
        proof {
            assert(stack_view(rep_stack@) =~= stack_view(old(rep_stack)@).drop_last().push((c, nodes_view(old(rep_stack)@.last().1@).push(node_view(n)))));
        }
    } else {
        root.push(node);
        proof {
            assert(root@.drop_last() =~= old(root)@);
        }
    }
}

pub(crate) fn err_line(lineno: usize, msg: &Vec<char>) -> (s: String)
    requires
        lineno < usize::MAX,
    ensures
        s@ == err_at(lineno as nat, msg@),
{
    let mut m: Vec<char> = Vec::new();
    push_str(&mut m, "строка ");
    push_dec(&mut m, (lineno + 1) as u64);
    push_str(&mut m, ": ");
    extend_chars(&mut m, msg);
    string_of(&m)
}

pub(crate) fn err_line_str(lineno: usize, msg: &str) -> (s: String)
    requires
        lineno < usize::MAX,
    ensures
        s@ == err_at(lineno as nat, msg@),
{
    let v = chars_of(msg);
    err_line(lineno, &v)
}

pub(crate) fn err_line_string(lineno: usize, msg: String) -> (s: String)
    requires
        lineno < usize::MAX,
    ensures
        s@ == err_at(lineno as nat, msg@),
{
    let v = chars_of(msg.as_str());
    err_line(lineno, &v)
}

/// Parse a program from text.
#[verifier::rlimit(40)]
pub fn parse(text: &str, nregs: usize) -> (r: Result<Program, String>)
    ensures
        match parse_spec(text@, nregs as nat) {
            Ok(nodes) => r is Ok && nodes_view(r->Ok_0.nodes@) == nodes && r->Ok_0.nregs == nregs,
            Err(e) => r is Err && r->Err_0@ == e,
        },
{
    let tv = chars_of(text);
    let lines = split_lines(&tv);
    let ghost ls = lines_spec(text@);
    let mut root: Vec<Node> = Vec::new();
    let mut rep_stack: Vec<(u64, Vec<Node>)> = Vec::new();
    let mut k: usize = 0;
    assert(nodes_view(root@) =~= Seq::<NodeV>::empty());
    assert(stack_view(rep_stack@) =~= Seq::<(u64, Seq<NodeV>)>::empty());
    while k < lines.len()
        invariant
            k <= lines@.len(),
            lines@.len() == ls.len(),
            ls == lines_spec(text@),
            forall|j: int| 0 <= j < lines@.len() ==> #[trigger] lines@[j]@ == ls[j],
            parse_lines_spec(ls, k as nat, nregs as nat) == Ok::<PState, Seq<char>>(
                PState { root: nodes_view(root@), stack: stack_view(rep_stack@) },
            ),
        decreases lines@.len() - k,
    {
        let toks = tokens_of_line(&lines[k]);
        let ghost tv_ = line_tokens(ls[k as int]);
        if toks.len() == 0 {
            k += 1;
            continue;
        }
        let ghost st = PState { root: nodes_view(root@), stack: stack_view(rep_stack@) };
        let head = lower_chars(&toks[0]);
        if chars_eq(&head, "rep") {
            if toks.len() != 2 {
                proof {
                    lemma_parse_lines_err(ls, (k + 1) as nat, ls.len(), nregs as nat);
                }
                return Err(err_line_str(k, "rep: ожидается 'rep <count>'"));
            }
            let count = match imm_chars(&toks[1]) {
                Ok(c) => c,
                Err(e) => {
                    proof {
                    lemma_parse_lines_err(ls, (k + 1) as nat, ls.len(), nregs as nat);
                }
                return Err(err_line_string(k, e));
                },
            };
            rep_stack.push((count, Vec::new()));
            proof {
                assert(nodes_view(Seq::<Node>::empty()) =~= Seq::<NodeV>::empty());
                assert(stack_view(rep_stack@) =~= st.stack.push((count, seq![])));
            }
        } else if chars_eq(&head, "end") {
            if toks.len() != 1 {
                proof {
                    lemma_parse_lines_err(ls, (k + 1) as nat, ls.len(), nregs as nat);
                }
                return Err(err_line_str(k, "end: лишние токены"));
            }
            if rep_stack.len() == 0 {
                proof {
                    lemma_parse_lines_err(ls, (k + 1) as nat, ls.len(), nregs as nat);
                }
                return Err(err_line_str(k, "end без rep"));
            }
            let (count, body) = rep_stack.pop().unwrap();
            proof {
                assert(stack_view(rep_stack@) =~= st.stack.drop_last());
            }
            let node = Node::Rep { count, body };
            push_node(&mut rep_stack, &mut root, node);
        } else {
            let mut args: Vec<Vec<char>> = Vec::new();
            let mut a: usize = 1;
            while a < toks.len()
                invariant
                    1 <= a <= toks@.len(),
                    args@.len() == a - 1,
                    forall|j: int| 0 <= j < args@.len() ==> #[trigger] args@[j]@ == toks@[j + 1]@,
                decreases toks@.len() - a,
            {
                args.push(copy_chars(&toks[a]));
                a += 1;
            }
            proof {
                assert(args@.map_values(|x: Vec<char>| x@) =~= tv_.drop_first());
            }
            let inst = match parse_inst(&head, &args, nregs) {
                Ok(i) => i,
                Err(e) => {
                    proof {
                    lemma_parse_lines_err(ls, (k + 1) as nat, ls.len(), nregs as nat);
                }
                return Err(err_line_string(k, e));
                },
            };
            push_node(&mut rep_stack, &mut root, Node::Inst(inst));
        }
        k += 1;
    }
    if rep_stack.len() > 0 {
        let v = chars_of("незакрытый rep");
        return Err(string_of(&v));
    }
    Ok(Program { nodes: root, nregs })
}

pub(crate) fn copy_chars(v: &Vec<char>) -> (out: Vec<char>)
    ensures
        out@ == v@,
{
    let mut out: Vec<char> = Vec::new();
    extend_chars(&mut out, v);
    out
}


// ---------------------------------------------------------------- text form round trip

/// Tokens joined by single spaces.
pub open spec fn spaced(toks: Seq<Seq<char>>) -> Seq<char>
    decreases toks.len(),
{
    if toks.len() == 0 {
        seq![]
    } else if toks.len() == 1 {
        toks[0]
    } else {
        spaced(toks.drop_last()) + seq![' '] + toks.last()
    }
}

/// A register operand as written: `r` and its number.
pub open spec fn reg_token(r: u8) -> Seq<char> {
    seq!['r'] + dec_spec(r as nat)
}

/// The tokens of an instruction's text form: the mnemonic, then the operands.
pub open spec fn inst_tokens(i: Inst) -> Seq<Seq<char>> {
    let m = mnemonic_spec(i);
    match i {
        Inst::Nop => seq![m],
        Inst::Not(r) | Inst::Inc(r) | Inst::Dec(r) => seq![m, reg_token(r)],
        Inst::Xor(a, b) | Inst::Add(a, b) | Inst::Sub(a, b) | Inst::Swap(a, b) | Inst::MAdd(a, b)
        | Inst::MSub(a, b) | Inst::MXor(a, b) | Inst::RAdd(a, b) | Inst::RSub(a, b) => seq![m, reg_token(a), reg_token(b)],
        Inst::RotL(r, k) | Inst::RotR(r, k) => seq![m, reg_token(r), dec_spec(k as nat)],
        Inst::Toff(a, b, c) | Inst::CSwap(a, b, c) => seq![m, reg_token(a), reg_token(b), reg_token(c)],
        Inst::SetReg(r, imm) => seq![m, reg_token(r), hex_min(imm)],
        Inst::MSet(addr, imm) => seq![m, dec_spec(addr as nat), hex_min(imm)],
    }
}

/// Every register operand of `i` is below `nregs`.
pub open spec fn regs_below(i: Inst, nregs: nat) -> bool {
    match i {
        Inst::Nop | Inst::MSet(..) => true,
        Inst::Not(r) | Inst::Inc(r) | Inst::Dec(r) | Inst::RotL(r, _) | Inst::RotR(r, _) | Inst::SetReg(r, _) => (r as nat) < nregs,
        Inst::Xor(a, b) | Inst::Add(a, b) | Inst::Sub(a, b) | Inst::Swap(a, b) | Inst::MAdd(a, b)
        | Inst::MSub(a, b) | Inst::MXor(a, b) | Inst::RAdd(a, b) | Inst::RSub(a, b) => (a as nat) < nregs && (b as nat) < nregs,
        Inst::Toff(a, b, c) | Inst::CSwap(a, b, c) => (a as nat) < nregs && (b as nat) < nregs && (c as nat) < nregs,
    }
}

/// A lower-case letter or a decimal digit.
pub open spec fn plain_char(c: char) -> bool {
    ('a' <= c && c <= 'z') || ('0' <= c && c <= '9')
}

/// Every character of `t` is a lower-case letter or a digit.
pub open spec fn plain(t: Seq<char>) -> bool {
    forall|j: int| 0 <= j < t.len() ==> plain_char(#[trigger] t[j])
}

proof fn lemma_spaced_push(toks: Seq<Seq<char>>, t: Seq<char>)
    requires
        toks.len() > 0,
    ensures
        spaced(toks.push(t)) == spaced(toks) + seq![' '] + t,
{
    assert(toks.push(t).drop_last() =~= toks);
}

proof fn lemma_words_spaced(toks: Seq<Seq<char>>)
    requires
        toks.len() > 0,
        forall|k: int| 0 <= k < toks.len() ==> (#[trigger] toks[k]).len() > 0 && no_ws(toks[k]),
    ensures
        ws_fold(spaced(toks)) == (toks.drop_last(), toks.last()),
        words(spaced(toks)) == toks,
    decreases toks.len(),
{
    if toks.len() == 1 {
        lemma_ws_fold_plain(seq![], toks[0]);
        assert(Seq::<char>::empty() + toks[0] =~= toks[0]);
        assert(toks.drop_last() =~= Seq::<Seq<char>>::empty());
    } else {
        let d = toks.drop_last();
        assert forall|k: int| 0 <= k < d.len() implies (#[trigger] d[k]).len() > 0 && no_ws(d[k]) by {
            assert(d[k] == toks[k]);
        }
        lemma_words_spaced(d);
        let a1 = spaced(d) + seq![' '];
        assert(a1.drop_last() =~= spaced(d));
        assert(is_ws(' '));
        assert(d.drop_last().push(d.last()) =~= d);
        assert(ws_fold(a1) == (d, Seq::<char>::empty()));
        lemma_ws_fold_plain(a1, toks.last());
        assert(Seq::<char>::empty() + toks.last() =~= toks.last());
    }
    assert(toks.drop_last().push(toks.last()) =~= toks);
}

proof fn lemma_spaced_chars(toks: Seq<Seq<char>>)
    requires
        toks.len() > 0,
        forall|k: int| 0 <= k < toks.len() ==> (#[trigger] toks[k]).len() > 0 && plain(toks[k]),
    ensures
        forall|j: int| 0 <= j < spaced(toks).len() ==> plain_char(#[trigger] spaced(toks)[j]) || spaced(toks)[j] == ' ',
        spaced(toks).len() > 0,
        plain_char(spaced(toks).last()),
    decreases toks.len(),
{
    let sp = spaced(toks);
    if toks.len() == 1 {
        assert(plain(toks[0]));
    } else {
        let d = toks.drop_last();
        assert forall|k: int| 0 <= k < d.len() implies (#[trigger] d[k]).len() > 0 && plain(d[k]) by {
            assert(d[k] == toks[k]);
        }
        lemma_spaced_chars(d);
        let a = spaced(d);
        let t = toks.last();
        assert(plain(t));
        assert forall|j: int| 0 <= j < sp.len() implies plain_char(#[trigger] sp[j]) || sp[j] == ' ' by {
            if j < a.len() {
                assert(sp[j] == a[j]);
            } else if j > a.len() {
                assert(sp[j] == t[j - a.len() - 1]);
            }
        }
        assert(sp.last() == t[t.len() - 1]);
    }
}

proof fn lemma_plain_chars(t: Seq<char>)
    requires
        plain(t),
    ensures
        no_ws(t),
{
    assert forall|j: int| 0 <= j < t.len() implies !is_ws(#[trigger] t[j]) by {
        assert(plain_char(t[j]));
    }
}

/// Reading a register operand back.
proof fn lemma_parse_reg_token(r: u8, nregs: nat)
    requires
        (r as nat) < nregs,
    ensures
        parse_reg_spec(reg_token(r), nregs) == Ok::<u8, Seq<char>>(r),
{
    let t = reg_token(r);
    assert(t.skip(1) =~= dec_spec(r as nat));
    lemma_parse_dec(r as nat, usize::MAX as nat);
}

/// Reading a decimal immediate back.
proof fn lemma_parse_imm_dec(n: nat)
    requires
        n <= u64::MAX,
    ensures
        parse_imm_spec(dec_spec(n)) == Ok::<u64, Seq<char>>(n as u64),
{
    let t = dec_spec(n);
    lemma_dec_digits(n);
    assert('0' <= t[0] && t[0] <= '9');
    assert('0' <= t[t.len() - 1] && t[t.len() - 1] <= '9');
    lemma_trim_plain(t);
    if t.len() >= 2 {
        assert('0' <= t[1] && t[1] <= '9');
    }
    lemma_parse_dec(n, max_u64());
}

proof fn lemma_hex_width_fits(n: nat)
    ensures
        hex_width(n) > 0,
        n < pow16(hex_width(n)),
    decreases n,
{
    if n >= 16 {
        lemma_hex_width_fits(n / 16);
        let p = pow16(hex_width(n / 16));
        assert(pow16(hex_width(n)) == 16 * p);
        assert(n < 16 * p) by (nonlinear_arith)
            requires n / 16 < p, n >= 16;
    } else {
        assert(pow16(1) == 16 * pow16(0));
    }
}

/// Reading a `0x` immediate back.
proof fn lemma_parse_imm_hex(v: u64)
    ensures
        parse_imm_spec(hex_min(v)) == Ok::<u64, Seq<char>>(v),
{
    let w = hex_width(v as nat);
    lemma_hex_width_fits(v as nat);
    lemma_hex_digits(v as nat, w);
    let h = hex_spec(v as nat, w);
    let t = hex_min(v);
    assert(is_digit_char(h[h.len() - 1]));
    assert(t[t.len() - 1] == h[h.len() - 1]);
    lemma_trim_plain(t);
    assert(t.skip(2) =~= h);
    lemma_parse_hex(v as nat, w, max_u64());
}

/// The length and first four characters of a word (a space past its end).
pub open spec fn word_sig(t: Seq<char>) -> (nat, char, char, char, char) {
    (t.len(), t[0], t[1], t[2], if t.len() > 3 { t[3] } else { ' ' })
}

/// The mnemonics and block keywords tell apart by their signatures.
proof fn lemma_word_sigs()
    ensures
        word_sig("rep"@) == (3nat, 'r', 'e', 'p', ' '),
        word_sig("end"@) == (3nat, 'e', 'n', 'd', ' '),
        word_sig("nop"@) == (3nat, 'n', 'o', 'p', ' '),
        word_sig("not"@) == (3nat, 'n', 'o', 't', ' '),
        word_sig("inc"@) == (3nat, 'i', 'n', 'c', ' '),
        word_sig("dec"@) == (3nat, 'd', 'e', 'c', ' '),
        word_sig("xor"@) == (3nat, 'x', 'o', 'r', ' '),
        word_sig("add"@) == (3nat, 'a', 'd', 'd', ' '),
        word_sig("sub"@) == (3nat, 's', 'u', 'b', ' '),
        word_sig("swp"@) == (3nat, 's', 'w', 'p', ' '),
        word_sig("madd"@) == (4nat, 'm', 'a', 'd', 'd'),
        word_sig("msub"@) == (4nat, 'm', 's', 'u', 'b'),
        word_sig("mxor"@) == (4nat, 'm', 'x', 'o', 'r'),
        word_sig("rmadd"@) == (5nat, 'r', 'm', 'a', 'd'),
        word_sig("rmsub"@) == (5nat, 'r', 'm', 's', 'u'),
        word_sig("toff"@) == (4nat, 't', 'o', 'f', 'f'),
        word_sig("cswp"@) == (4nat, 'c', 's', 'w', 'p'),
        word_sig("rotl"@) == (4nat, 'r', 'o', 't', 'l'),
        word_sig("rotr"@) == (4nat, 'r', 'o', 't', 'r'),
        word_sig("set"@) == (3nat, 's', 'e', 't', ' '),
        word_sig("mset"@) == (4nat, 'm', 's', 'e', 't'),
{
    reveal_strlit("rep");
    reveal_strlit("end");
    reveal_strlit("nop");
    reveal_strlit("not");
    reveal_strlit("inc");
    reveal_strlit("dec");
    reveal_strlit("xor");
    reveal_strlit("add");
    reveal_strlit("sub");
    reveal_strlit("swp");
    reveal_strlit("madd");
    reveal_strlit("msub");
    reveal_strlit("mxor");
    reveal_strlit("rmadd");
    reveal_strlit("rmsub");
    reveal_strlit("toff");
    reveal_strlit("cswp");
    reveal_strlit("rotl");
    reveal_strlit("rotr");
    reveal_strlit("set");
    reveal_strlit("mset");
}

/// The mnemonics are lower-case words, none of them a block keyword.
proof fn lemma_mnemonic(i: Inst)
    ensures
        mnemonic_spec(i).len() > 0,
        plain(mnemonic_spec(i)),
        lower(mnemonic_spec(i)) == mnemonic_spec(i),
        mnemonic_spec(i) != "rep"@,
        mnemonic_spec(i) != "end"@,
{
    reveal_strlit("rep");
    reveal_strlit("end");
    lemma_word_sigs();
    reveal_strlit("nop");
    reveal_strlit("not");
    reveal_strlit("inc");
    reveal_strlit("dec");
    reveal_strlit("xor");
    reveal_strlit("add");
    reveal_strlit("sub");
    reveal_strlit("swp");
    reveal_strlit("madd");
    reveal_strlit("msub");
    reveal_strlit("mxor");
    reveal_strlit("rmadd");
    reveal_strlit("rmsub");
    reveal_strlit("toff");
    reveal_strlit("cswp");
    reveal_strlit("rotl");
    reveal_strlit("rotr");
    reveal_strlit("set");
    reveal_strlit("mset");
    let m = mnemonic_spec(i);
    assert(plain(m));
    assert(lower(m) =~= m) by {
        assert forall|j: int| 0 <= j < m.len() implies #[trigger] lower(m)[j] == m[j] by {
            assert(plain_char(m[j]));
        }
    }
    assert(m[0] != 'e' && (m.len() != 3 || m[0] != 'r'));
}

/// Every token of an instruction's text form is a non-empty word of
/// lower-case letters and digits, the mnemonic first.
proof fn lemma_tokens_plain(i: Inst)
    ensures
        inst_tokens(i).len() > 0,
        inst_tokens(i)[0] == mnemonic_spec(i),
        forall|k: int| 0 <= k < inst_tokens(i).len() ==> (#[trigger] inst_tokens(i)[k]).len() > 0 && plain(inst_tokens(i)[k]),
{
    lemma_mnemonic(i);
    let toks = inst_tokens(i);
    assert forall|k: int| 0 <= k < toks.len() implies (#[trigger] toks[k]).len() > 0 && plain(toks[k]) by {
        if k > 0 {
            let t = toks[k];
            match i {
                Inst::MSet(addr, imm) => {
                    if k == 1 {
                        lemma_dec_digits(addr as nat);
                    } else {
                        lemma_hex_digits(imm as nat, hex_width(imm as nat));
                        lemma_hex_width_fits(imm as nat);
                        assert forall|j: int| 0 <= j < t.len() implies plain_char(#[trigger] t[j]) by {
                            if j >= 2 {
                                assert(t[j] == hex_spec(imm as nat, hex_width(imm as nat))[j - 2]);
                            }
                        }
                    }
                },
                Inst::SetReg(r, imm) => {
                    if k == 1 {
                        lemma_dec_digits(r as nat);
                        assert forall|j: int| 0 <= j < t.len() implies plain_char(#[trigger] t[j]) by {
                            if j >= 1 {
                                assert(t[j] == dec_spec(r as nat)[j - 1]);
                            }
                        }
                    } else {
                        lemma_hex_digits(imm as nat, hex_width(imm as nat));
                        lemma_hex_width_fits(imm as nat);
                        assert forall|j: int| 0 <= j < t.len() implies plain_char(#[trigger] t[j]) by {
                            if j >= 2 {
                                assert(t[j] == hex_spec(imm as nat, hex_width(imm as nat))[j - 2]);
                            }
                        }
                    }
                },
                Inst::RotL(r, kk) | Inst::RotR(r, kk) => {
                    if k == 1 {
                        lemma_dec_digits(r as nat);
                        assert forall|j: int| 0 <= j < t.len() implies plain_char(#[trigger] t[j]) by {
                            if j >= 1 {
                                assert(t[j] == dec_spec(r as nat)[j - 1]);
                            }
                        }
                    } else {
                        lemma_dec_digits(kk as nat);
                    }
                },
                _ => {
                    let r: u8 = match i {
                        Inst::Not(a) | Inst::Inc(a) | Inst::Dec(a) => a,
                        Inst::Xor(a, b) | Inst::Add(a, b) | Inst::Sub(a, b) | Inst::Swap(a, b) | Inst::MAdd(a, b)
                        | Inst::MSub(a, b) | Inst::MXor(a, b) | Inst::RAdd(a, b) | Inst::RSub(a, b) => if k == 1 { a } else { b },
                        Inst::Toff(a, b, c) | Inst::CSwap(a, b, c) => if k == 1 { a } else if k == 2 { b } else { c },
                        _ => 0,
                    };
                    assert(t == reg_token(r));
                    lemma_dec_digits(r as nat);
                    assert forall|j: int| 0 <= j < t.len() implies plain_char(#[trigger] t[j]) by {
                        if j >= 1 {
                            assert(t[j] == dec_spec(r as nat)[j - 1]);
                        }
                    }
                },
            }
        }
    }
}

/// Each instruction's operand tokens decode back to it.
proof fn lemma_parse_inst_tokens(i: Inst, nregs: nat)
    requires
        regs_below(i, nregs),
    ensures
        parse_inst_spec(mnemonic_spec(i), inst_tokens(i).drop_first(), nregs) == Ok::<Inst, Seq<char>>(i),
{
    match i {
        Inst::Nop | Inst::MSet(..) | Inst::Not(_) | Inst::Inc(_) | Inst::Dec(_) => lemma_parse_small(i, nregs),
        Inst::Xor(..) | Inst::Add(..) | Inst::Sub(..) | Inst::Swap(..) => lemma_parse_rr_alu(i, nregs),
        Inst::MAdd(..) | Inst::MSub(..) | Inst::MXor(..) | Inst::RAdd(..) | Inst::RSub(..) => lemma_parse_rr_mem(i, nregs),
        Inst::Toff(..) | Inst::CSwap(..) => lemma_parse_rrr(i, nregs),
        _ => lemma_parse_wide(i, nregs),
    }
}

#[verifier::rlimit(50)]
proof fn lemma_parse_small(i: Inst, nregs: nat)
    requires
        regs_below(i, nregs),
        i is Nop || i is MSet || i is Not || i is Inc || i is Dec,
    ensures
        parse_inst_spec(mnemonic_spec(i), inst_tokens(i).drop_first(), nregs) == Ok::<Inst, Seq<char>>(i),
{
    lemma_word_sigs();
    let args = inst_tokens(i).drop_first();
    match i {
        Inst::Not(r) | Inst::Inc(r) | Inst::Dec(r) => {
            assert(args =~= seq![reg_token(r)]);
            lemma_parse_reg_token(r, nregs);
        },
        Inst::MSet(addr, imm) => {
            assert(args =~= seq![dec_spec(addr as nat), hex_min(imm)]);
            lemma_parse_imm_dec(addr as nat);
            lemma_parse_imm_hex(imm);
        },
        _ => {},
    }
}

#[verifier::rlimit(50)]
proof fn lemma_parse_rr_alu(i: Inst, nregs: nat)
    requires
        regs_below(i, nregs),
        i is Xor || i is Add || i is Sub || i is Swap,
    ensures
        parse_inst_spec(mnemonic_spec(i), inst_tokens(i).drop_first(), nregs) == Ok::<Inst, Seq<char>>(i),
{
    lemma_word_sigs();
    let args = inst_tokens(i).drop_first();
    match i {
        Inst::Xor(a, b) | Inst::Add(a, b) | Inst::Sub(a, b) | Inst::Swap(a, b) => {
            assert(args =~= seq![reg_token(a), reg_token(b)]);
            lemma_parse_reg_token(a, nregs);
            lemma_parse_reg_token(b, nregs);
        },
        _ => {},
    }
}

#[verifier::rlimit(50)]
proof fn lemma_parse_rr_mem(i: Inst, nregs: nat)
    requires
        regs_below(i, nregs),
        i is MAdd || i is MSub || i is MXor || i is RAdd || i is RSub,
    ensures
        parse_inst_spec(mnemonic_spec(i), inst_tokens(i).drop_first(), nregs) == Ok::<Inst, Seq<char>>(i),
{
    lemma_word_sigs();
    let args = inst_tokens(i).drop_first();
    match i {
        Inst::MAdd(a, b) | Inst::MSub(a, b) | Inst::MXor(a, b) | Inst::RAdd(a, b) | Inst::RSub(a, b) => {
            assert(args =~= seq![reg_token(a), reg_token(b)]);
            lemma_parse_reg_token(a, nregs);
            lemma_parse_reg_token(b, nregs);
        },
        _ => {},
    }
}

#[verifier::rlimit(50)]
proof fn lemma_parse_wide(i: Inst, nregs: nat)
    requires
        regs_below(i, nregs),
        i is RotL || i is RotR || i is SetReg,
    ensures
        parse_inst_spec(mnemonic_spec(i), inst_tokens(i).drop_first(), nregs) == Ok::<Inst, Seq<char>>(i),
{
    lemma_word_sigs();
    let args = inst_tokens(i).drop_first();
    match i {
        Inst::RotL(r, k) | Inst::RotR(r, k) => {
            assert(args =~= seq![reg_token(r), dec_spec(k as nat)]);
            lemma_parse_reg_token(r, nregs);
            lemma_parse_imm_dec(k as nat);
        },
        Inst::SetReg(r, imm) => {
            assert(args =~= seq![reg_token(r), hex_min(imm)]);
            lemma_parse_reg_token(r, nregs);
            lemma_parse_imm_hex(imm);
        },
        _ => {},
    }
}

#[verifier::rlimit(50)]
proof fn lemma_parse_rrr(i: Inst, nregs: nat)
    requires
        regs_below(i, nregs),
        i is Toff || i is CSwap,
    ensures
        parse_inst_spec(mnemonic_spec(i), inst_tokens(i).drop_first(), nregs) == Ok::<Inst, Seq<char>>(i),
{
    lemma_word_sigs();
    let args = inst_tokens(i).drop_first();
    match i {
        Inst::Toff(a, b, c) | Inst::CSwap(a, b, c) => {
            assert(args =~= seq![reg_token(a), reg_token(b), reg_token(c)]);
            lemma_parse_reg_token(a, nregs);
            lemma_parse_reg_token(b, nregs);
            lemma_parse_reg_token(c, nregs);
        },
        _ => {},
    }
}

/// The text form is the tokens joined by single spaces.
proof fn lemma_text_tokens(i: Inst)
    ensures
        text_spec(i) == spaced(inst_tokens(i)),
{
    let m = mnemonic_spec(i);
    let s1 = seq![m];
    assert(spaced(s1) == m);
    match i {
        Inst::Nop => {
            assert(text_spec(i) =~= m);
        },
        Inst::Not(r) | Inst::Inc(r) | Inst::Dec(r) => {
            lemma_spaced_push(s1, reg_token(r));
            assert(s1.push(reg_token(r)) =~= inst_tokens(i));
            assert(text_spec(i) =~= m + seq![' '] + reg_token(r));
        },
        Inst::Xor(a, b) | Inst::Add(a, b) | Inst::Sub(a, b) | Inst::Swap(a, b) | Inst::MAdd(a, b)
        | Inst::MSub(a, b) | Inst::MXor(a, b) | Inst::RAdd(a, b) | Inst::RSub(a, b) => {
            let s2 = s1.push(reg_token(a));
            lemma_spaced_push(s1, reg_token(a));
            lemma_spaced_push(s2, reg_token(b));
            assert(s2.push(reg_token(b)) =~= inst_tokens(i));
            assert(text_spec(i) =~= m + seq![' '] + reg_token(a) + seq![' '] + reg_token(b));
        },
        Inst::RotL(r, k) | Inst::RotR(r, k) => {
            let s2 = s1.push(reg_token(r));
            lemma_spaced_push(s1, reg_token(r));
            lemma_spaced_push(s2, dec_spec(k as nat));
            assert(s2.push(dec_spec(k as nat)) =~= inst_tokens(i));
            assert(text_spec(i) =~= m + seq![' '] + reg_token(r) + seq![' '] + dec_spec(k as nat));
        },
        Inst::Toff(a, b, c) | Inst::CSwap(a, b, c) => {
            let s2 = s1.push(reg_token(a));
            let s3 = s2.push(reg_token(b));
            lemma_spaced_push(s1, reg_token(a));
            lemma_spaced_push(s2, reg_token(b));
            lemma_spaced_push(s3, reg_token(c));
            assert(s3.push(reg_token(c)) =~= inst_tokens(i));
            assert(text_spec(i) =~= m + seq![' '] + reg_token(a) + seq![' '] + reg_token(b) + seq![' '] + reg_token(c));
        },
        Inst::SetReg(r, imm) => {
            let s2 = s1.push(reg_token(r));
            lemma_spaced_push(s1, reg_token(r));
            lemma_spaced_push(s2, hex_min(imm));
            assert(s2.push(hex_min(imm)) =~= inst_tokens(i));
            assert(text_spec(i) =~= m + seq![' '] + reg_token(r) + seq![' '] + hex_min(imm));
        },
        Inst::MSet(addr, imm) => {
            let s2 = s1.push(dec_spec(addr as nat));
            lemma_spaced_push(s1, dec_spec(addr as nat));
            lemma_spaced_push(s2, hex_min(imm));
            assert(s2.push(hex_min(imm)) =~= inst_tokens(i));
            assert(text_spec(i) =~= m + seq![' '] + dec_spec(addr as nat) + seq![' '] + hex_min(imm));
        },
    }
}

/// Law: an instruction's text form parses back to it. The line `text_spec(i)`
/// followed by a newline is the program holding `i` alone, whenever its
/// register operands are below the register count.
pub proof fn law_parse_text_form(i: Inst, nregs: nat)
    requires
        regs_below(i, nregs),
    ensures
        parse_spec(text_spec(i) + seq!['\n'], nregs) == Ok::<Seq<NodeV>, Seq<char>>(seq![NodeV::Inst(i)]),
{
    let toks = inst_tokens(i);
    let t = text_spec(i);
    lemma_text_tokens(i);
    lemma_parse_inst_tokens(i, nregs);
    lemma_mnemonic(i);
    lemma_tokens_plain(i);
    lemma_spaced_chars(toks);
    assert forall|k: int| 0 <= k < toks.len() implies (#[trigger] toks[k]).len() > 0 && no_ws(toks[k]) by {
        lemma_plain_chars(toks[k]);
    }
    lemma_words_spaced(toks);
    assert(no_char(t, '\n')) by {
        assert forall|j: int| 0 <= j < t.len() implies t[j] != '\n' by {
            assert(plain_char(t[j]) || t[j] == ' ');
        }
    }
    assert(t.last() != '\r');
    let ls = seq![t];
    assert(join_nl(ls) == t);
    lemma_lines_join_nl(ls);
    assert forall|j: int| 0 <= j < t.len() implies t[j] != '#' by {
        assert(plain_char(t[j]) || t[j] == ' ');
    }
    lemma_cut_at(t, '#', t.len() as int);
    assert(t.take(t.len() as int) =~= t);
    assert(line_tokens(t) == toks);
    let st0 = PState { root: seq![], stack: seq![] };
    assert(parse_lines_spec(ls, 0, nregs) == Ok::<PState, Seq<char>>(st0));
    assert(toks.drop_first() == toks.drop_first());
    assert(parse_line_spec(st0, toks, 0, nregs) == Ok::<PState, Seq<char>>(push_node_spec(st0, NodeV::Inst(i))));
    assert(push_node_spec(st0, NodeV::Inst(i)).root =~= seq![NodeV::Inst(i)]);
}


/// One line of the text form: a text without newline, not ending in a
/// carriage return, whose tokens parse as the instruction.
proof fn lemma_line_of(i: Inst, nregs: nat)
    requires
        regs_below(i, nregs),
    ensures
        no_char(text_spec(i), '\n'),
        text_spec(i).len() > 0,
        text_spec(i).last() != '\r',
        line_tokens(text_spec(i)) == inst_tokens(i),
        inst_tokens(i).len() > 0,
        forall|st: PState, lineno: nat| #[trigger] parse_line_spec(st, inst_tokens(i), lineno, nregs)
            == Ok::<PState, Seq<char>>(push_node_spec(st, NodeV::Inst(i))),
{
    let toks = inst_tokens(i);
    let t = text_spec(i);
    lemma_text_tokens(i);
    lemma_parse_inst_tokens(i, nregs);
    lemma_mnemonic(i);
    lemma_tokens_plain(i);
    lemma_spaced_chars(toks);
    assert forall|k: int| 0 <= k < toks.len() implies (#[trigger] toks[k]).len() > 0 && no_ws(toks[k]) by {
        lemma_plain_chars(toks[k]);
    }
    lemma_words_spaced(toks);
    assert(no_char(t, '\n')) by {
        assert forall|j: int| 0 <= j < t.len() implies t[j] != '\n' by {
            assert(plain_char(t[j]) || t[j] == ' ');
        }
    }
    assert forall|j: int| 0 <= j < t.len() implies t[j] != '#' by {
        assert(plain_char(t[j]) || t[j] == ' ');
    }
    lemma_cut_at(t, '#', t.len() as int);
    assert(t.take(t.len() as int) =~= t);
    assert forall|st: PState, lineno: nat| #[trigger] parse_line_spec(st, toks, lineno, nregs)
        == Ok::<PState, Seq<char>>(push_node_spec(st, NodeV::Inst(i))) by {
        assert(toks.drop_first() == toks.drop_first());
    }
}

/// Lines, each followed by a newline.
pub open spec fn lines_text(ls: Seq<Seq<char>>) -> Seq<char>
    decreases ls.len(),
{
    if ls.len() == 0 {
        seq![]
    } else {
        lines_text(ls.drop_last()) + (ls.last() + seq!['\n'])
    }
}

proof fn lemma_lines_text_join(ls: Seq<Seq<char>>)
    requires
        ls.len() > 0,
    ensures
        lines_text(ls) == join_nl(ls) + seq!['\n'],
    decreases ls.len(),
{
    if ls.len() == 1 {
        assert(ls.drop_last() =~= Seq::<Seq<char>>::empty());
        assert(ls.last() == ls[0]);
        assert(lines_text(ls.drop_last()) == Seq::<char>::empty());
        assert(lines_text(ls) =~= join_nl(ls) + seq!['\n']);
    } else {
        lemma_lines_text_join(ls.drop_last());
        assert(lines_text(ls) =~= join_nl(ls) + seq!['\n']);
    }
}

/// Law: a kernel written in the text form, one instruction per line, parses
/// back to it, whenever its register operands are below the register count.
pub proof fn law_parse_text_lines(is: Seq<Inst>, nregs: nat)
    requires
        is.len() > 0,
        forall|k: int| 0 <= k < is.len() ==> regs_below(#[trigger] is[k], nregs),
    ensures
        parse_spec(lines_text(is.map_values(|i: Inst| text_spec(i))), nregs)
            == Ok::<Seq<NodeV>, Seq<char>>(is.map_values(|i: Inst| NodeV::Inst(i))),
{
    let ts = is.map_values(|i: Inst| text_spec(i));
    assert forall|k: int| 0 <= k < ts.len() implies no_char(#[trigger] ts[k], '\n') && !(ts[k].len() > 0 && ts[k].last() == '\r') by {
        lemma_line_of(is[k], nregs);
    }
    lemma_lines_text_join(ts);
    lemma_lines_join_nl(ts);
    assert forall|k: nat| k <= ts.len() implies #[trigger] parse_lines_spec(ts, k, nregs)
        == Ok::<PState, Seq<char>>(PState { root: is.take(k as int).map_values(|i: Inst| NodeV::Inst(i)), stack: seq![] }) by {
        lemma_parse_lines_prefix(is, ts, k, nregs);
    }
    assert(parse_lines_spec(ts, ts.len(), nregs) == Ok::<PState, Seq<char>>(
        PState { root: is.take(ts.len() as int).map_values(|i: Inst| NodeV::Inst(i)), stack: seq![] }));
    assert(is.take(ts.len() as int) =~= is);
}

proof fn lemma_parse_lines_prefix(is: Seq<Inst>, ts: Seq<Seq<char>>, k: nat, nregs: nat)
    requires
        ts == is.map_values(|i: Inst| text_spec(i)),
        k <= ts.len(),
        forall|j: int| 0 <= j < is.len() ==> regs_below(#[trigger] is[j], nregs),
    ensures
        parse_lines_spec(ts, k, nregs)
            == Ok::<PState, Seq<char>>(PState { root: is.take(k as int).map_values(|i: Inst| NodeV::Inst(i)), stack: seq![] }),
    decreases k,
{
    if k == 0 {
        assert(is.take(0).map_values(|i: Inst| NodeV::Inst(i)) =~= Seq::<NodeV>::empty());
    } else {
        lemma_parse_lines_prefix(is, ts, (k - 1) as nat, nregs);
        let x = is[k - 1];
        lemma_line_of(x, nregs);
        assert(ts[k - 1] == text_spec(x));
        let st = PState { root: is.take(k - 1).map_values(|i: Inst| NodeV::Inst(i)), stack: seq![] };
        assert(parse_line_spec(st, inst_tokens(x), (k - 1) as nat, nregs) == Ok::<PState, Seq<char>>(push_node_spec(st, NodeV::Inst(x))));
        assert(is.take(k as int).map_values(|i: Inst| NodeV::Inst(i)) =~= st.root.push(NodeV::Inst(x)));
    }
}

} // verus!
