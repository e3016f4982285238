//! The phase-vm instruction set.
//!
//! Every instruction writes exactly one destination (a register or a memory
//! word) and leaves all its sources untouched, so its inverse can be computed
//! from the current state alone. `Set` and `MSet` destroy the old value with no
//! source: they are the boundaries.
use vstd::prelude::*;
use crate::bits::{rotl, rotr, rotate_left, rotate_right, lemma_rot_inverse};
use crate::state::{State, StateV};
use crate::text::{dec_spec, extend_chars, hex_spec, hex_chars, push_dec, push_str, string_of};

verus! {

#[derive(Debug, Clone, Copy, PartialEq, Eq, Structural)]
pub enum Inst {
    Nop,
    /// `r = !r`: its own inverse.
    Not(u8),
    /// `r += 1` (wrapping): inverse `Dec`.
    Inc(u8),
    /// `r -= 1` (wrapping): inverse `Inc`.
    Dec(u8),
    /// `d ^= s`: its own inverse; needs `d != s`.
    Xor(u8, u8),
    /// `d += s` (wrapping): inverse `Sub`; needs `d != s`.
    Add(u8, u8),
    /// `d -= s` (wrapping): inverse `Add`; needs `d != s`.
    Sub(u8, u8),
    /// `swap(a, b)`: its own inverse.
    Swap(u8, u8),
    /// `r = rotl(r, k)`: inverse `RotR(r, k)`.
    RotL(u8, u32),
    /// `r = rotr(r, k)`: inverse `RotL(r, k)`.
    RotR(u8, u32),
    /// `t ^= c1 & c2`: its own inverse; `t` must not alias `c1`/`c2`.
    Toff(u8, u8, u8),
    /// If bit 0 of `c`: `swap(a, b)`. Its own inverse; `c` must not alias `a`/`b`.
    CSwap(u8, u8, u8),
    /// `r = imm` (text mnemonic `set`): a boundary (destroys the old value).
    SetReg(u8, u64),
    /// `mem[r_i] += r_v`: inverse `MSub`.
    MAdd(u8, u8),
    /// `mem[r_i] -= r_v`: inverse `MAdd`.
    MSub(u8, u8),
    /// `mem[r_i] ^= r_v`: its own inverse.
    MXor(u8, u8),
    /// `r += mem[r_i]`: inverse `RSub`.
    RAdd(u8, u8),
    /// `r -= mem[r_i]`: inverse `RAdd`.
    RSub(u8, u8),
    /// `mem[addr] = imm`: a boundary.
    MSet(u64, u64),
}

/// The inverse instruction; `None` for the boundaries.
pub open spec fn inverse_spec(i: Inst) -> Option<Inst> {
    match i {
        Inst::Nop => Some(Inst::Nop),
        Inst::Not(r) => Some(Inst::Not(r)),
        Inst::Inc(r) => Some(Inst::Dec(r)),
        Inst::Dec(r) => Some(Inst::Inc(r)),
        Inst::Xor(d, s) => Some(Inst::Xor(d, s)),
        Inst::Add(d, s) => Some(Inst::Sub(d, s)),
        Inst::Sub(d, s) => Some(Inst::Add(d, s)),
        Inst::Swap(a, b) => Some(Inst::Swap(a, b)),
        Inst::RotL(r, k) => Some(Inst::RotR(r, k)),
        Inst::RotR(r, k) => Some(Inst::RotL(r, k)),
        Inst::Toff(a, b, t) => Some(Inst::Toff(a, b, t)),
        Inst::CSwap(c, a, b) => Some(Inst::CSwap(c, a, b)),
        Inst::MAdd(a, v) => Some(Inst::MSub(a, v)),
        Inst::MSub(a, v) => Some(Inst::MAdd(a, v)),
        Inst::MXor(a, v) => Some(Inst::MXor(a, v)),
        Inst::RAdd(r, a) => Some(Inst::RSub(r, a)),
        Inst::RSub(r, a) => Some(Inst::RAdd(r, a)),
        Inst::SetReg(..) => None,
        Inst::MSet(..) => None,
    }
}

/// The operand aliasing that makes an instruction non-bijective, with its reason.
pub open spec fn alias_spec(i: Inst) -> Option<Seq<char>> {
    match i {
        Inst::Xor(d, s) | Inst::Add(d, s) | Inst::Sub(d, s) => if d == s {
            Some("dst == src: операция небиективна"@)
        } else {
            None
        },
        Inst::Toff(c1, c2, t) => if t == c1 || t == c2 {
            Some("target алиасит control: небиективно"@)
        } else {
            None
        },
        Inst::CSwap(c, a, b) => if c == a || c == b {
            Some("control алиасит переставляемый регистр: небиективно"@)
        } else {
            None
        },
        Inst::MAdd(a, v) | Inst::MSub(a, v) | Inst::MXor(a, v) => if a == v {
            Some("index == value: mem[..] ^= mem[..]-индекс сам себя портит"@)
        } else {
            None
        },
        Inst::RAdd(r, a) | Inst::RSub(r, a) => if r == a {
            Some("reg == index: небиективно"@)
        } else {
            None
        },
        _ => None,
    }
}

/// Has an inverse and no operand aliasing: can be rolled back.
pub open spec fn invertible(i: Inst) -> bool {
    inverse_spec(i).is_some() && alias_spec(i).is_none()
}

pub open spec fn reg_msg(r: u8, n: nat) -> Seq<char> {
    "регистр r"@ + dec_spec(r as nat) + " вне диапазона ("@ + dec_spec(n) + ")"@
}

pub open spec fn mem_msg(idx: u64, n: nat) -> Seq<char> {
    "адрес памяти "@ + dec_spec(idx as nat) + " вне диапазона ("@ + dec_spec(n) + ")"@
}

/// The range error for register operand `r`, if any.
pub open spec fn reg_check(s: StateV, r: u8) -> Option<Seq<char>> {
    if (r as int) < s.regs.len() {
        None
    } else {
        Some(reg_msg(r, s.regs.len()))
    }
}

/// The first of two possible errors.
pub open spec fn first_err(x: Option<Seq<char>>, y: Option<Seq<char>>) -> Option<Seq<char>> {
    if x.is_some() {
        x
    } else {
        y
    }
}

pub open spec fn mem_ok(s: StateV, idx: u64) -> bool {
    (idx as int) < s.mem.len()
}

/// The error `exec` reports, checking operands in the order the machine reads
/// them; `None` when every operand is in range.
pub open spec fn operand_error(i: Inst, s: StateV) -> Option<Seq<char>> {
    match i {
        Inst::Nop => None,
        Inst::Not(r) | Inst::Inc(r) | Inst::Dec(r) | Inst::RotL(r, _) | Inst::RotR(r, _) | Inst::SetReg(r, _) =>
            reg_check(s, r),
        Inst::Xor(a, b) | Inst::Add(a, b) | Inst::Sub(a, b) | Inst::Swap(a, b) => first_err(reg_check(s, a), reg_check(s, b)),
        Inst::Toff(a, b, c) | Inst::CSwap(a, b, c) => first_err(reg_check(s, a), first_err(reg_check(s, b), reg_check(s, c))),
        Inst::MAdd(a, v) | Inst::MSub(a, v) | Inst::MXor(a, v) => if (a as int) >= s.regs.len() {
            Some(reg_msg(a, s.regs.len()))
        } else if !mem_ok(s, s.regs[a as int]) {
            Some(mem_msg(s.regs[a as int], s.mem.len()))
        } else {
            reg_check(s, v)
        },
        Inst::RAdd(r, a) | Inst::RSub(r, a) => if (r as int) >= s.regs.len() {
            Some(reg_msg(r, s.regs.len()))
        } else if (a as int) >= s.regs.len() {
            Some(reg_msg(a, s.regs.len()))
        } else if !mem_ok(s, s.regs[a as int]) {
            Some(mem_msg(s.regs[a as int], s.mem.len()))
        } else {
            None
        },
        Inst::MSet(addr, _) => if mem_ok(s, addr) {
            None
        } else {
            Some(mem_msg(addr, s.mem.len()))
        },
    }
}

pub open spec fn wadd(x: u64, y: u64) -> u64 {
    vstd::wrapping::u64_specs::wrapping_add(x, y)
}

pub open spec fn wsub(x: u64, y: u64) -> u64 {
    vstd::wrapping::u64_specs::wrapping_sub(x, y)
}

pub open spec fn set_reg(s: StateV, r: u8, v: u64) -> StateV {
    StateV { regs: s.regs.update(r as int, v), mem: s.mem }
}

pub open spec fn set_mem(s: StateV, a: u64, v: u64) -> StateV {
    StateV { regs: s.regs, mem: s.mem.update(a as int, v) }
}

pub open spec fn swap_regs(s: StateV, a: u8, b: u8) -> StateV {
    StateV { regs: s.regs.update(a as int, s.regs[b as int]).update(b as int, s.regs[a as int]), mem: s.mem }
}

/// The effect of an instruction whose operands are all in range.
pub open spec fn effect(i: Inst, s: StateV) -> StateV {
    let g = |r: u8| s.regs[r as int];
    match i {
        Inst::Nop => s,
        Inst::Not(r) => set_reg(s, r, !g(r)),
        Inst::Inc(r) => set_reg(s, r, wadd(g(r), 1)),
        Inst::Dec(r) => set_reg(s, r, wsub(g(r), 1)),
        Inst::Xor(d, x) => set_reg(s, d, g(d) ^ g(x)),
        Inst::Add(d, x) => set_reg(s, d, wadd(g(d), g(x))),
        Inst::Sub(d, x) => set_reg(s, d, wsub(g(d), g(x))),
        Inst::Swap(a, b) => swap_regs(s, a, b),
        Inst::RotL(r, k) => set_reg(s, r, rotl(g(r), k)),
        Inst::RotR(r, k) => set_reg(s, r, rotr(g(r), k)),
        Inst::Toff(c1, c2, t) => set_reg(s, t, g(t) ^ (g(c1) & g(c2))),
        Inst::CSwap(c, a, b) => if g(c) & 1 == 1 {
            swap_regs(s, a, b)
        } else {
            s
        },
        Inst::SetReg(r, imm) => set_reg(s, r, imm),
        Inst::MAdd(a, v) => set_mem(s, g(a), wadd(s.mem[g(a) as int], g(v))),
        Inst::MSub(a, v) => set_mem(s, g(a), wsub(s.mem[g(a) as int], g(v))),
        Inst::MXor(a, v) => set_mem(s, g(a), s.mem[g(a) as int] ^ g(v)),
        Inst::RAdd(r, a) => set_reg(s, r, wadd(g(r), s.mem[g(a) as int])),
        Inst::RSub(r, a) => set_reg(s, r, wsub(g(r), s.mem[g(a) as int])),
        Inst::MSet(addr, imm) => set_mem(s, addr, imm),
    }
}

/// Forward execution of one instruction: `None` when an operand is out of range.
pub open spec fn step(i: Inst, s: StateV) -> Option<StateV> {
    if operand_error(i, s).is_none() {
        Some(effect(i, s))
    } else {
        None
    }
}

/// The mnemonic used by the text format.
pub open spec fn mnemonic_spec(i: Inst) -> Seq<char> {
    match i {
        Inst::Nop => "nop"@,
        Inst::Not(_) => "not"@,
        Inst::Inc(_) => "inc"@,
        Inst::Dec(_) => "dec"@,
        Inst::Xor(..) => "xor"@,
        Inst::Add(..) => "add"@,
        Inst::Sub(..) => "sub"@,
        Inst::Swap(..) => "swp"@,
        Inst::RotL(..) => "rotl"@,
        Inst::RotR(..) => "rotr"@,
        Inst::Toff(..) => "toff"@,
        Inst::CSwap(..) => "cswp"@,
        Inst::SetReg(..) => "set"@,
        Inst::MAdd(..) => "madd"@,
        Inst::MSub(..) => "msub"@,
        Inst::MXor(..) => "mxor"@,
        Inst::RAdd(..) => "rmadd"@,
        Inst::RSub(..) => "rmsub"@,
        Inst::MSet(..) => "mset"@,
    }
}

pub open spec fn reg_text(r: u8) -> Seq<char> {
    seq![' ', 'r'] + dec_spec(r as nat)
}

/// Lower-case hex with a `0x` prefix and no leading zeros (`{:#x}`).
pub open spec fn hex_min(v: u64) -> Seq<char> {
    seq!['0', 'x'] + hex_spec(v as nat, hex_width(v as nat))
}

/// Number of hex digits of `v` (at least one).
pub open spec fn hex_width(v: nat) -> nat
    decreases v,
{
    if v < 16 {
        1
    } else {
        1 + hex_width(v / 16)
    }
}

/// The text form of an instruction (`Display`).
pub open spec fn text_spec(i: Inst) -> Seq<char> {
    mnemonic_spec(i) + match i {
        Inst::Nop => seq![],
        Inst::Not(r) | Inst::Inc(r) | Inst::Dec(r) => reg_text(r),
        Inst::Xor(a, b) | Inst::Add(a, b) | Inst::Sub(a, b) | Inst::Swap(a, b) | Inst::MAdd(a, b)
        | Inst::MSub(a, b) | Inst::MXor(a, b) | Inst::RAdd(a, b) | Inst::RSub(a, b) => reg_text(a) + reg_text(b),
        Inst::RotL(r, k) | Inst::RotR(r, k) => reg_text(r) + seq![' '] + dec_spec(k as nat),
        Inst::Toff(a, b, c) | Inst::CSwap(a, b, c) => reg_text(a) + reg_text(b) + reg_text(c),
        Inst::SetReg(r, imm) => reg_text(r) + seq![' '] + hex_min(imm),
        Inst::MSet(addr, imm) => seq![' '] + dec_spec(addr as nat) + seq![' '] + hex_min(imm),
    }
}

fn push_reg(v: &mut Vec<char>, r: u8)
    ensures
        final(v)@ == old(v)@ + reg_text(r),
{
    v.push(' ');
    v.push('r');
    push_dec(v, r as u64);
    assert(v@ =~= old(v)@ + reg_text(r));
}

fn hex_width_of(v: u64) -> (w: u64)
    ensures
        w == hex_width(v as nat),
        w <= 16,
    decreases v,
{
    if v < 16 {
        1
    } else {
        proof {
            lemma_hex_width_bound(v as nat);
        }
        1 + hex_width_of(v / 16)
    }
}

proof fn lemma_hex_width_bound(v: nat)
    requires
        v <= u64::MAX,
    ensures
        hex_width(v) <= 16,
{
    reveal_with_fuel(pow16n, 17);
    assert(pow16n(16) == 0x1_0000_0000_0000_0000);
    lemma_hex_width_pow(v, 16);
}

spec fn pow16n(d: nat) -> nat
    decreases d,
{
    if d == 0 {
        1
    } else {
        16 * pow16n((d - 1) as nat)
    }
}

spec fn hex_width_lt(n: nat, d: nat) -> bool {
    d >= 1 ==> hex_width(n) <= d
}

proof fn lemma_hex_width_pow(n: nat, d: nat)
    requires
        n < pow16n(d),
    ensures
        hex_width_lt(n, d),
    decreases d,
{
    if d >= 1 {
        assert(pow16n(d) == 16 * pow16n((d - 1) as nat));
    }
    if d == 1 {
        assert(pow16n(0) == 1);
    }
    if d > 1 && n >= 16 {
        let p = pow16n((d - 1) as nat);
        assert(n / 16 < p) by (nonlinear_arith)
            requires n < 16 * p;
        lemma_hex_width_pow(n / 16, (d - 1) as nat);
    }
}

fn push_hex_min(v: &mut Vec<char>, x: u64)
    ensures
        final(v)@ == old(v)@ + hex_min(x),
{
    v.push('0');
    v.push('x');
    let w = hex_width_of(x);
    let h = hex_chars(x, w);
    extend_chars(v, &h);
    assert(v@ =~= old(v)@ + hex_min(x));
}

fn reg_index(state: &State, r: u8) -> (res: Result<usize, String>)
    ensures
        match res {
            Ok(i) => i == r as usize && (r as int) < state@.regs.len(),
            Err(e) => (r as int) >= state@.regs.len() && e@ == reg_msg(r, state@.regs.len()),
        },
{
    let n = state.regs.len();
    if (r as usize) >= n {
        let mut v: Vec<char> = Vec::new();
        push_str(&mut v, "регистр r");
        push_dec(&mut v, r as u64);
        push_str(&mut v, " вне диапазона (");
        push_dec(&mut v, n as u64);
        push_str(&mut v, ")");
        return Err(string_of(&v));
    }
    Ok(r as usize)
}

fn mem_index(state: &State, idx: u64) -> (res: Result<usize, String>)
    ensures
        match res {
            Ok(i) => i as int == idx as int && mem_ok(state@, idx),
            Err(e) => !mem_ok(state@, idx) && e@ == mem_msg(idx, state@.mem.len()),
        },
{
    let n = state.mem.len();
    if idx >= n as u64 {
        let mut v: Vec<char> = Vec::new();
        push_str(&mut v, "адрес памяти ");
        push_dec(&mut v, idx);
        push_str(&mut v, " вне диапазона (");
        push_dec(&mut v, n as u64);
        push_str(&mut v, ")");
        return Err(string_of(&v));
    }
    Ok(idx as usize)
}

fn swap_in(v: &mut Vec<u64>, i: usize, j: usize)
    requires
        i < old(v)@.len(),
        j < old(v)@.len(),
    ensures
        final(v)@ == old(v)@.update(i as int, old(v)@[j as int]).update(j as int, old(v)@[i as int]),
{
    let a = v[i];
    let b = v[j];
    v.set(i, b);
    v.set(j, a);
}

impl Inst {
    /// The inverse instruction; `None` for the boundaries (`Set`, `MSet`).
    pub fn inverse(self) -> (r: Option<Inst>)
        ensures
            r == inverse_spec(self),
    {
        match self {
            Inst::Nop => Some(Inst::Nop),
            Inst::Not(r) => Some(Inst::Not(r)),
            Inst::Inc(r) => Some(Inst::Dec(r)),
            Inst::Dec(r) => Some(Inst::Inc(r)),
            Inst::Xor(d, s) => Some(Inst::Xor(d, s)),
            Inst::Add(d, s) => Some(Inst::Sub(d, s)),
            Inst::Sub(d, s) => Some(Inst::Add(d, s)),
            Inst::Swap(a, b) => Some(Inst::Swap(a, b)),
            Inst::RotL(r, k) => Some(Inst::RotR(r, k)),
            Inst::RotR(r, k) => Some(Inst::RotL(r, k)),
            Inst::Toff(a, b, t) => Some(Inst::Toff(a, b, t)),
            Inst::CSwap(c, a, b) => Some(Inst::CSwap(c, a, b)),
            Inst::MAdd(a, v) => Some(Inst::MSub(a, v)),
            Inst::MSub(a, v) => Some(Inst::MAdd(a, v)),
            Inst::MXor(a, v) => Some(Inst::MXor(a, v)),
            Inst::RAdd(r, a) => Some(Inst::RSub(r, a)),
            Inst::RSub(r, a) => Some(Inst::RAdd(r, a)),
            Inst::SetReg(..) => None,
            Inst::MSet(..) => None,
        }
    }

    pub fn is_irreversible(&self) -> (b: bool)
        ensures
            b == (*self is SetReg || *self is MSet),
    {
        match self {
            Inst::SetReg(..) | Inst::MSet(..) => true,
            _ => false,
        }
    }

    /// Operand aliasing that makes the operation non-bijective.
    pub fn operand_alias(&self) -> (r: Option<&'static str>)
        ensures
            r.is_some() == alias_spec(*self).is_some(),
            r.is_some() ==> r.unwrap()@ == alias_spec(*self).unwrap(),
    {
        match *self {
            Inst::Xor(d, s) | Inst::Add(d, s) | Inst::Sub(d, s) => if d == s {
                Some("dst == src: операция небиективна")
            } else {
                None
            },
            Inst::Toff(c1, c2, t) => if t == c1 || t == c2 {
                Some("target алиасит control: небиективно")
            } else {
                None
            },
            Inst::CSwap(c, a, b) => if c == a || c == b {
                Some("control алиасит переставляемый регистр: небиективно")
            } else {
                None
            },
            Inst::MAdd(a, v) | Inst::MSub(a, v) | Inst::MXor(a, v) => if a == v {
                Some("index == value: mem[..] ^= mem[..]-индекс сам себя портит")
            } else {
                None
            },
            Inst::RAdd(r, a) | Inst::RSub(r, a) => if r == a {
                Some("reg == index: небиективно")
            } else {
                None
            },
            _ => None,
        }
    }

    /// Apply the instruction to the state (forward direction). On an operand
    /// out of range the state is left unchanged and the error names it.
    pub fn exec(&self, state: &mut State) -> (r: Result<(), String>)
        ensures
            match step(*self, old(state)@) {
                Some(t) => r is Ok && final(state)@ == t,
                None => r is Err && final(state)@ == old(state)@
                    && r->Err_0@ == operand_error(*self, old(state)@).unwrap(),
            },
    {
        let ghost s0 = state@;
        match *self {
            Inst::Nop => {},
            Inst::Not(r) => {
                let i = reg_index(state, r)?;
                let x = state.regs[i];
                state.regs.set(i, !x);
            },
            Inst::Inc(r) => {
                let i = reg_index(state, r)?;
                let x = state.regs[i];
                state.regs.set(i, x.wrapping_add(1));
            },
            Inst::Dec(r) => {
                let i = reg_index(state, r)?;
                let x = state.regs[i];
                state.regs.set(i, x.wrapping_sub(1));
            },
            Inst::Xor(d, s) => {
                let i = reg_index(state, d)?;
                let j = reg_index(state, s)?;
                let x = state.regs[i] ^ state.regs[j];
                state.regs.set(i, x);
            },
            Inst::Add(d, s) => {
                let i = reg_index(state, d)?;
                let j = reg_index(state, s)?;
                let x = state.regs[i].wrapping_add(state.regs[j]);
                state.regs.set(i, x);
            },
            Inst::Sub(d, s) => {
                let i = reg_index(state, d)?;
                let j = reg_index(state, s)?;
                let x = state.regs[i].wrapping_sub(state.regs[j]);
                state.regs.set(i, x);
            },
            Inst::Swap(a, b) => {
                let i = reg_index(state, a)?;
                let j = reg_index(state, b)?;
                swap_in(&mut state.regs, i, j);
            },
            Inst::RotL(r, k) => {
                let i = reg_index(state, r)?;
                let x = rotate_left(state.regs[i], k);
                state.regs.set(i, x);
            },
            Inst::RotR(r, k) => {
                let i = reg_index(state, r)?;
                let x = rotate_right(state.regs[i], k);
                state.regs.set(i, x);
            },
            Inst::Toff(c1, c2, t) => {
                let i = reg_index(state, c1)?;
                let j = reg_index(state, c2)?;
                let k = reg_index(state, t)?;
                let x = state.regs[k] ^ (state.regs[i] & state.regs[j]);
                state.regs.set(k, x);
            },
            Inst::CSwap(c, a, b) => {
                let i = reg_index(state, c)?;
                let j = reg_index(state, a)?;
                let k = reg_index(state, b)?;
                if state.regs[i] & 1 == 1 {
                    swap_in(&mut state.regs, j, k);
                }
            },
            Inst::SetReg(r, imm) => {
                let i = reg_index(state, r)?;
                state.regs.set(i, imm);
            },
            Inst::MAdd(a, v) => {
                let ia = reg_index(state, a)?;
                let i = mem_index(state, state.regs[ia])?;
                let j = reg_index(state, v)?;
                let x = state.mem[i].wrapping_add(state.regs[j]);
                state.mem.set(i, x);
            },
            Inst::MSub(a, v) => {
                let ia = reg_index(state, a)?;
                let i = mem_index(state, state.regs[ia])?;
                let j = reg_index(state, v)?;
                let x = state.mem[i].wrapping_sub(state.regs[j]);
                state.mem.set(i, x);
            },
            Inst::MXor(a, v) => {
                let ia = reg_index(state, a)?;
                let i = mem_index(state, state.regs[ia])?;
                let j = reg_index(state, v)?;
                let x = state.mem[i] ^ state.regs[j];
                state.mem.set(i, x);
            },
            Inst::RAdd(r, a) => {
                let j = reg_index(state, r)?;
                let ia = reg_index(state, a)?;
                let i = mem_index(state, state.regs[ia])?;
                let x = state.regs[j].wrapping_add(state.mem[i]);
                state.regs.set(j, x);
            },
            Inst::RSub(r, a) => {
                let j = reg_index(state, r)?;
                let ia = reg_index(state, a)?;
                let i = mem_index(state, state.regs[ia])?;
                let x = state.regs[j].wrapping_sub(state.mem[i]);
                state.regs.set(j, x);
            },
            Inst::MSet(addr, imm) => {
                let i = mem_index(state, addr)?;
                state.mem.set(i, imm);
            },
        }
        assert(state@.regs =~= effect(*self, s0).regs);
        assert(state@.mem =~= effect(*self, s0).mem);
        Ok(())
    }

    /// The mnemonic of the text format.
    pub fn mnemonic(&self) -> (m: &'static str)
        ensures
            m@ == mnemonic_spec(*self),
    {
        match self {
            Inst::Nop => "nop",
            Inst::Not(_) => "not",
            Inst::Inc(_) => "inc",
            Inst::Dec(_) => "dec",
            Inst::Xor(..) => "xor",
            Inst::Add(..) => "add",
            Inst::Sub(..) => "sub",
            Inst::Swap(..) => "swp",
            Inst::RotL(..) => "rotl",
            Inst::RotR(..) => "rotr",
            Inst::Toff(..) => "toff",
            Inst::CSwap(..) => "cswp",
            Inst::SetReg(..) => "set",
            Inst::MAdd(..) => "madd",
            Inst::MSub(..) => "msub",
            Inst::MXor(..) => "mxor",
            Inst::RAdd(..) => "rmadd",
            Inst::RSub(..) => "rmsub",
            Inst::MSet(..) => "mset",
        }
    }

    /// The text form, e.g. `add r0 r1`, `set r2 0xff`, `mset 3 0x2a`.
    pub fn text(&self) -> (out: Vec<char>)
        ensures
            out@ == text_spec(*self),
    {
        let mut v: Vec<char> = Vec::new();
        push_str(&mut v, self.mnemonic());
        match *self {
            Inst::Nop => {},
            Inst::Not(r) | Inst::Inc(r) | Inst::Dec(r) => push_reg(&mut v, r),
            Inst::Xor(a, b) | Inst::Add(a, b) | Inst::Sub(a, b) | Inst::Swap(a, b) | Inst::MAdd(a, b)
            | Inst::MSub(a, b) | Inst::MXor(a, b) | Inst::RAdd(a, b) | Inst::RSub(a, b) => {
                push_reg(&mut v, a);
                push_reg(&mut v, b);
            },
            Inst::RotL(r, k) | Inst::RotR(r, k) => {
                push_reg(&mut v, r);
                v.push(' ');
                push_dec(&mut v, k as u64);
            },
            Inst::Toff(a, b, c) | Inst::CSwap(a, b, c) => {
                push_reg(&mut v, a);
                push_reg(&mut v, b);
                push_reg(&mut v, c);
            },
            Inst::SetReg(r, imm) => {
                push_reg(&mut v, r);
                v.push(' ');
                push_hex_min(&mut v, imm);
            },
            Inst::MSet(addr, imm) => {
                v.push(' ');
                push_dec(&mut v, addr);
                v.push(' ');
                push_hex_min(&mut v, imm);
            },
        }
        assert(v@ =~= text_spec(*self));
        v
    }

    /// The text form as a `String` (what `Display` shows).
    pub fn to_text(&self) -> (out: String)
        ensures
            out@ == text_spec(*self),
    {
        let v = self.text();
        string_of(&v)
    }
}

} // verus!

verus! {

proof fn lemma_word_facts(x: u64, y: u64)
    ensures
        !(!x) == x,
        (x ^ y) ^ y == x,
        wsub(wadd(x, y), y) == x,
        wadd(wsub(x, y), y) == x,
{
    assert(!(!x) == x) by (bit_vector);
    assert((x ^ y) ^ y == x) by (bit_vector);
}

/// Law: the conditional swap. `cswp c a b` with its operands in range
/// exchanges registers `a` and `b` exactly when bit 0 of register `c` is set,
/// and otherwise changes nothing; no other register and no memory word moves.
pub proof fn law_cswap(c: u8, a: u8, b: u8, s: StateV)
    requires
        step(Inst::CSwap(c, a, b), s) is Some,
    ensures
        ({
            let t = step(Inst::CSwap(c, a, b), s).unwrap();
            &&& (c as int) < s.regs.len() && (a as int) < s.regs.len() && (b as int) < s.regs.len()
            &&& t.mem == s.mem
            &&& t.regs.len() == s.regs.len()
            &&& s.regs[c as int] % 2 == 1 ==> t.regs[a as int] == s.regs[b as int] && t.regs[b as int] == s.regs[a as int]
            &&& s.regs[c as int] % 2 == 1 ==> forall|j: int| 0 <= j < s.regs.len() && j != a && j != b ==> #[trigger] t.regs[j] == s.regs[j]
            &&& s.regs[c as int] % 2 == 0 ==> t == s
        }),
{
    let x = s.regs[c as int];
    assert(x & 1 == x % 2) by (bit_vector);
}

/// The inverse is computable from the current state alone: for an
/// instruction with an inverse and no operand aliasing that ran, running
/// its inverse on the result gives back exactly the state it started from.
pub proof fn law_inverse_undoes(i: Inst, s: StateV)
    requires
        invertible(i),
        step(i, s) is Some,
    ensures
        step(inverse_spec(i).unwrap(), step(i, s).unwrap()) == Some(s),
{
    let t = step(i, s).unwrap();
    let j = inverse_spec(i).unwrap();
    match i {
        Inst::Not(r) => {
            lemma_word_facts(s.regs[r as int], 0);
        },
        Inst::Inc(r) | Inst::Dec(r) => {
            lemma_word_facts(s.regs[r as int], 1);
        },
        Inst::Xor(d, x) | Inst::Add(d, x) | Inst::Sub(d, x) => {
            lemma_word_facts(s.regs[d as int], s.regs[x as int]);
        },
        Inst::RotL(r, k) | Inst::RotR(r, k) => {
            lemma_rot_inverse(s.regs[r as int], k);
        },
        Inst::Toff(c1, c2, tt) => {
            lemma_word_facts(s.regs[tt as int], s.regs[c1 as int] & s.regs[c2 as int]);
        },
        Inst::MAdd(a, v) | Inst::MSub(a, v) | Inst::MXor(a, v) => {
            lemma_word_facts(s.mem[s.regs[a as int] as int], s.regs[v as int]);
        },
        Inst::RAdd(r, a) | Inst::RSub(r, a) => {
            lemma_word_facts(s.regs[r as int], s.mem[s.regs[a as int] as int]);
        },
        _ => {},
    }
    assert(step(j, t).unwrap().regs =~= s.regs);
    assert(step(j, t).unwrap().mem =~= s.mem);
}

} // verus!
