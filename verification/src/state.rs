//! Machine state: a file of `u64` registers plus word-addressed `u64` memory.
use vstd::prelude::*;
use crate::text::{chars_of, dec_spec, dec_chars, extend_chars, hex_spec, hex_chars, string_of};

verus! {

/// The register file and the linear word memory.
#[derive(Debug, Clone, PartialEq, Eq)]
pub struct State {
    pub regs: Vec<u64>,
    /// Linear memory (u64 words), used by madd/msub/mxor/rmadd/rmsub/mset.
    pub mem: Vec<u64>,
}

/// Mathematical value of a `State`.
pub ghost struct StateV {
    pub regs: Seq<u64>,
    pub mem: Seq<u64>,
}

impl View for State {
    type V = StateV;

    open spec fn view(&self) -> StateV {
        StateV { regs: self.regs@, mem: self.mem@ }
    }
}

/// FNV-1a 64 offset basis.
pub const FNV_OFFSET: u64 = 0xcbf2_9ce4_8422_2325u64;

/// FNV-1a 64 prime.
pub const FNV_PRIME: u64 = 0x100000001b3u64;

/// One FNV-1a mixing step over a 64-bit word.
pub open spec fn fnv_mix(h: u64, w: u64) -> u64 {
    vstd::wrapping::u64_specs::wrapping_mul(h ^ w, FNV_PRIME)
}

/// FNV-1a fold of a sequence of words, starting from `h`.
pub open spec fn fnv_words(h: u64, ws: Seq<u64>) -> u64
    decreases ws.len(),
{
    if ws.len() == 0 {
        h
    } else {
        fnv_mix(fnv_words(h, ws.drop_last()), ws.last())
    }
}

/// One xorshift64* draw: (next internal state, output).
pub open spec fn xorshift(x: u64) -> (u64, u64) {
    let a = x ^ (x >> 12u64);
    let b = a ^ (a << 25u64);
    let c = b ^ (b >> 27u64);
    (c, vstd::wrapping::u64_specs::wrapping_mul(c, 0x2545_F491_4F6C_DD1Du64))
}

/// The internal xorshift state after `n` draws from `x`.
pub open spec fn xorshift_after(x: u64, n: nat) -> u64
    decreases n,
{
    if n == 0 {
        x
    } else {
        xorshift(xorshift_after(x, (n - 1) as nat)).0
    }
}

/// The first `n` outputs of xorshift64* started at `x`.
pub open spec fn xorshift_stream(x: u64, n: nat) -> Seq<u64>
    decreases n,
{
    if n == 0 {
        seq![]
    } else {
        xorshift_stream(x, (n - 1) as nat).push(xorshift(xorshift_after(x, (n - 1) as nat)).1)
    }
}

/// The seed actually used by `State::random` (`seed.max(1)`).
pub open spec fn seed_of(seed: u64) -> u64 {
    if seed == 0 {
        1
    } else {
        seed
    }
}

/// Hash-chain step: `FNV(chain ^ hash)` from the offset basis xored with `prev`.
pub open spec fn chain_step_spec(prev: u64, state_hash: u64) -> u64 {
    fnv_mix(FNV_OFFSET ^ prev, state_hash)
}

/// Text of `r{i}=0x{:016x}` entries joined by single spaces.
pub open spec fn regs_text(regs: Seq<u64>) -> Seq<char>
    decreases regs.len(),
{
    if regs.len() == 0 {
        seq![]
    } else if regs.len() == 1 {
        reg_entry(0, regs[0])
    } else {
        regs_text(regs.drop_last()) + seq![' '] + reg_entry((regs.len() - 1) as nat, regs.last())
    }
}

pub open spec fn reg_entry(i: nat, v: u64) -> Seq<char> {
    seq!['r'] + dec_spec(i) + seq!['=', '0', 'x'] + hex_spec(v as nat, 16)
}

pub open spec fn mem_entry(i: nat, v: u64) -> Seq<char> {
    seq!['m', '['] + dec_spec(i) + seq![']', '=', '0', 'x'] + hex_spec(v as nat, 16) + seq![' ']
}

/// The first `k` memory entries, each `m[i]=0x{:016x} `.
pub open spec fn mem_entries(mem: Seq<u64>, k: nat) -> Seq<char>
    decreases k,
{
    if k == 0 {
        seq![]
    } else {
        mem_entries(mem, (k - 1) as nat) + mem_entry((k - 1) as nat, mem[k - 1])
    }
}

/// What `fmt_mem` shows for a memory of the given words.
pub open spec fn fmt_mem_spec(mem: Seq<u64>, max: nat) -> Seq<char> {
    let n = mem.len();
    if n == 0 {
        "(память не выделена, --mem N)"@
    } else {
        let shown = if n < max { n } else { max };
        if n > shown {
            mem_entries(mem, shown) + "… (всего "@ + dec_spec(n) + " слов)"@
        } else {
            mem_entries(mem, shown)
        }
    }
}

impl State {
    /// All-zero registers and memory of the given sizes.
    pub fn new(nregs: usize, nmem: usize) -> (s: State)
        ensures
            s@.regs == Seq::new(nregs as nat, |i: int| 0u64),
            s@.mem == Seq::new(nmem as nat, |i: int| 0u64),
    {
        let s = State { regs: vec![0u64; nregs], mem: vec![0u64; nmem] };
        assert(s@.regs =~= Seq::new(nregs as nat, |i: int| 0u64));
        assert(s@.mem =~= Seq::new(nmem as nat, |i: int| 0u64));
        s
    }

    pub fn nregs(&self) -> (n: usize)
        ensures
            n == self.regs@.len(),
    {
        self.regs.len()
    }

    pub fn nmem(&self) -> (n: usize)
        ensures
            n == self.mem@.len(),
    {
        self.mem.len()
    }

    pub fn get(&self, r: u8) -> (v: u64)
        requires
            (r as int) < self.regs@.len(),
        ensures
            v == self.regs@[r as int],
    {
        self.regs[r as usize]
    }

    pub fn set(&mut self, r: u8, v: u64)
        requires
            (r as int) < old(self).regs@.len(),
        ensures
            final(self).regs@ == old(self).regs@.update(r as int, v),
            final(self).mem@ == old(self).mem@,
    {
        self.regs.set(r as usize, v);
    }

    /// Deterministic pseudo-random registers and memory (xorshift64*):
    /// the first `nregs` draws fill the registers, the next `nmem` the memory.
    pub fn random(nregs: usize, nmem: usize, seed: u64) -> (s: State)
        ensures
            s@.regs == xorshift_stream(seed_of(seed), nregs as nat),
            s@.mem == xorshift_stream(xorshift_after(seed_of(seed), nregs as nat), nmem as nat),
    {
        let mut x: u64 = if seed == 0 { 1 } else { seed };
        let x0 = x;
        let mut regs: Vec<u64> = Vec::new();
        let mut i: usize = 0;
        while i < nregs
            invariant
                i <= nregs,
                regs@ == xorshift_stream(x0, i as nat),
                x == xorshift_after(x0, i as nat),
            decreases nregs - i,
        {
            x ^= x >> 12;
            x ^= x << 25;
            x ^= x >> 27;
            regs.push(x.wrapping_mul(0x2545_F491_4F6C_DD1D));
            i += 1;
        }
        let x1 = x;
        let mut mem: Vec<u64> = Vec::new();
        let mut j: usize = 0;
        while j < nmem
            invariant
                j <= nmem,
                mem@ == xorshift_stream(x1, j as nat),
                x == xorshift_after(x1, j as nat),
            decreases nmem - j,
        {
            x ^= x >> 12;
            x ^= x << 25;
            x ^= x >> 27;
            mem.push(x.wrapping_mul(0x2545_F491_4F6C_DD1D));
            j += 1;
        }
        State { regs, mem }
    }

    /// FNV-1a 64 over the registers, then the memory.
    pub fn hash(&self) -> (h: u64)
        ensures
            h == fnv_words(fnv_words(FNV_OFFSET, self.regs@), self.mem@),
    {
        let mut h: u64 = FNV_OFFSET;
        let mut i: usize = 0;
        while i < self.regs.len()
            invariant
                i <= self.regs@.len(),
                h == fnv_words(FNV_OFFSET, self.regs@.take(i as int)),
            decreases self.regs@.len() - i,
        {
            proof {
                assert(self.regs@.take(i + 1).drop_last() =~= self.regs@.take(i as int));
            }
            h = (h ^ self.regs[i]).wrapping_mul(FNV_PRIME);
            i += 1;
        }
        assert(self.regs@.take(i as int) =~= self.regs@);
        let h1 = h;
        let mut j: usize = 0;
        while j < self.mem.len()
            invariant
                j <= self.mem@.len(),
                h == fnv_words(h1, self.mem@.take(j as int)),
            decreases self.mem@.len() - j,
        {
            proof {
                assert(self.mem@.take(j + 1).drop_last() =~= self.mem@.take(j as int));
            }
            h = (h ^ self.mem[j]).wrapping_mul(FNV_PRIME);
            j += 1;
        }
        assert(self.mem@.take(j as int) =~= self.mem@);
        h
    }

    /// One step of the hash chain: `chain' = FNV(chain xor hash(state))`.
    pub fn chain_step(prev: u64, state_hash: u64) -> (h: u64)
        ensures
            h == chain_step_spec(prev, state_hash),
    {
        let h = FNV_OFFSET ^ prev;
        (h ^ state_hash).wrapping_mul(FNV_PRIME)
    }

    /// `r0=0x… r1=0x…`: every register as 16 hex digits, space-separated.
    pub fn render(&self) -> (out: String)
        ensures
            out@ == regs_text(self.regs@),
    {
        let mut v: Vec<char> = Vec::new();
        let mut i: usize = 0;
        while i < self.regs.len()
            invariant
                i <= self.regs@.len(),
                v@ == regs_text(self.regs@.take(i as int)),
            decreases self.regs@.len() - i,
        {
            if i > 0 {
                v.push(' ');
            }
            let e = reg_entry_chars(i as u64, self.regs[i]);
            extend_chars(&mut v, &e);
            proof {
                let t = self.regs@.take(i + 1);
                assert(t.drop_last() =~= self.regs@.take(i as int));
            }
            i += 1;
        }
        assert(self.regs@.take(i as int) =~= self.regs@);
        string_of(&v)
    }
}

pub(crate) fn reg_entry_chars(i: u64, w: u64) -> (v: Vec<char>)
    ensures
        v@ == reg_entry(i as nat, w),
{
    let mut v: Vec<char> = Vec::new();
    v.push('r');
    let d = dec_chars(i);
    extend_chars(&mut v, &d);
    v.push('=');
    v.push('0');
    v.push('x');
    let h = hex_chars(w, 16);
    extend_chars(&mut v, &h);
    assert(v@ =~= reg_entry(i as nat, w));
    v
}

fn mem_entry_chars(i: u64, w: u64) -> (v: Vec<char>)
    ensures
        v@ == mem_entry(i as nat, w),
{
    let mut v: Vec<char> = Vec::new();
    v.push('m');
    v.push('[');
    let d = dec_chars(i);
    extend_chars(&mut v, &d);
    v.push(']');
    v.push('=');
    v.push('0');
    v.push('x');
    let h = hex_chars(w, 16);
    extend_chars(&mut v, &h);
    v.push(' ');
    assert(v@ =~= mem_entry(i as nat, w));
    v
}

/// Memory for display: up to `max` words, with an ellipsis and the total when more.
pub fn fmt_mem(state: &State, max: usize) -> (out: String)
    ensures
        out@ == fmt_mem_spec(state.mem@, max as nat),
{
    let n = state.mem.len();
    if n == 0 {
        let c = chars_of("(память не выделена, --mem N)");
        return string_of(&c);
    }
    let shown = if n < max { n } else { max };
    let mut v: Vec<char> = Vec::new();
    let mut i: usize = 0;
    while i < shown
        invariant
            i <= shown,
            shown <= n,
            n == state.mem@.len(),
            v@ == mem_entries(state.mem@, i as nat),
        decreases shown - i,
    {
        let e = mem_entry_chars(i as u64, state.mem[i]);
        extend_chars(&mut v, &e);
        i += 1;
    }
    if n > shown {
        let a = chars_of("… (всего ");
        extend_chars(&mut v, &a);
        let d = dec_chars(n as u64);
        extend_chars(&mut v, &d);
        let b = chars_of(" слов)");
        extend_chars(&mut v, &b);
    }
    string_of(&v)
}

} // verus!
