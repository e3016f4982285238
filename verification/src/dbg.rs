//! The debugger's decisions: a cursor over the expanded leaf stream that
//! steps forward by executing leaves and back by executing their inverses,
//! with breakpoints, and the reply to each command line. Reading the lines
//! and printing the replies is the caller's loop.
use vstd::prelude::*;
use crate::check::{ViolationKind, ViolationV, check, violations_spec};
use crate::cli::{dec_u64, dec_u64_exec};
use crate::inst::{Inst, inverse_spec, invertible, law_inverse_undoes, step, text_spec};
use crate::lex::{chars_eq, from_str_radix, from_str_radix_spec, split_words, words};
use crate::machine::{back_error, back_msg, count_leaves, inv_prefix, leaf_at, leaf_error, leaf_msg, leaves, reversible_suffix_len};
use crate::program::Node;
use crate::state::{State, StateV, fmt_mem, fmt_mem_spec, reg_entry, reg_entry_chars, regs_text};
use crate::text::{chars_of, dec_spec, extend_chars, push_dec, push_str, string_of};

verus! {

/// A debugging session: the program, its leaf count, the number of leaves
/// executed so far, the state they produced, and the breakpoints.
pub struct Dbg {
    nodes: Vec<Node>,
    total: u64,
    pos: u64,
    s: State,
    breaks: Vec<u64>,
}

/// Mathematical value of a session.
pub ghost struct DbgV {
    pub ls: Seq<Inst>,
    pub pos: nat,
    pub s: StateV,
    pub breaks: Seq<u64>,
}

/// Where a walk through the stream ended, and the error that stopped it.
pub ghost struct Walk {
    pub pos: nat,
    pub s: StateV,
    pub err: Option<Seq<char>>,
}

/// Execute up to `n` leaves from `pos`, stopping at the end of the stream or
/// at a leaf whose operands are out of range.
pub open spec fn fwd_walk(ls: Seq<Inst>, pos: nat, s: StateV, n: nat) -> Walk
    decreases n,
{
    if n == 0 || pos >= ls.len() {
        Walk { pos, s, err: None }
    } else {
        match step(ls[pos as int], s) {
            Some(t) => fwd_walk(ls, pos + 1, t, (n - 1) as nat),
            None => Walk { pos, s, err: Some(leaf_msg(pos, ls[pos as int], s)) },
        }
    }
}

/// `"лист #k (leaf) — граница: …"`: stepping back over a leaf with no inverse.
pub open spec fn boundary_msg(k: nat, leaf: Inst) -> Seq<char> {
    "лист #"@ + dec_spec(k) + " ("@ + text_spec(leaf) + ") — граница: откат через set/mset требует лога/чекпоинта"@
}

/// Undo up to `n` leaves before `pos`, stopping at the start, at a leaf that
/// is not invertible, or at an inverse whose operands are out of range.
pub open spec fn back_walk(ls: Seq<Inst>, pos: nat, s: StateV, n: nat) -> Walk
    decreases n,
{
    if n == 0 || pos == 0 || pos > ls.len() {
        Walk { pos, s, err: None }
    } else {
        let leaf = ls[pos - 1];
        if !invertible(leaf) {
            Walk { pos, s, err: Some(boundary_msg((pos - 1) as nat, leaf)) }
        } else {
            let inv = inverse_spec(leaf).unwrap();
            match step(inv, s) {
                Some(t) => back_walk(ls, (pos - 1) as nat, t, (n - 1) as nat),
                None => Walk { pos, s, err: Some(back_msg((pos - 1) as nat, inv, s)) },
            }
        }
    }
}

/// Where `continue` stops, and whether a breakpoint stopped it.
pub ghost struct Cont {
    pub w: Walk,
    pub hit: bool,
}

/// Execute until a breakpoint (before its leaf runs), the end, or an error.
pub open spec fn cont_walk(ls: Seq<Inst>, pos: nat, s: StateV, breaks: Seq<u64>) -> Cont
    decreases ls.len() - pos,
{
    if pos <= u64::MAX && breaks.contains(pos as u64) {
        Cont { w: Walk { pos, s, err: None }, hit: true }
    } else if pos >= ls.len() {
        Cont { w: Walk { pos, s, err: None }, hit: false }
    } else {
        match step(ls[pos as int], s) {
            Some(t) => cont_walk(ls, pos + 1, t, breaks),
            None => Cont { w: Walk { pos, s, err: Some(leaf_msg(pos, ls[pos as int], s)) }, hit: false },
        }
    }
}

proof fn lemma_cont_err_no_hit(ls: Seq<Inst>, pos: nat, s: StateV, breaks: Seq<u64>)
    ensures
        cont_walk(ls, pos, s, breaks).w.err is Some ==> !cont_walk(ls, pos, s, breaks).hit,
    decreases ls.len() - pos,
{
    if pos <= u64::MAX && breaks.contains(pos as u64) {
    } else if pos >= ls.len() {
    } else {
        match step(ls[pos as int], s) {
            Some(t) => lemma_cont_err_no_hit(ls, pos + 1, t, breaks),
            None => {},
        }
    }
}

/// Move the cursor to `target`, forward or back.
pub open spec fn goto_walk(ls: Seq<Inst>, pos: nat, s: StateV, target: nat) -> Walk {
    if target > pos {
        fwd_walk(ls, pos, s, (target - pos) as nat)
    } else if target < pos {
        back_walk(ls, pos, s, (pos - target) as nat)
    } else {
        Walk { pos, s, err: None }
    }
}

/// The session after a walk.
pub open spec fn with_walk(d: DbgV, w: Walk) -> DbgV {
    DbgV { pos: w.pos, s: w.s, ..d }
}

/// `1, 2, 3`.
pub open spec fn items_text(bs: Seq<u64>) -> Seq<char>
    decreases bs.len(),
{
    if bs.len() == 0 {
        seq![]
    } else if bs.len() == 1 {
        dec_spec(bs[0] as nat)
    } else {
        items_text(bs.drop_last()) + ", "@ + dec_spec(bs.last() as nat)
    }
}

/// `[1, 2, 3]`: a list of breakpoints as `{:?}` shows it.
pub open spec fn list_text(bs: Seq<u64>) -> Seq<char> {
    "["@ + items_text(bs) + "]"@
}

/// The status line.
pub open spec fn describe_spec(d: DbgV) -> Seq<char> {
    "pos="@ + dec_spec(d.pos) + "/"@ + dec_spec(d.ls.len()) + " листьев | откатываемый суффикс="@
        + dec_spec(inv_prefix(d.ls.reverse())) + " | брейкпоинты="@ + list_text(d.breaks)
}

/// `  лист #k: reason` for each aliasing violation, in stream order.
pub open spec fn alias_lines(vs: Seq<ViolationV>) -> Seq<Seq<char>>
    decreases vs.len(),
{
    if vs.len() == 0 {
        seq![]
    } else if vs.last().kind == ViolationKind::Alias {
        alias_lines(vs.drop_last()).push("  лист #"@ + dec_spec(vs.last().leaf) + ": "@ + vs.last().reason)
    } else {
        alias_lines(vs.drop_last())
    }
}

pub open spec fn alias_header() -> Seq<char> {
    "программа содержит небиективные инструкции (алиасинг) — отладка невозможна:"@
}

/// Why a program cannot be debugged.
pub enum Refusal {
    /// The leaf stream does not fit the position counter.
    TooLong,
    /// Some leaf aliases its operands, so it has no inverse to step back
    /// through: the header and a line per such leaf.
    Aliasing(Vec<String>),
}

impl View for Dbg {
    type V = DbgV;

    closed spec fn view(&self) -> DbgV {
        DbgV { ls: leaves(self.nodes@), pos: self.pos as nat, s: self.s@, breaks: self.breaks@ }
    }
}

impl Dbg {
    /// The leaf count is the stream's length and the cursor lies within it.
    pub closed spec fn wf(&self) -> bool {
        &&& leaves(self.nodes@).len() < u64::MAX
        &&& self.total as nat == leaves(self.nodes@).len()
        &&& self.pos <= self.total
    }

    /// A session at the start of the program, from state `s`.
    pub fn new(nodes: Vec<Node>, s: State) -> (d: Dbg)
        requires
            leaves(nodes@).len() < u64::MAX,
        ensures
            d.wf(),
            d@ == (DbgV { ls: leaves(nodes@), pos: 0, s: s@, breaks: seq![] }),
    {
        let total = count_leaves(&nodes);
        Dbg { nodes, total, pos: 0, s, breaks: Vec::new() }
    }

    /// Open a session, refusing a program with an aliasing leaf (a step back
    /// over it could not be undone) or one too long to count.
    pub fn open(nodes: Vec<Node>, s: State) -> (r: Result<Dbg, Refusal>)
        ensures
            ({
                let ls = leaves(nodes@);
                let al = alias_lines(violations_spec(ls, 0));
                if ls.len() >= u64::MAX {
                    r matches Err(Refusal::TooLong)
                } else if al.len() > 0 {
                    r matches Err(Refusal::Aliasing(lines)) && strings(lines@) == seq![alias_header()] + al
                } else {
                    r matches Ok(d) && d.wf() && d@ == (DbgV { ls, pos: 0, s: s@, breaks: seq![] })
                }
            }),
    {
        let total = count_leaves(&nodes);
        if total == u64::MAX {
            return Err(Refusal::TooLong);
        }
        let rep = check(&nodes);
        let ghost vs = violations_spec(leaves(nodes@), 0);
        let ghost rv = rep.violations@.map_values(|v: crate::check::Violation| crate::check::violation_view(v));
        assert(rv == vs);
        let mut lines = none();
        let h = chars_of("программа содержит небиективные инструкции (алиасинг) — отладка невозможна:");
        push_string(&mut lines, &h);
        let mut any = false;
        let mut i: usize = 0;
        assert(vs.take(0) =~= Seq::<ViolationV>::empty());
        while i < rep.violations.len()
            invariant
                i <= rep.violations@.len(),
                rv == rep.violations@.map_values(|v: crate::check::Violation| crate::check::violation_view(v)),
                rv == vs,
                strings(lines@) == seq![alias_header()] + alias_lines(vs.take(i as int)),
                any == (alias_lines(vs.take(i as int)).len() > 0),
            decreases rep.violations@.len() - i,
        {
            proof {
                let t = vs.take(i as int + 1);
                assert(t.drop_last() =~= vs.take(i as int));
                assert(t.last() == crate::check::violation_view(rep.violations@[i as int]));
            }
            let v = &rep.violations[i];
            if v.kind == ViolationKind::Alias {
                let mut m: Vec<char> = Vec::new();
                push_str(&mut m, "  лист #");
                push_dec(&mut m, v.leaf);
                push_str(&mut m, ": ");
                let rc = chars_of(v.reason.as_str());
                extend_chars(&mut m, &rc);
                let ghost before = strings(lines@);
                push_string(&mut lines, &m);
                proof {
                    assert(strings(lines@) =~= seq![alias_header()] + alias_lines(vs.take(i as int + 1)));
                }
                any = true;
            }
            i += 1;
        }
        assert(vs.take(i as int) =~= vs);
        if any {
            return Err(Refusal::Aliasing(lines));
        }
        Ok(Dbg::new(nodes, s))
    }

    /// The number of leaves executed.
    pub fn pos(&self) -> (p: u64)
        ensures
            p as nat == self@.pos,
    {
        self.pos
    }

    /// The number of leaves in the stream.
    pub fn total(&self) -> (t: u64)
        requires
            self.wf(),
        ensures
            t as nat == self@.ls.len(),
    {
        self.total
    }

    /// The current state.
    pub fn state(&self) -> (s: &State)
        ensures
            s@ == self@.s,
    {
        &self.s
    }

    /// The breakpoints, in the order they were set.
    pub fn breaks(&self) -> (b: &[u64])
        ensures
            b@ == self@.breaks,
    {
        self.breaks.as_slice()
    }

    /// The next leaf to execute, if any.
    pub fn cur_inst(&self) -> (r: Option<Inst>)
        requires
            self.wf(),
        ensures
            self@.pos < self@.ls.len() ==> r == Some(self@.ls[self@.pos as int]),
            self@.pos >= self@.ls.len() ==> r is None,
    {
        leaf_at(&self.nodes, self.pos)
    }

    /// Execute up to `n` leaves.
    pub fn step_fwd(&mut self, n: u64) -> (r: Result<(), String>)
        requires
            old(self).wf(),
        ensures
            final(self).wf(),
            ({
                let w = fwd_walk(old(self)@.ls, old(self)@.pos, old(self)@.s, n as nat);
                &&& final(self)@ == with_walk(old(self)@, w)
                &&& (r is Ok <==> w.err is None)
                &&& (r is Err ==> w.err == Some(r->Err_0@))
            }),
    {
        let mut k: u64 = 0;
        while k < n
            invariant
                self.wf(),
                k <= n,
                self@.ls == old(self)@.ls,
                self@.breaks == old(self)@.breaks,
                fwd_walk(old(self)@.ls, old(self)@.pos, old(self)@.s, n as nat) == fwd_walk(self@.ls, self@.pos, self@.s, (n - k) as nat),
            decreases n - k,
        {
            if self.pos >= self.total {
                return Ok(());
            }
            let inst = match leaf_at(&self.nodes, self.pos) {
                Some(i) => i,
                None => {
                    return Ok(());
                },
            };
            match inst.exec(&mut self.s) {
                Ok(()) => {},
                Err(e) => {
                    return Err(leaf_error(self.pos, inst, e));
                },
            }
            self.pos = self.pos + 1;
            k = k + 1;
        }
        Ok(())
    }

    /// Undo up to `n` leaves by executing their inverses.
    pub fn step_back(&mut self, n: u64) -> (r: Result<(), String>)
        requires
            old(self).wf(),
        ensures
            final(self).wf(),
            ({
                let w = back_walk(old(self)@.ls, old(self)@.pos, old(self)@.s, n as nat);
                &&& final(self)@ == with_walk(old(self)@, w)
                &&& (r is Ok <==> w.err is None)
                &&& (r is Err ==> w.err == Some(r->Err_0@))
            }),
    {
        let mut k: u64 = 0;
        while k < n
            invariant
                self.wf(),
                k <= n,
                self@.ls == old(self)@.ls,
                self@.breaks == old(self)@.breaks,
                back_walk(old(self)@.ls, old(self)@.pos, old(self)@.s, n as nat) == back_walk(self@.ls, self@.pos, self@.s, (n - k) as nat),
            decreases n - k,
        {
            if self.pos == 0 {
                return Ok(());
            }
            let leaf = match leaf_at(&self.nodes, self.pos - 1) {
                Some(i) => i,
                None => {
                    return Ok(());
                },
            };
            let inv = match (leaf.inverse(), leaf.operand_alias()) {
                (Some(i), None) => i,
                _ => {
                    return Err(boundary_error(self.pos - 1, leaf));
                },
            };
            match inv.exec(&mut self.s) {
                Ok(()) => {},
                Err(e) => {
                    return Err(back_error(self.pos - 1, inv, e));
                },
            }
            self.pos = self.pos - 1;
            k = k + 1;
        }
        Ok(())
    }

    /// Execute until a breakpoint (stopping before its leaf), the end, or an
    /// error; `Ok(true)` when a breakpoint stopped it.
    pub fn cont(&mut self) -> (r: Result<bool, String>)
        requires
            old(self).wf(),
        ensures
            final(self).wf(),
            ({
                let c = cont_walk(old(self)@.ls, old(self)@.pos, old(self)@.s, old(self)@.breaks);
                &&& final(self)@ == with_walk(old(self)@, c.w)
                &&& (r is Ok <==> c.w.err is None)
                &&& (r is Ok ==> r->Ok_0 == c.hit)
                &&& (r is Err ==> c.w.err == Some(r->Err_0@))
            }),
    {
        loop
            invariant
                self.wf(),
                self@.ls == old(self)@.ls,
                self@.breaks == old(self)@.breaks,
                cont_walk(old(self)@.ls, old(self)@.pos, old(self)@.s, old(self)@.breaks) == cont_walk(self@.ls, self@.pos, self@.s, self@.breaks),
            decreases self.total - self.pos,
        {
            if contains(&self.breaks, self.pos) {
                return Ok(true);
            }
            if self.pos >= self.total {
                return Ok(false);
            }
            let inst = match leaf_at(&self.nodes, self.pos) {
                Some(i) => i,
                None => {
                    return Ok(false);
                },
            };
            match inst.exec(&mut self.s) {
                Ok(()) => {},
                Err(e) => {
                    return Err(leaf_error(self.pos, inst, e));
                },
            }
            self.pos = self.pos + 1;
        }
    }

    /// Move to leaf position `target`, forward or back.
    pub fn goto(&mut self, target: u64) -> (r: Result<(), String>)
        requires
            old(self).wf(),
        ensures
            final(self).wf(),
            ({
                let w = goto_walk(old(self)@.ls, old(self)@.pos, old(self)@.s, target as nat);
                &&& final(self)@ == with_walk(old(self)@, w)
                &&& (r is Ok <==> w.err is None)
                &&& (r is Err ==> w.err == Some(r->Err_0@))
            }),
    {
        if target > self.pos {
            self.step_fwd(target - self.pos)
        } else if target < self.pos {
            self.step_back(self.pos - target)
        } else {
            Ok(())
        }
    }

    /// The status line: position, leaf count, rollback suffix, breakpoints.
    pub fn describe(&self) -> (out: String)
        requires
            self.wf(),
        ensures
            out@ == describe_spec(self@),
    {
        let suffix = reversible_suffix_len(&self.nodes);
        let mut v: Vec<char> = Vec::new();
        push_str(&mut v, "pos=");
        push_dec(&mut v, self.pos);
        push_str(&mut v, "/");
        push_dec(&mut v, self.total);
        push_str(&mut v, " листьев | откатываемый суффикс=");
        push_dec(&mut v, suffix);
        push_str(&mut v, " | брейкпоинты=");
        let l = list_chars(&self.breaks);
        crate::text::extend_chars(&mut v, &l);
        string_of(&v)
    }
}

fn contains(v: &Vec<u64>, x: u64) -> (b: bool)
    ensures
        b == v@.contains(x),
{
    let mut i: usize = 0;
    while i < v.len()
        invariant
            i <= v@.len(),
            forall|j: int| 0 <= j < i ==> v@[j] != x,
        decreases v@.len() - i,
    {
        if v[i] == x {
            return true;
        }
        i += 1;
    }
    false
}

fn boundary_error(k: u64, leaf: Inst) -> (m: String)
    ensures
        m@ == boundary_msg(k as nat, leaf),
{
    let mut v: Vec<char> = Vec::new();
    push_str(&mut v, "лист #");
    push_dec(&mut v, k);
    push_str(&mut v, " (");
    let t = leaf.text();
    crate::text::extend_chars(&mut v, &t);
    push_str(&mut v, ") — граница: откат через set/mset требует лога/чекпоинта");
    string_of(&v)
}

pub(crate) fn list_chars(bs: &Vec<u64>) -> (v: Vec<char>)
    ensures
        v@ == list_text(bs@),
{
    let mut v: Vec<char> = Vec::new();
    v.push('[');
    let mut i: usize = 0;
    while i < bs.len()
        invariant
            i <= bs@.len(),
            v@ == seq!['['] + items_text(bs@.take(i as int)),
        decreases bs@.len() - i,
    {
        proof {
            let t = bs@.take(i as int + 1);
            assert(t.drop_last() =~= bs@.take(i as int));
        }
        if i > 0 {
            push_str(&mut v, ", ");
        }
        push_dec(&mut v, bs[i]);
        i += 1;
    }
    assert(bs@.take(i as int) =~= bs@);
    v.push(']');
    proof {
        reveal_strlit("[");
        reveal_strlit("]");
    }
    v
}

// ---------------------------------------------------------------- laws

/// Stepping back `a` leaves and then `b` more is stepping back `a + b`,
/// when the first walk took all `a` steps without error.
proof fn lemma_back_walk_split(ls: Seq<Inst>, p: nat, s: StateV, a: nat, b: nat)
    requires
        back_walk(ls, p, s, a).err is None,
        back_walk(ls, p, s, a).pos + a == p,
    ensures
        back_walk(ls, p, s, a + b) == back_walk(ls, back_walk(ls, p, s, a).pos, back_walk(ls, p, s, a).s, b),
    decreases a,
{
    if a > 0 {
        let leaf = ls[p - 1];
        let t = step(inverse_spec(leaf).unwrap(), s).unwrap();
        lemma_back_walk_split(ls, (p - 1) as nat, t, (a - 1) as nat, b);
        assert((a + b - 1) as nat == ((a - 1) as nat + b) as nat);
    }
}

/// Reverse stepping: after stepping forward from `pos` without error over
/// invertible leaves, stepping back as many leaves returns to `pos` and to
/// the state it had there, without error.
pub proof fn law_step_back_undoes_step(ls: Seq<Inst>, pos: nat, s: StateV, n: nat)
    requires
        fwd_walk(ls, pos, s, n).err is None,
        forall|i: int| pos <= i < fwd_walk(ls, pos, s, n).pos ==> invertible(#[trigger] ls[i]),
    ensures
        ({
            let w = fwd_walk(ls, pos, s, n);
            &&& pos <= w.pos
            &&& back_walk(ls, w.pos, w.s, (w.pos - pos) as nat) == (Walk { pos, s, err: None })
        }),
    decreases n,
{
    let w = fwd_walk(ls, pos, s, n);
    if n == 0 || pos >= ls.len() {
    } else {
        let t = step(ls[pos as int], s).unwrap();
        law_step_back_undoes_step(ls, pos + 1, t, (n - 1) as nat);
        assert(w == fwd_walk(ls, pos + 1, t, (n - 1) as nat));
        let a = (w.pos - (pos + 1)) as nat;
        lemma_back_walk_split(ls, w.pos, w.s, a, 1);
        assert((w.pos - pos) as nat == a + 1);
        law_inverse_undoes(ls[pos as int], s);
        assert(back_walk(ls, pos + 1, t, 1) == back_walk(ls, pos, s, 0));
    }
}

// ---------------------------------------------------------------- commands

/// What the caller prints for one command line: lines for standard output,
/// lines for standard error, and whether the session ends.
pub struct Reply {
    pub quit: bool,
    pub out: Vec<String>,
    pub err: Vec<String>,
}

/// Mathematical value of a `Reply`.
pub ghost struct ReplyV {
    pub quit: bool,
    pub out: Seq<Seq<char>>,
    pub err: Seq<Seq<char>>,
}

pub open spec fn strings(v: Seq<String>) -> Seq<Seq<char>> {
    v.map_values(|x: String| x@)
}

pub open spec fn reply_view(r: Reply) -> ReplyV {
    ReplyV { quit: r.quit, out: strings(r.out@), err: strings(r.err@) }
}

pub open spec fn say(out: Seq<Seq<char>>, err: Seq<Seq<char>>) -> ReplyV {
    ReplyV { quit: false, out, err }
}

/// The numeric argument at `i`: its decimal value, or 1 when absent or not a number.
pub open spec fn narg(t: Seq<Seq<char>>, i: nat) -> u64 {
    if i < t.len() {
        match dec_u64(t[i as int]) {
            Some(v) => v,
            None => 1,
        }
    } else {
        1
    }
}

pub open spec fn err_lines(w: Walk) -> Seq<Seq<char>> {
    match w.err {
        Some(e) => seq![e],
        None => seq![],
    }
}

/// `→ лист #pos: leaf`.
pub open spec fn next_line(pos: nat, i: Inst) -> Seq<char> {
    "→ лист #"@ + dec_spec(pos) + ": "@ + text_spec(i)
}

/// `f [N]`: step forward, then show the next leaf or the end.
pub open spec fn fwd_cmd(d: DbgV, n: u64) -> (DbgV, ReplyV) {
    let w = fwd_walk(d.ls, d.pos, d.s, n as nat);
    let out = if w.pos < d.ls.len() {
        seq![next_line(w.pos, d.ls[w.pos as int])]
    } else {
        seq!["конец программы (pos="@ + dec_spec(w.pos) + ")"@]
    };
    (with_walk(d, w), say(out, err_lines(w)))
}

/// `b [N]`: step back, then show the next leaf.
pub open spec fn back_cmd(d: DbgV, n: u64) -> (DbgV, ReplyV) {
    let w = back_walk(d.ls, d.pos, d.s, n as nat);
    let out = if w.err is None && w.pos < d.ls.len() {
        seq![next_line(w.pos, d.ls[w.pos as int]) + " (следующий к исполнению)"@]
    } else {
        seq![]
    };
    (with_walk(d, w), say(out, err_lines(w)))
}

/// `c`: continue to a breakpoint or the end.
pub open spec fn cont_cmd(d: DbgV) -> (DbgV, ReplyV) {
    let k = cont_walk(d.ls, d.pos, d.s, d.breaks);
    let hit = if k.hit {
        seq!["стоп на брейкпоинте pos="@ + dec_spec(k.w.pos)]
    } else {
        seq![]
    };
    let end = if k.w.err is None && k.w.pos >= d.ls.len() {
        seq!["конец программы"@]
    } else {
        seq![]
    };
    (with_walk(d, k.w), say(hit + end, err_lines(k.w)))
}

/// `g N`: go to a position.
pub open spec fn goto_cmd(d: DbgV, target: u64) -> (DbgV, ReplyV) {
    let w = goto_walk(d.ls, d.pos, d.s, target as nat);
    (with_walk(d, w), say(seq![], err_lines(w)))
}

/// The register a `p` argument names (`rN`/`RN`), if the state has it.
pub open spec fn reg_token(tok: Seq<char>, n: nat) -> Option<nat> {
    if tok.len() > 0 && (tok[0] == 'r' || tok[0] == 'R') {
        match from_str_radix_spec(tok.drop_first(), 10, usize::MAX as nat) {
            Ok(idx) => if idx < n {
                Some(idx)
            } else {
                None
            },
            Err(_) => None,
        }
    } else {
        None
    }
}

/// `p r1 r2 …`: a line per register named, an error line per other argument.
pub open spec fn print_fold(toks: Seq<Seq<char>>, regs: Seq<u64>) -> (Seq<Seq<char>>, Seq<Seq<char>>)
    decreases toks.len(),
{
    if toks.len() == 0 {
        (seq![], seq![])
    } else {
        let (o, e) = print_fold(toks.drop_last(), regs);
        match reg_token(toks.last(), regs.len()) {
            Some(idx) => (o.push(reg_entry(idx, regs[idx as int])), e),
            None => (o, e.push("нет регистра "@ + toks.last())),
        }
    }
}

/// The breakpoints without `x`.
pub open spec fn without(bs: Seq<u64>, x: u64) -> Seq<u64>
    decreases bs.len(),
{
    if bs.len() == 0 {
        seq![]
    } else if bs.last() == x {
        without(bs.drop_last(), x)
    } else {
        without(bs.drop_last(), x).push(bs.last())
    }
}

/// `br N`: set a breakpoint (once).
pub open spec fn br_cmd(d: DbgV, v: u64) -> (DbgV, ReplyV) {
    let bs = if d.breaks.contains(v) {
        d.breaks
    } else {
        d.breaks.push(v)
    };
    (DbgV { breaks: bs, ..d }, say(seq!["брейкпоинт на pos="@ + dec_spec(v as nat)], seq![]))
}

/// The session and the reply after one command line.
pub open spec fn command_spec(d: DbgV, line: Seq<char>) -> (DbgV, ReplyV) {
    let t = words(line);
    if t.len() == 0 {
        (d, say(seq![], seq![]))
    } else {
        let c = t[0];
        if c == "q"@ || c == "quit"@ || c == "exit"@ {
            (d, ReplyV { quit: true, out: seq![], err: seq![] })
        } else if c == "f"@ {
            fwd_cmd(d, narg(t, 1))
        } else if c == "b"@ || c == "r"@ {
            back_cmd(d, narg(t, 1))
        } else if c == "c"@ {
            cont_cmd(d)
        } else if c == "g"@ {
            goto_cmd(d, if t.len() > 1 { narg(t, 1) } else { 0 })
        } else if c == "p"@ || c == "print"@ {
            if t.len() == 1 {
                (d, say(seq![regs_text(d.s.regs)], seq![]))
            } else {
                let (o, e) = print_fold(t.skip(1), d.s.regs);
                (d, say(o, e))
            }
        } else if c == "pm"@ {
            let max: usize = if t.len() > 1 { narg(t, 1) as usize } else { 8 };
            (d, say(seq![fmt_mem_spec(d.s.mem, max as nat)], seq![]))
        } else if c == "br"@ {
            if t.len() > 1 {
                br_cmd(d, narg(t, 1))
            } else {
                (d, say(seq![], seq!["br N"@]))
            }
        } else if c == "bd"@ {
            if t.len() > 1 {
                (DbgV { breaks: without(d.breaks, narg(t, 1)), ..d }, say(seq![], seq![]))
            } else {
                (d, say(seq![], seq![]))
            }
        } else if c == "bl"@ {
            (d, say(seq!["брейкпоинты: "@ + list_text(d.breaks)], seq![]))
        } else if c == "s"@ || c == "st"@ || c == "status"@ {
            (d, say(seq![describe_spec(d)], seq![]))
        } else {
            (d, say(seq![], seq!["неизвестно: "@ + c]))
        }
    }
}

fn one(c: &Vec<char>) -> (v: Vec<String>)
    ensures
        strings(v@) == seq![c@],
{
    let mut v: Vec<String> = Vec::new();
    v.push(string_of(c));
    assert(strings(v@) =~= seq![c@]);
    v
}

fn none() -> (v: Vec<String>)
    ensures
        strings(v@) == Seq::<Seq<char>>::empty(),
{
    let v: Vec<String> = Vec::new();
    assert(strings(v@) =~= Seq::<Seq<char>>::empty());
    v
}

fn push_string(v: &mut Vec<String>, c: &Vec<char>)
    ensures
        strings(final(v)@) == strings(old(v)@).push(c@),
{
    v.push(string_of(c));
    assert(strings(v@) =~= strings(old(v)@).push(c@));
}

fn walk_err(r: Result<(), String>) -> (v: Vec<String>)
    ensures
        strings(v@) == (match r {
            Ok(_) => Seq::<Seq<char>>::empty(),
            Err(e) => seq![e@],
        }),
{
    match r {
        Ok(()) => none(),
        Err(e) => {
            let c = chars_of(e.as_str());
            one(&c)
        },
    }
}

fn narg_exec(t: &Vec<Vec<char>>, i: usize) -> (v: u64)
    ensures
        v == narg(t@.map_values(|w: Vec<char>| w@), i as nat),
{
    if i < t.len() {
        proof {
            assert(t@.map_values(|w: Vec<char>| w@)[i as int] == t@[i as int]@);
        }
        match dec_u64_exec(&t[i]) {
            Some(v) => v,
            None => 1,
        }
    } else {
        1
    }
}

fn next_chars(pos: u64, i: Inst) -> (v: Vec<char>)
    ensures
        v@ == next_line(pos as nat, i),
{
    let mut v: Vec<char> = Vec::new();
    push_str(&mut v, "→ лист #");
    push_dec(&mut v, pos);
    push_str(&mut v, ": ");
    let t = i.text();
    extend_chars(&mut v, &t);
    v
}

fn reg_token_exec(tok: &Vec<char>, n: usize) -> (r: Option<usize>)
    ensures
        match reg_token(tok@, n as nat) {
            Some(idx) => r == Some(idx as usize) && idx < n,
            None => r is None,
        },
{
    if tok.len() > 0 && (tok[0] == 'r' || tok[0] == 'R') {
        let rest = crate::lex::skip_chars(tok, 1);
        assert(rest@ =~= tok@.drop_first());
        match from_str_radix(&rest, 10, usize::MAX as u64) {
            Ok(idx) => if (idx as usize) < n && idx <= usize::MAX as u64 {
                Some(idx as usize)
            } else {
                None
            },
            Err(_) => None,
        }
    } else {
        None
    }
}

fn without_exec(bs: &Vec<u64>, x: u64) -> (out: Vec<u64>)
    ensures
        out@ == without(bs@, x),
{
    let mut out: Vec<u64> = Vec::new();
    let mut i: usize = 0;
    while i < bs.len()
        invariant
            i <= bs@.len(),
            out@ == without(bs@.take(i as int), x),
        decreases bs@.len() - i,
    {
        proof {
            let t = bs@.take(i as int + 1);
            assert(t.drop_last() =~= bs@.take(i as int));
        }
        if bs[i] != x {
            out.push(bs[i]);
        }
        i += 1;
    }
    assert(bs@.take(i as int) =~= bs@);
    out
}

impl Dbg {
    fn fwd_command(&mut self, n: u64) -> (r: Reply)
        requires
            old(self).wf(),
        ensures
            final(self).wf(),
            (final(self)@, reply_view(r)) == fwd_cmd(old(self)@, n),
    {
        let res = self.step_fwd(n);
        let err = walk_err(res);
        let out = if self.pos < self.total {
            match self.cur_inst() {
                Some(i) => {
                    let c = next_chars(self.pos, i);
                    one(&c)
                },
                None => none(),
            }
        } else {
            let mut v: Vec<char> = Vec::new();
            push_str(&mut v, "конец программы (pos=");
            push_dec(&mut v, self.pos);
            push_str(&mut v, ")");
            one(&v)
        };
        Reply { quit: false, out, err }
    }

    fn back_command(&mut self, n: u64) -> (r: Reply)
        requires
            old(self).wf(),
        ensures
            final(self).wf(),
            (final(self)@, reply_view(r)) == back_cmd(old(self)@, n),
    {
        let res = self.step_back(n);
        let ok = res.is_ok();
        let err = walk_err(res);
        let out = if ok && self.pos < self.total {
            match self.cur_inst() {
                Some(i) => {
                    let mut c = next_chars(self.pos, i);
                    push_str(&mut c, " (следующий к исполнению)");
                    one(&c)
                },
                None => none(),
            }
        } else {
            none()
        };
        Reply { quit: false, out, err }
    }

    fn cont_command(&mut self) -> (r: Reply)
        requires
            old(self).wf(),
        ensures
            final(self).wf(),
            (final(self)@, reply_view(r)) == cont_cmd(old(self)@),
    {
        let res = self.cont();
        let ghost k = cont_walk(old(self)@.ls, old(self)@.pos, old(self)@.s, old(self)@.breaks);
        let ghost hitl = if k.hit { seq!["стоп на брейкпоинте pos="@ + dec_spec(k.w.pos)] } else { Seq::<Seq<char>>::empty() };
        let ghost endl = if k.w.err is None && k.w.pos >= old(self)@.ls.len() { seq!["конец программы"@] } else { Seq::<Seq<char>>::empty() };
        proof {
            lemma_cont_err_no_hit(old(self)@.ls, old(self)@.pos, old(self)@.s, old(self)@.breaks);
        }
        let mut out = none();
        let mut err = none();
        match res {
            Ok(hit) => {
                if hit {
                    let mut v: Vec<char> = Vec::new();
                    push_str(&mut v, "стоп на брейкпоинте pos=");
                    push_dec(&mut v, self.pos);
                    assert(v@ =~= "стоп на брейкпоинте pos="@ + dec_spec(self.pos as nat));
                    push_string(&mut out, &v);
                }
                assert(strings(out@) =~= hitl);
                if self.pos >= self.total {
                    let v = chars_of("конец программы");
                    push_string(&mut out, &v);
                }
                assert(strings(out@) =~= hitl + endl);
            },
            Err(e) => {
                let c = chars_of(e.as_str());
                push_string(&mut err, &c);
                assert(strings(out@) =~= hitl + endl);
            },
        }
        Reply { quit: false, out, err }
    }

    fn print_command(&self, t: &Vec<Vec<char>>) -> (r: Reply)
        requires
            t@.len() > 1,
        ensures
            reply_view(r) == ({
                let (o, e) = print_fold(t@.map_values(|w: Vec<char>| w@).skip(1), self@.s.regs);
                say(o, e)
            }),
    {
        let ghost tv = t@.map_values(|w: Vec<char>| w@);
        let mut out = none();
        let mut err = none();
        let mut i: usize = 1;
        assert(tv.skip(1).take(0) =~= Seq::<Seq<char>>::empty());
        while i < t.len()
            invariant
                1 <= i <= t@.len(),
                tv == t@.map_values(|w: Vec<char>| w@),
                (strings(out@), strings(err@)) == print_fold(tv.skip(1).take(i - 1), self@.s.regs),
            decreases t@.len() - i,
        {
            proof {
                let p = tv.skip(1).take(i as int);
                assert(p.drop_last() =~= tv.skip(1).take(i - 1));
                assert(p.last() == t@[i as int]@);
            }
            match reg_token_exec(&t[i], self.s.regs.len()) {
                Some(idx) => {
                    let e = reg_entry_chars(idx as u64, self.s.regs[idx]);
                    push_string(&mut out, &e);
                },
                None => {
                    let mut m: Vec<char> = Vec::new();
                    push_str(&mut m, "нет регистра ");
                    extend_chars(&mut m, &t[i]);
                    push_string(&mut err, &m);
                },
            }
            i += 1;
        }
        assert(tv.skip(1).take(i - 1) =~= tv.skip(1));
        Reply { quit: false, out, err }
    }

    /// Handle one command line.
    pub fn command(&mut self, line: &str) -> (r: Reply)
        requires
            old(self).wf(),
        ensures
            final(self).wf(),
            (final(self)@, reply_view(r)) == command_spec(old(self)@, line@),
    {
        let lv = chars_of(line);
        let t = split_words(&lv, lv.len());
        let ghost tv = t@.map_values(|w: Vec<char>| w@);
        proof {
            assert(lv@.take(lv@.len() as int) =~= lv@);
            assert(tv =~= words(line@));
        }
        if t.len() == 0 {
            return Reply { quit: false, out: none(), err: none() };
        }
        let c = &t[0];
        assert(c@ == tv[0]);
        if chars_eq(c, "q") || chars_eq(c, "quit") || chars_eq(c, "exit") {
            Reply { quit: true, out: none(), err: none() }
        } else if chars_eq(c, "f") {
            let n = narg_exec(&t, 1);
            self.fwd_command(n)
        } else if chars_eq(c, "b") || chars_eq(c, "r") {
            let n = narg_exec(&t, 1);
            self.back_command(n)
        } else if chars_eq(c, "c") {
            self.cont_command()
        } else if chars_eq(c, "g") {
            let target = if t.len() > 1 { narg_exec(&t, 1) } else { 0 };
            let res = self.goto(target);
            Reply { quit: false, out: none(), err: walk_err(res) }
        } else if chars_eq(c, "p") || chars_eq(c, "print") {
            if t.len() == 1 {
                let s = self.s.render();
                let sc = chars_of(s.as_str());
                Reply { quit: false, out: one(&sc), err: none() }
            } else {
                self.print_command(&t)
            }
        } else if chars_eq(c, "pm") {
            let max: usize = if t.len() > 1 { narg_exec(&t, 1) as usize } else { 8 };
            let m = fmt_mem(&self.s, max);
            let mc = chars_of(m.as_str());
            Reply { quit: false, out: one(&mc), err: none() }
        } else if chars_eq(c, "br") {
            if t.len() > 1 {
                let v = narg_exec(&t, 1);
                if !contains(&self.breaks, v) {
                    self.breaks.push(v);
                }
                let mut m: Vec<char> = Vec::new();
                push_str(&mut m, "брейкпоинт на pos=");
                push_dec(&mut m, v);
                Reply { quit: false, out: one(&m), err: none() }
            } else {
                let m = chars_of("br N");
                Reply { quit: false, out: none(), err: one(&m) }
            }
        } else if chars_eq(c, "bd") {
            if t.len() > 1 {
                let v = narg_exec(&t, 1);
                self.breaks = without_exec(&self.breaks, v);
            }
            Reply { quit: false, out: none(), err: none() }
        } else if chars_eq(c, "bl") {
            let mut m: Vec<char> = Vec::new();
            push_str(&mut m, "брейкпоинты: ");
            let l = list_chars(&self.breaks);
            extend_chars(&mut m, &l);
            Reply { quit: false, out: one(&m), err: none() }
        } else if chars_eq(c, "s") || chars_eq(c, "st") || chars_eq(c, "status") {
            let m = self.describe();
            let mc = chars_of(m.as_str());
            Reply { quit: false, out: one(&mc), err: none() }
        } else {
            let mut m: Vec<char> = Vec::new();
            push_str(&mut m, "неизвестно: ");
            extend_chars(&mut m, c);
            Reply { quit: false, out: none(), err: one(&m) }
        }
    }
}

} // verus!
