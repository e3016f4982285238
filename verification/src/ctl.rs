//! Structured data-dependent control flow with a decision journal.
//!
//! Inside a phase every operator is a bijection; a data-dependent branch is
//! paid for with a journal of decisions, not with state: `ifnz` writes one
//! flag, `wz` writes one iteration count. The forward run writes each
//! decision after its body (post-order), so the backward run reads the
//! journal strictly last-in first-out.
//!
//!   - `ifnz rN … end`: the body runs iff rN != 0 (journal: a flag);
//!   - `wz rN … end`: the body repeats while rN != 0 (journal: a count);
//!   - `rep N … end`: a static loop (no journal).
use vstd::prelude::*;
use crate::inst::{Inst, inverse_spec, invertible, operand_error, step, text_spec};
use crate::state::{State, StateV};
use crate::lex::{line_tokens, lines_spec, lower, lower_chars, split_lines, tokens_of_line, chars_eq};
use crate::program::{
    copy_chars, err_at, err_line_str, err_line_string, imm_chars, parse_imm_spec, parse_inst, parse_inst_spec,
    parse_reg_spec, reg_chars,
};
use crate::text::{chars_of, extend_chars, push_str, string_of};

verus! {

/// A program with structured control flow.
#[derive(Debug)]
pub enum Node {
    Inst(Inst),
    /// A static loop: a bijection repeated `count` times.
    Rep { count: u64, body: Vec<Node> },
    /// `ifnz rN`: the body iff rN != 0. Journal: one flag.
    IfN { reg: u8, body: Vec<Node> },
    /// `wz rN`: the body while rN != 0. Journal: one count.
    WhileN { reg: u8, body: Vec<Node> },
}

/// Mathematical value of a `Node`.
pub ghost enum NodeV {
    Inst(Inst),
    Rep { count: u64, body: Seq<NodeV> },
    IfN { reg: u8, body: Seq<NodeV> },
    WhileN { reg: u8, body: Seq<NodeV> },
}

pub open spec fn node_view(n: Node) -> NodeV
    decreases n,
{
    match n {
        Node::Inst(i) => NodeV::Inst(i),
        Node::Rep { count, body } => NodeV::Rep { count, body: nodes_view(body@) },
        Node::IfN { reg, body } => NodeV::IfN { reg, body: nodes_view(body@) },
        Node::WhileN { reg, body } => NodeV::WhileN { reg, body: nodes_view(body@) },
    }
}

pub open spec fn nodes_view(s: Seq<Node>) -> Seq<NodeV>
    decreases s,
{
    if s.len() == 0 {
        seq![]
    } else {
        nodes_view(s.drop_last()).push(node_view(s.last()))
    }
}

pub proof fn lemma_nodes_view(s: Seq<Node>)
    ensures
        nodes_view(s).len() == s.len(),
        forall|i: int| 0 <= i < s.len() ==> #[trigger] nodes_view(s)[i] == node_view(s[i]),
    decreases s.len(),
{
    if s.len() > 0 {
        lemma_nodes_view(s.drop_last());
    }
}

/// The iteration limit of one `wz` loop (a guard against programs that do not terminate).
pub const MAX_WHILE_ITERS: u64 = 0x100_0000;

/// The machine state, the journal, the leaf count, and the error (if any)
/// of a run in progress.
pub ghost struct Run {
    pub s: StateV,
    pub j: Seq<u64>,
    pub steps: nat,
    pub err: Option<Seq<char>>,
}

/// `"inst: e"`: the error of a leaf.
pub open spec fn inst_msg(i: Inst, e: Seq<char>) -> Seq<char> {
    text_spec(i) + ": "@ + e
}

/// One leaf forward.
pub open spec fn fwd_inst(i: Inst, r: Run) -> Run {
    match step(i, r.s) {
        Some(t) => Run { s: t, steps: r.steps + 1, ..r },
        None => Run { err: Some(inst_msg(i, operand_error(i, r.s).unwrap())), ..r },
    }
}

/// The forward run of a sequence of nodes (stops at the first error).
pub open spec fn fwd_seq(nodes: Seq<NodeV>, r: Run) -> Run
    decreases nodes, 0nat,
{
    if nodes.len() == 0 {
        r
    } else {
        fwd_node(nodes.last(), fwd_seq(nodes.drop_last(), r))
    }
}

pub open spec fn fwd_node(node: NodeV, r: Run) -> Run
    decreases node, 0nat,
{
    if r.err is Some {
        r
    } else {
        match node {
            NodeV::Inst(i) => fwd_inst(i, r),
            NodeV::Rep { count, body } => fwd_rep(body, count as nat, r),
            NodeV::IfN { reg, body } => {
                let c = r.s.regs[reg as int] != 0;
                let r1 = if c { fwd_seq(body, r) } else { r };
                if r1.err is Some {
                    r1
                } else {
                    Run { j: r1.j.push(if c { 1u64 } else { 0u64 }), ..r1 }
                }
            },
            NodeV::WhileN { reg, body } => fwd_while(body, reg, 0, r),
        }
    }
}

/// `k` more passes of a static loop's body.
pub open spec fn fwd_rep(body: Seq<NodeV>, k: nat, r: Run) -> Run
    decreases body, k,
{
    if k == 0 || r.err is Some {
        r
    } else {
        fwd_rep(body, (k - 1) as nat, fwd_seq(body, r))
    }
}

/// A `wz` loop that has already made `k` passes.
pub open spec fn fwd_while(body: Seq<NodeV>, reg: u8, k: nat, r: Run) -> Run
    decreases body, MAX_WHILE_ITERS - k,
{
    if r.err is Some {
        r
    } else if r.s.regs[reg as int] == 0 {
        Run { j: r.j.push(k as u64), ..r }
    } else if k >= MAX_WHILE_ITERS {
        Run { err: Some("wz: превышен предел итераций"@), ..r }
    } else {
        fwd_while(body, reg, k + 1, fwd_seq(body, r))
    }
}

/// The forward run reads no condition register out of range: it reads one
/// only at the `ifnz` and `wz` nodes it reaches, each time it tests it.
pub open spec fn fwd_safe(nodes: Seq<NodeV>, r: Run) -> bool
    decreases nodes, 0nat,
{
    if nodes.len() == 0 {
        true
    } else {
        fwd_safe(nodes.drop_last(), r) && fwd_safe_node(nodes.last(), fwd_seq(nodes.drop_last(), r))
    }
}

pub open spec fn fwd_safe_node(node: NodeV, r: Run) -> bool
    decreases node, 0nat,
{
    if r.err is Some {
        true
    } else {
        match node {
            NodeV::Inst(_) => true,
            NodeV::Rep { count, body } => fwd_safe_rep(body, count as nat, r),
            NodeV::IfN { reg, body } => (reg as nat) < r.s.regs.len() && (r.s.regs[reg as int] != 0 ==> fwd_safe(body, r)),
            NodeV::WhileN { reg, body } => fwd_safe_while(body, reg, 0, r),
        }
    }
}

pub open spec fn fwd_safe_rep(body: Seq<NodeV>, k: nat, r: Run) -> bool
    decreases body, k,
{
    if k == 0 || r.err is Some {
        true
    } else {
        fwd_safe(body, r) && fwd_safe_rep(body, (k - 1) as nat, fwd_seq(body, r))
    }
}

pub open spec fn fwd_safe_while(body: Seq<NodeV>, reg: u8, k: nat, r: Run) -> bool
    decreases body, MAX_WHILE_ITERS - k,
{
    if r.err is Some {
        true
    } else if !((reg as nat) < r.s.regs.len()) {
        false
    } else if r.s.regs[reg as int] == 0 || k >= MAX_WHILE_ITERS {
        true
    } else {
        fwd_safe(body, r) && fwd_safe_while(body, reg, k + 1, fwd_seq(body, r))
    }
}

/// The error a rollback of a boundary leaf reports.
pub open spec fn boundary_msg(i: Inst, checked: bool) -> Seq<char> {
    if checked {
        "граница"@
    } else {
        inst_msg(i, "граница (set/mset) — откат требует чекпоинта"@)
    }
}

/// One leaf backward. Both rollbacks refuse a leaf with no inverse (each with
/// its own message) and a leaf with aliased operands, which is no bijection
/// (with the trusting rollback's message).
pub open spec fn rev_inst(i: Inst, r: Run, checked: bool) -> Run {
    if inverse_spec(i) is None {
        Run { err: Some(boundary_msg(i, checked)), ..r }
    } else if !invertible(i) {
        Run { err: Some(boundary_msg(i, false)), ..r }
    } else {
        let inv = inverse_spec(i).unwrap();
        match step(inv, r.s) {
            Some(t) => Run { s: t, steps: r.steps + 1, ..r },
            None => Run { err: Some(inst_msg(inv, operand_error(inv, r.s).unwrap())), ..r },
        }
    }
}

/// The message for a journal that ran out.
pub open spec fn empty_msg(is_if: bool, checked: bool) -> Seq<char> {
    if is_if {
        if checked { "ifnz: журнал пуст"@ } else { "ifnz: журнал пуст при reverse"@ }
    } else {
        if checked { "wz: журнал пуст"@ } else { "wz: журнал пуст при reverse"@ }
    }
}

/// The message when a restored `ifnz` condition disagrees with its journal flag.
pub open spec fn mismatch_msg() -> Seq<char> {
    "ifnz: условие разошлось с журналом — повреждён журнал"@
}

/// The backward run of a sequence of nodes, last node first, reading the
/// journal from its end. The checked rollback also re-tests each `ifnz`
/// condition on the restored state against its flag.
pub open spec fn rev_seq(nodes: Seq<NodeV>, r: Run, checked: bool) -> Run
    decreases nodes, 0nat,
{
    if nodes.len() == 0 {
        r
    } else {
        rev_seq(nodes.drop_last(), rev_node(nodes.last(), r, checked), checked)
    }
}

pub open spec fn rev_node(node: NodeV, r: Run, checked: bool) -> Run
    decreases node, 0nat,
{
    if r.err is Some {
        r
    } else {
        match node {
            NodeV::Inst(i) => rev_inst(i, r, checked),
            NodeV::Rep { count, body } => rev_rep(body, count as nat, r, checked),
            NodeV::IfN { reg, body } => if r.j.len() == 0 {
                Run { err: Some(empty_msg(true, checked)), ..r }
            } else {
                let flag = r.j.last();
                let r1 = Run { j: r.j.drop_last(), ..r };
                let r2 = if flag != 0 { rev_seq(body, r1, checked) } else { r1 };
                if checked && r2.err is None && (if r2.s.regs[reg as int] != 0 { 1u64 } else { 0u64 }) != flag {
                    Run { err: Some(mismatch_msg()), ..r2 }
                } else {
                    r2
                }
            },
            NodeV::WhileN { reg, body } => if r.j.len() == 0 {
                Run { err: Some(empty_msg(false, checked)), ..r }
            } else {
                rev_rep(body, r.j.last() as nat, Run { j: r.j.drop_last(), ..r }, checked)
            },
        }
    }
}

/// `k` more backward passes of a loop body.
pub open spec fn rev_rep(body: Seq<NodeV>, k: nat, r: Run, checked: bool) -> Run
    decreases body, k,
{
    if k == 0 || r.err is Some {
        r
    } else {
        rev_rep(body, (k - 1) as nat, rev_seq(body, r, checked), checked)
    }
}

/// The checked rollback reads no condition register out of range: it reads
/// one only after rolling back an `ifnz` it reaches, to re-test it.
pub open spec fn rev_safe(nodes: Seq<NodeV>, r: Run, checked: bool) -> bool
    decreases nodes, 0nat,
{
    if nodes.len() == 0 {
        true
    } else {
        rev_safe_node(nodes.last(), r, checked) && rev_safe(nodes.drop_last(), rev_node(nodes.last(), r, checked), checked)
    }
}

pub open spec fn rev_safe_node(node: NodeV, r: Run, checked: bool) -> bool
    decreases node, 0nat,
{
    if r.err is Some {
        true
    } else {
        match node {
            NodeV::Inst(_) => true,
            NodeV::Rep { count, body } => rev_safe_rep(body, count as nat, r, checked),
            NodeV::IfN { reg, body } => if r.j.len() == 0 {
                true
            } else {
                let flag = r.j.last();
                let r1 = Run { j: r.j.drop_last(), ..r };
                let r2 = if flag != 0 { rev_seq(body, r1, checked) } else { r1 };
                &&& flag != 0 ==> rev_safe(body, r1, checked)
                &&& checked && r2.err is None ==> (reg as nat) < r2.s.regs.len()
            },
            NodeV::WhileN { reg, body } => if r.j.len() == 0 {
                true
            } else {
                rev_safe_rep(body, r.j.last() as nat, Run { j: r.j.drop_last(), ..r }, checked)
            },
        }
    }
}

pub open spec fn rev_safe_rep(body: Seq<NodeV>, k: nat, r: Run, checked: bool) -> bool
    decreases body, k,
{
    if k == 0 || r.err is Some {
        true
    } else {
        rev_safe(body, r, checked) && rev_safe_rep(body, (k - 1) as nat, rev_seq(body, r, checked), checked)
    }
}

/// The start of a run.
pub open spec fn start(s: StateV, j: Seq<u64>, steps: u64) -> Run {
    Run { s, j, steps: steps as nat, err: None }
}

// ---------------------------------------------------------------- forward lemmas

pub proof fn lemma_fwd_err(nodes: Seq<NodeV>, r: Run)
    requires
        r.err is Some,
    ensures
        fwd_seq(nodes, r) == r,
    decreases nodes.len(),
{
    if nodes.len() > 0 {
        lemma_fwd_err(nodes.drop_last(), r);
        assert(fwd_node(nodes.last(), r) == r);
    }
}

pub proof fn lemma_fwd_concat(a: Seq<NodeV>, b: Seq<NodeV>, r: Run)
    ensures
        fwd_seq(a + b, r) == fwd_seq(b, fwd_seq(a, r)),
    decreases b.len(),
{
    if b.len() == 0 {
        assert(a + b =~= a);
    } else {
        lemma_fwd_concat(a, b.drop_last(), r);
        assert((a + b).drop_last() =~= a + b.drop_last());
        assert((a + b).last() == b.last());
    }
}

/// A forward run never loses leaves already counted.
proof fn lemma_fwd_seq_mono(nodes: Seq<NodeV>, r: Run)
    ensures
        fwd_seq(nodes, r).s.regs.len() == r.s.regs.len(),
        fwd_seq(nodes, r).s.mem.len() == r.s.mem.len(),
        fwd_seq(nodes, r).steps >= r.steps,
    decreases nodes, 0nat,
{
    if nodes.len() > 0 {
        lemma_fwd_seq_mono(nodes.drop_last(), r);
        lemma_fwd_node_mono(nodes.last(), fwd_seq(nodes.drop_last(), r));
    }
}

proof fn lemma_fwd_node_mono(node: NodeV, r: Run)
    ensures
        fwd_node(node, r).s.regs.len() == r.s.regs.len(),
        fwd_node(node, r).s.mem.len() == r.s.mem.len(),
        fwd_node(node, r).steps >= r.steps,
    decreases node, 0nat,
{
    if r.err is None {
        match node {
            NodeV::Inst(i) => {
                if step(i, r.s) is Some {
                    lemma_step_len(i, r.s);
                }
            },
            NodeV::Rep { count, body } => lemma_fwd_rep_mono(body, count as nat, r),
            NodeV::IfN { reg, body } => lemma_fwd_seq_mono(body, r),
            NodeV::WhileN { reg, body } => lemma_fwd_while_mono(body, reg, 0, r),
        }
    }
}

proof fn lemma_fwd_rep_mono(body: Seq<NodeV>, k: nat, r: Run)
    ensures
        fwd_rep(body, k, r).s.regs.len() == r.s.regs.len(),
        fwd_rep(body, k, r).s.mem.len() == r.s.mem.len(),
        fwd_rep(body, k, r).steps >= r.steps,
        k > 0 && r.err is None ==> fwd_rep(body, k, r).steps >= fwd_seq(body, r).steps,
    decreases body, k,
{
    if k > 0 && r.err is None {
        lemma_fwd_seq_mono(body, r);
        lemma_fwd_rep_mono(body, (k - 1) as nat, fwd_seq(body, r));
    }
}

proof fn lemma_fwd_while_mono(body: Seq<NodeV>, reg: u8, k: nat, r: Run)
    ensures
        fwd_while(body, reg, k, r).s.regs.len() == r.s.regs.len(),
        fwd_while(body, reg, k, r).s.mem.len() == r.s.mem.len(),
        fwd_while(body, reg, k, r).steps >= r.steps,
        r.err is None && r.s.regs[reg as int] != 0 && k < MAX_WHILE_ITERS
            ==> fwd_while(body, reg, k, r).steps >= fwd_seq(body, r).steps,
    decreases body, MAX_WHILE_ITERS - k,
{
    if r.err is None && r.s.regs[reg as int] != 0 && k < MAX_WHILE_ITERS {
        lemma_fwd_seq_mono(body, r);
        lemma_fwd_while_mono(body, reg, k + 1, fwd_seq(body, r));
    }
}

/// Splitting a run at node `i`: what ran before it, the node, and the rest.
proof fn lemma_fwd_split(v: Seq<NodeV>, i: int, r: Run)
    requires
        0 <= i < v.len(),
    ensures
        fwd_seq(v.take(i + 1), r) == fwd_node(v[i], fwd_seq(v.take(i), r)),
        fwd_seq(v, r) == fwd_seq(v.skip(i + 1), fwd_seq(v.take(i + 1), r)),
        fwd_seq(v, r).steps >= fwd_seq(v.take(i + 1), r).steps,
{
    assert(v.take(i + 1).drop_last() =~= v.take(i));
    assert(v.take(i + 1).last() == v[i]);
    lemma_fwd_concat(v.take(i + 1), v.skip(i + 1), r);
    assert(v.take(i + 1) + v.skip(i + 1) =~= v);
    lemma_fwd_seq_mono(v.skip(i + 1), fwd_seq(v.take(i + 1), r));
}

/// A forward run that reads no condition out of range reads none in any
/// prefix, nor at the node after it.
proof fn lemma_fwd_safe_prefix(v: Seq<NodeV>, k: int, r: Run)
    requires
        fwd_safe(v, r),
        0 <= k <= v.len(),
    ensures
        fwd_safe(v.take(k), r),
        k < v.len() ==> fwd_safe_node(v[k], fwd_seq(v.take(k), r)),
    decreases v.len() - k,
{
    if k == v.len() {
        assert(v.take(k) =~= v);
    } else {
        lemma_fwd_safe_prefix(v, k + 1, r);
        assert(v.take(k + 1).drop_last() =~= v.take(k));
        assert(v.take(k + 1).last() == v[k]);
    }
}

proof fn lemma_step_len(i: Inst, s: StateV)
    requires
        step(i, s) is Some,
    ensures
        step(i, s).unwrap().regs.len() == s.regs.len(),
        step(i, s).unwrap().mem.len() == s.mem.len(),
{
}

// ---------------------------------------------------------------- forward

fn inst_error(i: Inst, e: String) -> (m: String)
    ensures
        m@ == inst_msg(i, e@),
{
    let mut v = i.text();
    push_str(&mut v, ": ");
    let ev = chars_of(e.as_str());
    extend_chars(&mut v, &ev);
    string_of(&v)
}

fn msg(t: &str) -> (m: String)
    ensures
        m@ == t@,
{
    let v = chars_of(t);
    string_of(&v)
}

fn seq_forward(s: &mut State, nodes: &[Node], j: &mut Vec<u64>, steps: &mut u64) -> (r: Result<(), String>)
    requires
        fwd_safe(nodes_view(nodes@), start(old(s)@, old(j)@, *old(steps))),
        fwd_seq(nodes_view(nodes@), start(old(s)@, old(j)@, *old(steps))).steps <= u64::MAX,
    ensures
        ({
            let o = fwd_seq(nodes_view(nodes@), start(old(s)@, old(j)@, *old(steps)));
            &&& final(s)@ == o.s
            &&& final(j)@ == o.j
            &&& *final(steps) == o.steps
            &&& (r is Ok <==> o.err is None)
            &&& (r is Err ==> o.err == Some(r->Err_0@))
        }),
        final(s)@.regs.len() == old(s)@.regs.len(),
    decreases nodes@,
{
    let ghost v = nodes_view(nodes@);
    let ghost r0 = start(s@, j@, *steps);
    let ghost total = fwd_seq(v, r0);
    let ghost n = s@.regs.len();
    proof {
        lemma_nodes_view(nodes@);
        assert(v.take(0) =~= Seq::<NodeV>::empty());
    }
    let mut i: usize = 0;
    while i < nodes.len()
        invariant
            i <= nodes@.len(),
            v == nodes_view(nodes@),
            v.len() == nodes@.len(),
            forall|x: int| 0 <= x < nodes@.len() ==> #[trigger] v[x] == node_view(nodes@[x]),
            r0 == start(old(s)@, old(j)@, *old(steps)),
            n == old(s)@.regs.len(),
            total == fwd_seq(v, r0),
            total.steps <= u64::MAX,
            fwd_safe(v, r0),
            s@.regs.len() == n,
            fwd_seq(v.take(i as int), r0) == start(s@, j@, *steps),
        decreases nodes@.len() - i,
    {
        let ghost cur = start(s@, j@, *steps);
        proof {
            lemma_fwd_split(v, i as int, r0);
            lemma_fwd_safe_prefix(v, i as int, r0);
            assert(v.take(i as int + 1) =~= v.take(i as int).push(v[i as int]));
        }
        let ghost target = fwd_node(v[i as int], cur);
        assert(target.steps <= u64::MAX);
        assert(total == fwd_seq(v.skip(i + 1), target));
        match &nodes[i] {
            Node::Inst(inst) => {
                let ghost sp = s@;
                match inst.exec(s) {
                    Ok(()) => {
                        proof {
                            lemma_step_len(*inst, sp);
                        }
                        *steps += 1;
                    },
                    Err(e) => {
                        proof {
                            lemma_fwd_err(v.skip(i + 1), target);
                        }
                        return Err(inst_error(*inst, e));
                    },
                }
            },
            Node::Rep { count, body } => {
                let ghost bv = nodes_view(body@);
                let mut c: u64 = 0;
                while c < *count
                    invariant
                        c <= *count,
                        bv == nodes_view(body@),
                        fwd_safe_rep(bv, (*count - c) as nat, start(s@, j@, *steps)),
                        s@.regs.len() == n,
                        target == fwd_rep(bv, (*count - c) as nat, start(s@, j@, *steps)),
                        r0 == start(old(s)@, old(j)@, *old(steps)),
                        n == old(s)@.regs.len(),
                        total == fwd_seq(v.skip(i + 1), target),
                        total == fwd_seq(v, r0),
                        v == nodes_view(nodes@),
                        target.steps <= u64::MAX,
                        decreases_to!(nodes@ => body@),
                    decreases *count - c,
                {
                    let ghost pre = start(s@, j@, *steps);
                    proof {
                        lemma_fwd_rep_mono(bv, (*count - c) as nat, pre);
                    }
                    match seq_forward(s, body.as_slice(), j, steps) {
                        Ok(()) => {},
                        Err(e) => {
                            proof {
                                let post = fwd_seq(bv, pre);
                                assert(fwd_rep(bv, (*count - c - 1) as nat, post) == post);
                                lemma_fwd_err(v.skip(i + 1), target);
                            }
                            return Err(e);
                        },
                    }
                    c += 1;
                }
            },
            Node::IfN { reg, body } => {
                let ghost bv = nodes_view(body@);
                let cond = s.regs[*reg as usize] != 0;
                if cond {
                    proof {
                        lemma_fwd_seq_mono(bv, cur);
                        assert(v[i as int] == NodeV::IfN { reg: *reg, body: bv });
                    }
                    match seq_forward(s, body.as_slice(), j, steps) {
                        Ok(()) => {},
                        Err(e) => {
                            proof {
                                lemma_fwd_err(v.skip(i + 1), target);
                            }
                            return Err(e);
                        },
                    }
                }
                j.push(if cond { 1u64 } else { 0u64 });
            },
            Node::WhileN { reg, body } => {
                let ghost bv = nodes_view(body@);
                let mut k: u64 = 0;
                while s.regs[*reg as usize] != 0
                    invariant
                        k <= MAX_WHILE_ITERS,
                        bv == nodes_view(body@),
                        fwd_safe_while(bv, *reg, k as nat, start(s@, j@, *steps)),
                        s@.regs.len() == n,
                        target == fwd_while(bv, *reg, k as nat, start(s@, j@, *steps)),
                        r0 == start(old(s)@, old(j)@, *old(steps)),
                        n == old(s)@.regs.len(),
                        total == fwd_seq(v.skip(i + 1), target),
                        total == fwd_seq(v, r0),
                        v == nodes_view(nodes@),
                        target.steps <= u64::MAX,
                        decreases_to!(nodes@ => body@),
                    decreases MAX_WHILE_ITERS - k,
                {
                    if k >= MAX_WHILE_ITERS {
                        proof {
                            let ck = start(s@, j@, *steps);
                            assert(ck.s.regs[*reg as int] != 0);
                            assert(target == Run { err: Some("wz: превышен предел итераций"@), ..ck });
                            lemma_fwd_err(v.skip(i + 1), target);
                            assert(total == target);
                        }
                        return Err(msg("wz: превышен предел итераций"));
                    }
                    let ghost pre = start(s@, j@, *steps);
                    proof {
                        lemma_fwd_while_mono(bv, *reg, k as nat, pre);
                    }
                    match seq_forward(s, body.as_slice(), j, steps) {
                        Ok(()) => {},
                        Err(e) => {
                            proof {
                                let post = fwd_seq(bv, pre);
                                assert(fwd_while(bv, *reg, (k + 1) as nat, post) == post);
                                lemma_fwd_err(v.skip(i + 1), target);
                            }
                            return Err(e);
                        },
                    }
                    k += 1;
                }
                j.push(k);
            },
        }
        i += 1;
    }
    assert(v.take(nodes@.len() as int) =~= v);
    Ok(())
}

/// Run forward, appending each decision to `journal` and counting leaves in
/// `steps`. Stops at the first leaf whose operands are out of range, or at a
/// `wz` loop past its iteration limit.
pub fn forward(s: &mut State, nodes: &[Node], journal: &mut Vec<u64>, steps: &mut u64) -> (r: Result<(), String>)
    requires
        fwd_safe(nodes_view(nodes@), start(old(s)@, old(journal)@, *old(steps))),
        fwd_seq(nodes_view(nodes@), start(old(s)@, old(journal)@, *old(steps))).steps <= u64::MAX,
    ensures
        ({
            let o = fwd_seq(nodes_view(nodes@), start(old(s)@, old(journal)@, *old(steps)));
            &&& final(s)@ == o.s
            &&& final(journal)@ == o.j
            &&& *final(steps) == o.steps
            &&& (r is Ok <==> o.err is None)
            &&& (r is Err ==> o.err == Some(r->Err_0@))
        }),
        final(s)@.regs.len() == old(s)@.regs.len(),
        final(s)@.mem.len() == old(s)@.mem.len(),
{
    proof {
        lemma_fwd_seq_mono(nodes_view(nodes@), start(s@, journal@, *steps));
    }
    seq_forward(s, nodes, journal, steps)
}

// ---------------------------------------------------------------- backward

pub proof fn lemma_rev_err(nodes: Seq<NodeV>, r: Run, checked: bool)
    requires
        r.err is Some,
    ensures
        rev_seq(nodes, r, checked) == r,
    decreases nodes.len(),
{
    if nodes.len() > 0 {
        assert(rev_node(nodes.last(), r, checked) == r);
        lemma_rev_err(nodes.drop_last(), r, checked);
    }
}

proof fn lemma_rev_seq_mono(nodes: Seq<NodeV>, r: Run, checked: bool)
    ensures
        rev_seq(nodes, r, checked).s.regs.len() == r.s.regs.len(),
        rev_seq(nodes, r, checked).s.mem.len() == r.s.mem.len(),
        rev_seq(nodes, r, checked).steps >= r.steps,
    decreases nodes, 0nat,
{
    if nodes.len() > 0 {
        lemma_rev_node_mono(nodes.last(), r, checked);
        lemma_rev_seq_mono(nodes.drop_last(), rev_node(nodes.last(), r, checked), checked);
    }
}

proof fn lemma_rev_node_mono(node: NodeV, r: Run, checked: bool)
    ensures
        rev_node(node, r, checked).s.regs.len() == r.s.regs.len(),
        rev_node(node, r, checked).s.mem.len() == r.s.mem.len(),
        rev_node(node, r, checked).steps >= r.steps,
    decreases node, 0nat,
{
    if r.err is None {
        match node {
            NodeV::Inst(i) => {
                if inverse_spec(i) is Some && step(inverse_spec(i).unwrap(), r.s) is Some {
                    lemma_step_len(inverse_spec(i).unwrap(), r.s);
                }
            },
            NodeV::Rep { count, body } => lemma_rev_rep_mono(body, count as nat, r, checked),
            NodeV::IfN { reg, body } => {
                if r.j.len() > 0 {
                    lemma_rev_seq_mono(body, Run { j: r.j.drop_last(), ..r }, checked);
                }
            },
            NodeV::WhileN { reg, body } => {
                if r.j.len() > 0 {
                    lemma_rev_rep_mono(body, r.j.last() as nat, Run { j: r.j.drop_last(), ..r }, checked);
                }
            },
        }
    }
}

proof fn lemma_rev_rep_mono(body: Seq<NodeV>, k: nat, r: Run, checked: bool)
    ensures
        rev_rep(body, k, r, checked).s.regs.len() == r.s.regs.len(),
        rev_rep(body, k, r, checked).s.mem.len() == r.s.mem.len(),
        rev_rep(body, k, r, checked).steps >= r.steps,
        k > 0 && r.err is None ==> rev_rep(body, k, r, checked).steps >= rev_seq(body, r, checked).steps,
    decreases body, k,
{
    if k > 0 && r.err is None {
        lemma_rev_seq_mono(body, r, checked);
        lemma_rev_rep_mono(body, (k - 1) as nat, rev_seq(body, r, checked), checked);
    }
}

proof fn lemma_rev_split(v: Seq<NodeV>, i: int, r: Run, checked: bool)
    requires
        0 <= i < v.len(),
    ensures
        rev_seq(v.take(i + 1), r, checked) == rev_seq(v.take(i), rev_node(v[i], r, checked), checked),
        rev_seq(v.take(i + 1), r, checked).steps >= rev_node(v[i], r, checked).steps,
{
    assert(v.take(i + 1).drop_last() =~= v.take(i));
    assert(v.take(i + 1).last() == v[i]);
    lemma_rev_seq_mono(v.take(i), rev_node(v[i], r, checked), checked);
}

fn seq_reverse(s: &mut State, nodes: &[Node], j: &mut Vec<u64>, steps: &mut u64, checked: bool) -> (r: Result<(), String>)
    requires
        checked ==> rev_safe(nodes_view(nodes@), start(old(s)@, old(j)@, *old(steps)), checked),
        rev_seq(nodes_view(nodes@), start(old(s)@, old(j)@, *old(steps)), checked).steps <= u64::MAX,
    ensures
        ({
            let o = rev_seq(nodes_view(nodes@), start(old(s)@, old(j)@, *old(steps)), checked);
            &&& final(s)@ == o.s
            &&& final(j)@ == o.j
            &&& *final(steps) == o.steps
            &&& (r is Ok <==> o.err is None)
            &&& (r is Err ==> o.err == Some(r->Err_0@))
        }),
        final(s)@.regs.len() == old(s)@.regs.len(),
    decreases nodes@,
{
    let ghost v = nodes_view(nodes@);
    let ghost r0 = start(s@, j@, *steps);
    let ghost total = rev_seq(v, r0, checked);
    let ghost n = s@.regs.len();
    proof {
        lemma_nodes_view(nodes@);
        assert(v.take(v.len() as int) =~= v);
        assert(v.take(v.len() as int) == v);
    }
    let mut i: usize = nodes.len();
    while i > 0
        invariant
            i <= nodes@.len(),
            v == nodes_view(nodes@),
            v.len() == nodes@.len(),
            forall|x: int| 0 <= x < nodes@.len() ==> #[trigger] v[x] == node_view(nodes@[x]),
            r0 == start(old(s)@, old(j)@, *old(steps)),
            n == old(s)@.regs.len(),
            total == rev_seq(v, r0, checked),
            total.steps <= u64::MAX,
            checked ==> rev_safe(v.take(i as int), start(s@, j@, *steps), checked),
            s@.regs.len() == n,
            total == rev_seq(v.take(i as int), start(s@, j@, *steps), checked),
        decreases i,
    {
        i -= 1;
        let ghost cur = start(s@, j@, *steps);
        proof {
            lemma_rev_split(v, i as int, cur, checked);
            assert(v.take(i as int + 1).drop_last() =~= v.take(i as int));
            assert(v.take(i as int + 1).last() == v[i as int]);
            if checked {
                assert(rev_safe(v.take(i as int + 1), cur, checked));
                assert(rev_safe_node(v[i as int], cur, checked));
                assert(rev_safe(v.take(i as int), rev_node(v[i as int], cur, checked), checked));
            }
        }
        let ghost target = rev_node(v[i as int], cur, checked);
        assert(target.steps <= u64::MAX);
        assert(total == rev_seq(v.take(i as int), target, checked));
        match &nodes[i] {
            Node::Inst(inst) => {
                let inv = match inst.inverse() {
                    Some(x) => {
                        if inst.operand_alias().is_some() {
                            proof {
                                lemma_rev_err(v.take(i as int), target, checked);
                            }
                            return Err(boundary_error(*inst, false));
                        }
                        x
                    },
                    None => {
                        proof {
                            lemma_rev_err(v.take(i as int), target, checked);
                        }
                        return Err(boundary_error(*inst, checked));
                    },
                };
                let ghost sp = s@;
                match inv.exec(s) {
                    Ok(()) => {
                        proof {
                            lemma_step_len(inv, sp);
                        }
                        *steps += 1;
                    },
                    Err(e) => {
                        proof {
                            lemma_rev_err(v.take(i as int), target, checked);
                        }
                        return Err(inst_error(inv, e));
                    },
                }
            },
            Node::Rep { count, body } => {
                let ghost bv = nodes_view(body@);
                let mut c: u64 = 0;
                while c < *count
                    invariant
                        c <= *count,
                        bv == nodes_view(body@),
                        checked ==> rev_safe_rep(bv, (*count - c) as nat, start(s@, j@, *steps), checked),
                        s@.regs.len() == n,
                        target == rev_rep(bv, (*count - c) as nat, start(s@, j@, *steps), checked),
                        target.steps <= u64::MAX,
                        r0 == start(old(s)@, old(j)@, *old(steps)),
                        n == old(s)@.regs.len(),
                        total == rev_seq(v.take(i as int), target, checked),
                        total == rev_seq(v, r0, checked),
                        v == nodes_view(nodes@),
                        decreases_to!(nodes@ => body@),
                    decreases *count - c,
                {
                    let ghost pre = start(s@, j@, *steps);
                    proof {
                        lemma_rev_rep_mono(bv, (*count - c) as nat, pre, checked);
                    }
                    match seq_reverse(s, body.as_slice(), j, steps, checked) {
                        Ok(()) => {},
                        Err(e) => {
                            proof {
                                let post = rev_seq(bv, pre, checked);
                                assert(rev_rep(bv, (*count - c - 1) as nat, post, checked) == post);
                                lemma_rev_err(v.take(i as int), target, checked);
                            }
                            return Err(e);
                        },
                    }
                    c += 1;
                }
            },
            Node::IfN { reg, body } => {
                let ghost bv = nodes_view(body@);
                let flag = match j.pop() {
                    Some(f) => f,
                    None => {
                        proof {
                            lemma_rev_err(v.take(i as int), target, checked);
                        }
                        return Err(msg(if checked { "ifnz: журнал пуст" } else { "ifnz: журнал пуст при reverse" }));
                    },
                };
                if flag != 0 {
                    let ghost pre = start(s@, j@, *steps);
                    proof {
                        lemma_rev_seq_mono(bv, pre, checked);
                    }
                    match seq_reverse(s, body.as_slice(), j, steps, checked) {
                        Ok(()) => {},
                        Err(e) => {
                            proof {
                                lemma_rev_err(v.take(i as int), target, checked);
                            }
                            return Err(e);
                        },
                    }
                }
                if checked {
                    let now: u64 = if s.regs[*reg as usize] != 0 { 1 } else { 0 };
                    if now != flag {
                        proof {
                            lemma_rev_err(v.take(i as int), target, checked);
                        }
                        return Err(msg("ifnz: условие разошлось с журналом — повреждён журнал"));
                    }
                }
            },
            Node::WhileN { reg, body } => {
                let ghost bv = nodes_view(body@);
                let k = match j.pop() {
                    Some(k) => k,
                    None => {
                        proof {
                            lemma_rev_err(v.take(i as int), target, checked);
                        }
                        return Err(msg(if checked { "wz: журнал пуст" } else { "wz: журнал пуст при reverse" }));
                    },
                };
                let mut c: u64 = 0;
                while c < k
                    invariant
                        c <= k,
                        bv == nodes_view(body@),
                        checked ==> rev_safe_rep(bv, (k - c) as nat, start(s@, j@, *steps), checked),
                        s@.regs.len() == n,
                        target == rev_rep(bv, (k - c) as nat, start(s@, j@, *steps), checked),
                        target.steps <= u64::MAX,
                        r0 == start(old(s)@, old(j)@, *old(steps)),
                        n == old(s)@.regs.len(),
                        total == rev_seq(v.take(i as int), target, checked),
                        total == rev_seq(v, r0, checked),
                        v == nodes_view(nodes@),
                        decreases_to!(nodes@ => body@),
                    decreases k - c,
                {
                    let ghost pre = start(s@, j@, *steps);
                    proof {
                        lemma_rev_rep_mono(bv, (k - c) as nat, pre, checked);
                    }
                    match seq_reverse(s, body.as_slice(), j, steps, checked) {
                        Ok(()) => {},
                        Err(e) => {
                            proof {
                                let post = rev_seq(bv, pre, checked);
                                assert(rev_rep(bv, (k - c - 1) as nat, post, checked) == post);
                                lemma_rev_err(v.take(i as int), target, checked);
                            }
                            return Err(e);
                        },
                    }
                    c += 1;
                }
            },
        }
    }
    assert(v.take(0) =~= Seq::<NodeV>::empty());
    Ok(())
}

fn boundary_error(i: Inst, checked: bool) -> (m: String)
    ensures
        m@ == boundary_msg(i, checked),
{
    if checked {
        msg("граница")
    } else {
        let e = msg("граница (set/mset) — откат требует чекпоинта");
        inst_error(i, e)
    }
}

/// Roll back trusting the journal, reading it last-in first-out; each
/// decision read is removed. After a full rollback of a forward run the
/// journal is back to what it was: the rollback leaves no trace in it.
pub fn reverse(s: &mut State, nodes: &[Node], journal: &mut Vec<u64>, steps: &mut u64) -> (r: Result<(), String>)
    requires
        rev_seq(nodes_view(nodes@), start(old(s)@, old(journal)@, *old(steps)), false).steps <= u64::MAX,
    ensures
        ({
            let o = rev_seq(nodes_view(nodes@), start(old(s)@, old(journal)@, *old(steps)), false);
            &&& final(s)@ == o.s
            &&& final(journal)@ == o.j
            &&& *final(steps) == o.steps
            &&& (r is Ok <==> o.err is None)
            &&& (r is Err ==> o.err == Some(r->Err_0@))
        }),
        final(s)@.regs.len() == old(s)@.regs.len(),
        final(s)@.mem.len() == old(s)@.mem.len(),
{
    proof {
        lemma_rev_seq_mono(nodes_view(nodes@), start(s@, journal@, *steps), false);
    }
    seq_reverse(s, nodes, journal, steps, false)
}

/// Roll back as `reverse` does, and after each `ifnz` re-test its condition
/// on the restored state against the journal flag: a disagreement means the
/// journal was corrupted, and is reported as an error. Like `reverse`, it
/// refuses a leaf whose operands alias, which is no bijection.
pub fn reverse_checked(s: &mut State, nodes: &[Node], journal: &mut Vec<u64>, steps: &mut u64) -> (r: Result<(), String>)
    requires
        rev_safe(nodes_view(nodes@), start(old(s)@, old(journal)@, *old(steps)), true),
        rev_seq(nodes_view(nodes@), start(old(s)@, old(journal)@, *old(steps)), true).steps <= u64::MAX,
    ensures
        ({
            let o = rev_seq(nodes_view(nodes@), start(old(s)@, old(journal)@, *old(steps)), true);
            &&& final(s)@ == o.s
            &&& final(journal)@ == o.j
            &&& *final(steps) == o.steps
            &&& (r is Ok <==> o.err is None)
            &&& (r is Err ==> o.err == Some(r->Err_0@))
        }),
        final(s)@.regs.len() == old(s)@.regs.len(),
        final(s)@.mem.len() == old(s)@.mem.len(),
{
    proof {
        lemma_rev_seq_mono(nodes_view(nodes@), start(s@, journal@, *steps), true);
    }
    seq_reverse(s, nodes, journal, steps, true)
}

// ---------------------------------------------------------------- laws

/// Every leaf has an inverse and no operand aliasing.
pub open spec fn all_inv(nodes: Seq<NodeV>) -> bool
    decreases nodes,
{
    if nodes.len() == 0 {
        true
    } else {
        all_inv(nodes.drop_last()) && node_inv(nodes.last())
    }
}

pub open spec fn node_inv(node: NodeV) -> bool
    decreases node,
{
    match node {
        NodeV::Inst(i) => invertible(i),
        NodeV::Rep { body, .. } => all_inv(body),
        NodeV::IfN { body, .. } => all_inv(body),
        NodeV::WhileN { body, .. } => all_inv(body),
    }
}

/// The pass count a `wz` loop ends with.
spec fn while_iters(body: Seq<NodeV>, reg: u8, k: nat, r: Run) -> nat
    decreases MAX_WHILE_ITERS - k,
{
    if r.err is Some || r.s.regs[reg as int] == 0 || k >= MAX_WHILE_ITERS {
        k
    } else {
        while_iters(body, reg, k + 1, fwd_seq(body, r))
    }
}

proof fn lemma_fwd_rep_back(body: Seq<NodeV>, k: nat, r: Run)
    requires
        k > 0,
    ensures
        fwd_rep(body, k, r) == fwd_seq(body, fwd_rep(body, (k - 1) as nat, r)),
    decreases k,
{
    if r.err is Some {
        lemma_fwd_err(body, r);
    } else if k > 1 {
        let r1 = fwd_seq(body, r);
        lemma_fwd_rep_back(body, (k - 1) as nat, r1);
        assert(fwd_rep(body, (k - 1) as nat, r) == fwd_rep(body, (k - 2) as nat, r1));
    } else {
        assert(fwd_rep(body, 0, fwd_seq(body, r)) == fwd_seq(body, r));
        assert(fwd_rep(body, 0, r) == r);
    }
}

/// A finished `wz` loop is its body run `K` times, then the count `K` journaled.
proof fn lemma_while_shape(body: Seq<NodeV>, reg: u8, k: nat, r: Run)
    requires
        r.err is None,
        fwd_while(body, reg, k, r).err is None,
        k <= MAX_WHILE_ITERS,
    ensures
        ({
            let kk = while_iters(body, reg, k, r);
            let g = fwd_rep(body, (kk - k) as nat, r);
            &&& k <= kk <= MAX_WHILE_ITERS
            &&& g.err is None
            &&& fwd_while(body, reg, k, r) == Run { j: g.j.push(kk as u64), ..g }
            &&& fwd_safe_while(body, reg, k, r) ==> fwd_safe_rep(body, (kk - k) as nat, r)
        }),
    decreases MAX_WHILE_ITERS - k,
{
    if r.s.regs[reg as int] != 0 {
        let r1 = fwd_seq(body, r);
        lemma_while_shape(body, reg, k + 1, r1);
    }
}

proof fn lemma_fwd_safe_rep_back(body: Seq<NodeV>, k: nat, r: Run)
    requires
        k > 0,
        fwd_safe_rep(body, k, r),
    ensures
        fwd_safe_rep(body, (k - 1) as nat, r),
        fwd_rep(body, (k - 1) as nat, r).err is None ==> fwd_safe(body, fwd_rep(body, (k - 1) as nat, r)),
    decreases k,
{
    if r.err is None && k > 1 {
        let r1 = fwd_seq(body, r);
        lemma_fwd_safe_rep_back(body, (k - 1) as nat, r1);
        assert(fwd_rep(body, (k - 1) as nat, r) == fwd_rep(body, (k - 2) as nat, r1));
    }
}

proof fn lemma_rt_seq(nodes: Seq<NodeV>, r: Run, st: nat, checked: bool)
    requires
        r.err is None,
        all_inv(nodes),
        fwd_seq(nodes, r).err is None,
    ensures
        ({
            let f = fwd_seq(nodes, r);
            let b = rev_seq(nodes, Run { s: f.s, j: f.j, steps: st, err: None }, checked);
            &&& b.err is None
            &&& b.s == r.s
            &&& b.j == r.j
            &&& b.steps == st + f.steps - r.steps
            &&& fwd_safe(nodes, r) ==> rev_safe(nodes, Run { s: f.s, j: f.j, steps: st, err: None }, checked)
        }),
    decreases nodes, 0nat,
{
    if nodes.len() > 0 {
        let d = nodes.drop_last();
        let x = nodes.last();
        let m = fwd_seq(d, r);
        let f = fwd_seq(nodes, r);
        lemma_rt_node(x, m, st, checked);
        let b1 = rev_node(x, Run { s: f.s, j: f.j, steps: st, err: None }, checked);
        lemma_rt_seq(d, r, b1.steps, checked);
        assert(b1 == Run { s: m.s, j: m.j, steps: b1.steps, err: None });
    }
}

proof fn lemma_rt_node(x: NodeV, m: Run, st: nat, checked: bool)
    requires
        m.err is None,
        node_inv(x),
        fwd_node(x, m).err is None,
    ensures
        ({
            let f = fwd_node(x, m);
            let b = rev_node(x, Run { s: f.s, j: f.j, steps: st, err: None }, checked);
            &&& b.err is None
            &&& b.s == m.s
            &&& b.j == m.j
            &&& b.steps == st + f.steps - m.steps
            &&& fwd_safe_node(x, m) ==> rev_safe_node(x, Run { s: f.s, j: f.j, steps: st, err: None }, checked)
        }),
    decreases x, 0nat,
{
    let f = fwd_node(x, m);
    let big_r = Run { s: f.s, j: f.j, steps: st, err: None };
    match x {
        NodeV::Inst(i) => {
            crate::inst::law_inverse_undoes(i, m.s);
        },
        NodeV::Rep { count, body } => {
            lemma_rt_rep(body, count as nat, m, st, checked);
        },
        NodeV::IfN { reg, body } => {
            let c = m.s.regs[reg as int] != 0;
            let r1 = if c { fwd_seq(body, m) } else { m };
            assert(f == Run { j: r1.j.push(if c { 1u64 } else { 0u64 }), ..r1 });
            assert(big_r.j.drop_last() =~= r1.j);
            if c {
                lemma_rt_seq(body, m, st, checked);
            }
        },
        NodeV::WhileN { reg, body } => {
            lemma_while_shape(body, reg, 0, m);
            let kk = while_iters(body, reg, 0, m);
            let g = fwd_rep(body, kk, m);
            assert(big_r.j.drop_last() =~= g.j);
            assert(big_r.j.last() == kk as u64);
            lemma_rt_rep(body, kk, m, st, checked);
            assert(Run { j: big_r.j.drop_last(), ..big_r } == Run { s: g.s, j: g.j, steps: st, err: None });
        },
    }
}

proof fn lemma_rt_rep(body: Seq<NodeV>, k: nat, m: Run, st: nat, checked: bool)
    requires
        m.err is None,
        all_inv(body),
        fwd_rep(body, k, m).err is None,
    ensures
        ({
            let f = fwd_rep(body, k, m);
            let b = rev_rep(body, k, Run { s: f.s, j: f.j, steps: st, err: None }, checked);
            &&& b.err is None
            &&& b.s == m.s
            &&& b.j == m.j
            &&& b.steps == st + f.steps - m.steps
            &&& fwd_safe_rep(body, k, m) ==> rev_safe_rep(body, k, Run { s: f.s, j: f.j, steps: st, err: None }, checked)
        }),
    decreases body, k,
{
    if k > 0 {
        lemma_fwd_rep_back(body, k, m);
        let g = fwd_rep(body, (k - 1) as nat, m);
        let f = fwd_rep(body, k, m);
        assert(g.err is None) by {
            if g.err is Some {
                lemma_fwd_err(body, g);
            }
        }
        if fwd_safe_rep(body, k, m) {
            lemma_fwd_safe_rep_back(body, k, m);
        }
        lemma_rt_seq(body, g, st, checked);
        let b1 = rev_seq(body, Run { s: f.s, j: f.j, steps: st, err: None }, checked);
        lemma_rt_rep(body, (k - 1) as nat, m, b1.steps, checked);
        assert(b1 == Run { s: g.s, j: g.j, steps: b1.steps, err: None });
    }
}

/// Law: F⁻¹(F(S)) == S. For a program whose leaves are all invertible, a
/// forward run that succeeded is undone exactly by the backward run from its
/// end state and journal: the state and the journal come back to what they
/// were, the checked rollback finds no disagreement, and the rollback takes
/// as many leaf steps as the forward run did. A forward run that read no
/// condition register out of range leaves a rollback that reads none either.
pub proof fn law_ctl_roundtrip(nodes: Seq<NodeV>, s: StateV, j: Seq<u64>, steps: nat, back_steps: nat, checked: bool)
    requires
        all_inv(nodes),
        fwd_seq(nodes, Run { s, j, steps, err: None }).err is None,
    ensures
        ({
            let f = fwd_seq(nodes, Run { s, j, steps, err: None });
            let b = rev_seq(nodes, Run { s: f.s, j: f.j, steps: back_steps, err: None }, checked);
            &&& b.err is None
            &&& b.s == s
            &&& b.j == j
            &&& b.steps == back_steps + f.steps - steps
            &&& fwd_safe(nodes, Run { s, j, steps, err: None }) ==> rev_safe(nodes, Run { s: f.s, j: f.j, steps: back_steps, err: None }, checked)
        }),
{
    lemma_rt_seq(nodes, Run { s, j, steps, err: None }, back_steps, checked);
}

// ---------------------------------------------------------------- parsing

/// The kind of an open block while parsing.
#[derive(Clone, Copy, PartialEq, Eq, Structural)]
pub enum BlockKind {
    Rep,
    If,
    While,
}

/// Parser state after some lines: finished top-level nodes and open blocks.
pub ghost struct PState {
    pub root: Seq<NodeV>,
    pub stack: Seq<(BlockKind, u64, u8, Seq<NodeV>)>,
}

/// Append a node to the innermost open block, or to the top level.
pub open spec fn push_node_spec(st: PState, n: NodeV) -> PState {
    if st.stack.len() > 0 {
        let top = st.stack.last();
        PState { root: st.root, stack: st.stack.drop_last().push((top.0, top.1, top.2, top.3.push(n))) }
    } else {
        PState { root: st.root.push(n), stack: st.stack }
    }
}

/// The node an `end` closes.
pub open spec fn close_spec(top: (BlockKind, u64, u8, Seq<NodeV>)) -> NodeV {
    match top.0 {
        BlockKind::Rep => NodeV::Rep { count: top.1, body: top.3 },
        BlockKind::If => NodeV::IfN { reg: top.2, body: top.3 },
        BlockKind::While => NodeV::WhileN { reg: top.2, body: top.3 },
    }
}

/// One non-empty line (its tokens) applied to the parser state.
pub open spec fn parse_line_spec(st: PState, toks: Seq<Seq<char>>, lineno: nat, nregs: nat) -> Result<PState, Seq<char>> {
    let head = lower(toks[0]);
    if head == "rep"@ {
        if toks.len() != 2 {
            Err(err_at(lineno, "rep <count>"@))
        } else {
            match parse_imm_spec(toks[1]) {
                Err(e) => Err(err_at(lineno, e)),
                Ok(c) => Ok(PState { root: st.root, stack: st.stack.push((BlockKind::Rep, c, 0u8, seq![])) }),
            }
        }
    } else if head == "ifnz"@ || head == "wz"@ {
        if toks.len() != 2 {
            Err(err_at(lineno, if head == "ifnz"@ { "ifnz rN"@ } else { "wz rN"@ }))
        } else {
            match parse_reg_spec(toks[1], nregs) {
                Err(e) => Err(err_at(lineno, e)),
                Ok(r) => Ok(PState {
                    root: st.root,
                    stack: st.stack.push((if head == "ifnz"@ { BlockKind::If } else { BlockKind::While }, 0u64, r, seq![])),
                }),
            }
        }
    } else if head == "end"@ {
        if st.stack.len() == 0 {
            Err(err_at(lineno, "end без rep/ifnz/wz"@))
        } else {
            Ok(push_node_spec(PState { root: st.root, stack: st.stack.drop_last() }, close_spec(st.stack.last())))
        }
    } else {
        match parse_inst_spec(head, toks.drop_first(), nregs) {
            Err(e) => Err(err_at(lineno, e)),
            Ok(i) => Ok(push_node_spec(st, NodeV::Inst(i))),
        }
    }
}

/// The parser state after the first `k` lines.
pub open spec fn parse_lines_spec(lines: Seq<Seq<char>>, k: nat, nregs: nat) -> Result<PState, Seq<char>>
    decreases k,
{
    if k == 0 {
        Ok(PState { root: seq![], stack: seq![] })
    } else {
        match parse_lines_spec(lines, (k - 1) as nat, nregs) {
            Err(e) => Err(e),
            Ok(st) => {
                let toks = line_tokens(lines[k - 1]);
                if toks.len() == 0 {
                    Ok(st)
                } else {
                    parse_line_spec(st, toks, (k - 1) as nat, nregs)
                }
            },
        }
    }
}

/// The program a text denotes, or the first error.
pub open spec fn parse_spec(text: Seq<char>, nregs: nat) -> Result<Seq<NodeV>, Seq<char>> {
    let ls = lines_spec(text);
    match parse_lines_spec(ls, ls.len(), nregs) {
        Err(e) => Err(e),
        Ok(st) => if st.stack.len() > 0 {
            Err("незакрытый блок"@)
        } else {
            Ok(st.root)
        },
    }
}

proof fn lemma_parse_lines_err(ls: Seq<Seq<char>>, k: nat, n: nat, nregs: nat)
    requires
        k <= n,
        parse_lines_spec(ls, k, nregs) is Err,
    ensures
        parse_lines_spec(ls, n, nregs) == parse_lines_spec(ls, k, nregs),
    decreases n - k,
{
    if n > k {
        lemma_parse_lines_err(ls, k, (n - 1) as nat, nregs);
    }
}

pub open spec fn stack_view(s: Seq<(BlockKind, u64, u8, Vec<Node>)>) -> Seq<(BlockKind, u64, u8, Seq<NodeV>)> {
    s.map_values(|e: (BlockKind, u64, u8, Vec<Node>)| (e.0, e.1, e.2, nodes_view(e.3@)))
}

fn push_node(stack: &mut Vec<(BlockKind, u64, u8, Vec<Node>)>, root: &mut Vec<Node>, node: Node)
    ensures
        push_node_spec(PState { root: nodes_view(old(root)@), stack: stack_view(old(stack)@) }, node_view(node))
            == (PState { root: nodes_view(final(root)@), stack: stack_view(final(stack)@) }),
{
    let ghost n = node;
    if stack.len() > 0 {
        let (kind, c, r, mut b) = stack.pop().unwrap();
        b.push(node);
        proof {
            assert(b@.drop_last() =~= old(stack)@.last().3@);
        }
        stack.push((kind, c, r, b));
        proof {
            let top = stack_view(old(stack)@).last();
            assert(stack_view(stack@) =~= stack_view(old(stack)@).drop_last().push((top.0, top.1, top.2, top.3.push(node_view(n)))));
        }
    } else {
        root.push(node);
        proof {
            assert(root@.drop_last() =~= old(root)@);
        }
    }
}

/// Parse a program with structured control flow: `rep N`/`end`,
/// `ifnz rN`/`end`, `wz rN`/`end`, and the instructions of the text format.
pub fn parse(text: &str, nregs: usize) -> (r: Result<Vec<Node>, String>)
    ensures
        match parse_spec(text@, nregs as nat) {
            Ok(nodes) => r is Ok && nodes_view(r->Ok_0@) == nodes,
            Err(e) => r is Err && r->Err_0@ == e,
        },
{
    let tv = chars_of(text);
    let lines = split_lines(&tv);
    let ghost ls = lines_spec(text@);
    let mut root: Vec<Node> = Vec::new();
    let mut stack: Vec<(BlockKind, u64, u8, Vec<Node>)> = Vec::new();
    let mut k: usize = 0;
    assert(nodes_view(root@) =~= Seq::<NodeV>::empty());
    assert(stack_view(stack@) =~= Seq::<(BlockKind, u64, u8, Seq<NodeV>)>::empty());
    while k < lines.len()
        invariant
            k <= lines@.len(),
            lines@.len() == ls.len(),
            ls == lines_spec(text@),
            forall|j: int| 0 <= j < lines@.len() ==> #[trigger] lines@[j]@ == ls[j],
            parse_lines_spec(ls, k as nat, nregs as nat) == Ok::<PState, Seq<char>>(
                PState { root: nodes_view(root@), stack: stack_view(stack@) },
            ),
        decreases lines@.len() - k,
    {
        let toks = tokens_of_line(&lines[k]);
        let ghost tv_ = line_tokens(ls[k as int]);
        if toks.len() == 0 {
            k += 1;
            continue;
        }
        let ghost st = PState { root: nodes_view(root@), stack: stack_view(stack@) };
        let head = lower_chars(&toks[0]);
        let is_if = chars_eq(&head, "ifnz");
        if chars_eq(&head, "rep") {
            if toks.len() != 2 {
                proof {
                    lemma_parse_lines_err(ls, (k + 1) as nat, ls.len(), nregs as nat);
                }
                return Err(err_line_str(k, "rep <count>"));
            }
            let count = match imm_chars(&toks[1]) {
                Ok(c) => c,
                Err(e) => {
                    proof {
                        lemma_parse_lines_err(ls, (k + 1) as nat, ls.len(), nregs as nat);
                    }
                    return Err(err_line_string(k, e));
                },
            };
            stack.push((BlockKind::Rep, count, 0u8, Vec::new()));
            proof {
                assert(nodes_view(Seq::<Node>::empty()) =~= Seq::<NodeV>::empty());
                assert(stack_view(stack@) =~= st.stack.push((BlockKind::Rep, count, 0u8, seq![])));
            }
        } else if is_if || chars_eq(&head, "wz") {
            if toks.len() != 2 {
                proof {
                    lemma_parse_lines_err(ls, (k + 1) as nat, ls.len(), nregs as nat);
                }
                return Err(err_line_str(k, if is_if { "ifnz rN" } else { "wz rN" }));
            }
            let reg = match reg_chars(&toks[1], nregs) {
                Ok(r) => r,
                Err(e) => {
                    proof {
                        lemma_parse_lines_err(ls, (k + 1) as nat, ls.len(), nregs as nat);
                    }
                    return Err(err_line_string(k, e));
                },
            };
            let kind = if is_if { BlockKind::If } else { BlockKind::While };
            stack.push((kind, 0u64, reg, Vec::new()));
            proof {
                assert(nodes_view(Seq::<Node>::empty()) =~= Seq::<NodeV>::empty());
                assert(stack_view(stack@) =~= st.stack.push((kind, 0u64, reg, seq![])));
            }
        } else if chars_eq(&head, "end") {
            if stack.len() == 0 {
                proof {
                    lemma_parse_lines_err(ls, (k + 1) as nat, ls.len(), nregs as nat);
                }
                return Err(err_line_str(k, "end без rep/ifnz/wz"));
            }
            let (kind, count, reg, body) = stack.pop().unwrap();
            proof {
                assert(stack_view(stack@) =~= st.stack.drop_last());
            }
            let node = match kind {
                BlockKind::Rep => Node::Rep { count, body },
                BlockKind::If => Node::IfN { reg, body },
                BlockKind::While => Node::WhileN { reg, body },
            };
            push_node(&mut stack, &mut root, node);
        } else {
            let mut args: Vec<Vec<char>> = Vec::new();
            let mut a: usize = 1;
            while a < toks.len()
                invariant
                    1 <= a <= toks@.len(),
                    args@.len() == a - 1,
                    forall|j: int| 0 <= j < args@.len() ==> #[trigger] args@[j]@ == toks@[j + 1]@,
                decreases toks@.len() - a,
            {
                args.push(copy_chars(&toks[a]));
                a += 1;
            }
            proof {
                assert(args@.map_values(|x: Vec<char>| x@) =~= tv_.drop_first());
            }
            let inst = match parse_inst(&head, &args, nregs) {
                Ok(i) => i,
                Err(e) => {
                    proof {
                        lemma_parse_lines_err(ls, (k + 1) as nat, ls.len(), nregs as nat);
                    }
                    return Err(err_line_string(k, e));
                },
            };
            push_node(&mut stack, &mut root, Node::Inst(inst));
        }
        k += 1;
    }
    if stack.len() > 0 {
        return Err(msg("незакрытый блок"));
    }
    Ok(root)
}

} // verus!
