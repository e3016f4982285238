//! The verifier: classifies every leaf of the expanded stream as invertible,
//! a boundary (`set`/`mset`), or an operand-aliasing violation.
use vstd::prelude::*;
use crate::inst::{Inst, alias_spec, invertible};
use crate::machine::{leaves, lemma_flatten_push, lemma_repeat_split, repeat};
use crate::program::{Node, lemma_nodes_view};
use crate::text::{chars_of, string_of};

verus! {

#[derive(Debug, Clone, Copy, PartialEq, Eq, Structural)]
pub enum ViolationKind {
    /// `set`/`mset`: destroys a value with no source (a boundary).
    Boundary,
    /// Operand aliasing (`dst == src` and the like): not a bijection.
    Alias,
}

#[derive(Debug, Clone)]
pub struct Violation {
    /// Index of the leaf in the expanded stream (0-based).
    pub leaf: u64,
    pub kind: ViolationKind,
    pub reason: String,
}

#[derive(Debug, Clone)]
pub struct Report {
    pub total_leaves: u64,
    pub invertible_leaves: u64,
    pub irreversible_leaves: u64,
    pub violations: Vec<Violation>,
}

/// Mathematical value of a `Violation`.
pub ghost struct ViolationV {
    pub leaf: nat,
    pub kind: ViolationKind,
    pub reason: Seq<char>,
}

pub open spec fn violation_view(v: Violation) -> ViolationV {
    ViolationV { leaf: v.leaf as nat, kind: v.kind, reason: v.reason@ }
}

pub open spec fn boundary_reason() -> Seq<char> {
    "Set: уничтожает старое значение регистра без источника"@
}

/// How the verifier classifies one leaf: `None` for an invertible one.
pub open spec fn classify(i: Inst) -> Option<(ViolationKind, Seq<char>)> {
    if alias_spec(i) is Some {
        Some((ViolationKind::Alias, alias_spec(i).unwrap()))
    } else if i is SetReg || i is MSet {
        Some((ViolationKind::Boundary, boundary_reason()))
    } else {
        None
    }
}

/// The violations of a stream whose first leaf has index `base`.
pub open spec fn violations_spec(ls: Seq<Inst>, base: nat) -> Seq<ViolationV>
    decreases ls.len(),
{
    if ls.len() == 0 {
        seq![]
    } else {
        let prev = violations_spec(ls.drop_last(), base);
        match classify(ls.last()) {
            Some((kind, reason)) => prev.push(ViolationV { leaf: (base + ls.len() - 1) as nat, kind, reason }),
            None => prev,
        }
    }
}

/// Mathematical value of a `Report`.
pub ghost struct ReportV {
    pub total: nat,
    pub invertible: nat,
    pub irreversible: nat,
    pub violations: Seq<ViolationV>,
}

pub open spec fn report_view(r: Report) -> ReportV {
    ReportV {
        total: r.total_leaves as nat,
        invertible: r.invertible_leaves as nat,
        irreversible: r.irreversible_leaves as nat,
        violations: r.violations@.map_values(|v: Violation| violation_view(v)),
    }
}

/// The report of a stream: every leaf counted, violations in stream order.
pub open spec fn report_spec(ls: Seq<Inst>) -> ReportV {
    let v = violations_spec(ls, 0);
    ReportV { total: ls.len(), invertible: (ls.len() - v.len()) as nat, irreversible: v.len(), violations: v }
}


pub proof fn lemma_violations_concat(a: Seq<Inst>, b: Seq<Inst>, base: nat)
    ensures
        violations_spec(a + b, base) == violations_spec(a, base) + violations_spec(b, base + a.len()),
    decreases b.len(),
{
    if b.len() == 0 {
        assert(a + b =~= a);
        assert(violations_spec(a, base) + Seq::<ViolationV>::empty() =~= violations_spec(a, base));
    } else {
        lemma_violations_concat(a, b.drop_last(), base);
        assert((a + b).drop_last() =~= a + b.drop_last());
        assert((a + b).last() == b.last());
        let x = violations_spec(a, base);
        let y = violations_spec(b.drop_last(), base + a.len());
        match classify(b.last()) {
            Some((kind, reason)) => {
                let e = ViolationV { leaf: (base + a.len() + b.len() - 1) as nat, kind, reason };
                assert((x + y).push(e) =~= x + y.push(e));
            },
            None => {},
        }
    }
}

pub proof fn lemma_violations_bound(ls: Seq<Inst>, base: nat)
    ensures
        violations_spec(ls, base).len() <= ls.len(),
        violations_spec(ls, base).len() == 0 <==> forall|i: int| 0 <= i < ls.len() ==> invertible(#[trigger] ls[i]),
    decreases ls.len(),
{
    if ls.len() > 0 {
        lemma_violations_bound(ls.drop_last(), base);
        let d = ls.drop_last();
        if violations_spec(ls, base).len() == 0 {
            assert forall|i: int| 0 <= i < ls.len() implies invertible(#[trigger] ls[i]) by {
                if i < ls.len() - 1 {
                    assert(d[i] == ls[i]);
                }
            }
        } else {
            if classify(ls.last()) is None {
                let k = choose|i: int| 0 <= i < d.len() && !invertible(#[trigger] d[i]);
                assert(ls[k] == d[k]);
            }
        }
    }
}

impl Report {
    /// Purely reversible: no boundaries and no aliasing.
    pub fn reversible(&self) -> (b: bool)
        ensures
            b == (self.irreversible_leaves == 0 && self.violations@.len() == 0),
    {
        self.irreversible_leaves == 0 && self.violations.len() == 0
    }
}

fn classify_exec(inst: &Inst) -> (r: Option<(ViolationKind, String)>)
    ensures
        match classify(*inst) {
            None => r is None,
            Some((k, m)) => match r {
                Some((k2, m2)) => k2 == k && m2@ == m,
                None => false,
            },
        },
{
    if let Some(alias) = inst.operand_alias() {
        let v = chars_of(alias);
        Some((ViolationKind::Alias, string_of(&v)))
    } else if inst.is_irreversible() {
        let v = chars_of("Set: уничтожает старое значение регистра без источника");
        Some((ViolationKind::Boundary, string_of(&v)))
    } else {
        None
    }
}

fn walk(nodes: &[Node], counter: &mut u64, out: &mut Report)
    requires
        *old(counter) + leaves(nodes@).len() <= u64::MAX,
        old(out).total_leaves == *old(counter),
        old(out).invertible_leaves + old(out).irreversible_leaves == old(out).total_leaves,
    ensures
        ({
            let r0 = report_view(*old(out));
            let v = violations_spec(leaves(nodes@), *old(counter) as nat);
            report_view(*final(out)) == ReportV {
                total: r0.total + leaves(nodes@).len(),
                invertible: (r0.invertible + leaves(nodes@).len() - v.len()) as nat,
                irreversible: r0.irreversible + v.len(),
                violations: r0.violations + v,
            }
        }),
        *final(counter) == *old(counter) + leaves(nodes@).len(),
        final(out).total_leaves == *final(counter),
        final(out).invertible_leaves + final(out).irreversible_leaves == final(out).total_leaves,
    decreases nodes@,
{
    let ghost r0 = report_view(*out);
    let ghost c0 = *counter;
    let ghost all = leaves(nodes@);
    let mut i: usize = 0;
    proof {
        assert(leaves(nodes@.take(0)) =~= Seq::<Inst>::empty());
        assert(violations_spec(Seq::<Inst>::empty(), c0 as nat) =~= Seq::<ViolationV>::empty());
        assert(r0.violations + Seq::<ViolationV>::empty() =~= r0.violations);
        lemma_violations_bound(all, c0 as nat);
    }
    while i < nodes.len()
        invariant
            i <= nodes@.len(),
            r0 == report_view(*old(out)),
            c0 == *old(counter),
            all == leaves(nodes@),
            c0 + all.len() <= u64::MAX,
            *counter == c0 + leaves(nodes@.take(i as int)).len(),
            out.total_leaves == *counter,
            out.invertible_leaves + out.irreversible_leaves == out.total_leaves,
            ({
                let p = leaves(nodes@.take(i as int));
                let v = violations_spec(p, c0 as nat);
                report_view(*out) == ReportV {
                    total: r0.total + p.len(),
                    invertible: (r0.invertible + p.len() - v.len()) as nat,
                    irreversible: r0.irreversible + v.len(),
                    violations: r0.violations + v,
                }
            }),
        decreases nodes@.len() - i,
    {
        let ghost p = leaves(nodes@.take(i as int));
        proof {
            lemma_flatten_push(nodes@, i as int);
            crate::machine::lemma_leaves_split(nodes@, i + 1);
            crate::machine::lemma_leaves_split(nodes@, i as int);
            lemma_violations_bound(p, c0 as nat);
        }
        match &nodes[i] {
            Node::Inst(inst) => {
                let leaf = *counter;
                *counter += 1;
                out.total_leaves += 1;
                match classify_exec(inst) {
                    Some((kind, reason)) => {
                        let ghost vs = out.violations@;
                        out.violations.push(Violation { leaf, kind, reason });
                        out.irreversible_leaves += 1;
                        proof {
                            let q = leaves(nodes@.take(i + 1));
                            assert(q == p.push(*inst));
                            assert(q.drop_last() =~= p);
                            assert(out.violations@.map_values(|v: Violation| violation_view(v))
                                =~= vs.map_values(|v: Violation| violation_view(v)).push(ViolationV { leaf: leaf as nat, kind, reason: reason@ }));
                        }
                    },
                    None => {
                        out.invertible_leaves += 1;
                        proof {
                            let q = leaves(nodes@.take(i + 1));
                            assert(q == p.push(*inst));
                            assert(q.drop_last() =~= p);
                        }
                    },
                }
            },
            Node::Rep { count, body } => {
                let ghost fb = leaves(body@);
                proof {
                    lemma_nodes_view(nodes@);
                    assert(decreases_to!(nodes@ => nodes@[i as int]));
                    assert(decreases_to!(nodes@[i as int] => *body));
                    assert(decreases_to!(*body => body@));
                    assert(decreases_to!(nodes@ => body@));
                    crate::machine::lemma_repeat_len(fb, *count as nat);
                    assert(repeat(fb, 0) =~= Seq::<Inst>::empty());
                    assert(p + repeat(fb, 0) =~= p);
                }
                let mut j: u64 = 0;
                while j < *count
                    invariant
                        j <= *count,
                        i < nodes@.len(),
                        r0 == report_view(*old(out)),
                        c0 == *old(counter),
                        all == leaves(nodes@),
                        c0 + all.len() <= u64::MAX,
                        fb == leaves(body@),
                        p == leaves(nodes@.take(i as int)),
                        leaves(nodes@.take(i + 1)) == p + repeat(fb, *count as nat),
                        all == leaves(nodes@.take(i + 1)) + leaves(nodes@.skip(i + 1)),
                        out.total_leaves == *counter,
                        out.invertible_leaves + out.irreversible_leaves == out.total_leaves,
                        *counter == c0 + (p + repeat(fb, j as nat)).len(),
                        ({
                            let pp = p + repeat(fb, j as nat);
                            let v = violations_spec(pp, c0 as nat);
                            report_view(*out) == ReportV {
                                total: r0.total + pp.len(),
                                invertible: (r0.invertible + pp.len() - v.len()) as nat,
                                irreversible: r0.irreversible + v.len(),
                                violations: r0.violations + v,
                            }
                        }),
                        decreases_to!(nodes@ => body@),
                    decreases *count - j,
                {
                    let ghost pp = p + repeat(fb, j as nat);
                    proof {
                        lemma_repeat_split(fb, j as nat, 1);
                        lemma_repeat_split(fb, (j + 1) as nat, (*count - j - 1) as nat);
                        assert(repeat(fb, 1) =~= fb);
                        assert(p + repeat(fb, (j + 1) as nat) =~= pp + fb);
                        lemma_violations_concat(pp, fb, c0 as nat);
                        crate::machine::lemma_repeat_len(fb, (j + 1) as nat);
                        crate::machine::lemma_repeat_len(fb, (*count - j - 1) as nat);
                        assert(((j + 1) as nat) * fb.len() + ((*count - j - 1) as nat) * fb.len() == (*count as nat) * fb.len()) by (nonlinear_arith)
                            requires j + 1 <= *count;
                        assert(leaves(nodes@.take(i + 1)).len() == p.len() + (*count as nat) * fb.len());
                        lemma_violations_bound(pp + fb, c0 as nat);
                        lemma_violations_bound(pp, c0 as nat);
                        let vpp = violations_spec(pp, c0 as nat);
                        let vr = r0.violations + vpp;
                        let vfb = violations_spec(fb, (c0 + pp.len()) as nat);
                        assert(vr + vfb =~= r0.violations + (vpp + vfb));
                    }
                    let bs: &[Node] = body.as_slice();
                    assert(bs@ == body@);
                    assert(decreases_to!(nodes@ => bs@));
                    walk(bs, counter, out);
                    j += 1;
                }
            },
        }
        i += 1;
    }
    assert(nodes@.take(i as int) =~= nodes@);
}

/// Check a program for reversibility.
pub fn check(nodes: &[Node]) -> (r: Report)
    requires
        leaves(nodes@).len() <= u64::MAX,
    ensures
        report_view(r) == report_spec(leaves(nodes@)),
        r.reversible_spec() <==> forall|i: int| 0 <= i < leaves(nodes@).len() ==> invertible(#[trigger] leaves(nodes@)[i]),
{
    let mut rep = Report { total_leaves: 0, invertible_leaves: 0, irreversible_leaves: 0, violations: Vec::new() };
    let mut counter: u64 = 0;
    proof {
        assert(report_view(rep).violations =~= Seq::<ViolationV>::empty());
        lemma_violations_bound(leaves(nodes@), 0);
    }
    walk(nodes, &mut counter, &mut rep);
    assert(Seq::<ViolationV>::empty() + violations_spec(leaves(nodes@), 0) =~= violations_spec(leaves(nodes@), 0));
    rep
}

impl Report {
    pub open spec fn reversible_spec(&self) -> bool {
        self.irreversible_leaves == 0 && self.violations@.len() == 0
    }
}


/// A leaf that names one register in two roles that must differ: the index
/// and the value of a memory add/sub/xor, the destination and the source of a
/// register add/sub/xor, the register and the index of a memory read into a
/// register, the target and a control of a Toffoli gate, the control and a
/// swapped register of a conditional swap.
pub open spec fn shares_register(i: Inst) -> bool {
    match i {
        Inst::MAdd(a, v) | Inst::MSub(a, v) | Inst::MXor(a, v) => a == v,
        Inst::Add(d, x) | Inst::Sub(d, x) | Inst::Xor(d, x) => d == x,
        Inst::RAdd(r, a) | Inst::RSub(r, a) => r == a,
        Inst::Toff(c1, c2, t) => t == c1 || t == c2,
        Inst::CSwap(c, a, b) => c == a || c == b,
        _ => false,
    }
}

/// Law: the verifier flags every leaf that names one register in two roles
/// that must differ. Wherever such a leaf stands in the stream, the report
/// holds an aliasing violation at its index, so the program is not
/// reversible.
pub proof fn law_check_flags_shared_register(ls: Seq<Inst>, i: int)
    requires
        0 <= i < ls.len(),
        shares_register(ls[i]),
    ensures
        exists|k: int| 0 <= k < report_spec(ls).violations.len()
            && #[trigger] report_spec(ls).violations[k].leaf == i
            && report_spec(ls).violations[k].kind == ViolationKind::Alias,
        report_spec(ls).irreversible > 0,
{
    let x = ls[i];
    let a = ls.take(i);
    let one = seq![x];
    let b = ls.skip(i + 1);
    assert(ls =~= a + (one + b));
    lemma_violations_concat(a, one + b, 0);
    lemma_violations_concat(one, b, a.len());
    assert(one.drop_last() =~= Seq::<Inst>::empty());
    assert(one.last() == x);
    assert(alias_spec(x) is Some);
    let va = violations_spec(a, 0);
    let v1 = violations_spec(one, i as nat);
    assert(violations_spec(one.drop_last(), i as nat) == Seq::<ViolationV>::empty());
    assert(classify(x) == Some((ViolationKind::Alias, alias_spec(x).unwrap())));
    assert(v1 =~= seq![ViolationV { leaf: i as nat, kind: ViolationKind::Alias, reason: alias_spec(x).unwrap() }]);
    let v = violations_spec(ls, 0);
    assert(v == va + (v1 + violations_spec(b, (i + 1) as nat)));
    let k = va.len() as int;
    assert(v[k] == v1[0]);
    assert(report_spec(ls).violations[k].leaf == i);
}

} // verus!
