//! What the command-line tool reports: the nonzero part of a state, the
//! reversibility verdict of a program, and a forward run rewound to a point.
use vstd::prelude::*;
use crate::check::{ViolationKind, ViolationV, check, report_spec, violation_view, violations_spec};
use crate::machine::{inv_prefix, law_rollback_rewinds, leaf_msg, leaves, reverse_n, reversible_suffix_len, run_forward, run_spec};
use crate::inst::Inst;
use crate::program::Node;
use crate::state::{State, StateV, reg_entry, reg_entry_chars};
use crate::text::{chars_of, dec_spec, extend_chars, hex_chars, hex_spec, push_dec, push_str, string_of};

verus! {

pub open spec fn strings(v: Seq<String>) -> Seq<Seq<char>> {
    v.map_values(|x: String| x@)
}

/// `m[i]=0x{:016x}`.
pub open spec fn mem_item(i: nat, v: u64) -> Seq<char> {
    "m["@ + dec_spec(i) + "]=0x"@ + hex_spec(v as nat, 16)
}

/// The nonzero words of `ws`, each rendered with its index, joined by spaces.
pub open spec fn nonzero_text(ws: Seq<u64>, regs: bool) -> Seq<char>
    decreases ws.len(),
{
    if ws.len() == 0 {
        seq![]
    } else {
        let prev = nonzero_text(ws.drop_last(), regs);
        if ws.last() == 0 {
            prev
        } else {
            let item = if regs { reg_entry((ws.len() - 1) as nat, ws.last()) } else { mem_item((ws.len() - 1) as nat, ws.last()) };
            if prev.len() == 0 {
                item
            } else {
                prev + " "@ + item
            }
        }
    }
}

/// The compact display of a state: nonzero registers, then nonzero memory
/// words when the state has memory.
pub open spec fn show_spec(s: StateV) -> Seq<Seq<char>> {
    let r = nonzero_text(s.regs, true);
    let rl = if r.len() == 0 { "regs: (все нули)"@ } else { "regs: "@ + r };
    if s.mem.len() == 0 {
        seq![rl]
    } else {
        let m = nonzero_text(s.mem, false);
        seq![rl, if m.len() == 0 { "mem : (все нули)"@ } else { "mem : "@ + m }]
    }
}

proof fn lemma_item_nonempty(i: nat, v: u64)
    ensures
        reg_entry(i, v).len() > 0,
        mem_item(i, v).len() > 0,
{
}

fn nonzero_chars(ws: &Vec<u64>, regs: bool) -> (v: Vec<char>)
    ensures
        v@ == nonzero_text(ws@, regs),
{
    let mut v: Vec<char> = Vec::new();
    let mut i: usize = 0;
    while i < ws.len()
        invariant
            i <= ws@.len(),
            v@ == nonzero_text(ws@.take(i as int), regs),
        decreases ws@.len() - i,
    {
        proof {
            let t = ws@.take(i as int + 1);
            assert(t.drop_last() =~= ws@.take(i as int));
            lemma_item_nonempty(i as nat, ws@[i as int]);
        }
        if ws[i] != 0 {
            let item = if regs {
                reg_entry_chars(i as u64, ws[i])
            } else {
                let mut m: Vec<char> = Vec::new();
                push_str(&mut m, "m[");
                push_dec(&mut m, i as u64);
                push_str(&mut m, "]=0x");
                let h = hex_chars(ws[i], 16);
                extend_chars(&mut m, &h);
                m
            };
            if v.len() > 0 {
                push_str(&mut v, " ");
            }
            extend_chars(&mut v, &item);
        }
        i += 1;
    }
    assert(ws@.take(i as int) =~= ws@);
    v
}

/// The compact display of a state (what `run`, `runrev` and `rev` print).
pub fn show_lines(s: &State) -> (r: Vec<String>)
    ensures
        strings(r@) == show_spec(s@),
{
    let mut r: Vec<String> = Vec::new();
    let rt = nonzero_chars(&s.regs, true);
    let mut rl: Vec<char> = Vec::new();
    if rt.len() == 0 {
        push_str(&mut rl, "regs: (все нули)");
    } else {
        push_str(&mut rl, "regs: ");
        extend_chars(&mut rl, &rt);
    }
    r.push(string_of(&rl));
    if s.mem.len() > 0 {
        let mt = nonzero_chars(&s.mem, false);
        let mut ml: Vec<char> = Vec::new();
        if mt.len() == 0 {
            push_str(&mut ml, "mem : (все нули)");
        } else {
            push_str(&mut ml, "mem : ");
            extend_chars(&mut ml, &mt);
        }
        r.push(string_of(&ml));
    }
    assert(strings(r@) =~= show_spec(s@));
    r
}

// ---------------------------------------------------------------- check

/// One line per violation: kind, leaf, reason.
pub open spec fn violation_lines(vs: Seq<ViolationV>) -> Seq<Seq<char>>
    decreases vs.len(),
{
    if vs.len() == 0 {
        seq![]
    } else {
        let v = vs.last();
        let head = if v.kind == ViolationKind::Boundary { "  граница на листе #"@ } else { "  алиасинг на листе #"@ };
        violation_lines(vs.drop_last()).push(head + dec_spec(v.leaf) + ": "@ + v.reason)
    }
}

/// The `check` report of a program.
pub open spec fn check_text_spec(file: Seq<char>, ls: Seq<Inst>) -> Seq<Seq<char>> {
    let r = report_spec(ls);
    let head = seq![
        "файл: "@ + file,
        "листьев всего:       "@ + dec_spec(r.total),
        "обратимых:           "@ + dec_spec(r.invertible),
        "необратимых(границ): "@ + dec_spec(r.irreversible),
    ];
    if r.violations.len() == 0 {
        head.push("ВЕРДИКТ: программа ЧИСТО обратима (F⁻¹∘F = Id, reverse по всей длине)"@)
    } else {
        head.push("ВЕРДИКТ: НЕ чисто обратима (есть границы/нарушения)"@) + violation_lines(r.violations)
            + seq!["откатываемый суффикс после последней границы: "@ + dec_spec(inv_prefix(ls.reverse())) + " листьев"@]
    }
}

fn push_line(r: &mut Vec<String>, v: &Vec<char>)
    ensures
        strings(final(r)@) == strings(old(r)@).push(v@),
{
    r.push(string_of(v));
    assert(strings(r@) =~= strings(old(r)@).push(v@));
}

fn count_line(label: &str, n: u64) -> (v: Vec<char>)
    ensures
        v@ == label@ + dec_spec(n as nat),
{
    let mut v: Vec<char> = Vec::new();
    push_str(&mut v, label);
    push_dec(&mut v, n);
    assert(v@ =~= label@ + dec_spec(n as nat));
    v
}

/// The report of `check` on a program read from `file`.
pub fn check_text(file: &str, nodes: &[Node]) -> (r: Vec<String>)
    requires
        leaves(nodes@).len() <= u64::MAX,
    ensures
        strings(r@) == check_text_spec(file@, leaves(nodes@)),
{
    let rep = check(nodes);
    let ghost ls = leaves(nodes@);
    let ghost vs = violations_spec(ls, 0);
    let mut r: Vec<String> = Vec::new();
    let mut l: Vec<char> = Vec::new();
    push_str(&mut l, "файл: ");
    let f = chars_of(file);
    extend_chars(&mut l, &f);
    push_line(&mut r, &l);
    let l = count_line("листьев всего:       ", rep.total_leaves);
    push_line(&mut r, &l);
    let l = count_line("обратимых:           ", rep.invertible_leaves);
    push_line(&mut r, &l);
    let l = count_line("необратимых(границ): ", rep.irreversible_leaves);
    push_line(&mut r, &l);
    if rep.violations.len() == 0 {
        let l = chars_of("ВЕРДИКТ: программа ЧИСТО обратима (F⁻¹∘F = Id, reverse по всей длине)");
        push_line(&mut r, &l);
        assert(strings(r@) =~= check_text_spec(file@, ls));
        return r;
    }
    let l = chars_of("ВЕРДИКТ: НЕ чисто обратима (есть границы/нарушения)");
    push_line(&mut r, &l);
    let ghost base = strings(r@);
    let mut i: usize = 0;
    assert(vs.take(0) =~= Seq::<ViolationV>::empty());
    assert(base + violation_lines(vs.take(0)) =~= base);
    while i < rep.violations.len()
        invariant
            i <= rep.violations@.len(),
            rep.violations@.map_values(|v: crate::check::Violation| violation_view(v)) == vs,
            strings(r@) == base + violation_lines(vs.take(i as int)),
        decreases rep.violations@.len() - i,
    {
        proof {
            let t = vs.take(i as int + 1);
            assert(t.drop_last() =~= vs.take(i as int));
            assert(t.last() == violation_view(rep.violations@[i as int]));
        }
        let v = &rep.violations[i];
        let mut l: Vec<char> = Vec::new();
        match v.kind {
            ViolationKind::Boundary => push_str(&mut l, "  граница на листе #"),
            ViolationKind::Alias => push_str(&mut l, "  алиасинг на листе #"),
        }
        push_dec(&mut l, v.leaf);
        push_str(&mut l, ": ");
        let rc = chars_of(v.reason.as_str());
        extend_chars(&mut l, &rc);
        push_line(&mut r, &l);
        proof {
            assert(strings(r@) =~= base + violation_lines(vs.take(i as int + 1)));
        }
        i += 1;
    }
    assert(vs.take(i as int) =~= vs);
    let suffix = reversible_suffix_len(nodes);
    let mut l = count_line("откатываемый суффикс после последней границы: ", suffix);
    push_str(&mut l, " листьев");
    push_line(&mut r, &l);
    assert(strings(r@) =~= check_text_spec(file@, ls));
    r
}

// ---------------------------------------------------------------- rev

/// A forward run rewound: the leaf count, the reversible suffix, and how
/// many leaves were undone.
pub struct Rewound {
    pub total: u64,
    pub suffix: u64,
    pub done: u64,
}

/// The rollback budget: the steps asked for (all when none), capped by the suffix.
pub open spec fn rewind_budget(steps: Option<u64>, suffix: nat) -> nat {
    let want: nat = match steps {
        Some(k) => k as nat,
        None => u64::MAX as nat,
    };
    if want < suffix { want } else { suffix }
}

/// Run the program forward, then undo up to `steps` leaves (all of the
/// reversible suffix when `None`). The state lands where the forward run was
/// after its first `total - done` leaves. `Err` is the forward run's error,
/// the state then as the run left it.
pub fn rewind(state: &mut State, nodes: &[Node], steps: Option<u64>) -> (r: Result<Rewound, String>)
    requires
        leaves(nodes@).len() <= u64::MAX,
    ensures
        ({
            let ls = leaves(nodes@);
            let o = run_spec(ls, old(state)@);
            let p = inv_prefix(ls.reverse());
            let m = rewind_budget(steps, p);
            if o.ok {
                &&& r is Ok
                &&& r->Ok_0.total == ls.len()
                &&& r->Ok_0.suffix == p
                &&& r->Ok_0.done == m
                &&& final(state)@ == run_spec(ls.take(ls.len() - m), old(state)@).state
            } else {
                &&& r is Err
                &&& r->Err_0@ == leaf_msg(o.done, ls[o.done as int], o.state)
                &&& final(state)@ == o.state
            }
        }),
{
    let ghost s0 = state@;
    let ghost ls = leaves(nodes@);
    run_forward(state, nodes)?;
    let total = crate::machine::count_leaves(nodes);
    let suffix = reversible_suffix_len(nodes);
    let want = match steps {
        Some(k) => k,
        None => u64::MAX,
    };
    let budget = if want < suffix { want } else { suffix };
    proof {
        law_rollback_rewinds(ls, s0, budget as nat);
    }
    match reverse_n(state, nodes, budget) {
        Ok(done) => Ok(Rewound { total, suffix, done }),
        Err(e) => Err(e),
    }
}

/// What `rev` prints after the rewind: the counts, the state, the verdict.
pub open spec fn rev_text_spec(total: u64, suffix: u64, done: u64, s: StateV) -> Seq<Seq<char>> {
    seq!["forward: "@ + dec_spec(total as nat) + " листьев; обратимый суффикс: "@ + dec_spec(suffix as nat) + "; откачено: "@
        + dec_spec(done as nat)] + show_spec(s) + seq![
        if done == suffix {
            "state = состояние сразу после границ (ввод не тронут)"@
        } else {
            "state = промежуточная точка внутри ядра"@
        },
    ]
}

pub fn rev_text(rw: &Rewound, s: &State) -> (r: Vec<String>)
    ensures
        strings(r@) == rev_text_spec(rw.total, rw.suffix, rw.done, s@),
{
    let mut l = count_line("forward: ", rw.total);
    push_str(&mut l, " листьев; обратимый суффикс: ");
    push_dec(&mut l, rw.suffix);
    push_str(&mut l, "; откачено: ");
    push_dec(&mut l, rw.done);
    let mut r: Vec<String> = Vec::new();
    push_line(&mut r, &l);
    let sh = show_lines(s);
    let mut i: usize = 0;
    let ghost head = strings(r@);
    while i < sh.len()
        invariant
            i <= sh@.len(),
            strings(sh@) == show_spec(s@),
            strings(r@) == head + strings(sh@).take(i as int),
        decreases sh@.len() - i,
    {
        let c = chars_of(sh[i].as_str());
        push_line(&mut r, &c);
        proof {
            assert(strings(sh@).take(i as int + 1) =~= strings(sh@).take(i as int).push(sh@[i as int]@));
            assert(strings(r@) =~= head + strings(sh@).take(i as int + 1));
        }
        i += 1;
    }
    assert(strings(sh@).take(i as int) =~= strings(sh@));
    let v = if rw.done == rw.suffix {
        chars_of("state = состояние сразу после границ (ввод не тронут)")
    } else {
        chars_of("state = промежуточная точка внутри ядра")
    };
    push_line(&mut r, &v);
    assert(strings(r@) =~= rev_text_spec(rw.total, rw.suffix, rw.done, s@));
    r
}

} // verus!
