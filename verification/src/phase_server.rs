//! A small stateful key-value service with transactions and undo.
//!
//! Every client command is a phase boundary. Inside a transaction
//! (BEGIN..COMMIT/ROLLBACK) commands accumulate a journal of inverses, one
//! record per command (a decision at the boundary, never a copy of the
//! state); COMMIT keeps them for UNDO, ROLLBACK undoes the whole
//! transaction, UNDO undoes the last N committed commands, AUDIT returns an
//! FNV digest of the state. Single-threaded and deterministic.
//!
//! The store is kept as a vector of entries sorted by key, so listing it in
//! key order (for the digest and the snapshot) needs no sort.
use vstd::prelude::*;
use crate::lex::{chars_eq, cut_at, is_ws, lemma_words_plain, no_ws, join_nl, lemma_lines_join, no_char, from_str_radix, from_str_radix_spec, lemma_cut_at, lines_spec, skip_chars, split_lines, split_words, upper, upper_chars, words};
use crate::fnv::{fnv_bytes, fnv_chars, lemma_fnv_bytes_concat, utf8_seq};
use crate::state::FNV_OFFSET;
use crate::text::{chars_of, dec_spec, extend_chars, hex_spec, hex_chars, push_dec, push_str, string_of};

verus! {

// ---------------------------------------------------------------- key order

/// Lexicographic order on keys by code point (the order of their UTF-8 bytes).
pub open spec fn key_lt(a: Seq<char>, b: Seq<char>) -> bool
    decreases a.len(),
{
    if a.len() == 0 {
        b.len() > 0
    } else if b.len() == 0 {
        false
    } else if a[0] != b[0] {
        (a[0] as int) < (b[0] as int)
    } else {
        key_lt(a.drop_first(), b.drop_first())
    }
}

proof fn lemma_key_lt_irrefl(a: Seq<char>)
    ensures
        !key_lt(a, a),
    decreases a.len(),
{
    if a.len() > 0 {
        lemma_key_lt_irrefl(a.drop_first());
    }
}

proof fn lemma_key_lt_trans(a: Seq<char>, b: Seq<char>, c: Seq<char>)
    requires
        key_lt(a, b),
        key_lt(b, c),
    ensures
        key_lt(a, c),
    decreases a.len(),
{
    if a.len() > 0 && b.len() > 0 && c.len() > 0 && a[0] == b[0] && b[0] == c[0] {
        lemma_key_lt_trans(a.drop_first(), b.drop_first(), c.drop_first());
    }
}

proof fn lemma_key_lt_total(a: Seq<char>, b: Seq<char>)
    ensures
        a == b || key_lt(a, b) || key_lt(b, a),
    decreases a.len(),
{
    if a.len() > 0 && b.len() > 0 {
        if a[0] == b[0] {
            lemma_key_lt_total(a.drop_first(), b.drop_first());
            if a.drop_first() == b.drop_first() {
                assert(a =~= seq![a[0]] + a.drop_first());
                assert(b =~= seq![b[0]] + b.drop_first());
            }
        }
    } else if a.len() == 0 && b.len() == 0 {
        assert(a =~= b);
    }
}

proof fn lemma_key_lt_asym(a: Seq<char>, b: Seq<char>)
    requires
        key_lt(a, b),
    ensures
        !key_lt(b, a),
        a != b,
{
    lemma_key_lt_irrefl(a);
    if key_lt(b, a) {
        lemma_key_lt_trans(a, b, a);
    }
}

// ---------------------------------------------------------------- sorted entries

/// Keys strictly increase: no key occurs twice.
pub open spec fn sorted(es: Seq<(Seq<char>, Seq<char>)>) -> bool {
    forall|i: int, j: int| 0 <= i < j < es.len() ==> key_lt(#[trigger] es[i].0, #[trigger] es[j].0)
}

/// The number of leading entries whose key is below `k`: where `k` is or goes.
pub open spec fn lower_bound(es: Seq<(Seq<char>, Seq<char>)>, k: Seq<char>) -> nat
    decreases es.len(),
{
    if es.len() > 0 && key_lt(es[0].0, k) {
        1 + lower_bound(es.drop_first(), k)
    } else {
        0
    }
}

/// Whether `k` has an entry, and which.
pub open spec fn es_get(es: Seq<(Seq<char>, Seq<char>)>, k: Seq<char>) -> Option<Seq<char>> {
    let p = lower_bound(es, k);
    if p < es.len() && es[p as int].0 == k {
        Some(es[p as int].1)
    } else {
        None
    }
}

/// Set the value of `k`, keeping the keys in order.
pub open spec fn es_insert(es: Seq<(Seq<char>, Seq<char>)>, k: Seq<char>, v: Seq<char>) -> Seq<(Seq<char>, Seq<char>)> {
    let p = lower_bound(es, k);
    if p < es.len() && es[p as int].0 == k {
        es.update(p as int, (k, v))
    } else {
        es.insert(p as int, (k, v))
    }
}

/// Drop the entry of `k`, if any.
pub open spec fn es_remove(es: Seq<(Seq<char>, Seq<char>)>, k: Seq<char>) -> Seq<(Seq<char>, Seq<char>)> {
    let p = lower_bound(es, k);
    if p < es.len() && es[p as int].0 == k {
        es.remove(p as int)
    } else {
        es
    }
}

/// The map the entries denote.
pub open spec fn map_of(es: Seq<(Seq<char>, Seq<char>)>) -> Map<Seq<char>, Seq<char>>
    decreases es.len(),
{
    if es.len() == 0 {
        Map::empty()
    } else {
        map_of(es.drop_last()).insert(es.last().0, es.last().1)
    }
}

/// `lower_bound` is the first position whose key is not below `k`.
proof fn lemma_lower_bound(es: Seq<(Seq<char>, Seq<char>)>, k: Seq<char>, i: nat)
    requires
        i <= es.len(),
        forall|j: int| 0 <= j < i ==> key_lt(#[trigger] es[j].0, k),
        i == es.len() || !key_lt(es[i as int].0, k),
    ensures
        lower_bound(es, k) == i,
    decreases es.len(),
{
    if i > 0 {
        let d = es.drop_first();
        assert forall|j: int| 0 <= j < i - 1 implies key_lt(#[trigger] d[j].0, k) by {
            assert(d[j] == es[j + 1]);
        }
        if i < es.len() {
            assert(d[i - 1] == es[i as int]);
        }
        lemma_lower_bound(d, k, (i - 1) as nat);
    }
}

/// In sorted entries, everything from `lower_bound` on is at or above `k`.
proof fn lemma_lower_bound_split(es: Seq<(Seq<char>, Seq<char>)>, k: Seq<char>)
    requires
        sorted(es),
    ensures
        lower_bound(es, k) <= es.len(),
        forall|j: int| 0 <= j < lower_bound(es, k) ==> key_lt(#[trigger] es[j].0, k),
        forall|j: int| lower_bound(es, k) <= j < es.len() ==> !key_lt(#[trigger] es[j].0, k),
        forall|j: int| lower_bound(es, k) < j < es.len() ==> key_lt(k, #[trigger] es[j].0),
    decreases es.len(),
{
    if es.len() > 0 {
        let d = es.drop_first();
        assert(sorted(d)) by {
            assert forall|i: int, j: int| 0 <= i < j < d.len() implies key_lt(#[trigger] d[i].0, #[trigger] d[j].0) by {
                assert(d[i] == es[i + 1] && d[j] == es[j + 1]);
            }
        }
        lemma_lower_bound_split(d, k);
        let p = lower_bound(es, k);
        if key_lt(es[0].0, k) {
            assert forall|j: int| 0 <= j < p implies key_lt(#[trigger] es[j].0, k) by {
                if j > 0 {
                    assert(es[j] == d[j - 1]);
                }
            }
            assert forall|j: int| p <= j < es.len() implies !key_lt(#[trigger] es[j].0, k) by {
                assert(es[j] == d[j - 1]);
            }
            assert forall|j: int| p < j < es.len() implies key_lt(k, #[trigger] es[j].0) by {
                assert(es[j] == d[j - 1]);
            }
        } else {
            assert forall|j: int| 0 <= j < es.len() implies !key_lt(#[trigger] es[j].0, k) by {
                if j > 0 {
                    assert(key_lt(es[0].0, es[j].0));
                    lemma_key_lt_total(es[0].0, k);
                    if key_lt(es[j].0, k) {
                        if es[0].0 != k {
                            lemma_key_lt_trans(k, es[0].0, es[j].0);
                        }
                        lemma_key_lt_asym(k, es[j].0);
                    }
                }
            }
            assert forall|j: int| 0 < j < es.len() implies key_lt(k, #[trigger] es[j].0) by {
                assert(key_lt(es[0].0, es[j].0));
                lemma_key_lt_total(es[0].0, k);
                if es[0].0 != k {
                    lemma_key_lt_trans(k, es[0].0, es[j].0);
                }
            }
        }
    }
}

/// The map of sorted entries holds exactly their keys, with their values.
proof fn lemma_map_of(es: Seq<(Seq<char>, Seq<char>)>)
    requires
        sorted(es),
    ensures
        forall|k: Seq<char>| #[trigger] map_of(es).contains_key(k) <==> exists|i: int| 0 <= i < es.len() && es[i].0 == k,
        forall|i: int| 0 <= i < es.len() ==> #[trigger] map_of(es)[es[i].0] == es[i].1,
    decreases es.len(),
{
    if es.len() > 0 {
        let d = es.drop_last();
        assert(sorted(d)) by {
            assert forall|i: int, j: int| 0 <= i < j < d.len() implies key_lt(#[trigger] d[i].0, #[trigger] d[j].0) by {
                assert(d[i] == es[i] && d[j] == es[j]);
            }
        }
        lemma_map_of(d);
        assert forall|k: Seq<char>| #[trigger] map_of(es).contains_key(k) implies exists|i: int| 0 <= i < es.len() && es[i].0 == k by {
            if k != es.last().0 {
                assert(map_of(d).contains_key(k));
                let i = choose|i: int| 0 <= i < d.len() && d[i].0 == k;
                assert(es[i] == d[i]);
            } else {
                assert(es[es.len() - 1].0 == k);
            }
        }
        assert forall|i: int| 0 <= i < es.len() implies #[trigger] map_of(es)[es[i].0] == es[i].1 by {
            if i < es.len() - 1 {
                assert(es[i] == d[i]);
                assert(key_lt(es[i].0, es[es.len() - 1].0));
                lemma_key_lt_asym(es[i].0, es[es.len() - 1].0);
                assert(map_of(d)[d[i].0] == d[i].1);
            } else {
                assert(es[i] == es.last());
            }
        }
        assert forall|k: Seq<char>| (exists|i: int| 0 <= i < es.len() && es[i].0 == k) implies #[trigger] map_of(es).contains_key(k) by {
            let i = choose|i: int| 0 <= i < es.len() && es[i].0 == k;
            if i < es.len() - 1 {
                assert(es[i] == d[i]);
                assert(map_of(d).contains_key(k));
            } else {
                assert(es[i] == es.last());
            }
        }
    }
}

proof fn lemma_es_get(es: Seq<(Seq<char>, Seq<char>)>, k: Seq<char>)
    requires
        sorted(es),
    ensures
        es_get(es, k) == (if map_of(es).contains_key(k) { Some(map_of(es)[k]) } else { None::<Seq<char>> }),
{
    lemma_map_of(es);
    lemma_lower_bound_split(es, k);
    let p = lower_bound(es, k) as int;
    if p < es.len() && es[p].0 == k {
        assert(map_of(es)[es[p].0] == es[p].1);
    } else {
        if map_of(es).contains_key(k) {
            let i = choose|i: int| 0 <= i < es.len() && es[i].0 == k;
            lemma_key_lt_irrefl(k);
            if i > p {
                assert(key_lt(k, es[i].0));
            }
        }
    }
}

#[verifier::spinoff_prover]
#[verifier::rlimit(50)]
proof fn lemma_es_insert(es: Seq<(Seq<char>, Seq<char>)>, k: Seq<char>, v: Seq<char>)
    requires
        sorted(es),
    ensures
        sorted(es_insert(es, k, v)),
        map_of(es_insert(es, k, v)) == map_of(es).insert(k, v),
{
    lemma_map_of(es);
    lemma_lower_bound_split(es, k);
    let p = lower_bound(es, k) as int;
    let n = es_insert(es, k, v);
    if p < es.len() && es[p].0 == k {
        assert(sorted(n)) by {
            assert forall|i: int, j: int| 0 <= i < j < n.len() implies key_lt(#[trigger] n[i].0, #[trigger] n[j].0) by {
                assert(n[i].0 == es[i].0 && n[j].0 == es[j].0);
            }
        }
        lemma_map_of(n);
        assert forall|x: Seq<char>| #[trigger] map_of(n).contains_key(x) == map_of(es).insert(k, v).contains_key(x) by {
            if map_of(es).contains_key(x) {
                let i = choose|i: int| 0 <= i < es.len() && es[i].0 == x;
                assert(n[i].0 == x);
            }
            if map_of(n).contains_key(x) {
                let i = choose|i: int| 0 <= i < n.len() && n[i].0 == x;
                assert(es[i].0 == x);
            }
        }
        assert forall|x: Seq<char>| #[trigger] map_of(n).contains_key(x) implies map_of(n)[x] == map_of(es).insert(k, v)[x] by {
            let i = choose|i: int| 0 <= i < n.len() && n[i].0 == x;
            if i != p {
                assert(n[i] == es[i]);
            }
        }
        assert(map_of(n) =~= map_of(es).insert(k, v));
    } else {
        assert(forall|j: int| p <= j < es.len() ==> key_lt(k, #[trigger] es[j].0)) by {
            assert forall|j: int| p <= j < es.len() implies key_lt(k, #[trigger] es[j].0) by {
                if j == p {
                    lemma_key_lt_total(k, es[p].0);
                }
            }
        }
        assert(sorted(n)) by {
            assert forall|i: int, j: int| 0 <= i < j < n.len() implies key_lt(#[trigger] n[i].0, #[trigger] n[j].0) by {
                if j < p {
                    assert(n[i] == es[i] && n[j] == es[j]);
                } else if j == p {
                    assert(n[i] == es[i]);
                } else if i < p {
                    assert(n[i] == es[i] && n[j] == es[j - 1]);
                    lemma_key_lt_trans(es[i].0, k, es[j - 1].0);
                } else if i == p {
                    assert(n[j] == es[j - 1]);
                } else {
                    assert(n[i] == es[i - 1] && n[j] == es[j - 1]);
                }
            }
        }
        lemma_map_of(n);
        lemma_key_lt_irrefl(k);
        assert forall|x: Seq<char>| #[trigger] map_of(n).contains_key(x) == map_of(es).insert(k, v).contains_key(x) by {
            if map_of(es).contains_key(x) {
                let i = choose|i: int| 0 <= i < es.len() && es[i].0 == x;
                if i < p {
                    assert(n[i] == es[i]);
                } else {
                    assert(n[i + 1] == es[i]);
                }
            }
            if x == k {
                assert(n[p].0 == k);
            }
            if map_of(n).contains_key(x) {
                let i = choose|i: int| 0 <= i < n.len() && n[i].0 == x;
                if i < p {
                    assert(es[i] == n[i]);
                } else if i > p {
                    assert(es[i - 1] == n[i]);
                }
            }
        }
        assert forall|x: Seq<char>| #[trigger] map_of(n).contains_key(x) implies map_of(n)[x] == map_of(es).insert(k, v)[x] by {
            let i = choose|i: int| 0 <= i < n.len() && n[i].0 == x;
            if i < p {
                assert(n[i] == es[i]);
                assert(key_lt(es[i].0, k));
            } else if i > p {
                assert(n[i] == es[i - 1]);
                assert(key_lt(k, es[i - 1].0));
                lemma_key_lt_asym(k, es[i - 1].0);
            }
        }
        assert(map_of(n) =~= map_of(es).insert(k, v));
    }
}

proof fn lemma_es_remove(es: Seq<(Seq<char>, Seq<char>)>, k: Seq<char>)
    requires
        sorted(es),
    ensures
        sorted(es_remove(es, k)),
        map_of(es_remove(es, k)) == map_of(es).remove(k),
{
    lemma_map_of(es);
    lemma_lower_bound_split(es, k);
    lemma_key_lt_irrefl(k);
    let p = lower_bound(es, k) as int;
    let n = es_remove(es, k);
    if p < es.len() && es[p].0 == k {
        assert(sorted(n)) by {
            assert forall|i: int, j: int| 0 <= i < j < n.len() implies key_lt(#[trigger] n[i].0, #[trigger] n[j].0) by {
                if j < p {
                    assert(n[i] == es[i] && n[j] == es[j]);
                } else if i < p {
                    assert(n[i] == es[i] && n[j] == es[j + 1]);
                } else {
                    assert(n[i] == es[i + 1] && n[j] == es[j + 1]);
                }
            }
        }
        lemma_map_of(n);
        assert forall|x: Seq<char>| #[trigger] map_of(n).contains_key(x) == map_of(es).remove(k).contains_key(x) by {
            if map_of(es).contains_key(x) && x != k {
                let i = choose|i: int| 0 <= i < es.len() && es[i].0 == x;
                if i < p {
                    assert(n[i] == es[i]);
                } else {
                    assert(i != p);
                    assert(n[i - 1] == es[i]);
                }
            }
            if map_of(n).contains_key(x) {
                let i = choose|i: int| 0 <= i < n.len() && n[i].0 == x;
                if i < p {
                    assert(es[i] == n[i]);
                    assert(key_lt(es[i].0, k));
                } else {
                    assert(es[i + 1] == n[i]);
                    assert(key_lt(k, es[i + 1].0));
                    lemma_key_lt_asym(k, es[i + 1].0);
                }
            }
        }
        assert forall|x: Seq<char>| #[trigger] map_of(n).contains_key(x) implies map_of(n)[x] == map_of(es).remove(k)[x] by {
            let i = choose|i: int| 0 <= i < n.len() && n[i].0 == x;
            if i < p {
                assert(n[i] == es[i]);
            } else {
                assert(n[i] == es[i + 1]);
            }
        }
        assert(map_of(n) =~= map_of(es).remove(k));
    } else {
        assert forall|x: Seq<char>| #[trigger] map_of(es).contains_key(x) implies x != k by {
            let i = choose|i: int| 0 <= i < es.len() && es[i].0 == x;
            if i > p {
                assert(key_lt(k, es[i].0));
            }
        }
        assert(map_of(n) =~= map_of(es).remove(k));
    }
}

// ---------------------------------------------------------------- the service model

/// An inverse record is a key and the value it had before (`None`: absent).
/// Mathematical value of a `KV`: the entries in key order, the committed
/// inverse journal, and the open transaction's journal.
pub ghost struct KVV {
    pub entries: Seq<(Seq<char>, Seq<char>)>,
    pub undo: Seq<(Seq<char>, Option<Seq<char>>)>,
    pub tx: Option<Seq<(Seq<char>, Option<Seq<char>>)>>,
}

/// Apply one inverse record.
pub open spec fn undo_rec(es: Seq<(Seq<char>, Seq<char>)>, r: (Seq<char>, Option<Seq<char>>)) -> Seq<(Seq<char>, Seq<char>)> {
    match r.1 {
        Some(v) => es_insert(es, r.0, v),
        None => es_remove(es, r.0),
    }
}

/// Apply inverse records, the last one first.
pub open spec fn undo_all(es: Seq<(Seq<char>, Seq<char>)>, recs: Seq<(Seq<char>, Option<Seq<char>>)>) -> Seq<(Seq<char>, Seq<char>)>
    decreases recs.len(),
{
    if recs.len() == 0 {
        es
    } else {
        undo_all(undo_rec(es, recs.last()), recs.drop_last())
    }
}

/// Journal a record: into the open transaction, or the committed journal.
pub open spec fn record(kv: KVV, r: (Seq<char>, Option<Seq<char>>)) -> KVV {
    match kv.tx {
        Some(b) => KVV { tx: Some(b.push(r)), ..kv },
        None => KVV { undo: kv.undo.push(r), ..kv },
    }
}

/// The bytes of every key followed by its value, in key order.
pub open spec fn entries_bytes(es: Seq<(Seq<char>, Seq<char>)>) -> Seq<u8>
    decreases es.len(),
{
    if es.len() == 0 {
        seq![]
    } else {
        entries_bytes(es.drop_last()) + utf8_seq(es.last().0) + utf8_seq(es.last().1)
    }
}

/// The audit digest: FNV-1a over keys and values in key order.
pub open spec fn digest_spec(es: Seq<(Seq<char>, Seq<char>)>) -> u64 {
    fnv_bytes(FNV_OFFSET, entries_bytes(es))
}

/// How many records `UNDO` asks for: its argument, or 1 when absent or not a number.
pub open spec fn undo_arg(t: Seq<Seq<char>>) -> nat {
    if t.len() > 1 {
        match from_str_radix_spec(t[1], 10, usize::MAX as nat) {
            Ok(x) => x,
            Err(_) => 1,
        }
    } else {
        1
    }
}

pub open spec fn count_msg(prefix: Seq<char>, n: nat) -> Seq<char> {
    prefix + dec_spec(n) + " op(s)"@
}

/// One command line: the next state and the reply (empty: close).
pub open spec fn handle_spec(kv: KVV, line: Seq<char>) -> (KVV, Seq<char>) {
    let t = words(line);
    if t.len() == 0 {
        (kv, "err: пустая команда"@)
    } else {
        let c = upper(t[0]);
        if c == "SET"@ && t.len() == 3 {
            let r = (t[1], es_get(kv.entries, t[1]));
            (record(KVV { entries: es_insert(kv.entries, t[1], t[2]), ..kv }, r), "ok"@)
        } else if c == "GET"@ && t.len() == 2 {
            (kv, match es_get(kv.entries, t[1]) {
                Some(v) => v,
                None => "nil"@,
            })
        } else if c == "DEL"@ && t.len() == 2 {
            let r = (t[1], es_get(kv.entries, t[1]));
            (record(KVV { entries: es_remove(kv.entries, t[1]), ..kv }, r), "ok"@)
        } else if c == "BEGIN"@ {
            if kv.tx is Some {
                (kv, "err: уже в транзакции"@)
            } else {
                (KVV { tx: Some(seq![]), ..kv }, "tx begin"@)
            }
        } else if c == "COMMIT"@ {
            match kv.tx {
                Some(b) => (KVV { undo: kv.undo + b, tx: None, ..kv }, count_msg("committed "@, b.len())),
                None => (kv, "err: нет транзакции"@),
            }
        } else if c == "ROLLBACK"@ {
            match kv.tx {
                Some(b) => (KVV { entries: undo_all(kv.entries, b), tx: None, ..kv }, count_msg("rolled back "@, b.len())),
                None => (kv, "err: нет транзакции"@),
            }
        } else if c == "UNDO"@ {
            if kv.tx is Some {
                (kv, "err: undo внутри транзакции запрещён"@)
            } else {
                let n = if undo_arg(t) < kv.undo.len() { undo_arg(t) } else { kv.undo.len() };
                let keep = kv.undo.len() - n;
                (
                    KVV { entries: undo_all(kv.entries, kv.undo.subrange(keep, kv.undo.len() as int)), undo: kv.undo.take(keep), ..kv },
                    count_msg("undone "@, n),
                )
            }
        } else if c == "AUDIT"@ {
            (kv, "digest=0x"@ + hex_spec(digest_spec(kv.entries) as nat, 16) + " keys="@ + dec_spec(kv.entries.len()))
        } else if c == "QUIT"@ {
            (kv, seq![])
        } else {
            (kv, "err: неизвестная команда"@)
        }
    }
}

// ---------------------------------------------------------------- executable store

/// The key-value service state.
pub struct KV {
    /// The entries, strictly sorted by key.
    entries: Vec<(Vec<char>, Vec<char>)>,
    /// The inverse journal of committed commands (for UNDO).
    undo: Vec<(Vec<char>, Option<Vec<char>>)>,
    /// The open transaction's inverse journal.
    tx: Option<Vec<(Vec<char>, Option<Vec<char>>)>>,
}

pub open spec fn entries_view(v: Seq<(Vec<char>, Vec<char>)>) -> Seq<(Seq<char>, Seq<char>)> {
    v.map_values(|e: (Vec<char>, Vec<char>)| (e.0@, e.1@))
}

pub open spec fn opt_view(o: Option<Vec<char>>) -> Option<Seq<char>> {
    match o {
        Some(v) => Some(v@),
        None => None,
    }
}

pub open spec fn rec_view(r: (Vec<char>, Option<Vec<char>>)) -> (Seq<char>, Option<Seq<char>>) {
    (r.0@, opt_view(r.1))
}

pub open spec fn recs_view(v: Seq<(Vec<char>, Option<Vec<char>>)>) -> Seq<(Seq<char>, Option<Seq<char>>)> {
    v.map_values(|r: (Vec<char>, Option<Vec<char>>)| rec_view(r))
}

impl View for KV {
    type V = KVV;

    closed spec fn view(&self) -> KVV {
        KVV {
            entries: entries_view(self.entries@),
            undo: recs_view(self.undo@),
            tx: match self.tx {
                Some(b) => Some(recs_view(b@)),
                None => None,
            },
        }
    }
}

fn copy(v: &Vec<char>) -> (out: Vec<char>)
    ensures
        out@ == v@,
{
    crate::program::copy_chars(v)
}

/// `key_lt` on character vectors.
fn key_less(a: &Vec<char>, b: &Vec<char>) -> (r: bool)
    ensures
        r == key_lt(a@, b@),
{
    let mut i: usize = 0;
    assert(a@.skip(0) =~= a@);
    assert(b@.skip(0) =~= b@);
    while i < a.len() && i < b.len()
        invariant
            i <= a@.len(),
            i <= b@.len(),
            key_lt(a@, b@) == key_lt(a@.skip(i as int), b@.skip(i as int)),
        decreases a@.len() - i,
    {
        if a[i] != b[i] {
            let r = a[i] < b[i];
            assert(a@.skip(i as int)[0] == a@[i as int]);
            assert(b@.skip(i as int)[0] == b@[i as int]);
            return r;
        }
        assert(a@.skip(i as int).drop_first() =~= a@.skip(i as int + 1));
        assert(b@.skip(i as int).drop_first() =~= b@.skip(i as int + 1));
        i += 1;
    }
    i < b.len()
}

pub(crate) fn same(a: &Vec<char>, b: &Vec<char>) -> (r: bool)
    ensures
        r == (a@ == b@),
{
    if a.len() != b.len() {
        return false;
    }
    let mut i: usize = 0;
    while i < a.len()
        invariant
            i <= a@.len(),
            a@.len() == b@.len(),
            a@.take(i as int) == b@.take(i as int),
        decreases a@.len() - i,
    {
        if a[i] != b[i] {
            return false;
        }
        assert(a@.take(i as int + 1) =~= a@.take(i as int).push(a@[i as int]));
        assert(b@.take(i as int + 1) =~= b@.take(i as int).push(b@[i as int]));
        i += 1;
    }
    assert(a@.take(i as int) =~= a@);
    assert(b@.take(i as int) =~= b@);
    true
}

/// The position where `k` is or goes.
fn find(es: &Vec<(Vec<char>, Vec<char>)>, k: &Vec<char>) -> (p: usize)
    ensures
        p == lower_bound(entries_view(es@), k@),
        p <= es@.len(),
{
    let ghost ev = entries_view(es@);
    let mut i: usize = 0;
    while i < es.len() && key_less(&es[i].0, k)
        invariant
            i <= es@.len(),
            ev == entries_view(es@),
            forall|j: int| 0 <= j < i ==> key_lt(#[trigger] ev[j].0, k@),
        decreases es@.len() - i,
    {
        i += 1;
    }
    proof {
        lemma_lower_bound(ev, k@, i as nat);
    }
    i
}

/// `es_get` on the store.
fn get_entry(es: &Vec<(Vec<char>, Vec<char>)>, k: &Vec<char>) -> (r: Option<Vec<char>>)
    ensures
        opt_view(r) == es_get(entries_view(es@), k@),
{
    let p = find(es, k);
    if p < es.len() && same(&es[p].0, k) {
        Some(copy(&es[p].1))
    } else {
        None
    }
}

/// `es_insert` on the store; returns the previous value.
fn insert_entry(es: &mut Vec<(Vec<char>, Vec<char>)>, k: &Vec<char>, v: &Vec<char>) -> (r: Option<Vec<char>>)
    ensures
        entries_view(final(es)@) == es_insert(entries_view(old(es)@), k@, v@),
        opt_view(r) == es_get(entries_view(old(es)@), k@),
{
    let ghost e0 = entries_view(es@);
    let p = find(es, k);
    if p < es.len() && same(&es[p].0, k) {
        let old = copy(&es[p].1);
        es.set(p, (copy(k), copy(v)));
        assert(entries_view(es@) =~= e0.update(p as int, (k@, v@)));
        Some(old)
    } else {
        es.insert(p, (copy(k), copy(v)));
        assert(entries_view(es@) =~= e0.insert(p as int, (k@, v@)));
        None
    }
}

/// `es_remove` on the store; returns the previous value.
fn remove_entry(es: &mut Vec<(Vec<char>, Vec<char>)>, k: &Vec<char>) -> (r: Option<Vec<char>>)
    ensures
        entries_view(final(es)@) == es_remove(entries_view(old(es)@), k@),
        opt_view(r) == es_get(entries_view(old(es)@), k@),
{
    let ghost e0 = entries_view(es@);
    let p = find(es, k);
    if p < es.len() && same(&es[p].0, k) {
        let (_, old) = es.remove(p);
        assert(entries_view(es@) =~= e0.remove(p as int));
        Some(old)
    } else {
        None
    }
}

/// Apply one inverse record to the store.
fn apply_inverse(es: &mut Vec<(Vec<char>, Vec<char>)>, rec: &(Vec<char>, Option<Vec<char>>))
    ensures
        entries_view(final(es)@) == undo_rec(entries_view(old(es)@), rec_view(*rec)),
{
    match &rec.1 {
        Some(v) => {
            let _ = insert_entry(es, &rec.0, v);
        },
        None => {
            let _ = remove_entry(es, &rec.0);
        },
    }
}

/// The audit digest of the store.
fn digest(es: &Vec<(Vec<char>, Vec<char>)>) -> (h: u64)
    ensures
        h == digest_spec(entries_view(es@)),
{
    let ghost ev = entries_view(es@);
    let mut h = FNV_OFFSET;
    let mut i: usize = 0;
    while i < es.len()
        invariant
            i <= es@.len(),
            ev == entries_view(es@),
            h == fnv_bytes(FNV_OFFSET, entries_bytes(ev.take(i as int))),
        decreases es@.len() - i,
    {
        let ghost hp = h;
        h = fnv_chars(h, &es[i].0);
        h = fnv_chars(h, &es[i].1);
        proof {
            let t = ev.take(i as int + 1);
            assert(t.drop_last() =~= ev.take(i as int));
            assert(t.last() == ev[i as int]);
            let a = entries_bytes(ev.take(i as int));
            lemma_fnv_bytes_concat(FNV_OFFSET, a, utf8_seq(ev[i as int].0));
            lemma_fnv_bytes_concat(FNV_OFFSET, a + utf8_seq(ev[i as int].0), utf8_seq(ev[i as int].1));
        }
        i += 1;
    }
    assert(ev.take(i as int) =~= ev);
    h
}

// ---------------------------------------------------------------- snapshots

/// One snapshot line: `"k v"`.
pub open spec fn entry_line(e: (Seq<char>, Seq<char>)) -> Seq<char> {
    e.0 + " "@ + e.1
}

/// The snapshot: one `"k v"` line per entry in key order, joined by `'\n'`.
pub open spec fn snapshot_spec(es: Seq<(Seq<char>, Seq<char>)>) -> Seq<char>
    decreases es.len(),
{
    if es.len() == 0 {
        seq![]
    } else if es.len() == 1 {
        entry_line(es[0])
    } else {
        snapshot_spec(es.drop_last()) + "\n"@ + entry_line(es.last())
    }
}

/// The store a snapshot's lines load into: each line with a space sets the
/// key before its first space to the rest; other lines are skipped.
pub open spec fn load_lines(ls: Seq<Seq<char>>) -> Seq<(Seq<char>, Seq<char>)>
    decreases ls.len(),
{
    if ls.len() == 0 {
        seq![]
    } else {
        let es = load_lines(ls.drop_last());
        let l = ls.last();
        let c = cut_at(l, ' ');
        if c < l.len() {
            es_insert(es, l.take(c as int), l.skip(c as int + 1))
        } else {
            es
        }
    }
}

proof fn lemma_undo_all_sorted(es: Seq<(Seq<char>, Seq<char>)>, recs: Seq<(Seq<char>, Option<Seq<char>>)>)
    requires
        sorted(es),
    ensures
        sorted(undo_all(es, recs)),
    decreases recs.len(),
{
    if recs.len() > 0 {
        let r = recs.last();
        match r.1 {
            Some(v) => lemma_es_insert(es, r.0, v),
            None => lemma_es_remove(es, r.0),
        }
        lemma_undo_all_sorted(undo_rec(es, r), recs.drop_last());
    }
}

proof fn lemma_load_sorted(ls: Seq<Seq<char>>)
    ensures
        sorted(load_lines(ls)),
    decreases ls.len(),
{
    if ls.len() > 0 {
        lemma_load_sorted(ls.drop_last());
        let l = ls.last();
        let c = cut_at(l, ' ');
        if c < l.len() {
            lemma_es_insert(load_lines(ls.drop_last()), l.take(c as int), l.skip(c as int + 1));
        }
    }
}

pub(crate) fn take_chars(v: &Vec<char>, k: usize) -> (out: Vec<char>)
    requires
        k <= v@.len(),
    ensures
        out@ == v@.take(k as int),
{
    let mut out: Vec<char> = Vec::new();
    let mut i: usize = 0;
    while i < k
        invariant
            i <= k,
            k <= v@.len(),
            out@ == v@.take(i as int),
        decreases k - i,
    {
        out.push(v[i]);
        i += 1;
        assert(out@ =~= v@.take(i as int));
    }
    out
}

fn push_line(out: &mut Vec<char>, e: &(Vec<char>, Vec<char>))
    ensures
        final(out)@ == old(out)@ + entry_line((e.0@, e.1@)),
{
    proof {
        reveal_strlit(" ");
    }
    extend_chars(out, &e.0);
    out.push(' ');
    extend_chars(out, &e.1);
    assert(out@ =~= old(out)@ + entry_line((e.0@, e.1@)));
}

fn text_of(t: &str) -> (s: String)
    ensures
        s@ == t@,
{
    let v = chars_of(t);
    string_of(&v)
}

fn count_reply(prefix: &str, n: usize) -> (s: String)
    ensures
        s@ == count_msg(prefix@, n as nat),
{
    let mut v = chars_of(prefix);
    push_dec(&mut v, n as u64);
    push_str(&mut v, " op(s)");
    string_of(&v)
}

impl KV {
    /// The entries are strictly sorted by key.
    pub closed spec fn wf(&self) -> bool {
        sorted(entries_view(self.entries@))
    }

    /// A well-formed store's entries are sorted by key.
    pub proof fn lemma_wf_sorted(&self)
        requires
            self.wf(),
        ensures
            sorted(self@.entries),
    {
    }

    pub fn new() -> (kv: KV)
        ensures
            kv.wf(),
            kv@ == (KVV { entries: seq![], undo: seq![], tx: None }),
    {
        let kv = KV { entries: Vec::new(), undo: Vec::new(), tx: None };
        assert(kv@.entries =~= Seq::<(Seq<char>, Seq<char>)>::empty());
        assert(kv@.undo =~= Seq::<(Seq<char>, Option<Seq<char>>)>::empty());
        kv
    }

    /// The audit digest of the state.
    pub fn audit_digest(&self) -> (h: u64)
        ensures
            h == digest_spec(self@.entries),
    {
        digest(&self.entries)
    }

    /// A deterministic snapshot: `"k v"` per line, keys in order.
    pub fn snapshot(&self) -> (s: String)
        ensures
            s@ == snapshot_spec(self@.entries),
    {
        let ghost ev = entries_view(self.entries@);
        let mut out: Vec<char> = Vec::new();
        let mut i: usize = 0;
        while i < self.entries.len()
            invariant
                i <= self.entries@.len(),
                ev == entries_view(self.entries@),
                out@ == snapshot_spec(ev.take(i as int)),
            decreases self.entries@.len() - i,
        {
            if i > 0 {
                out.push('\n');
            }
            push_line(&mut out, &self.entries[i]);
            proof {
                reveal_strlit("\n");
                let t = ev.take(i as int + 1);
                assert(t.drop_last() =~= ev.take(i as int));
                assert(t.last() == ev[i as int]);
                if i == 0 {
                    assert(out@ =~= entry_line(t[0]));
                } else {
                    assert(out@ =~= snapshot_spec(ev.take(i as int)) + "\n"@ + entry_line(t.last()));
                }
            }
            i += 1;
        }
        assert(ev.take(i as int) =~= ev);
        string_of(&out)
    }

    /// Load a state from a snapshot (a restart from a capsule).
    pub fn from_snapshot(s: &str) -> (kv: KV)
        ensures
            kv.wf(),
            kv@ == (KVV { entries: load_lines(lines_spec(s@)), undo: seq![], tx: None }),
    {
        let tv = chars_of(s);
        let lines = split_lines(&tv);
        let ghost ls = lines_spec(s@);
        let mut kv = KV::new();
        let mut k: usize = 0;
        while k < lines.len()
            invariant
                k <= lines@.len(),
                lines@.len() == ls.len(),
                forall|j: int| 0 <= j < lines@.len() ==> #[trigger] lines@[j]@ == ls[j],
                entries_view(kv.entries@) == load_lines(ls.take(k as int)),
                kv@.undo == Seq::<(Seq<char>, Option<Seq<char>>)>::empty(),
                kv.tx is None,
            decreases lines@.len() - k,
        {
            let l = &lines[k];
            let mut c: usize = 0;
            while c < l.len() && l[c] != ' '
                invariant
                    c <= l@.len(),
                    forall|j: int| 0 <= j < c ==> l@[j] != ' ',
                decreases l@.len() - c,
            {
                c += 1;
            }
            proof {
                lemma_cut_at(l@, ' ', c as int);
                let t = ls.take(k as int + 1);
                assert(t.drop_last() =~= ls.take(k as int));
                assert(t.last() == ls[k as int]);
            }
            if c < l.len() {
                let key = take_chars(l, c);
                let val = skip_chars(l, c + 1);
                let _ = insert_entry(&mut kv.entries, &key, &val);
            }
            k += 1;
        }
        assert(ls.take(k as int) =~= ls);
        proof {
            lemma_load_sorted(ls);
        }
        kv
    }

    /// Handle one command line; the reply (empty: close the connection).
    pub fn handle(&mut self, line: &str) -> (r: String)
        requires
            old(self).wf(),
        ensures
            final(self).wf(),
            (final(self)@, r@) == handle_spec(old(self)@, line@),
    {
        let tv = chars_of(line);
        let t = split_words(&tv, tv.len());
        proof {
            assert(tv@.take(tv@.len() as int) =~= tv@);
        }
        let ghost tw = words(line@);
        if t.len() == 0 {
            return text_of("err: пустая команда");
        }
        let ghost e0 = self@.entries;
        proof {
            lemma_es_insert(e0, tw[1], tw[2]);
            lemma_es_remove(e0, tw[1]);
        }
        let c = upper_chars(&t[0]);
        if chars_eq(&c, "SET") && t.len() == 3 {
            let prev = insert_entry(&mut self.entries, &t[1], &t[2]);
            let rec = (copy(&t[1]), prev);
            match &mut self.tx {
                Some(buf) => {
                    buf.push(rec);
                },
                None => {
                    self.undo.push(rec);
                },
            }
            proof {
                let exp = record(KVV { entries: es_insert(e0, tw[1], tw[2]), ..old(self)@ }, (tw[1], es_get(e0, tw[1])));
                assert(rec_view(rec) == (tw[1], es_get(e0, tw[1])));
                assert(self@.undo =~= exp.undo);
                assert(self@.entries == exp.entries);
                assert(self@.tx == exp.tx);
            }
            return text_of("ok");
        }
        if chars_eq(&c, "GET") && t.len() == 2 {
            return match get_entry(&self.entries, &t[1]) {
                Some(v) => string_of(&v),
                None => text_of("nil"),
            };
        }
        if chars_eq(&c, "DEL") && t.len() == 2 {
            let prev = remove_entry(&mut self.entries, &t[1]);
            let rec = (copy(&t[1]), prev);
            match &mut self.tx {
                Some(buf) => {
                    buf.push(rec);
                },
                None => {
                    self.undo.push(rec);
                },
            }
            proof {
                let exp = record(KVV { entries: es_remove(e0, tw[1]), ..old(self)@ }, (tw[1], es_get(e0, tw[1])));
                assert(rec_view(rec) == (tw[1], es_get(e0, tw[1])));
                assert(self@.undo =~= exp.undo);
                assert(self@.entries == exp.entries);
                assert(self@.tx == exp.tx);
            }
            return text_of("ok");
        }
        if chars_eq(&c, "BEGIN") {
            if self.tx.is_some() {
                return text_of("err: уже в транзакции");
            }
            self.tx = Some(Vec::new());
            assert(self@.tx == Some(Seq::<(Seq<char>, Option<Seq<char>>)>::empty()));
            return text_of("tx begin");
        }
        if chars_eq(&c, "COMMIT") {
            return match self.tx.take() {
                Some(buf) => {
                    let n = buf.len();
                    let ghost u0 = recs_view(self.undo@);
                    let mut i: usize = 0;
                    while i < buf.len()
                        invariant
                            i <= buf@.len(),
                            recs_view(self.undo@) == u0 + recs_view(buf@.take(i as int)),
                            entries_view(self.entries@) == e0,
                            sorted(e0),
                            self.tx is None,
                        decreases buf@.len() - i,
                    {
                        let r = (copy(&buf[i].0), match &buf[i].1 {
                            Some(v) => Some(copy(v)),
                            None => None,
                        });
                        proof {
                            assert(rec_view(r) == rec_view(buf@[i as int]));
                        }
                        let ghost ub = self.undo@;
                        self.undo.push(r);
                        i += 1;
                        proof {
                            assert(buf@.take(i as int) =~= buf@.take(i as int - 1).push(buf@[i as int - 1]));
                            assert(recs_view(self.undo@) =~= recs_view(ub).push(rec_view(r)));
                            assert(recs_view(buf@.take(i as int)) =~= recs_view(buf@.take(i as int - 1)).push(rec_view(buf@[i as int - 1])));
                        }
                    }
                    proof {
                        assert(buf@.take(i as int) =~= buf@);
                    }
                    count_reply("committed ", n)
                },
                None => text_of("err: нет транзакции"),
            };
        }
        if chars_eq(&c, "ROLLBACK") {
            return match self.tx.take() {
                Some(buf) => {
                    let ghost bv = recs_view(buf@);
                    let mut i: usize = buf.len();
                    assert(bv.take(bv.len() as int) =~= bv);
                    while i > 0
                        invariant
                            i <= buf@.len(),
                            bv == recs_view(buf@),
                            self.tx is None,
                            self.undo@ == old(self).undo@,
                            old(self)@.tx == Some(bv),
                            e0 == old(self)@.entries,
                            undo_all(e0, bv) == undo_all(entries_view(self.entries@), bv.take(i as int)),
                        decreases i,
                    {
                        proof {
                            let t = bv.take(i as int);
                            assert(t.drop_last() =~= bv.take(i as int - 1));
                            assert(t.last() == rec_view(buf@[i as int - 1]));
                        }
                        apply_inverse(&mut self.entries, &buf[i - 1]);
                        i -= 1;
                    }
                    proof {
                        assert(bv.take(0) =~= Seq::<(Seq<char>, Option<Seq<char>>)>::empty());
                        assert(bv.take(bv.len() as int) =~= bv);
                        lemma_undo_all_sorted(e0, bv);
                    }
                    count_reply("rolled back ", buf.len())
                },
                None => text_of("err: нет транзакции"),
            };
        }
        if chars_eq(&c, "UNDO") {
            if self.tx.is_some() {
                return text_of("err: undo внутри транзакции запрещён");
            }
            let mut n: usize = 1;
            if t.len() > 1 {
                match from_str_radix(&t[1], 10, usize::MAX as u64) {
                    Ok(x) => {
                        n = x as usize;
                    },
                    Err(_) => {},
                }
            }
            if n > self.undo.len() {
                n = self.undo.len();
            }
            let ghost uv = recs_view(self.undo@);
            let ghost keep = uv.len() - n;
            let mut done: usize = 0;
            while done < n
                invariant
                    done <= n,
                    n <= uv.len(),
                    keep == uv.len() - n,
                    recs_view(self.undo@) == uv.take(uv.len() - done),
                    self.undo@.len() == uv.len() - done,
                    undo_all(e0, uv.subrange(keep, uv.len() as int))
                        == undo_all(entries_view(self.entries@), uv.subrange(keep, uv.len() - done)),
                    self.tx is None,
                decreases n - done,
            {
                let ghost before = self.undo@;
                let r = self.undo.pop().unwrap();
                proof {
                    let s = uv.subrange(keep, uv.len() - done);
                    assert(s.drop_last() =~= uv.subrange(keep, uv.len() - done - 1));
                    assert(s.last() == uv[uv.len() - done - 1]);
                    assert(rec_view(r) == recs_view(before)[before.len() - 1]);
                    assert(recs_view(self.undo@) =~= uv.take(uv.len() - done - 1));
                }
                apply_inverse(&mut self.entries, &r);
                done += 1;
            }
            proof {
                assert(uv.subrange(keep, uv.len() - n) =~= Seq::<(Seq<char>, Option<Seq<char>>)>::empty());
                lemma_undo_all_sorted(e0, uv.subrange(keep, uv.len() as int));
            }
            return count_reply("undone ", done);
        }
        if chars_eq(&c, "AUDIT") {
            let d = digest(&self.entries);
            let mut v = chars_of("digest=0x");
            let hx = hex_chars(d, 16);
            extend_chars(&mut v, &hx);
            push_str(&mut v, " keys=");
            push_dec(&mut v, self.entries.len() as u64);
            return string_of(&v);
        }
        if chars_eq(&c, "QUIT") {
            return String::new();
        }
        text_of("err: неизвестная команда")
    }
}

impl Default for KV {
    fn default() -> (kv: KV)
        ensures
            kv.wf(),
            kv@ == (KVV { entries: seq![], undo: seq![], tx: None }),
    {
        KV::new()
    }
}

// ---------------------------------------------------------------- laws

/// The state after handling `lines` in order.
pub open spec fn run_lines(kv: KVV, lines: Seq<Seq<char>>) -> KVV
    decreases lines.len(),
{
    if lines.len() == 0 {
        kv
    } else {
        handle_spec(run_lines(kv, lines.drop_last()), lines.last()).0
    }
}

/// A command line that ends a transaction (COMMIT or ROLLBACK).
pub open spec fn ends_tx(line: Seq<char>) -> bool {
    let t = words(line);
    t.len() > 0 && (upper(t[0]) == "COMMIT"@ || upper(t[0]) == "ROLLBACK"@)
}

/// Undoing the record of a write restores the map the write started from.
proof fn lemma_write_undone(es: Seq<(Seq<char>, Seq<char>)>, k: Seq<char>, w: Option<Seq<char>>)
    requires
        sorted(es),
    ensures
        ({
            let n = match w {
                Some(v) => es_insert(es, k, v),
                None => es_remove(es, k),
            };
            &&& sorted(n)
            &&& sorted(undo_rec(n, (k, es_get(es, k))))
            &&& map_of(undo_rec(n, (k, es_get(es, k)))) == map_of(es)
        }),
{
    lemma_es_get(es, k);
    let m = map_of(es);
    let n = match w {
        Some(v) => es_insert(es, k, v),
        None => es_remove(es, k),
    };
    match w {
        Some(v) => lemma_es_insert(es, k, v),
        None => lemma_es_remove(es, k),
    }
    match es_get(es, k) {
        Some(old) => {
            lemma_es_insert(n, k, old);
            assert(map_of(n).insert(k, old) =~= m);
        },
        None => {
            lemma_es_remove(n, k);
            assert(map_of(n).remove(k) =~= m);
        },
    }
}

/// Undoing records depends only on the map the entries denote.
proof fn lemma_undo_all_congruent(x: Seq<(Seq<char>, Seq<char>)>, y: Seq<(Seq<char>, Seq<char>)>, recs: Seq<(Seq<char>, Option<Seq<char>>)>)
    requires
        sorted(x),
        sorted(y),
        map_of(x) == map_of(y),
    ensures
        map_of(undo_all(x, recs)) == map_of(undo_all(y, recs)),
    decreases recs.len(),
{
    if recs.len() > 0 {
        let r = recs.last();
        match r.1 {
            Some(v) => {
                lemma_es_insert(x, r.0, v);
                lemma_es_insert(y, r.0, v);
            },
            None => {
                lemma_es_remove(x, r.0);
                lemma_es_remove(y, r.0);
            },
        }
        lemma_undo_all_congruent(undo_rec(x, r), undo_rec(y, r), recs.drop_last());
    }
}

proof fn lemma_tx_invariant(kv: KVV, lines: Seq<Seq<char>>)
    requires
        sorted(kv.entries),
        kv.tx == Some(Seq::<(Seq<char>, Option<Seq<char>>)>::empty()),
        forall|i: int| 0 <= i < lines.len() ==> !ends_tx(#[trigger] lines[i]),
    ensures
        ({
            let s = run_lines(kv, lines);
            &&& sorted(s.entries)
            &&& s.tx is Some
            &&& map_of(undo_all(s.entries, s.tx->0)) == map_of(kv.entries)
        }),
    decreases lines.len(),
{
    if lines.len() == 0 {
    } else {
        let d = lines.drop_last();
        assert forall|i: int| 0 <= i < d.len() implies !ends_tx(#[trigger] d[i]) by {
            assert(d[i] == lines[i]);
        }
        lemma_tx_invariant(kv, d);
        let s = run_lines(kv, d);
        let l = lines.last();
        assert(!ends_tx(l)) by {
            assert(l == lines[lines.len() - 1]);
        }
        let recs = s.tx->0;
        let t = words(l);
        if t.len() > 0 {
            let c = upper(t[0]);
            if c == "SET"@ && t.len() == 3 {
                lemma_write_undone(s.entries, t[1], Some(t[2]));
                let n = es_insert(s.entries, t[1], t[2]);
                let r = (t[1], es_get(s.entries, t[1]));
                assert(recs.push(r).drop_last() =~= recs);
                lemma_undo_all_congruent(undo_rec(n, r), s.entries, recs);
            } else if c == "GET"@ && t.len() == 2 {
            } else if c == "DEL"@ && t.len() == 2 {
                lemma_write_undone(s.entries, t[1], None);
                let n = es_remove(s.entries, t[1]);
                let r = (t[1], es_get(s.entries, t[1]));
                assert(recs.push(r).drop_last() =~= recs);
                lemma_undo_all_congruent(undo_rec(n, r), s.entries, recs);
            }
        }
    }
}

/// Law: ROLLBACK undoes the whole transaction. Whatever commands ran after
/// BEGIN (short of COMMIT or ROLLBACK), ROLLBACK brings the store back to the
/// very entries it held at BEGIN (so to the same snapshot), keeps the undo
/// history, closes the transaction, and reports one operation rolled back for
/// each SET or DEL among those commands.
pub proof fn law_rollback_restores(kv: KVV, lines: Seq<Seq<char>>, rollback: Seq<char>)
    requires
        sorted(kv.entries),
        kv.tx == Some(Seq::<(Seq<char>, Option<Seq<char>>)>::empty()),
        forall|i: int| 0 <= i < lines.len() ==> !ends_tx(#[trigger] lines[i]),
        words(rollback).len() > 0,
        upper(words(rollback)[0]) == "ROLLBACK"@,
    ensures
        ({
            let (after, reply) = handle_spec(run_lines(kv, lines), rollback);
            &&& map_of(after.entries) == map_of(kv.entries)
            &&& after.entries == kv.entries
            &&& after.tx is None
            &&& after.undo == kv.undo
            &&& reply == count_msg("rolled back "@, count_writes(lines))
        }),
    decreases lines.len(),
{
    lemma_tx_invariant(kv, lines);
    lemma_tx_undo_kept(kv, lines);
    reveal_strlit("ROLLBACK");
    reveal_strlit("SET");
    reveal_strlit("GET");
    reveal_strlit("DEL");
    reveal_strlit("BEGIN");
    reveal_strlit("COMMIT");
    let s = run_lines(kv, lines);
    let u = upper(words(rollback)[0]);
    assert(u.len() == 8);
    assert(u != "SET"@ && u != "GET"@ && u != "DEL"@ && u != "BEGIN"@);
    assert(u[0] != "COMMIT"@[0]);
    assert(u != "COMMIT"@);
    let after = handle_spec(s, rollback).0;
    assert(after == KVV { entries: undo_all(s.entries, s.tx->0), tx: None, ..s });
    lemma_tx_count(kv, lines);
    lemma_undo_all_sorted(s.entries, s.tx->0);
    lemma_sorted_map_eq(after.entries, kv.entries);
}

proof fn lemma_tx_undo_kept(kv: KVV, lines: Seq<Seq<char>>)
    requires
        kv.tx is Some,
        forall|i: int| 0 <= i < lines.len() ==> !ends_tx(#[trigger] lines[i]),
    ensures
        run_lines(kv, lines).undo == kv.undo,
        run_lines(kv, lines).tx is Some,
    decreases lines.len(),
{
    if lines.len() > 0 {
        let d = lines.drop_last();
        assert forall|i: int| 0 <= i < d.len() implies !ends_tx(#[trigger] d[i]) by {
            assert(d[i] == lines[i]);
        }
        lemma_tx_undo_kept(kv, d);
        assert(!ends_tx(lines.last())) by {
            assert(lines.last() == lines[lines.len() - 1]);
        }
    }
}

/// A well-formed write command: `SET k v` or `DEL k`.
pub open spec fn is_write(line: Seq<char>) -> bool {
    let t = words(line);
    t.len() > 0 && ((upper(t[0]) == "SET"@ && t.len() == 3) || (upper(t[0]) == "DEL"@ && t.len() == 2))
}

/// How many of `lines` are write commands.
pub open spec fn count_writes(lines: Seq<Seq<char>>) -> nat
    decreases lines.len(),
{
    if lines.len() == 0 {
        0
    } else {
        count_writes(lines.drop_last()) + if is_write(lines.last()) { 1nat } else { 0nat }
    }
}

/// Inside a transaction, each write command adds one record to it, and
/// nothing else does.
proof fn lemma_tx_count(kv: KVV, lines: Seq<Seq<char>>)
    requires
        kv.tx is Some,
        forall|i: int| 0 <= i < lines.len() ==> !ends_tx(#[trigger] lines[i]),
    ensures
        run_lines(kv, lines).tx is Some,
        run_lines(kv, lines).tx->0.len() == kv.tx->0.len() + count_writes(lines),
    decreases lines.len(),
{
    if lines.len() > 0 {
        reveal_strlit("GET");
        reveal_strlit("DEL");
        assert("GET"@ != "DEL"@) by {
            assert("GET"@[0] != "DEL"@[0]);
        }
        let d = lines.drop_last();
        assert forall|i: int| 0 <= i < d.len() implies !ends_tx(#[trigger] d[i]) by {
            assert(d[i] == lines[i]);
        }
        lemma_tx_count(kv, d);
        assert(!ends_tx(lines.last())) by {
            assert(lines.last() == lines[lines.len() - 1]);
        }
    }
}

/// Sorted entries are fixed by the map they denote.
pub proof fn lemma_sorted_map_eq(a: Seq<(Seq<char>, Seq<char>)>, b: Seq<(Seq<char>, Seq<char>)>)
    requires
        sorted(a),
        sorted(b),
        map_of(a) == map_of(b),
    ensures
        a == b,
    decreases a.len() + b.len(),
{
    lemma_map_of(a);
    lemma_map_of(b);
    if a.len() == 0 || b.len() == 0 {
        if a.len() > 0 {
            assert(map_of(a).contains_key(a[0].0));
        }
        if b.len() > 0 {
            assert(map_of(b).contains_key(b[0].0));
        }
        assert(a =~= b);
    } else {
        let la = a.last();
        let lb = b.last();
        assert(a[a.len() - 1] == la);
        assert(b[b.len() - 1] == lb);
        assert(map_of(b).contains_key(la.0));
        assert(map_of(a).contains_key(lb.0));
        let ia = choose|i: int| 0 <= i < b.len() && b[i].0 == la.0;
        let ib = choose|i: int| 0 <= i < a.len() && a[i].0 == lb.0;
        if la.0 != lb.0 {
            assert(key_lt(b[ia].0, lb.0));
            assert(key_lt(a[ib].0, la.0));
            lemma_key_lt_asym(la.0, lb.0);
            assert(false);
        }
        assert(map_of(a)[la.0] == la.1);
        assert(map_of(b)[lb.0] == lb.1);
        let da = a.drop_last();
        let db = b.drop_last();
        assert(sorted(da)) by {
            assert forall|i: int, j: int| 0 <= i < j < da.len() implies key_lt(#[trigger] da[i].0, #[trigger] da[j].0) by {
                assert(da[i] == a[i] && da[j] == a[j]);
            }
        }
        assert(sorted(db)) by {
            assert forall|i: int, j: int| 0 <= i < j < db.len() implies key_lt(#[trigger] db[i].0, #[trigger] db[j].0) by {
                assert(db[i] == b[i] && db[j] == b[j]);
            }
        }
        lemma_map_of(da);
        lemma_map_of(db);
        assert(!map_of(da).contains_key(la.0)) by {
            if map_of(da).contains_key(la.0) {
                let i = choose|i: int| 0 <= i < da.len() && da[i].0 == la.0;
                assert(key_lt(a[i].0, a[a.len() - 1].0));
                lemma_key_lt_irrefl(la.0);
            }
        }
        assert(!map_of(db).contains_key(lb.0)) by {
            if map_of(db).contains_key(lb.0) {
                let i = choose|i: int| 0 <= i < db.len() && db[i].0 == lb.0;
                assert(key_lt(b[i].0, b[b.len() - 1].0));
                lemma_key_lt_irrefl(lb.0);
            }
        }
        assert(map_of(da) =~= map_of(a).remove(la.0));
        assert(map_of(db) =~= map_of(b).remove(lb.0));
        lemma_sorted_map_eq(da, db);
        assert(a =~= da.push(la));
        assert(b =~= db.push(lb));
    }
}

/// A command that leaves the committed journal to the writes: neither BEGIN
/// nor UNDO.
pub open spec fn keeps_journal(line: Seq<char>) -> bool {
    let t = words(line);
    !(t.len() > 0 && (upper(t[0]) == "BEGIN"@ || upper(t[0]) == "UNDO"@))
}

/// Outside a transaction, each write command appends one record to the
/// committed journal, and undoing the records appended brings back the map.
proof fn lemma_undo_invariant(kv: KVV, lines: Seq<Seq<char>>)
    requires
        sorted(kv.entries),
        kv.tx is None,
        forall|i: int| 0 <= i < lines.len() ==> keeps_journal(#[trigger] lines[i]),
    ensures
        ({
            let s = run_lines(kv, lines);
            &&& sorted(s.entries)
            &&& s.tx is None
            &&& s.undo.len() == kv.undo.len() + count_writes(lines)
            &&& s.undo.take(kv.undo.len() as int) == kv.undo
            &&& map_of(undo_all(s.entries, s.undo.skip(kv.undo.len() as int))) == map_of(kv.entries)
        }),
    decreases lines.len(),
{
    if lines.len() == 0 {
        assert(kv.undo.take(kv.undo.len() as int) =~= kv.undo);
        assert(kv.undo.skip(kv.undo.len() as int) =~= Seq::<(Seq<char>, Option<Seq<char>>)>::empty());
    } else {
        reveal_strlit("GET");
        reveal_strlit("DEL");
        assert("GET"@ != "DEL"@) by {
            assert("GET"@[0] != "DEL"@[0]);
        }
        let d = lines.drop_last();
        assert forall|i: int| 0 <= i < d.len() implies keeps_journal(#[trigger] d[i]) by {
            assert(d[i] == lines[i]);
        }
        lemma_undo_invariant(kv, d);
        let s = run_lines(kv, d);
        let l = lines.last();
        assert(keeps_journal(l)) by {
            assert(l == lines[lines.len() - 1]);
        }
        let m = kv.undo.len() as int;
        let recs = s.undo.skip(m);
        let t = words(l);
        if t.len() > 0 {
            let c = upper(t[0]);
            if c == "SET"@ && t.len() == 3 {
                lemma_es_insert(s.entries, t[1], t[2]);
                lemma_write_undone(s.entries, t[1], Some(t[2]));
                let n = es_insert(s.entries, t[1], t[2]);
                let r = (t[1], es_get(s.entries, t[1]));
                assert(s.undo.push(r).skip(m) =~= recs.push(r));
                assert(s.undo.push(r).take(m) =~= s.undo.take(m));
                assert(recs.push(r).drop_last() =~= recs);
                lemma_undo_all_congruent(undo_rec(n, r), s.entries, recs);
            } else if c == "GET"@ && t.len() == 2 {
            } else if c == "DEL"@ && t.len() == 2 {
                lemma_es_remove(s.entries, t[1]);
                lemma_write_undone(s.entries, t[1], None);
                let n = es_remove(s.entries, t[1]);
                let r = (t[1], es_get(s.entries, t[1]));
                assert(s.undo.push(r).skip(m) =~= recs.push(r));
                assert(s.undo.push(r).take(m) =~= s.undo.take(m));
                assert(recs.push(r).drop_last() =~= recs);
                lemma_undo_all_congruent(undo_rec(n, r), s.entries, recs);
            }
        }
    }
}

/// Law: UNDO of the last N writes. After N write commands outside a
/// transaction (with any reads between them), `UNDO N` brings the store back
/// to the very entries it held before them, gives the committed journal back
/// as it was, and reports the N operations undone.
pub proof fn law_undo_last(kv: KVV, lines: Seq<Seq<char>>, undo: Seq<char>)
    requires
        sorted(kv.entries),
        kv.tx is None,
        forall|i: int| 0 <= i < lines.len() ==> keeps_journal(#[trigger] lines[i]),
        words(undo).len() > 0,
        upper(words(undo)[0]) == "UNDO"@,
        undo_arg(words(undo)) == count_writes(lines),
    ensures
        ({
            let (after, reply) = handle_spec(run_lines(kv, lines), undo);
            &&& after.entries == kv.entries
            &&& after.undo == kv.undo
            &&& after.tx is None
            &&& reply == count_msg("undone "@, count_writes(lines))
        }),
{
    lemma_undo_invariant(kv, lines);
    reveal_strlit("SET");
    reveal_strlit("DEL");
    reveal_strlit("GET");
    reveal_strlit("UNDO");
    reveal_strlit("BEGIN");
    reveal_strlit("COMMIT");
    reveal_strlit("ROLLBACK");
    let s = run_lines(kv, lines);
    let u = upper(words(undo)[0]);
    assert(u.len() == 4);
    assert(u != "SET"@ && u != "GET"@ && u != "DEL"@);
    assert(u != "BEGIN"@ && u != "COMMIT"@ && u != "ROLLBACK"@);
    let n = count_writes(lines);
    let keep = s.undo.len() - n;
    assert(s.undo.subrange(keep, s.undo.len() as int) =~= s.undo.skip(kv.undo.len() as int));
    let after = handle_spec(s, undo).0;
    assert(after.entries == undo_all(s.entries, s.undo.skip(kv.undo.len() as int)));
    lemma_undo_all_sorted(s.entries, s.undo.skip(kv.undo.len() as int));
    lemma_sorted_map_eq(after.entries, kv.entries);
}

/// Law: UNDO right after a committed SET or DEL restores the map it changed.
pub proof fn law_undo_restores(kv: KVV, write: Seq<char>, undo: Seq<char>)
    requires
        sorted(kv.entries),
        kv.tx is None,
        ({
            let t = words(write);
            (t.len() == 3 && upper(t[0]) == "SET"@) || (t.len() == 2 && upper(t[0]) == "DEL"@)
        }),
        words(undo).len() == 1,
        upper(words(undo)[0]) == "UNDO"@,
    ensures
        map_of(handle_spec(handle_spec(kv, write).0, undo).0.entries) == map_of(kv.entries),
        handle_spec(handle_spec(kv, write).0, undo).0.undo == kv.undo,
{
    reveal_strlit("SET");
    reveal_strlit("DEL");
    reveal_strlit("GET");
    reveal_strlit("UNDO");
    reveal_strlit("BEGIN");
    reveal_strlit("COMMIT");
    reveal_strlit("ROLLBACK");
    reveal_strlit("AUDIT");
    let t = words(write);
    let s = handle_spec(kv, write).0;
    let r = (t[1], es_get(kv.entries, t[1]));
    if t.len() == 3 && upper(t[0]) == "SET"@ {
        lemma_write_undone(kv.entries, t[1], Some(t[2]));
        assert(s == record(KVV { entries: es_insert(kv.entries, t[1], t[2]), ..kv }, r));
    } else {
        assert(upper(t[0]) == "DEL"@);
        assert("DEL"@[0] != "GET"@[0]);
        assert(upper(t[0]) != "GET"@);
        lemma_write_undone(kv.entries, t[1], None);
        assert(s == record(KVV { entries: es_remove(kv.entries, t[1]), ..kv }, r));
    }
    assert(s.undo == kv.undo.push(r));
    let u = upper(words(undo)[0]);
    assert(u.len() == 4);
    assert(u != "SET"@ && u != "GET"@ && u != "DEL"@);
    assert(u != "BEGIN"@ && u != "COMMIT"@ && u != "ROLLBACK"@);
    assert(undo_arg(words(undo)) == 1);
    let keep = s.undo.len() - 1;
    assert(s.undo.subrange(keep, s.undo.len() as int) =~= seq![r]);
    assert(seq![r].drop_last() =~= Seq::<(Seq<char>, Option<Seq<char>>)>::empty());
    assert(s.undo.take(keep) =~= kv.undo);
    assert(undo_all(s.entries, seq![r]) == undo_all(undo_rec(s.entries, r), Seq::<(Seq<char>, Option<Seq<char>>)>::empty()));
    let after = handle_spec(s, undo).0;
    assert(after.entries == undo_all(s.entries, s.undo.subrange(keep, s.undo.len() as int)));
}

// ---------------------------------------------------------------- snapshot law

proof fn lemma_snapshot_join(es: Seq<(Seq<char>, Seq<char>)>)
    ensures
        snapshot_spec(es) == join_nl(es.map_values(|e: (Seq<char>, Seq<char>)| entry_line(e))),
    decreases es.len(),
{
    let ls = es.map_values(|e: (Seq<char>, Seq<char>)| entry_line(e));
    reveal_strlit("\n");
    if es.len() == 1 {
        assert(ls[0] == entry_line(es[0]));
    }
    if es.len() > 1 {
        lemma_snapshot_join(es.drop_last());
        assert(ls.last() == entry_line(es.last()));
        assert(ls.drop_last() =~= es.drop_last().map_values(|e: (Seq<char>, Seq<char>)| entry_line(e)));
    }
}

/// A key and value a snapshot line carries faithfully: the key has no space
/// and no newline, the value no newline and no final carriage return.
pub open spec fn snapshot_safe(e: (Seq<char>, Seq<char>)) -> bool {
    &&& no_char(e.0, ' ')
    &&& no_char(e.0, '\n')
    &&& no_char(e.1, '\n')
    &&& !(e.1.len() > 0 && e.1.last() == '\r')
}


/// A journal record a snapshot line could carry back: its key, and its old
/// value if any.
pub open spec fn rec_safe(r: (Seq<char>, Option<Seq<char>>)) -> bool {
    match r.1 {
        Some(v) => snapshot_safe((r.0, v)),
        None => no_char(r.0, ' ') && no_char(r.0, '\n'),
    }
}

/// Every entry and every journal record of the store is one a snapshot line
/// carries.
pub open spec fn kv_safe(kv: KVV) -> bool {
    &&& forall|i: int| 0 <= i < kv.entries.len() ==> snapshot_safe(#[trigger] kv.entries[i])
    &&& forall|i: int| 0 <= i < kv.undo.len() ==> rec_safe(#[trigger] kv.undo[i])
    &&& kv.tx matches Some(b) ==> forall|i: int| 0 <= i < b.len() ==> rec_safe(#[trigger] b[i])
}

pub open spec fn entries_safe(es: Seq<(Seq<char>, Seq<char>)>) -> bool {
    forall|i: int| 0 <= i < es.len() ==> snapshot_safe(#[trigger] es[i])
}

pub open spec fn recs_safe(rs: Seq<(Seq<char>, Option<Seq<char>>)>) -> bool {
    forall|i: int| 0 <= i < rs.len() ==> rec_safe(#[trigger] rs[i])
}

proof fn lemma_insert_safe(es: Seq<(Seq<char>, Seq<char>)>, k: Seq<char>, v: Seq<char>)
    requires
        sorted(es),
        entries_safe(es),
        snapshot_safe((k, v)),
    ensures
        entries_safe(es_insert(es, k, v)),
{
    lemma_lower_bound_split(es, k);
    let p = lower_bound(es, k) as int;
    let n = es_insert(es, k, v);
    assert forall|i: int| 0 <= i < n.len() implies snapshot_safe(#[trigger] n[i]) by {
        if p < es.len() && es[p].0 == k {
            if i != p {
                assert(n[i] == es[i]);
            }
        } else {
            if i < p {
                assert(n[i] == es[i]);
            } else if i > p {
                assert(n[i] == es[i - 1]);
            }
        }
    }
}

proof fn lemma_remove_safe(es: Seq<(Seq<char>, Seq<char>)>, k: Seq<char>)
    requires
        sorted(es),
        entries_safe(es),
    ensures
        entries_safe(es_remove(es, k)),
{
    lemma_lower_bound_split(es, k);
    let p = lower_bound(es, k) as int;
    let n = es_remove(es, k);
    assert forall|i: int| 0 <= i < n.len() implies snapshot_safe(#[trigger] n[i]) by {
        if p < es.len() && es[p].0 == k {
            if i < p {
                assert(n[i] == es[i]);
            } else {
                assert(n[i] == es[i + 1]);
            }
        }
    }
}

proof fn lemma_undo_all_safe(es: Seq<(Seq<char>, Seq<char>)>, recs: Seq<(Seq<char>, Option<Seq<char>>)>)
    requires
        sorted(es),
        entries_safe(es),
        recs_safe(recs),
    ensures
        entries_safe(undo_all(es, recs)),
    decreases recs.len(),
{
    if recs.len() > 0 {
        let r = recs.last();
        assert(rec_safe(recs[recs.len() - 1]));
        match r.1 {
            Some(v) => {
                lemma_es_insert(es, r.0, v);
                lemma_insert_safe(es, r.0, v);
            },
            None => {
                lemma_es_remove(es, r.0);
                lemma_remove_safe(es, r.0);
            },
        }
        let d = recs.drop_last();
        assert forall|i: int| 0 <= i < d.len() implies rec_safe(#[trigger] d[i]) by {
            assert(d[i] == recs[i]);
        }
        lemma_undo_all_safe(undo_rec(es, r), d);
    }
}

/// A word of a command line is a key or value a snapshot line carries.
proof fn lemma_word_safe(w: Seq<char>)
    requires
        w.len() > 0,
        no_ws(w),
    ensures
        no_char(w, ' '),
        no_char(w, '\n'),
        w.last() != '\r',
{
    assert(is_ws(' ') && is_ws('\n') && is_ws('\r'));
    assert(!is_ws(w[w.len() - 1]));
    assert forall|j: int| 0 <= j < w.len() implies w[j] != ' ' && w[j] != '\n' by {
        assert(!is_ws(w[j]));
    }
}

/// Law: the commands keep every key and value one a snapshot line carries.
/// Keys and values only ever come from the words of SET and DEL commands, so
/// a store built from an empty one by any commands can be restarted from its
/// snapshot (`law_snapshot_roundtrip`).
pub proof fn law_handle_keeps_safe(kv: KVV, line: Seq<char>)
    requires
        sorted(kv.entries),
        kv_safe(kv),
    ensures
        sorted(handle_spec(kv, line).0.entries),
        kv_safe(handle_spec(kv, line).0),
{
    let t = words(line);
    lemma_words_plain(line);
    let es = kv.entries;
    assert(entries_safe(es));
    assert(recs_safe(kv.undo));
    if t.len() > 0 {
        let c = upper(t[0]);
        if c == "SET"@ && t.len() == 3 {
            lemma_word_safe(t[1]);
            lemma_word_safe(t[2]);
            lemma_es_insert(es, t[1], t[2]);
            lemma_insert_safe(es, t[1], t[2]);
            let g = es_get(es, t[1]);
            lemma_lower_bound_split(es, t[1]);
            if g is Some {
                assert(snapshot_safe(es[lower_bound(es, t[1]) as int]));
            }
            let r = (t[1], g);
            assert(rec_safe(r));
            let k1 = KVV { entries: es_insert(es, t[1], t[2]), ..kv };
            let k2 = record(k1, r);
            match kv.tx {
                Some(b) => {
                    assert forall|i: int| 0 <= i < b.push(r).len() implies rec_safe(#[trigger] b.push(r)[i]) by {
                        if i < b.len() {
                            assert(b.push(r)[i] == b[i]);
                        }
                    }
                },
                None => {
                    assert forall|i: int| 0 <= i < kv.undo.push(r).len() implies rec_safe(#[trigger] kv.undo.push(r)[i]) by {
                        if i < kv.undo.len() {
                            assert(kv.undo.push(r)[i] == kv.undo[i]);
                        }
                    }
                },
            }
        } else if c == "GET"@ && t.len() == 2 {
        } else if c == "DEL"@ && t.len() == 2 {
            lemma_word_safe(t[1]);
            lemma_es_remove(es, t[1]);
            lemma_remove_safe(es, t[1]);
            let g = es_get(es, t[1]);
            lemma_lower_bound_split(es, t[1]);
            if g is Some {
                assert(snapshot_safe(es[lower_bound(es, t[1]) as int]));
            }
            let r = (t[1], g);
            assert(rec_safe(r));
            match kv.tx {
                Some(b) => {
                    assert forall|i: int| 0 <= i < b.push(r).len() implies rec_safe(#[trigger] b.push(r)[i]) by {
                        if i < b.len() {
                            assert(b.push(r)[i] == b[i]);
                        }
                    }
                },
                None => {
                    assert forall|i: int| 0 <= i < kv.undo.push(r).len() implies rec_safe(#[trigger] kv.undo.push(r)[i]) by {
                        if i < kv.undo.len() {
                            assert(kv.undo.push(r)[i] == kv.undo[i]);
                        }
                    }
                },
            }
        } else if c == "BEGIN"@ {
        } else if c == "COMMIT"@ {
            if let Some(b) = kv.tx {
                assert forall|i: int| 0 <= i < (kv.undo + b).len() implies rec_safe(#[trigger] (kv.undo + b)[i]) by {
                    if i < kv.undo.len() {
                        assert((kv.undo + b)[i] == kv.undo[i]);
                    } else {
                        assert((kv.undo + b)[i] == b[i - kv.undo.len()]);
                    }
                }
            }
        } else if c == "ROLLBACK"@ {
            if let Some(b) = kv.tx {
                assert(recs_safe(b));
                lemma_undo_all_sorted(es, b);
                lemma_undo_all_safe(es, b);
            }
        } else if c == "UNDO"@ {
            if kv.tx is None {
                let n = if undo_arg(t) < kv.undo.len() { undo_arg(t) } else { kv.undo.len() };
                let keep = kv.undo.len() - n;
                let tail = kv.undo.subrange(keep, kv.undo.len() as int);
                assert forall|i: int| 0 <= i < tail.len() implies rec_safe(#[trigger] tail[i]) by {
                    assert(tail[i] == kv.undo[i + keep]);
                }
                lemma_undo_all_sorted(es, tail);
                lemma_undo_all_safe(es, tail);
                let kept = kv.undo.take(keep);
                assert forall|i: int| 0 <= i < kept.len() implies rec_safe(#[trigger] kept[i]) by {
                    assert(kept[i] == kv.undo[i]);
                }
            }
        }
    }
}

/// A restart from a snapshot restores the store: loading the lines of
/// `snapshot` gives back exactly the entries it was taken from, when every
/// key and value is one a snapshot line carries.
pub proof fn law_snapshot_roundtrip(kv: KVV)
    requires
        sorted(kv.entries),
        forall|i: int| 0 <= i < kv.entries.len() ==> snapshot_safe(#[trigger] kv.entries[i]),
    ensures
        load_lines(lines_spec(snapshot_spec(kv.entries))) == kv.entries,
{
    let es = kv.entries;
    let ls = es.map_values(|e: (Seq<char>, Seq<char>)| entry_line(e));
    reveal_strlit(" ");
    lemma_snapshot_join(es);
    assert forall|i: int| 0 <= i < ls.len() implies no_char(#[trigger] ls[i], '\n') by {
        assert(snapshot_safe(es[i]));
        let l = ls[i];
        assert(l == es[i].0 + " "@ + es[i].1);
        assert forall|j: int| 0 <= j < l.len() implies l[j] != '\n' by {
            if j < es[i].0.len() {
                assert(l[j] == es[i].0[j]);
            } else if j > es[i].0.len() {
                assert(l[j] == es[i].1[j - es[i].0.len() - 1]);
            } else {
                reveal_strlit(" ");
                assert(l[j] == ' ');
            }
        }
    }
    assert forall|i: int| 0 <= i < ls.len() implies !(#[trigger] ls[i].len() > 0 && ls[i].last() == '\r') by {
        assert(snapshot_safe(es[i]));
        reveal_strlit(" ");
        let l = ls[i];
        if es[i].1.len() > 0 {
            assert(l.last() == es[i].1.last());
        } else {
            assert(l.last() == ' ');
        }
    }
    if ls.len() > 0 {
        reveal_strlit(" ");
        assert(ls.last().len() > 0);
    }
    lemma_lines_join(ls);
    lemma_load_entries(es, es.len() as int);
    assert(ls.take(es.len() as int) =~= ls);
    assert(es.take(es.len() as int) =~= es);
}

proof fn lemma_load_entries(es: Seq<(Seq<char>, Seq<char>)>, i: int)
    requires
        0 <= i <= es.len(),
        sorted(es),
        forall|j: int| 0 <= j < es.len() ==> snapshot_safe(#[trigger] es[j]),
    ensures
        load_lines(es.map_values(|e: (Seq<char>, Seq<char>)| entry_line(e)).take(i)) == es.take(i),
    decreases i,
{
    let ls = es.map_values(|e: (Seq<char>, Seq<char>)| entry_line(e));
    if i == 0 {
        assert(ls.take(0) =~= Seq::<Seq<char>>::empty());
        assert(es.take(0) =~= Seq::<(Seq<char>, Seq<char>)>::empty());
    } else {
        let k = i - 1;
        lemma_load_entries(es, k);
        let e = es[k];
        let l = ls[k];
        assert(ls.take(i).drop_last() =~= ls.take(k));
        assert(ls.take(i).last() == l);
        assert(snapshot_safe(e));
        reveal_strlit(" ");
        assert(l == e.0 + " "@ + e.1);
        assert forall|j: int| 0 <= j < e.0.len() implies l[j] != ' ' by {
            assert(l[j] == e.0[j]);
        }
        lemma_cut_at(l, ' ', e.0.len() as int);
        assert(l.take(e.0.len() as int) =~= e.0);
        assert(l.skip(e.0.len() as int + 1) =~= e.1);
        let pre = es.take(k);
        assert forall|j: int| 0 <= j < k implies key_lt(#[trigger] pre[j].0, e.0) by {
            assert(pre[j] == es[j]);
        }
        lemma_lower_bound(pre, e.0, k as nat);
        assert(pre.insert(k, (e.0, e.1)) =~= es.take(i));
    }
}

} // verus!
