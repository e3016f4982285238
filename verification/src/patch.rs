//! All-or-nothing application of a unified diff.
//!
//! Hunks are collected and applied to a copy of the text's lines; the input
//! text is never touched, so a conflicting hunk leaves it exactly as it was
//! (no temporary files, no rename). The result carries a digest of its lines
//! along a hash chain.
use vstd::prelude::*;
use crate::fnv::{fnv_bytes, fnv_chars, utf8_seq};
use crate::lex::{cut_at, from_str_radix, from_str_radix_spec, lemma_cut_at, lines_spec, skip_chars, split_lines};
use crate::phase_server::{same, take_chars};
use crate::state::{FNV_OFFSET, FNV_PRIME};
use crate::text::{chars_of, dec_spec, extend_chars, push_dec, push_str, string_of};

verus! {

/// The result of applying a patch.
pub struct PatchResult {
    pub text: String,
    /// The hash chain over the result's lines.
    pub digest: u64,
}

// ---------------------------------------------------------------- text helpers

pub open spec fn starts_with(s: Seq<char>, p: Seq<char>) -> bool {
    p.len() <= s.len() && s.take(p.len() as int) == p
}

/// The first occurrence of `pat` in `h` at or after `i`.
pub open spec fn find_sub(h: Seq<char>, pat: Seq<char>, i: nat) -> Option<nat>
    decreases h.len() + 1 - i,
{
    if i + pat.len() > h.len() {
        None
    } else if h.subrange(i as int, (i + pat.len()) as int) == pat {
        Some(i)
    } else {
        find_sub(h, pat, i + 1)
    }
}

/// `find_sub` finds the first occurrence: the pattern at `q`, nowhere in `[i, q)`.
pub proof fn lemma_find_sub_first(h: Seq<char>, pat: Seq<char>, i: nat, q: nat)
    requires
        i <= q,
        q + pat.len() <= h.len(),
        h.subrange(q as int, (q + pat.len()) as int) == pat,
        forall|j: int| i <= j < q ==> #[trigger] h.subrange(j, j + pat.len()) != pat,
    ensures
        find_sub(h, pat, i) == Some(q),
    decreases q - i,
{
    if i < q {
        assert(h.subrange(i as int, (i + pat.len()) as int) != pat);
        lemma_find_sub_first(h, pat, i + 1, q);
    }
}

/// `h.split(pat).next()`: the text before the first `pat`.
pub open spec fn before_sub(h: Seq<char>, pat: Seq<char>) -> Seq<char> {
    match find_sub(h, pat, 0) {
        Some(p) => h.take(p as int),
        None => h,
    }
}

/// `s.trim_start_matches(c)`.
pub open spec fn strip_leading(s: Seq<char>, c: char) -> Seq<char>
    decreases s.len(),
{
    if s.len() > 0 && s[0] == c {
        strip_leading(s.drop_first(), c)
    } else {
        s
    }
}

/// `s.split(c).next()`.
pub open spec fn first_piece(s: Seq<char>, c: char) -> Seq<char> {
    s.take(cut_at(s, c) as int)
}

/// `s.split(c).nth(1)`.
pub open spec fn second_piece(s: Seq<char>, c: char) -> Option<Seq<char>> {
    let k = cut_at(s, c);
    if k == s.len() {
        None
    } else {
        Some(first_piece(s.skip(k as int + 1), c))
    }
}

/// `s.parse::<usize>()`.
pub open spec fn parse_usize(s: Seq<char>) -> Option<nat> {
    match from_str_radix_spec(s, 10, usize::MAX as nat) {
        Ok(v) => Some(v),
        Err(_) => None,
    }
}

// ---------------------------------------------------------------- parsing

/// The start line and old-side count of an `@@ -l,c +l,c @@` header.
pub open spec fn header_spec(l: Seq<char>) -> Result<(nat, nat), Seq<char>> {
    let rest = before_sub(l.skip(3), " @@"@);
    match find_sub(rest, " +"@, 0) {
        None => Err("bad hunk header"@),
        Some(p) => {
            let oldp = rest.take(p as int);
            match parse_usize(first_piece(strip_leading(oldp, '-'), ',')) {
                None => Err("bad old line"@),
                Some(line) => Ok(
                    (
                        line,
                        match second_piece(oldp, ',') {
                            Some(x) => match parse_usize(x) {
                                Some(v) => v,
                                None => 1,
                            },
                            None => 1,
                        },
                    ),
                ),
            }
        },
    }
}

/// A body line: `' '`, `'-'` or `'+'` and the rest; anything else is skipped.
pub open spec fn body_item(s: Seq<char>) -> Option<(char, Seq<char>)> {
    if s.len() > 0 && (s[0] == ' ' || s[0] == '-' || s[0] == '+') {
        Some((s[0], s.skip(1)))
    } else {
        None
    }
}

/// The body items of some lines, in order.
pub open spec fn body_of(ls: Seq<Seq<char>>) -> Seq<(char, Seq<char>)>
    decreases ls.len(),
{
    if ls.len() == 0 {
        seq![]
    } else {
        let b = body_of(ls.drop_last());
        match body_item(ls.last()) {
            Some(x) => b.push(x),
            None => b,
        }
    }
}

/// The first line at or after `j` that starts with `@@` (or the end).
pub open spec fn body_end(lines: Seq<Seq<char>>, j: nat) -> nat
    decreases lines.len() - j,
{
    if j >= lines.len() || starts_with(lines[j as int], "@@"@) {
        j
    } else {
        body_end(lines, j + 1)
    }
}

pub proof fn lemma_body_end(lines: Seq<Seq<char>>, j: nat)
    ensures
        j <= body_end(lines, j),
        j <= lines.len() ==> body_end(lines, j) <= lines.len(),
    decreases lines.len() - j,
{
    if !(j >= lines.len() || starts_with(lines[j as int], "@@"@)) {
        lemma_body_end(lines, j + 1);
    }
}

/// The lines a hunk expects on the old side (context and removed).
pub open spec fn old_lines(body: Seq<(char, Seq<char>)>) -> Seq<Seq<char>>
    decreases body.len(),
{
    if body.len() == 0 {
        seq![]
    } else if body.last().0 != '+' {
        old_lines(body.drop_last()).push(body.last().1)
    } else {
        old_lines(body.drop_last())
    }
}

/// The lines a hunk puts in their place (context and added).
pub open spec fn new_lines(body: Seq<(char, Seq<char>)>) -> Seq<Seq<char>>
    decreases body.len(),
{
    if body.len() == 0 {
        seq![]
    } else if body.last().0 != '-' {
        new_lines(body.drop_last()).push(body.last().1)
    } else {
        new_lines(body.drop_last())
    }
}

/// The number of body items of one kind.
pub open spec fn count_kind(body: Seq<(char, Seq<char>)>, k: char) -> nat
    decreases body.len(),
{
    if body.len() == 0 {
        0
    } else {
        count_kind(body.drop_last(), k) + if body.last().0 == k { 1nat } else { 0nat }
    }
}

/// `"хунок n-й: (removed r + ctx c) != old_count o"`.
pub open spec fn count_msg(n: nat, removed: nat, ctx: nat, cnt: nat) -> Seq<char> {
    "хунок "@ + dec_spec(n) + "-й: (removed "@ + dec_spec(removed) + " + ctx "@ + dec_spec(ctx) + ") != old_count "@
        + dec_spec(cnt)
}

/// The hunks of a diff's lines from line `i` on, after `acc`. A hunk is its
/// 0-based start line on the old side and its body items (kind `' '`, `'-'`
/// or `'+'`, and the text after it).
pub open spec fn parse_from(lines: Seq<Seq<char>>, i: nat, acc: Seq<(nat, Seq<(char, Seq<char>)>)>) -> Result<Seq<(nat, Seq<(char, Seq<char>)>)>, Seq<char>>
    decreases lines.len() - i,
{
    if i >= lines.len() {
        Ok(acc)
    } else if starts_with(lines[i as int], "@@ "@) {
        match header_spec(lines[i as int]) {
            Err(e) => Err(e),
            Ok((line, cnt)) => {
                proof {
                    lemma_body_end(lines, i + 1);
                }
                let e = body_end(lines, i + 1);
                let body = body_of(lines.subrange(i as int + 1, e as int));
                if count_kind(body, '-') + count_kind(body, ' ') != cnt {
                    Err(count_msg(acc.len() + 1, count_kind(body, '-'), count_kind(body, ' '), cnt))
                } else {
                    parse_from(lines, e, acc.push((if line > 0 { (line - 1) as nat } else { 0 }, body)))
                }
            },
        }
    } else {
        parse_from(lines, i + 1, acc)
    }
}

// ---------------------------------------------------------------- applying

/// `format!("{:?}", s)` of a string: Rust's debug quoting.
pub uninterp spec fn debug_str(s: Seq<char>) -> Seq<char>;

/// Rust's debug quoting of a string (`format!("{:?}", s)`).
#[verifier::external_body]
fn debug_quoted(s: &str) -> (r: String)
    ensures
        r@ == debug_str(s@),
{
    format!("{:?}", s)
}

/// The first `k` at which `out[idx + k]` differs from `olds[k]`.
pub open spec fn first_mismatch(out: Seq<Seq<char>>, idx: int, olds: Seq<Seq<char>>, k: nat) -> Option<nat>
    decreases olds.len() - k,
{
    if k >= olds.len() {
        None
    } else if out[idx + k] != olds[k as int] {
        Some(k)
    } else {
        first_mismatch(out, idx, olds, k + 1)
    }
}

pub open spec fn range_msg(hi: nat) -> Seq<char> {
    "хунок "@ + dec_spec(hi + 1) + ": выходит за конец файла"@
}

pub open spec fn mismatch_msg(hi: nat, line: nat, expect: Seq<char>) -> Seq<char> {
    "хунок "@ + dec_spec(hi + 1) + ": контекст не совпал на строке "@ + dec_spec(line) + " (ожидалось "@
        + debug_str(expect) + ")"@
}

/// Apply hunks `hi..` to the lines, `cum` lines shifted by the hunks before.
pub open spec fn apply_from(out: Seq<Seq<char>>, hunks: Seq<(nat, Seq<(char, Seq<char>)>)>, hi: nat, cum: int) -> Result<Seq<Seq<char>>, Seq<char>>
    decreases hunks.len() - hi,
{
    if hi >= hunks.len() {
        Ok(out)
    } else {
        let idx = hunks[hi as int].0 + cum;
        let olds = old_lines(hunks[hi as int].1);
        let news = new_lines(hunks[hi as int].1);
        if idx < 0 || idx + olds.len() > out.len() {
            Err(range_msg(hi))
        } else {
            match first_mismatch(out, idx, olds, 0) {
                Some(k) => Err(mismatch_msg(hi, (idx + k + 1) as nat, olds[k as int])),
                None => apply_from(
                    out.take(idx) + news + out.skip(idx + olds.len()),
                    hunks,
                    hi + 1,
                    cum + news.len() - olds.len(),
                ),
            }
        }
    }
}

/// One link of the hash chain.
pub open spec fn chain_spec(prev: u64, x: u64) -> u64 {
    vstd::wrapping::u64_specs::wrapping_mul(vstd::wrapping::u64_specs::wrapping_add(FNV_OFFSET ^ prev, x), FNV_PRIME)
}

/// The hash chain over lines: each line's FNV-1a linked onto the previous.
pub open spec fn line_chain(ls: Seq<Seq<char>>) -> u64
    decreases ls.len(),
{
    if ls.len() == 0 {
        FNV_OFFSET
    } else {
        chain_spec(line_chain(ls.drop_last()), fnv_bytes(FNV_OFFSET, utf8_seq(ls.last())))
    }
}

/// Lines joined with `'\n'`.
pub open spec fn join_lines(ls: Seq<Seq<char>>) -> Seq<char>
    decreases ls.len(),
{
    if ls.len() == 0 {
        seq![]
    } else if ls.len() == 1 {
        ls[0]
    } else {
        join_lines(ls.drop_last()) + "\n"@ + ls.last()
    }
}

pub open spec fn ends_nl(s: Seq<char>) -> bool {
    s.len() > 0 && s.last() == '\n'
}

/// The result text: the lines joined, with the original's final newline kept.
pub open spec fn result_text(orig: Seq<char>, out: Seq<Seq<char>>) -> Seq<char> {
    let t = join_lines(out);
    if ends_nl(orig) && !ends_nl(t) {
        t.push('\n')
    } else {
        t
    }
}

/// The outcome of applying a diff: the text and the digest, or the first error.
pub open spec fn apply_spec(orig: Seq<char>, diff: Seq<char>) -> Result<(Seq<char>, u64), Seq<char>> {
    match parse_from(lines_spec(diff), 0, seq![]) {
        Err(e) => Err(e),
        Ok(hunks) => match apply_from(lines_spec(orig), hunks, 0, 0) {
            Err(e) => Err(e),
            Ok(out) => Ok((result_text(orig, out), line_chain(out))),
        },
    }
}

// ---------------------------------------------------------------- executable parsing

fn starts_with_str(s: &Vec<char>, p: &str) -> (r: bool)
    ensures
        r == starts_with(s@, p@),
{
    let pv = chars_of(p);
    if pv.len() > s.len() {
        return false;
    }
    let head = take_chars(s, pv.len());
    same(&head, &pv)
}

/// The first occurrence of `pat` in `h`.
pub(crate) fn find_sub_exec(h: &Vec<char>, pat: &Vec<char>) -> (r: Option<usize>)
    ensures
        r is Some <==> find_sub(h@, pat@, 0) is Some,
        r is Some ==> find_sub(h@, pat@, 0) == Some(r->0 as nat),
        r is Some ==> r->0 + pat@.len() <= h@.len(),
{
    let mut i: usize = 0;
    while i <= h.len()
        invariant
            i <= h@.len() + 1,
            find_sub(h@, pat@, 0) == find_sub(h@, pat@, i as nat),
        decreases h@.len() + 1 - i,
    {
        if pat.len() > h.len() - i {
            return None;
        }
        let mut k: usize = 0;
        let mut eq = true;
        while k < pat.len()
            invariant
                k <= pat@.len(),
                i + pat@.len() <= h@.len(),
                h@.len() == h.len(),
                eq == (forall|j: int| 0 <= j < k ==> h@[i + j] == pat@[j]),
            decreases pat@.len() - k,
        {
            if h[i + k] != pat[k] {
                eq = false;
            }
            k += 1;
        }
        proof {
            if eq {
                assert(h@.subrange(i as int, i + pat@.len()) =~= pat@);
            } else {
                let j = choose|j: int| 0 <= j < pat@.len() && h@[i + j] != pat@[j];
                assert(h@.subrange(i as int, i + pat@.len())[j] != pat@[j]);
            }
        }
        if eq {
            return Some(i);
        }
        i += 1;
    }
    None
}

fn strip_leading_exec(s: &Vec<char>, c: char) -> (r: Vec<char>)
    ensures
        r@ == strip_leading(s@, c),
{
    let mut i: usize = 0;
    assert(s@.skip(0) =~= s@);
    while i < s.len() && s[i] == c
        invariant
            i <= s@.len(),
            strip_leading(s@, c) == strip_leading(s@.skip(i as int), c),
        decreases s@.len() - i,
    {
        assert(s@.skip(i as int).drop_first() =~= s@.skip(i as int + 1));
        i += 1;
    }
    skip_chars(s, i)
}

pub(crate) fn cut_at_exec(s: &Vec<char>, c: char) -> (k: usize)
    ensures
        k == cut_at(s@, c),
        k <= s@.len(),
{
    let mut i: usize = 0;
    while i < s.len() && s[i] != c
        invariant
            i <= s@.len(),
            forall|j: int| 0 <= j < i ==> s@[j] != c,
        decreases s@.len() - i,
    {
        i += 1;
    }
    proof {
        lemma_cut_at(s@, c, i as int);
    }
    i
}

fn first_piece_exec(s: &Vec<char>, c: char) -> (r: Vec<char>)
    ensures
        r@ == first_piece(s@, c),
{
    let k = cut_at_exec(s, c);
    take_chars(s, k)
}

fn second_piece_exec(s: &Vec<char>, c: char) -> (r: Option<Vec<char>>)
    ensures
        match second_piece(s@, c) {
            Some(x) => r is Some && r->0@ == x,
            None => r is None,
        },
{
    let k = cut_at_exec(s, c);
    if k == s.len() {
        None
    } else {
        let rest = skip_chars(s, k + 1);
        Some(first_piece_exec(&rest, c))
    }
}

fn parse_usize_exec(s: &Vec<char>) -> (r: Option<usize>)
    ensures
        match parse_usize(s@) {
            Some(v) => r == Some(v as usize),
            None => r is None,
        },
{
    match from_str_radix(s, 10, usize::MAX as u64) {
        Ok(v) => Some(v as usize),
        Err(_) => None,
    }
}

fn str_msg(t: &str) -> (m: String)
    ensures
        m@ == t@,
{
    let v = chars_of(t);
    string_of(&v)
}

/// Parse a hunk header line (starting with `@@ `).
fn header_exec(l: &Vec<char>) -> (r: Result<(usize, usize), String>)
    requires
        l@.len() >= 3,
    ensures
        match header_spec(l@) {
            Ok((a, b)) => r == Ok::<(usize, usize), String>((a as usize, b as usize)),
            Err(e) => r is Err && r->Err_0@ == e,
        },
{
    let h = skip_chars(l, 3);
    let sep = chars_of(" @@");
    let ghost hv = h@;
    assert(hv == l@.skip(3));
    assert(sep@ == " @@"@);
    let found = find_sub_exec(&h, &sep);
    let rest = match found {
        Some(p) => {
            assert(find_sub(hv, " @@"@, 0) == Some(p as nat));
            take_chars(&h, p)
        },
        None => {
            assert(find_sub(hv, " @@"@, 0) is None);
            h
        },
    };
    assert(rest@ == before_sub(l@.skip(3), " @@"@));
    let plus = chars_of(" +");
    let p = match find_sub_exec(&rest, &plus) {
        Some(p) => p,
        None => {
            assert(find_sub(rest@, " +"@, 0) is None);
            return Err(str_msg("bad hunk header"));
        },
    };
    let oldp = take_chars(&rest, p);
    let stripped = strip_leading_exec(&oldp, '-');
    let first = first_piece_exec(&stripped, ',');
    let line = match parse_usize_exec(&first) {
        Some(v) => v,
        None => {
            return Err(str_msg("bad old line"));
        },
    };
    let cnt = match second_piece_exec(&oldp, ',') {
        Some(x) => match parse_usize_exec(&x) {
            Some(v) => v,
            None => 1,
        },
        None => 1,
    };
    Ok((line, cnt))
}

pub open spec fn hunks_view(hs: Seq<(usize, Vec<(char, Vec<char>)>)>) -> Seq<(nat, Seq<(char, Seq<char>)>)> {
    hs.map_values(|h: (usize, Vec<(char, Vec<char>)>)| (h.0 as nat, body_view(h.1@)))
}

pub open spec fn body_view(b: Seq<(char, Vec<char>)>) -> Seq<(char, Seq<char>)> {
    b.map_values(|x: (char, Vec<char>)| (x.0, x.1@))
}

proof fn lemma_body_end_skip(lines: Seq<Seq<char>>, j: nat, i: nat)
    requires
        j <= i <= lines.len(),
        forall|k: int| j <= k < i ==> !starts_with(#[trigger] lines[k], "@@"@),
    ensures
        body_end(lines, j) == body_end(lines, i),
    decreases i - j,
{
    if j < i {
        lemma_body_end_skip(lines, j + 1, i);
    }
}

fn count_error(n: usize, removed: usize, ctx: usize, cnt: usize) -> (m: String)
    ensures
        m@ == count_msg(n as nat, removed as nat, ctx as nat, cnt as nat),
{
    let mut v = chars_of("хунок ");
    push_dec(&mut v, n as u64);
    push_str(&mut v, "-й: (removed ");
    push_dec(&mut v, removed as u64);
    push_str(&mut v, " + ctx ");
    push_dec(&mut v, ctx as u64);
    push_str(&mut v, ") != old_count ");
    push_dec(&mut v, cnt as u64);
    string_of(&v)
}

/// Collect the hunks of a diff's lines.
fn parse_hunks(lines: &Vec<Vec<char>>) -> (r: Result<Vec<(usize, Vec<(char, Vec<char>)>)>, String>)
    ensures
        ({
            let ls = lines@.map_values(|l: Vec<char>| l@);
            match parse_from(ls, 0, seq![]) {
                Ok(hs) => r is Ok && hunks_view(r->Ok_0@) == hs,
                Err(e) => r is Err && r->Err_0@ == e,
            }
        }),
{
    let ghost ls = lines@.map_values(|l: Vec<char>| l@);
    let mut hunks: Vec<(usize, Vec<(char, Vec<char>)>)> = Vec::new();
    let mut i: usize = 0;
    assert(hunks_view(hunks@) =~= Seq::<(nat, Seq<(char, Seq<char>)>)>::empty());
    while i < lines.len()
        invariant
            i <= lines@.len(),
            ls == lines@.map_values(|l: Vec<char>| l@),
            parse_from(ls, 0, seq![]) == parse_from(ls, i as nat, hunks_view(hunks@)),
            hunks@.len() <= i,
        decreases lines@.len() - i,
    {
        let l = &lines[i];
        assert(ls[i as int] == l@);
        if starts_with_str(l, "@@ ") {
            proof {
                reveal_strlit("@@ ");
            }
            let (line, cnt) = match header_exec(l) {
                Ok(x) => x,
                Err(e) => {
                    return Err(e);
                },
            };
            let ghost j0 = (i + 1) as nat;
            let mut body: Vec<(char, Vec<char>)> = Vec::new();
            let mut removed: usize = 0;
            let mut ctx: usize = 0;
            i += 1;
            proof {
                assert(ls.subrange(j0 as int, i as int) =~= Seq::<Seq<char>>::empty());
                assert(body_view(body@) =~= Seq::<(char, Seq<char>)>::empty());
            }
            while i < lines.len() && !starts_with_str(&lines[i], "@@")
                invariant
                    j0 <= i <= lines@.len(),
                    ls == lines@.map_values(|l: Vec<char>| l@),
                    forall|k: int| j0 <= k < i ==> !starts_with(#[trigger] ls[k], "@@"@),
                    body_view(body@) == body_of(ls.subrange(j0 as int, i as int)),
                    removed == count_kind(body_view(body@), '-'),
                    ctx == count_kind(body_view(body@), ' '),
                    removed + ctx <= body@.len(),
                    body@.len() <= i - j0,
                decreases lines@.len() - i,
            {
                let s = &lines[i];
                proof {
                    assert(ls[i as int] == s@);
                    let sub = ls.subrange(j0 as int, i as int + 1);
                    assert(sub.drop_last() =~= ls.subrange(j0 as int, i as int));
                    assert(sub.last() == s@);
                }
                if s.len() > 0 && (s[0] == ' ' || s[0] == '-' || s[0] == '+') {
                    let kind = s[0];
                    let rest = skip_chars(s, 1);
                    let ghost b0 = body@;
                    body.push((kind, rest));
                    proof {
                        assert(body_view(body@) =~= body_view(b0).push((kind, rest@)));
                        assert(body_view(body@).drop_last() =~= body_view(b0));
                    }
                    if kind == '-' {
                        removed += 1;
                    } else if kind == ' ' {
                        ctx += 1;
                    }
                }
                i += 1;
            }
            proof {
                lemma_body_end_skip(ls, j0, i as nat);
                if i < lines.len() {
                    assert(ls[i as int] == lines@[i as int]@);
                }
            }
            if removed + ctx != cnt {
                return Err(count_error(hunks.len() + 1, removed, ctx, cnt));
            }
            let start = if line > 0 { line - 1 } else { 0 };
            let ghost h0 = hunks@;
            hunks.push((start, body));
            proof {
                assert(hunks_view(hunks@) =~= hunks_view(h0).push((start as nat, body_of(ls.subrange(j0 as int, i as int)))));
            }
        } else {
            i += 1;
        }
    }
    Ok(hunks)
}

// ---------------------------------------------------------------- executable applying

pub open spec fn lines_view(v: Seq<Vec<char>>) -> Seq<Seq<char>> {
    v.map_values(|l: Vec<char>| l@)
}

fn old_new(body: &Vec<(char, Vec<char>)>) -> (r: (Vec<Vec<char>>, Vec<Vec<char>>))
    ensures
        lines_view(r.0@) == old_lines(body_view(body@)),
        lines_view(r.1@) == new_lines(body_view(body@)),
{
    let ghost bv = body_view(body@);
    let mut olds: Vec<Vec<char>> = Vec::new();
    let mut news: Vec<Vec<char>> = Vec::new();
    let mut i: usize = 0;
    assert(bv.take(0) =~= Seq::<(char, Seq<char>)>::empty());
    assert(lines_view(olds@) =~= Seq::<Seq<char>>::empty());
    assert(lines_view(news@) =~= Seq::<Seq<char>>::empty());
    while i < body.len()
        invariant
            i <= body@.len(),
            bv == body_view(body@),
            lines_view(olds@) == old_lines(bv.take(i as int)),
            lines_view(news@) == new_lines(bv.take(i as int)),
        decreases body@.len() - i,
    {
        let ghost t = bv.take(i as int + 1);
        assert(t.drop_last() =~= bv.take(i as int));
        assert(t.last() == bv[i as int]);
        let kind = body[i].0;
        if kind != '+' {
            let ghost o0 = olds@;
            olds.push(copy_line(&body[i].1));
            assert(lines_view(olds@) =~= lines_view(o0).push(bv[i as int].1));
        }
        if kind != '-' {
            let ghost n0 = news@;
            news.push(copy_line(&body[i].1));
            assert(lines_view(news@) =~= lines_view(n0).push(bv[i as int].1));
        }
        i += 1;
    }
    assert(bv.take(i as int) =~= bv);
    (olds, news)
}

fn copy_line(v: &Vec<char>) -> (out: Vec<char>)
    ensures
        out@ == v@,
{
    crate::program::copy_chars(v)
}

fn range_error(hi1: usize) -> (m: String)
    requires
        hi1 >= 1,
    ensures
        m@ == range_msg((hi1 - 1) as nat),
{
    let mut v = chars_of("хунок ");
    push_dec(&mut v, hi1 as u64);
    push_str(&mut v, ": выходит за конец файла");
    string_of(&v)
}

fn mismatch_error(hi1: usize, line: usize, expect: &Vec<char>) -> (m: String)
    requires
        hi1 >= 1,
    ensures
        m@ == mismatch_msg((hi1 - 1) as nat, line as nat, expect@),
{
    let mut v = chars_of("хунок ");
    push_dec(&mut v, hi1 as u64);
    push_str(&mut v, ": контекст не совпал на строке ");
    push_dec(&mut v, line as u64);
    push_str(&mut v, " (ожидалось ");
    let e = string_of(expect);
    let q = debug_quoted(e.as_str());
    let qv = chars_of(q.as_str());
    extend_chars(&mut v, &qv);
    push_str(&mut v, ")");
    string_of(&v)
}

/// Replace `out[idx..idx + n]` by `news`.
fn splice_lines(out: &Vec<Vec<char>>, idx: usize, n: usize, news: &Vec<Vec<char>>) -> (r: Vec<Vec<char>>)
    requires
        idx + n <= out@.len(),
    ensures
        lines_view(r@) == lines_view(out@).take(idx as int) + lines_view(news@) + lines_view(out@).skip(idx + n),
{
    let ol = out.len();
    let mut r: Vec<Vec<char>> = Vec::new();
    let mut i: usize = 0;
    assert(lines_view(r@) =~= lines_view(out@).take(0));
    while i < idx
        invariant
            i <= idx,
            idx + n <= out@.len(),
            lines_view(r@) == lines_view(out@).take(i as int),
        decreases idx - i,
    {
        let c = copy_line(&out[i]);
        let ghost r0 = r@;
        r.push(c);
        assert(lines_view(r@) =~= lines_view(r0).push(c@));
        assert(lines_view(out@).take(i as int + 1) =~= lines_view(out@).take(i as int).push(out@[i as int]@));
        i += 1;
    }
    let mut j: usize = 0;
    while j < news.len()
        invariant
            j <= news@.len(),
            lines_view(r@) == lines_view(out@).take(idx as int) + lines_view(news@).take(j as int),
        decreases news@.len() - j,
    {
        let c = copy_line(&news[j]);
        let ghost r0 = r@;
        r.push(c);
        assert(lines_view(r@) =~= lines_view(r0).push(c@));
        assert(lines_view(news@).take(j as int + 1) =~= lines_view(news@).take(j as int).push(news@[j as int]@));
        j += 1;
    }
    assert(lines_view(news@).take(j as int) =~= lines_view(news@));
    let mut k: usize = idx + n;
    assert(lines_view(out@).subrange(idx + n, k as int) =~= Seq::<Seq<char>>::empty());
    let ghost base = lines_view(r@);
    while k < out.len()
        invariant
            idx + n <= k <= out@.len(),
            base == lines_view(out@).take(idx as int) + lines_view(news@),
            lines_view(r@) == base + lines_view(out@).subrange(idx + n, k as int),
        decreases out@.len() - k,
    {
        let c = copy_line(&out[k]);
        let ghost r0 = r@;
        r.push(c);
        assert(lines_view(r@) =~= lines_view(r0).push(c@));
        assert(lines_view(out@).subrange(idx + n, k as int + 1) =~= lines_view(out@).subrange(idx + n, k as int).push(out@[k as int]@));
        k += 1;
    }
    assert(lines_view(out@).subrange(idx + n, k as int) =~= lines_view(out@).skip(idx + n));
    r
}

/// Apply the parsed hunks to the lines.
fn apply_hunks(lines: Vec<Vec<char>>, hunks: &Vec<(usize, Vec<(char, Vec<char>)>)>) -> (r: Result<Vec<Vec<char>>, String>)
    ensures
        match apply_from(lines_view(lines@), hunks_view(hunks@), 0, 0) {
            Ok(out) => r is Ok && lines_view(r->Ok_0@) == out,
            Err(e) => r is Err && r->Err_0@ == e,
        },
{
    let ghost hv = hunks_view(hunks@);
    let ghost l0 = lines_view(lines@);
    let l0len = lines.len();
    let nh = hunks.len();
    let mut out = lines;
    let mut cum: i128 = 0;
    let mut hi: usize = 0;
    while hi < hunks.len()
        invariant
            hi <= hunks@.len(),
            hv == hunks_view(hunks@),
            apply_from(l0, hv, 0, 0) == apply_from(lines_view(out@), hv, hi as nat, cum as int),
            out@.len() as int == l0.len() + cum,
            l0.len() == l0len,
            l0 == lines_view(lines@),
            hunks@.len() == nh,
        decreases hunks@.len() - hi,
    {
        let outlen = out.len();
        let start = hunks[hi].0;
        let (olds, news) = old_new(&hunks[hi].1);
        let ghost ov = lines_view(out@);
        assert(hv[hi as int] == (start as nat, body_view(hunks@[hi as int].1@)));
        let idx: i128 = start as i128 + cum;
        proof {
            assert(lines_view(olds@) == old_lines(hv[hi as int].1));
            assert(lines_view(news@) == new_lines(hv[hi as int].1));
        }
        if idx < 0 || idx + (olds.len() as i128) > (out.len() as i128) {
            proof {
                assert(apply_from(ov, hv, hi as nat, cum as int) == Err::<Seq<Seq<char>>, Seq<char>>(range_msg(hi as nat)));
            }
            return Err(range_error(hi + 1));
        }
        let idx = idx as usize;
        let mut k: usize = 0;
        while k < olds.len()
            invariant
                k <= olds@.len(),
                idx + olds@.len() <= out@.len(),
                out@.len() == outlen,
                hi < hunks@.len(),
                hunks@.len() == nh,
                ov == lines_view(out@),
                hv == hunks_view(hunks@),
                l0 == lines_view(lines@),
                apply_from(l0, hv, 0, 0) == apply_from(ov, hv, hi as nat, cum as int),
                idx as int == hv[hi as int].0 + cum,
                lines_view(olds@) == old_lines(hv[hi as int].1),
                first_mismatch(ov, idx as int, lines_view(olds@), 0) == first_mismatch(ov, idx as int, lines_view(olds@), k as nat),
            decreases olds@.len() - k,
        {
            if !same(&out[idx + k], &olds[k]) {
                assert(ov[idx + k] != lines_view(olds@)[k as int]);
                return Err(mismatch_error(hi + 1, idx + k + 1, &olds[k]));
            }
            k += 1;
        }
        let nout = splice_lines(&out, idx, olds.len(), &news);
        cum = cum + (news.len() as i128) - (olds.len() as i128);
        out = nout;
        hi += 1;
    }
    Ok(out)
}

/// The FNV-1a hash of a string's UTF-8 bytes.
pub fn fnv_digest(s: &str) -> (h: u64)
    ensures
        h == fnv_bytes(FNV_OFFSET, utf8_seq(s@)),
{
    let v = chars_of(s);
    fnv_chars(FNV_OFFSET, &v)
}

fn chain_step(prev: u64, x: u64) -> (h: u64)
    ensures
        h == chain_spec(prev, x),
{
    (FNV_OFFSET ^ prev).wrapping_add(x).wrapping_mul(FNV_PRIME)
}

/// Apply a unified diff to a text. Any failing hunk gives an error and the
/// text is left as it was: the hunks are applied to a copy of its lines.
pub fn apply_unified(orig: &str, diff: &str) -> (r: Result<PatchResult, String>)
    ensures
        match apply_spec(orig@, diff@) {
            Ok((text, digest)) => r is Ok && r->Ok_0.text@ == text && r->Ok_0.digest == digest,
            Err(e) => r is Err && r->Err_0@ == e,
        },
{
    let dv = chars_of(diff);
    let dlines = split_lines(&dv);
    proof {
        assert(lines_view(dlines@) =~= lines_spec(diff@));
        assert(dlines@.map_values(|l: Vec<char>| l@) =~= lines_spec(diff@));
    }
    let hunks = match parse_hunks(&dlines) {
        Ok(h) => h,
        Err(e) => {
            return Err(e);
        },
    };
    let ov = chars_of(orig);
    let olines = split_lines(&ov);
    proof {
        assert(lines_view(olines@) =~= lines_spec(orig@));
    }
    let out = match apply_hunks(olines, &hunks) {
        Ok(o) => o,
        Err(e) => {
            return Err(e);
        },
    };
    let ghost outv = lines_view(out@);
    let mut digest = FNV_OFFSET;
    let mut text: Vec<char> = Vec::new();
    let mut i: usize = 0;
    while i < out.len()
        invariant
            i <= out@.len(),
            outv == lines_view(out@),
            digest == line_chain(outv.take(i as int)),
            text@ == join_lines(outv.take(i as int)),
        decreases out@.len() - i,
    {
        proof {
            reveal_strlit("\n");
            let t = outv.take(i as int + 1);
            assert(t.drop_last() =~= outv.take(i as int));
            assert(t.last() == out@[i as int]@);
        }
        let h = fnv_chars(FNV_OFFSET, &out[i]);
        digest = chain_step(digest, h);
        if i > 0 {
            text.push('\n');
        }
        extend_chars(&mut text, &out[i]);
        proof {
            let t = outv.take(i as int + 1);
            if i == 0 {
                assert(text@ =~= t[0]);
            } else {
                assert(text@ =~= join_lines(outv.take(i as int)) + "\n"@ + t.last());
            }
        }
        i += 1;
    }
    assert(outv.take(i as int) =~= outv);
    let orig_nl = ov.len() > 0 && ov[ov.len() - 1] == '\n';
    let text_nl = text.len() > 0 && text[text.len() - 1] == '\n';
    if orig_nl && !text_nl {
        text.push('\n');
    }
    Ok(PatchResult { text: string_of(&text), digest })
}

} // verus!
