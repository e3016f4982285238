//! Lexical layer of the text formats: lines, `#` comments, whitespace-separated
//! tokens, trimming, ASCII lower-casing and integer literals.
use vstd::prelude::*;
use crate::text::{dec_spec, digit_char, hex_spec, is_digit_char, lemma_dec_digits, lemma_digit_char, lemma_hex_digits, pow16};

verus! {

/// `char::is_whitespace`: the Unicode `White_Space` property.
pub open spec fn is_ws(c: char) -> bool {
    let u = c as u32;
    (9 <= u && u <= 13) || u == 32 || u == 0x85 || u == 0xA0 || u == 0x1680 || (0x2000 <= u && u
        <= 0x200A) || u == 0x2028 || u == 0x2029 || u == 0x202F || u == 0x205F || u == 0x3000
}

pub fn is_whitespace(c: char) -> (b: bool)
    ensures
        b == is_ws(c),
{
    let u = c as u32;
    (9 <= u && u <= 13) || u == 32 || u == 0x85 || u == 0xA0 || u == 0x1680 || (0x2000 <= u && u
        <= 0x200A) || u == 0x2028 || u == 0x2029 || u == 0x202F || u == 0x205F || u == 0x3000
}

/// Left-to-right split at `sep`: (completed pieces, piece in progress).
pub open spec fn split_fold(t: Seq<char>, sep: char) -> (Seq<Seq<char>>, Seq<char>)
    decreases t.len(),
{
    if t.len() == 0 {
        (seq![], seq![])
    } else {
        let (d, c) = split_fold(t.drop_last(), sep);
        if t.last() == sep {
            (d.push(c), seq![])
        } else {
            (d, c.push(t.last()))
        }
    }
}

/// Drop one trailing `'\r'`.
pub open spec fn strip_cr(l: Seq<char>) -> Seq<char> {
    if l.len() > 0 && l.last() == '\r' {
        l.drop_last()
    } else {
        l
    }
}

/// `str::lines`: pieces between `'\n'`, a `'\r'` before the `'\n'` removed, no
/// empty piece after a final `'\n'`.
pub open spec fn lines_spec(t: Seq<char>) -> Seq<Seq<char>> {
    let (d, c) = split_fold(t, '\n');
    d.map_values(|l: Seq<char>| strip_cr(l)) + if c.len() == 0 {
        Seq::<Seq<char>>::empty()
    } else {
        seq![c]
    }
}

/// Lines joined by `'\n'`.
pub open spec fn join_nl(ls: Seq<Seq<char>>) -> Seq<char>
    decreases ls.len(),
{
    if ls.len() == 0 {
        seq![]
    } else if ls.len() == 1 {
        ls[0]
    } else {
        join_nl(ls.drop_last()) + seq!['\n'] + ls.last()
    }
}

/// `c` does not occur in `l`.
pub open spec fn no_char(l: Seq<char>, c: char) -> bool {
    forall|i: int| 0 <= i < l.len() ==> l[i] != c
}

proof fn lemma_split_fold_plain(a: Seq<char>, b: Seq<char>, sep: char)
    requires
        no_char(b, sep),
    ensures
        split_fold(a + b, sep) == (split_fold(a, sep).0, split_fold(a, sep).1 + b),
    decreases b.len(),
{
    if b.len() == 0 {
        assert(a + b =~= a);
        assert(split_fold(a, sep).1 + b =~= split_fold(a, sep).1);
    } else {
        lemma_split_fold_plain(a, b.drop_last(), sep);
        assert((a + b).drop_last() =~= a + b.drop_last());
        assert((a + b).last() == b.last());
        assert((split_fold(a, sep).1 + b.drop_last()).push(b.last()) =~= split_fold(a, sep).1 + b);
    }
}

proof fn lemma_split_fold_join(ls: Seq<Seq<char>>)
    requires
        ls.len() > 0,
        forall|i: int| 0 <= i < ls.len() ==> no_char(#[trigger] ls[i], '\n'),
    ensures
        split_fold(join_nl(ls), '\n') == (ls.drop_last(), ls.last()),
    decreases ls.len(),
{
    if ls.len() == 1 {
        lemma_split_fold_plain(seq![], ls[0], '\n');
        assert(Seq::<char>::empty() + ls[0] =~= ls[0]);
        assert(ls.drop_last() =~= Seq::<Seq<char>>::empty());
    } else {
        let d = ls.drop_last();
        assert forall|i: int| 0 <= i < d.len() implies no_char(#[trigger] d[i], '\n') by {
            assert(d[i] == ls[i]);
        }
        lemma_split_fold_join(d);
        let j = join_nl(d);
        let jn = j + seq!['\n'];
        assert(jn.drop_last() =~= j);
        assert(split_fold(jn, '\n') == (d.drop_last().push(d.last()), Seq::<char>::empty()));
        lemma_split_fold_plain(jn, ls.last(), '\n');
        assert(d.drop_last().push(d.last()) =~= d);
        assert(Seq::<char>::empty() + ls.last() =~= ls.last());
    }
}

/// Splitting lines joined by `'\n'` gives them back, when none holds a
/// `'\n'`, none ends with `'\r'`, and the last is not empty.
pub proof fn lemma_lines_join(ls: Seq<Seq<char>>)
    requires
        forall|i: int| 0 <= i < ls.len() ==> no_char(#[trigger] ls[i], '\n'),
        forall|i: int| 0 <= i < ls.len() ==> !(#[trigger] ls[i].len() > 0 && ls[i].last() == '\r'),
        ls.len() == 0 || ls.last().len() > 0,
    ensures
        lines_spec(join_nl(ls)) == ls,
{
    if ls.len() > 0 {
        lemma_split_fold_join(ls);
        let d = ls.drop_last();
        assert(d.map_values(|l: Seq<char>| strip_cr(l)) =~= d) by {
            assert forall|i: int| 0 <= i < d.len() implies strip_cr(#[trigger] d[i]) == d[i] by {
                assert(d[i] == ls[i]);
            }
        }
        assert(d + seq![ls.last()] =~= ls);
    } else {
        assert(lines_spec(join_nl(ls)) =~= ls);
    }
}

/// Splitting lines joined by `'\n'` gives them back, each but the last with
/// one trailing `'\r'` taken off, when none holds a `'\n'` and the last is
/// not empty.
pub proof fn lemma_lines_join_strip(ls: Seq<Seq<char>>)
    requires
        ls.len() > 0,
        forall|i: int| 0 <= i < ls.len() ==> no_char(#[trigger] ls[i], '\n'),
        ls.last().len() > 0,
    ensures
        lines_spec(join_nl(ls)) == ls.drop_last().map_values(|l: Seq<char>| strip_cr(l)).push(ls.last()),
{
    lemma_split_fold_join(ls);
    let d = ls.drop_last().map_values(|l: Seq<char>| strip_cr(l));
    assert(d + seq![ls.last()] =~= d.push(ls.last()));
}

/// Left-to-right whitespace split: (completed words, word in progress).
pub open spec fn ws_fold(t: Seq<char>) -> (Seq<Seq<char>>, Seq<char>)
    decreases t.len(),
{
    if t.len() == 0 {
        (seq![], seq![])
    } else {
        let (d, c) = ws_fold(t.drop_last());
        if is_ws(t.last()) {
            if c.len() > 0 {
                (d.push(c), seq![])
            } else {
                (d, seq![])
            }
        } else {
            (d, c.push(t.last()))
        }
    }
}

/// `str::split_whitespace`.
pub open spec fn words(t: Seq<char>) -> Seq<Seq<char>> {
    let (d, c) = ws_fold(t);
    if c.len() == 0 {
        d
    } else {
        d.push(c)
    }
}

/// Length of the part before the first `c` (the whole length if none).
pub open spec fn cut_at(l: Seq<char>, c: char) -> nat
    decreases l.len(),
{
    if l.len() == 0 {
        0
    } else if l[0] == c {
        0
    } else {
        1 + cut_at(l.drop_first(), c)
    }
}

/// Tokens of one source line: words of the text before the first `#`.
pub open spec fn line_tokens(l: Seq<char>) -> Seq<Seq<char>> {
    words(l.take(cut_at(l, '#') as int))
}

pub open spec fn trim_start(t: Seq<char>) -> Seq<char>
    decreases t.len(),
{
    if t.len() > 0 && is_ws(t[0]) {
        trim_start(t.drop_first())
    } else {
        t
    }
}

pub open spec fn trim_end(t: Seq<char>) -> Seq<char>
    decreases t.len(),
{
    if t.len() > 0 && is_ws(t.last()) {
        trim_end(t.drop_last())
    } else {
        t
    }
}

/// `str::trim`.
pub open spec fn trim(t: Seq<char>) -> Seq<char> {
    trim_end(trim_start(t))
}

pub open spec fn lower_char(c: char) -> char {
    if 'A' <= c && c <= 'Z' {
        ((c as u32) + 32) as char
    } else {
        c
    }
}

/// `str::to_ascii_lowercase`.
pub open spec fn lower(t: Seq<char>) -> Seq<char> {
    t.map_values(|c: char| lower_char(c))
}

proof fn lemma_split_fold_step(t: Seq<char>, sep: char, i: int)
    requires
        0 <= i < t.len(),
    ensures
        split_fold(t.take(i + 1), sep) == ({
            let (d, c) = split_fold(t.take(i), sep);
            if t[i] == sep {
                (d.push(c), seq![])
            } else {
                (d, c.push(t[i]))
            }
        }),
{
    assert(t.take(i + 1).drop_last() =~= t.take(i));
}

/// Split text into lines (`str::lines`).
pub fn split_lines(t: &Vec<char>) -> (out: Vec<Vec<char>>)
    ensures
        out@.len() == lines_spec(t@).len(),
        forall|k: int| 0 <= k < out@.len() ==> #[trigger] out@[k]@ == lines_spec(t@)[k],
{
    let mut done: Vec<Vec<char>> = Vec::new();
    let mut cur: Vec<char> = Vec::new();
    let mut i: usize = 0;
    while i < t.len()
        invariant
            i <= t@.len(),
            done@.len() == split_fold(t@.take(i as int), '\n').0.len(),
            forall|k: int| 0 <= k < done@.len() ==> #[trigger] done@[k]@ == strip_cr(split_fold(t@.take(i as int), '\n').0[k]),
            cur@ == split_fold(t@.take(i as int), '\n').1,
        decreases t@.len() - i,
    {
        proof {
            lemma_split_fold_step(t@, '\n', i as int);
        }
        let c = t[i];
        if c == '\n' {
            let n = cur.len();
            if n > 0 && cur[n - 1] == '\r' {
                cur.pop();
            }
            done.push(cur);
            cur = Vec::new();
        } else {
            cur.push(c);
        }
        i += 1;
    }
    assert(t@.take(i as int) =~= t@);
    if cur.len() > 0 {
        done.push(cur);
    }
    done
}

/// Words of `l.take(end)` (`split_whitespace`).
pub fn split_words(l: &Vec<char>, end: usize) -> (out: Vec<Vec<char>>)
    requires
        end <= l@.len(),
    ensures
        out@.len() == words(l@.take(end as int)).len(),
        forall|k: int| 0 <= k < out@.len() ==> #[trigger] out@[k]@ == words(l@.take(end as int))[k],
{
    let ghost w = l@.take(end as int);
    let mut done: Vec<Vec<char>> = Vec::new();
    let mut cur: Vec<char> = Vec::new();
    let mut i: usize = 0;
    while i < end
        invariant
            i <= end,
            end <= l@.len(),
            w == l@.take(end as int),
            done@.len() == ws_fold(w.take(i as int)).0.len(),
            forall|k: int| 0 <= k < done@.len() ==> #[trigger] done@[k]@ == ws_fold(w.take(i as int)).0[k],
            cur@ == ws_fold(w.take(i as int)).1,
        decreases end - i,
    {
        proof {
            assert(w.take(i + 1).drop_last() =~= w.take(i as int));
        }
        let c = l[i];
        if is_whitespace(c) {
            if cur.len() > 0 {
                done.push(cur);
            }
            cur = Vec::new();
        } else {
            cur.push(c);
        }
        i += 1;
    }
    assert(w.take(i as int) =~= w);
    if cur.len() > 0 {
        done.push(cur);
    }
    done
}

pub proof fn lemma_cut_at(l: Seq<char>, c: char, i: int)
    requires
        0 <= i <= l.len(),
        forall|j: int| 0 <= j < i ==> l[j] != c,
        i == l.len() || l[i] == c,
    ensures
        cut_at(l, c) == i,
    decreases i,
{
    if i > 0 {
        lemma_cut_at(l.drop_first(), c, i - 1);
    }
}

/// Tokens of one source line (text before `#`, split at whitespace).
pub fn tokens_of_line(l: &Vec<char>) -> (out: Vec<Vec<char>>)
    ensures
        out@.len() == line_tokens(l@).len(),
        forall|k: int| 0 <= k < out@.len() ==> #[trigger] out@[k]@ == line_tokens(l@)[k],
{
    let mut i: usize = 0;
    while i < l.len() && l[i] != '#'
        invariant
            i <= l@.len(),
            forall|j: int| 0 <= j < i ==> l@[j] != '#',
        decreases l@.len() - i,
    {
        i += 1;
    }
    proof {
        lemma_cut_at(l@, '#', i as int);
    }
    split_words(l, i)
}

proof fn lemma_trim_start(t: Seq<char>, i: int)
    requires
        0 <= i <= t.len(),
        forall|j: int| 0 <= j < i ==> is_ws(t[j]),
        i == t.len() || !is_ws(t[i]),
    ensures
        trim_start(t) == t.subrange(i, t.len() as int),
    decreases i,
{
    if i > 0 {
        lemma_trim_start(t.drop_first(), i - 1);
        assert(t.drop_first().subrange(i - 1, t.len() - 1) =~= t.subrange(i, t.len() as int));
    } else {
        assert(t.subrange(0, t.len() as int) =~= t);
    }
}

proof fn lemma_trim_end(t: Seq<char>, e: int)
    requires
        0 <= e <= t.len(),
        forall|j: int| e <= j < t.len() ==> is_ws(t[j]),
        e == 0 || !is_ws(t[e - 1]),
    ensures
        trim_end(t) == t.take(e),
    decreases t.len() - e,
{
    if e < t.len() {
        lemma_trim_end(t.drop_last(), e);
        assert(t.drop_last().take(e) =~= t.take(e));
    } else {
        assert(t.take(e) =~= t);
    }
}

/// `str::trim` on a character vector.
pub fn trim_chars(t: &Vec<char>) -> (out: Vec<char>)
    ensures
        out@ == trim(t@),
{
    let mut i: usize = 0;
    while i < t.len() && is_whitespace(t[i])
        invariant
            i <= t@.len(),
            forall|j: int| 0 <= j < i ==> is_ws(t@[j]),
        decreases t@.len() - i,
    {
        i += 1;
    }
    proof {
        lemma_trim_start(t@, i as int);
    }
    let ghost s = t@.subrange(i as int, t@.len() as int);
    let mut e: usize = t.len();
    while e > i && is_whitespace(t[e - 1])
        invariant
            i <= e <= t@.len(),
            s == t@.subrange(i as int, t@.len() as int),
            forall|j: int| e <= j < t@.len() ==> is_ws(t@[j]),
        decreases e,
    {
        e -= 1;
    }
    proof {
        lemma_trim_end(s, (e - i) as int);
    }
    let mut out: Vec<char> = Vec::new();
    let mut k: usize = i;
    while k < e
        invariant
            i <= k <= e,
            e <= t@.len(),
            out@ == t@.subrange(i as int, k as int),
        decreases e - k,
    {
        out.push(t[k]);
        k += 1;
        assert(out@ =~= t@.subrange(i as int, k as int));
    }
    assert(s.take((e - i) as int) =~= t@.subrange(i as int, e as int));
    out
}

/// `str::to_ascii_lowercase` on a character vector.
pub fn lower_chars(t: &Vec<char>) -> (out: Vec<char>)
    ensures
        out@ == lower(t@),
{
    let mut out: Vec<char> = Vec::new();
    let mut i: usize = 0;
    while i < t.len()
        invariant
            i <= t@.len(),
            out@ == lower(t@.take(i as int)),
        decreases t@.len() - i,
    {
        let c = t[i];
        let d = if 'A' <= c && c <= 'Z' {
            ((c as u8) + 32) as char
        } else {
            c
        };
        out.push(d);
        i += 1;
        assert(out@ =~= lower(t@.take(i as int)));
    }
    assert(t@.take(i as int) =~= t@);
    out
}

pub open spec fn upper_char(c: char) -> char {
    if 'a' <= c && c <= 'z' {
        ((c as u32) - 32) as char
    } else {
        c
    }
}

/// `str::to_ascii_uppercase`.
pub open spec fn upper(t: Seq<char>) -> Seq<char> {
    t.map_values(|c: char| upper_char(c))
}

/// `str::to_ascii_uppercase` on a character vector.
pub fn upper_chars(t: &Vec<char>) -> (out: Vec<char>)
    ensures
        out@ == upper(t@),
{
    let mut out: Vec<char> = Vec::new();
    let mut i: usize = 0;
    while i < t.len()
        invariant
            i <= t@.len(),
            out@ == upper(t@.take(i as int)),
        decreases t@.len() - i,
    {
        let c = t[i];
        let d = if 'a' <= c && c <= 'z' {
            ((c as u8) - 32) as char
        } else {
            c
        };
        out.push(d);
        i += 1;
        assert(out@ =~= upper(t@.take(i as int)));
    }
    assert(t@.take(i as int) =~= t@);
    out
}

/// Whether two character sequences are equal.
pub fn chars_eq(a: &Vec<char>, b: &str) -> (r: bool)
    ensures
        r == (a@ == b@),
{
    let bv = crate::text::chars_of(b);
    if a.len() != bv.len() {
        return false;
    }
    let mut i: usize = 0;
    while i < a.len()
        invariant
            i <= a@.len(),
            a@.len() == bv@.len(),
            bv@ == b@,
            forall|j: int| 0 <= j < i ==> a@[j] == bv@[j],
        decreases a@.len() - i,
    {
        if a[i] != bv[i] {
            return false;
        }
        i += 1;
    }
    assert(a@ =~= bv@);
    true
}

/// Why an integer literal was rejected (the kinds of `ParseIntError`).
#[derive(Debug, Clone, Copy, PartialEq, Eq, Structural)]
pub enum IntError {
    Empty,
    InvalidDigit,
    PosOverflow,
}

/// What `ParseIntError` displays for each kind.
pub open spec fn int_error_msg(e: IntError) -> Seq<char> {
    match e {
        IntError::Empty => "cannot parse integer from empty string"@,
        IntError::InvalidDigit => "invalid digit found in string"@,
        IntError::PosOverflow => "number too large to fit in target type"@,
    }
}

/// `char::to_digit(radix)` for a radix up to 36.
pub open spec fn digit_value(c: char, radix: nat) -> Option<nat> {
    let u = c as u32;
    let d: nat = if '0' <= c && c <= '9' {
        (u - 48) as nat
    } else if 'a' <= c && c <= 'z' {
        (u - 97 + 10) as nat
    } else if 'A' <= c && c <= 'Z' {
        (u - 65 + 10) as nat
    } else {
        99
    };
    if d < radix {
        Some(d)
    } else {
        None
    }
}

/// Digits read left to right; a digit is checked before the value grows past `max`.
pub open spec fn fold_digits(ds: Seq<char>, radix: nat, max: nat) -> Result<nat, IntError>
    decreases ds.len(),
{
    if ds.len() == 0 {
        Ok(0)
    } else {
        match fold_digits(ds.drop_last(), radix, max) {
            Err(e) => Err(e),
            Ok(v) => match digit_value(ds.last(), radix) {
                None => Err(IntError::InvalidDigit),
                Some(d) => if v * radix + d > max {
                    Err(IntError::PosOverflow)
                } else {
                    Ok(v * radix + d)
                },
            },
        }
    }
}

/// `from_str_radix` for an unsigned type whose largest value is `max`.
pub open spec fn from_str_radix_spec(s: Seq<char>, radix: nat, max: nat) -> Result<nat, IntError> {
    if s.len() == 0 {
        Err(IntError::Empty)
    } else if (s[0] == '+' || s[0] == '-') && s.len() == 1 {
        Err(IntError::InvalidDigit)
    } else if s[0] == '+' {
        fold_digits(s.drop_first(), radix, max)
    } else {
        fold_digits(s, radix, max)
    }
}

fn digit_of_char(c: char, radix: u32) -> (r: Option<u32>)
    requires
        2 <= radix <= 36,
    ensures
        match r {
            Some(d) => digit_value(c, radix as nat) == Some(d as nat) && d < radix,
            None => digit_value(c, radix as nat) is None,
        },
{
    let u = c as u32;
    let d: u32 = if '0' <= c && c <= '9' {
        u - 48
    } else if 'a' <= c && c <= 'z' {
        u - 97 + 10
    } else if 'A' <= c && c <= 'Z' {
        u - 65 + 10
    } else {
        99
    };
    if d < radix {
        Some(d)
    } else {
        None
    }
}

/// The characters of `v` from index `k` on.
pub fn skip_chars(v: &Vec<char>, k: usize) -> (out: Vec<char>)
    requires
        k <= v@.len(),
    ensures
        out@ == v@.skip(k as int),
{
    let mut out: Vec<char> = Vec::new();
    let mut i: usize = k;
    while i < v.len()
        invariant
            k <= i <= v@.len(),
            out@ == v@.subrange(k as int, i as int),
        decreases v@.len() - i,
    {
        out.push(v[i]);
        i += 1;
        assert(out@ =~= v@.subrange(k as int, i as int));
    }
    assert(v@.skip(k as int) =~= v@.subrange(k as int, i as int));
    out
}

fn fold_digits_exec(ds: &Vec<char>, start: usize, radix: u32, max: u64) -> (r: Result<u64, IntError>)
    requires
        2 <= radix <= 36,
        start <= ds@.len(),
    ensures
        match fold_digits(ds@.skip(start as int), radix as nat, max as nat) {
            Ok(v) => r == Ok::<u64, IntError>(v as u64) && v <= max,
            Err(e) => r == Err::<u64, IntError>(e),
        },
{
    let ghost s = ds@.skip(start as int);
    let mut v: u64 = 0;
    let mut i: usize = start;
    while i < ds.len()
        invariant
            start <= i <= ds@.len(),
            s == ds@.skip(start as int),
            2 <= radix <= 36,
            fold_digits(s.take(i - start), radix as nat, max as nat) == Ok::<nat, IntError>(v as nat),
            v <= max,
        decreases ds@.len() - i,
    {
        proof {
            assert(s.take(i - start + 1).drop_last() =~= s.take(i - start));
            assert(s.take(i - start + 1).last() == ds@[i as int]);
        }
        match digit_of_char(ds[i], radix) {
            None => {
                proof {
                    lemma_fold_digits_err(s, (i - start + 1) as int, radix as nat, max as nat);
                }
                return Err(IntError::InvalidDigit);
            },
            Some(d) => {
                assert((v as u128) * (radix as u128) <= 0xffff_ffff_ffff_ffffu128 * 36u128) by (nonlinear_arith)
                    requires v <= 0xffff_ffff_ffff_ffffu64, radix <= 36;
                let w: u128 = (v as u128) * (radix as u128) + (d as u128);
                if w > max as u128 {
                    proof {
                        lemma_fold_digits_err(s, (i - start + 1) as int, radix as nat, max as nat);
                    }
                    return Err(IntError::PosOverflow);
                }
                v = w as u64;
            },
        }
        i += 1;
    }
    assert(s.take(i - start) =~= s);
    Ok(v)
}

/// Once the prefix of length `k` fails, the whole sequence fails the same way.
proof fn lemma_fold_digits_err(s: Seq<char>, k: int, radix: nat, max: nat)
    requires
        0 <= k <= s.len(),
        fold_digits(s.take(k), radix, max) is Err,
    ensures
        fold_digits(s, radix, max) == fold_digits(s.take(k), radix, max),
    decreases s.len() - k,
{
    if k < s.len() {
        assert(s.take(k + 1).drop_last() =~= s.take(k));
        lemma_fold_digits_err(s, k + 1, radix, max);
    } else {
        assert(s.take(k) =~= s);
    }
}

/// `from_str_radix` into an unsigned integer no larger than `max`.
pub fn from_str_radix(s: &Vec<char>, radix: u32, max: u64) -> (r: Result<u64, IntError>)
    requires
        2 <= radix <= 36,
    ensures
        match from_str_radix_spec(s@, radix as nat, max as nat) {
            Ok(v) => r == Ok::<u64, IntError>(v as u64) && v <= max,
            Err(e) => r == Err::<u64, IntError>(e),
        },
{
    if s.len() == 0 {
        return Err(IntError::Empty);
    }
    if (s[0] == '+' || s[0] == '-') && s.len() == 1 {
        return Err(IntError::InvalidDigit);
    }
    if s[0] == '+' {
        assert(s@.drop_first() =~= s@.skip(1));
        fold_digits_exec(s, 1, radix, max)
    } else {
        assert(s@ =~= s@.skip(0));
        fold_digits_exec(s, 0, radix, max)
    }
}

// ---------------------------------------------------------------- round trips

proof fn lemma_digit_value(d: nat, radix: nat)
    requires
        d < 16,
        d < radix,
    ensures
        digit_value(digit_char(d), radix) == Some(d),
{
    lemma_digit_char(d);
}

proof fn lemma_fold_dec(n: nat, max: nat)
    requires
        n <= max,
    ensures
        fold_digits(dec_spec(n), 10, max) == Ok::<nat, IntError>(n),
    decreases n,
{
    let s = dec_spec(n);
    lemma_digit_value(n % 10, 10);
    if n < 10 {
        assert(s.drop_last() =~= Seq::<char>::empty());
        assert(fold_digits(s.drop_last(), 10, max) == Ok::<nat, IntError>(0));
        assert(s.last() == digit_char(n));
        assert(n % 10 == n);
    } else {
        lemma_fold_dec(n / 10, max);
        assert(s.drop_last() =~= dec_spec(n / 10));
        assert(fold_digits(s.drop_last(), 10, max) == Ok::<nat, IntError>(n / 10));
        assert(s.last() == digit_char(n % 10));
        assert((n / 10) * 10 + n % 10 == n);
    }
}

/// A decimal rendering parses back to its number (when it fits).
pub proof fn lemma_parse_dec(n: nat, max: nat)
    requires
        n <= max,
    ensures
        from_str_radix_spec(dec_spec(n), 10, max) == Ok::<nat, IntError>(n),
{
    lemma_dec_digits(n);
    lemma_fold_dec(n, max);
    let s = dec_spec(n);
    assert('0' <= s[0] && s[0] <= '9');
}

proof fn lemma_fold_hex(n: nat, w: nat, max: nat)
    requires
        n % pow16(w) <= max,
    ensures
        fold_digits(hex_spec(n, w), 16, max) == Ok::<nat, IntError>(n % pow16(w)),
    decreases w,
{
    let s = hex_spec(n, w);
    if w == 0 {
        assert(n % 1 == 0);
    } else {
        let p = pow16((w - 1) as nat);
        assert(pow16(w) == 16 * p);
        assert(p > 0) by {
            lemma_pow16_pos((w - 1) as nat);
        }
        vstd::arithmetic::div_mod::lemma_breakdown(n as int, 16, p as int);
        assert(n % pow16(w) == 16 * ((n / 16) % p) + n % 16);
        assert((n / 16) % p <= max);
        lemma_fold_hex(n / 16, (w - 1) as nat, max);
        assert(s.drop_last() =~= hex_spec(n / 16, (w - 1) as nat));
        lemma_digit_value(n % 16, 16);
    }
}

proof fn lemma_pow16_pos(w: nat)
    ensures
        pow16(w) > 0,
    decreases w,
{
    if w > 0 {
        lemma_pow16_pos((w - 1) as nat);
    }
}

/// Sixteen hex digits of a 64-bit number parse back to it.
pub proof fn lemma_parse_hex16(n: u64)
    ensures
        from_str_radix_spec(hex_spec(n as nat, 16), 16, u64::MAX as nat) == Ok::<nat, IntError>(n as nat),
{
    assert(pow16(16) == 0x1_0000_0000_0000_0000) by {
        reveal_with_fuel(pow16, 17);
    }
    assert(n as nat % pow16(16) == n as nat);
    lemma_fold_hex(n as nat, 16, u64::MAX as nat);
    lemma_hex_digits(n as nat, 16);
    let s = hex_spec(n as nat, 16);
    assert(is_digit_char(s[0]));
}

/// `w` hex digits of a number below `16^w` parse back to it (when it fits).
pub proof fn lemma_parse_hex(n: nat, w: nat, max: nat)
    requires
        w > 0,
        n < pow16(w),
        n <= max,
    ensures
        from_str_radix_spec(hex_spec(n, w), 16, max) == Ok::<nat, IntError>(n),
{
    lemma_pow16_pos(w);
    vstd::arithmetic::div_mod::lemma_small_mod(n, pow16(w));
    lemma_fold_hex(n, w, max);
    lemma_hex_digits(n, w);
    let s = hex_spec(n, w);
    assert(is_digit_char(s[0]));
}

// ---------------------------------------------------------------- trimming, words, lines

/// A text with no whitespace at either end is its own trim.
pub proof fn lemma_trim_plain(v: Seq<char>)
    requires
        v.len() == 0 || (!is_ws(v[0]) && !is_ws(v.last())),
    ensures
        trim(v) == v,
{
    lemma_trim_start(v, 0);
    assert(v.subrange(0, v.len() as int) =~= v);
    lemma_trim_end(v, v.len() as int);
    assert(v.take(v.len() as int) =~= v);
}

/// Leading whitespace does not change a trim.
pub proof fn lemma_trim_after_space(v: Seq<char>)
    ensures
        trim(seq![' '] + v) == trim(v),
{
    let t = seq![' '] + v;
    assert(t.drop_first() =~= v);
    assert(is_ws(' '));
}

/// `c` occurs nowhere in `l`, for whitespace.
pub open spec fn no_ws(l: Seq<char>) -> bool {
    forall|i: int| 0 <= i < l.len() ==> !is_ws(#[trigger] l[i])
}

pub proof fn lemma_ws_fold_plain(a: Seq<char>, b: Seq<char>)
    requires
        no_ws(b),
    ensures
        ws_fold(a + b) == (ws_fold(a).0, ws_fold(a).1 + b),
    decreases b.len(),
{
    if b.len() == 0 {
        assert(a + b =~= a);
        assert(ws_fold(a).1 + b =~= ws_fold(a).1);
    } else {
        lemma_ws_fold_plain(a, b.drop_last());
        assert((a + b).drop_last() =~= a + b.drop_last());
        assert((a + b).last() == b.last());
        assert((ws_fold(a).1 + b.drop_last()).push(b.last()) =~= ws_fold(a).1 + b);
    }
}

proof fn lemma_ws_fold_tokens(t: Seq<char>)
    ensures
        forall|i: int| 0 <= i < ws_fold(t).0.len() ==> (#[trigger] ws_fold(t).0[i]).len() > 0 && no_ws(ws_fold(t).0[i]),
        no_ws(ws_fold(t).1),
    decreases t.len(),
{
    if t.len() > 0 {
        lemma_ws_fold_tokens(t.drop_last());
        let (d, c) = ws_fold(t.drop_last());
        if !is_ws(t.last()) {
            assert forall|j: int| 0 <= j < c.push(t.last()).len() implies !is_ws(#[trigger] c.push(t.last())[j]) by {
                if j < c.len() {
                    assert(c.push(t.last())[j] == c[j]);
                }
            }
        } else if c.len() > 0 {
            assert forall|i: int| 0 <= i < d.push(c).len() implies (#[trigger] d.push(c)[i]).len() > 0 && no_ws(d.push(c)[i]) by {
                if i < d.len() {
                    assert(d.push(c)[i] == d[i]);
                }
            }
        }
    }
}

/// The words of a text are non-empty and hold no whitespace.
pub proof fn lemma_words_plain(t: Seq<char>)
    ensures
        forall|i: int| 0 <= i < words(t).len() ==> (#[trigger] words(t)[i]).len() > 0 && no_ws(words(t)[i]),
{
    lemma_ws_fold_tokens(t);
    let (d, c) = ws_fold(t);
    if c.len() > 0 {
        assert forall|i: int| 0 <= i < d.push(c).len() implies (#[trigger] d.push(c)[i]).len() > 0 && no_ws(d.push(c)[i]) by {
            if i < d.len() {
                assert(d.push(c)[i] == d[i]);
            }
        }
    }
}

/// Splitting lines joined by `'\n'` and ended by one more gives them back.
pub proof fn lemma_lines_join_nl(ls: Seq<Seq<char>>)
    requires
        ls.len() > 0,
        forall|i: int| 0 <= i < ls.len() ==> no_char(#[trigger] ls[i], '\n'),
        forall|i: int| 0 <= i < ls.len() ==> !(#[trigger] ls[i].len() > 0 && ls[i].last() == '\r'),
    ensures
        lines_spec(join_nl(ls) + seq!['\n']) == ls,
{
    lemma_split_fold_join(ls);
    let t = join_nl(ls) + seq!['\n'];
    assert(t.drop_last() =~= join_nl(ls));
    assert(ls.drop_last().push(ls.last()) =~= ls);
    assert(ls.map_values(|l: Seq<char>| strip_cr(l)) =~= ls) by {
        assert forall|i: int| 0 <= i < ls.len() implies strip_cr(#[trigger] ls[i]) == ls[i] by {}
    }
    assert(ls + Seq::<Seq<char>>::empty() =~= ls);
}

/// No two newlines in a row in lines joined by `'\n'`, when none is empty
/// and none holds a `'\n'`; and the text neither starts nor ends with one.
pub proof fn lemma_join_no_blank(ls: Seq<Seq<char>>)
    requires
        ls.len() > 0,
        forall|i: int| 0 <= i < ls.len() ==> no_char(#[trigger] ls[i], '\n') && ls[i].len() > 0,
    ensures
        join_nl(ls).len() > 0,
        join_nl(ls).last() != '\n',
        join_nl(ls)[0] != '\n',
        forall|j: int| 0 <= j < join_nl(ls).len() - 1 ==> !(#[trigger] join_nl(ls)[j] == '\n' && join_nl(ls)[j + 1] == '\n'),
    decreases ls.len(),
{
    let t = join_nl(ls);
    if ls.len() == 1 {
        assert(no_char(ls[0], '\n') && ls[0].len() > 0);
        assert(ls[0][ls[0].len() - 1] != '\n');
    } else {
        let d = ls.drop_last();
        assert forall|i: int| 0 <= i < d.len() implies no_char(#[trigger] d[i], '\n') && d[i].len() > 0 by {
            assert(d[i] == ls[i]);
        }
        lemma_join_no_blank(d);
        let a = join_nl(d);
        let l = ls.last();
        assert(no_char(l, '\n') && l.len() > 0);
        assert(t == a + seq!['\n'] + l);
        assert(t[0] == a[0]);
        assert(t.last() == l.last());
        assert(l[l.len() - 1] != '\n');
        assert forall|j: int| 0 <= j < t.len() - 1 implies !(#[trigger] t[j] == '\n' && t[j + 1] == '\n') by {
            if j + 1 < a.len() {
                assert(t[j] == a[j] && t[j + 1] == a[j + 1]);
            } else if j + 1 == a.len() {
                assert(t[j] == a.last());
            } else if j == a.len() {
                assert(t[j + 1] == l[0]);
            } else {
                assert(t[j] == l[j - a.len() - 1]);
            }
        }
    }
}

} // verus!
