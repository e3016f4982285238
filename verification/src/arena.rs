//! A phase arena: bump allocation whose rollback is one assignment.
//!
//! Allocating is moving the end forward; rolling back to a mark is moving it
//! back, in O(1) whatever the number of objects, with no per-object header.
//! Freeing in arbitrary order is not reversible without a log, so the arena
//! serves phase-shaped workloads (a tick, a transaction): objects live until
//! the phase boundary, which is a bulk reset or a commit. Storage is a vector
//! of 8-byte words that the arena keeps once it holds them: a rollback or a
//! reset only moves the end back, and the words past the end are reused (and
//! zeroed) by the next allocation, so an allocation that fits in the words
//! already held always succeeds.
use vstd::prelude::*;

verus! {

/// A phase arena (single-threaded).
#[derive(Debug, Clone)]
pub struct Arena {
    /// The words held: the live ones, then those kept for reuse.
    buf: Vec<u64>,
    /// The end of the live words.
    end: usize,
    /// The stack of marks (offsets in words), non-decreasing.
    marks: Vec<usize>,
    /// Allocations over the arena's lifetime (statistics).
    pub allocs: u64,
}

/// `Vec::capacity`: how many words the buffer holds without reallocating.
/// Its documentation promises at least the length, and a vector never
/// allocates more than `isize::MAX` bytes; the exact value is the
/// allocator's choice and is not stated.
#[verifier::external_body]
fn capacity_words(buf: &Vec<u64>) -> (c: usize)
    ensures
        c >= buf@.len(),
        c * 8 <= isize::MAX,
{
    buf.capacity()
}

/// `Vec::try_reserve`: room for `additional` more words. Its documentation
/// says it does nothing when the capacity already suffices, which a request
/// for no words always does, and that it fails when the capacity would
/// overflow, that is go past `isize::MAX` bytes. Whether the allocator grants
/// any other request is its own choice and is not stated.
#[verifier::external_body]
fn reserve_words(buf: &mut Vec<u64>, additional: usize) -> (ok: bool)
    ensures
        final(buf)@ == old(buf)@,
        additional == 0 ==> ok,
        ok ==> (old(buf)@.len() + additional) * 8 <= isize::MAX,
{
    buf.try_reserve(additional).is_ok()
}

/// Pop marks at or above `w` from the end of the stack.
pub open spec fn drop_marks(marks: Seq<usize>, w: nat) -> Seq<usize>
    decreases marks.len(),
{
    if marks.len() > 0 && marks.last() >= w {
        drop_marks(marks.drop_last(), w)
    } else {
        marks
    }
}

/// `after` is `before` followed by `words` zero words.
pub open spec fn grown(before: Seq<u64>, after: Seq<u64>, words: nat) -> bool {
    &&& after.len() == before.len() + words
    &&& after.subrange(0, before.len() as int) == before
    &&& forall|i: int| before.len() <= i < after.len() ==> #[trigger] after[i] == 0
}

impl Arena {
    /// The live words.
    pub closed spec fn words_view(&self) -> Seq<u64> {
        self.buf@.subrange(0, self.end as int)
    }

    /// How many words the arena holds, live or kept for reuse.
    pub closed spec fn room_view(&self) -> nat {
        self.buf@.len()
    }

    /// The allocation count.
    pub closed spec fn allocs_view(&self) -> u64 {
        self.allocs
    }

    /// The registered marks, in words.
    pub closed spec fn marks_view(&self) -> Seq<usize> {
        self.marks@
    }

    /// The end lies within the words held, which fit in `isize::MAX` bytes;
    /// the marks are non-decreasing and never beyond the end.
    pub closed spec fn wf(&self) -> bool {
        &&& self.end <= self.buf@.len()
        &&& self.buf@.len() * 8 <= isize::MAX
        &&& forall|i: int, k: int| 0 <= i <= k < self.marks@.len() ==> self.marks@[i] <= self.marks@[k]
        &&& forall|i: int| 0 <= i < self.marks@.len() ==> self.marks@[i] <= self.end
    }

    /// An arena holding 1024 words ready for use.
    pub fn new() -> (a: Arena)
        ensures
            a.wf(),
            a.words_view() == Seq::<u64>::empty(),
            a.marks_view() == Seq::<usize>::empty(),
            a.allocs_view() == 0,
            a.room_view() == 1024,
    {
        Arena::with_capacity_words(1024)
    }

    /// An empty arena holding `words` words ready for use, so that
    /// allocations of that many words in all succeed without growing.
    pub fn with_capacity_words(words: usize) -> (a: Arena)
        requires
            words * 8 <= isize::MAX,
        ensures
            a.wf(),
            a.words_view() == Seq::<u64>::empty(),
            a.marks_view() == Seq::<usize>::empty(),
            a.allocs_view() == 0,
            a.room_view() == words,
    {
        let mut buf: Vec<u64> = Vec::with_capacity(words);
        buf.resize(words, 0);
        let a = Arena { buf, end: 0, marks: Vec::new(), allocs: 0 };
        assert(a.words_view() =~= Seq::<u64>::empty());
        a
    }

    /// Allocate `n` bytes (rounded up to whole words); returns the offset in
    /// bytes, which is always the end before the call. An allocation that
    /// fits in the words already held always succeeds; one that does not
    /// grows the buffer, and gives `None` when the buffer cannot grow (always
    /// for a size past `isize::MAX` bytes in all), with the arena unchanged.
    pub fn alloc_bytes(&mut self, n: usize) -> (r: Option<usize>)
        requires
            old(self).wf(),
            old(self).allocs_view() < u64::MAX,
        ensures
            final(self).wf(),
            old(self).words_view().len() + (n + 7) / 8 <= old(self).room_view() ==> r is Some,
            (old(self).words_view().len() + (n + 7) / 8) * 8 > isize::MAX ==> r is None,
            match r {
                Some(off) => {
                    &&& off == old(self).words_view().len() * 8
                    &&& grown(old(self).words_view(), final(self).words_view(), ((n + 7) / 8) as nat)
                    &&& final(self).marks_view() == old(self).marks_view()
                    &&& final(self).allocs_view() == old(self).allocs_view() + 1
                    &&& final(self).room_view() == if old(self).words_view().len() + (n + 7) / 8 <= old(self).room_view() {
                        old(self).room_view()
                    } else {
                        (old(self).words_view().len() + (n + 7) / 8) as nat
                    }
                },
                None => {
                    &&& final(self).words_view() == old(self).words_view()
                    &&& final(self).marks_view() == old(self).marks_view()
                    &&& final(self).allocs_view() == old(self).allocs_view()
                    &&& final(self).room_view() == old(self).room_view()
                },
            },
    {
        let words = n / 8 + if n % 8 == 0 { 0 } else { 1 };
        self.alloc_words(words)
    }

    /// Allocate `words` words; see `alloc_bytes`.
    pub fn alloc_words(&mut self, words: usize) -> (r: Option<usize>)
        requires
            old(self).wf(),
            old(self).allocs_view() < u64::MAX,
        ensures
            final(self).wf(),
            old(self).words_view().len() + words <= old(self).room_view() ==> r is Some,
            (old(self).words_view().len() + words) * 8 > isize::MAX ==> r is None,
            match r {
                Some(off) => {
                    &&& off == old(self).words_view().len() * 8
                    &&& grown(old(self).words_view(), final(self).words_view(), words as nat)
                    &&& final(self).marks_view() == old(self).marks_view()
                    &&& final(self).allocs_view() == old(self).allocs_view() + 1
                    &&& final(self).room_view() == if old(self).words_view().len() + words <= old(self).room_view() {
                        old(self).room_view()
                    } else {
                        (old(self).words_view().len() + words) as nat
                    }
                },
                None => {
                    &&& final(self).words_view() == old(self).words_view()
                    &&& final(self).marks_view() == old(self).marks_view()
                    &&& final(self).allocs_view() == old(self).allocs_view()
                    &&& final(self).room_view() == old(self).room_view()
                },
            },
    {
        let off = self.end;
        let held = self.buf.len();
        let ghost before = *self;
        if words > held - off {
            if !reserve_words(&mut self.buf, words - (held - off)) {
                proof {
                    assert(self.buf@ =~= before.buf@);
                }
                return None;
            }
            self.buf.resize(off + words, 0);
        }
        let stop: usize = off + words;
        let mut i: usize = off;
        while i < stop
            invariant
                stop == off + words,
                off <= i <= off + words,
                off + words <= self.buf@.len(),
                self.buf@.len() == if off + words <= held { held as int } else { off + words },
                self.buf@.subrange(0, off as int) == before.buf@.subrange(0, off as int),
                forall|j: int| off <= j < i ==> #[trigger] self.buf@[j] == 0,
                self.end == off,
                self.marks == before.marks,
                self.allocs == before.allocs,
            decreases stop - i,
        {
            let ghost b0 = self.buf@;
            self.buf.set(i, 0);
            proof {
                assert(self.buf@.subrange(0, off as int) =~= b0.subrange(0, off as int));
            }
            i += 1;
        }
        self.end = stop;
        self.allocs += 1;
        proof {
            let w0 = before.words_view();
            let w1 = self.words_view();
            assert(w1.subrange(0, off as int) =~= self.buf@.subrange(0, off as int));
            assert(w0 =~= before.buf@.subrange(0, off as int));
            assert forall|j: int| off <= j < w1.len() implies #[trigger] w1[j] == 0 by {
                assert(w1[j] == self.buf@[j]);
            }
            assert(grown(w0, w1, words as nat));
        }
        Some(off * 8)
    }

    /// The current end in bytes: the mark of the phase.
    pub fn mark(&self) -> (m: usize)
        requires
            self.wf(),
        ensures
            m == self.words_view().len() * 8,
    {
        self.end * 8
    }

    /// Register a mark on the stack (for `commit`/`rollback`); returns it in bytes.
    pub fn push_mark(&mut self) -> (m: usize)
        requires
            old(self).wf(),
        ensures
            final(self).wf(),
            m == old(self).words_view().len() * 8,
            final(self).words_view() == old(self).words_view(),
            final(self).marks_view() == old(self).marks_view().push(old(self).words_view().len() as usize),
            final(self).allocs_view() == old(self).allocs_view(),
            final(self).room_view() == old(self).room_view(),
    {
        let m = self.mark();
        let w = self.end;
        self.marks.push(w);
        m
    }

    /// Roll back to a mark (bytes): everything allocated after it disappears
    /// in O(1), and the words stay held for reuse. Marks at or above it are
    /// removed.
    pub fn rollback(&mut self, mark_bytes: usize)
        requires
            old(self).wf(),
            mark_bytes % 8 == 0,
            mark_bytes / 8 <= old(self).words_view().len(),
        ensures
            final(self).wf(),
            final(self).words_view() == old(self).words_view().subrange(0, (mark_bytes / 8) as int),
            final(self).marks_view() == drop_marks(old(self).marks_view(), (mark_bytes / 8) as nat),
            final(self).allocs_view() == old(self).allocs_view(),
            final(self).room_view() == old(self).room_view(),
    {
        let words = mark_bytes / 8;
        let ghost w0 = self.words_view();
        self.end = words;
        assert(self.words_view() =~= w0.subrange(0, words as int));
        let ghost m0 = self.marks@;
        while self.marks.len() > 0 && self.marks[self.marks.len() - 1] >= words
            invariant
                drop_marks(self.marks@, words as nat) == drop_marks(m0, words as nat),
                self.marks@.len() <= m0.len(),
                self.marks@ == m0.subrange(0, self.marks@.len() as int),
                self.end == words,
                self.buf == old(self).buf,
                self.allocs == old(self).allocs,
                forall|i: int, k: int| 0 <= i <= k < m0.len() ==> m0[i] <= m0[k],
            decreases self.marks@.len(),
        {
            let ghost before = self.marks@;
            self.marks.pop();
            proof {
                assert(self.marks@ =~= before.drop_last());
            }
        }
        proof {
            let ms = self.marks@;
            assert(drop_marks(ms, words as nat) == ms);
            assert forall|i: int| 0 <= i < ms.len() implies ms[i] <= self.end by {
                if ms.len() > 0 {
                    assert(ms[i] <= ms[ms.len() - 1]);
                }
            }
        }
    }

    /// Commit: drop the innermost mark; the data stays until `reset`.
    pub fn commit(&mut self)
        requires
            old(self).wf(),
        ensures
            final(self).wf(),
            final(self).words_view() == old(self).words_view(),
            old(self).marks_view().len() > 0 ==> final(self).marks_view() == old(self).marks_view().drop_last(),
            old(self).marks_view().len() == 0 ==> final(self).marks_view() == old(self).marks_view(),
            final(self).allocs_view() == old(self).allocs_view(),
            final(self).room_view() == old(self).room_view(),
    {
        self.marks.pop();
    }

    /// Reset the whole phase: every object disappears at once; the words stay
    /// held for reuse.
    pub fn reset(&mut self)
        requires
            old(self).wf(),
        ensures
            final(self).wf(),
            final(self).words_view() == Seq::<u64>::empty(),
            final(self).marks_view() == Seq::<usize>::empty(),
            final(self).allocs_view() == old(self).allocs_view(),
            final(self).room_view() == old(self).room_view(),
    {
        self.end = 0;
        self.marks.clear();
        assert(self.words_view() =~= Seq::<u64>::empty());
    }

    /// The live words (an object is a slice of words).
    pub fn words(&self) -> (w: &[u64])
        requires
            self.wf(),
        ensures
            w@ == self.words_view(),
    {
        self.buf.as_slice().split_at(self.end).0
    }

    pub fn write_u64(&mut self, off_bytes: usize, v: u64)
        requires
            old(self).wf(),
            off_bytes % 8 == 0,
            off_bytes / 8 < old(self).words_view().len(),
        ensures
            final(self).wf(),
            final(self).words_view() == old(self).words_view().update((off_bytes / 8) as int, v),
            final(self).marks_view() == old(self).marks_view(),
            final(self).allocs_view() == old(self).allocs_view(),
            final(self).room_view() == old(self).room_view(),
    {
        let ghost w0 = self.words_view();
        self.buf.set(off_bytes / 8, v);
        assert(self.words_view() =~= w0.update((off_bytes / 8) as int, v));
    }

    pub fn read_u64(&self, off_bytes: usize) -> (v: u64)
        requires
            self.wf(),
            off_bytes % 8 == 0,
            off_bytes / 8 < self.words_view().len(),
        ensures
            v == self.words_view()[(off_bytes / 8) as int],
    {
        self.buf[off_bytes / 8]
    }

    pub fn used_bytes(&self) -> (n: usize)
        requires
            self.wf(),
        ensures
            n == self.words_view().len() * 8,
    {
        self.end * 8
    }

    /// The reserved capacity in bytes (as the allocator granted it): whole
    /// words, at least the words the arena holds, and so at least the bytes
    /// in use.
    pub fn capacity_bytes(&self) -> (n: usize)
        requires
            self.wf(),
        ensures
            n % 8 == 0,
            n >= self.room_view() * 8,
            n >= self.words_view().len() * 8,
    {
        capacity_words(&self.buf) * 8
    }

    pub fn live_marks(&self) -> (n: usize)
        ensures
            n == self.marks_view().len(),
    {
        self.marks.len()
    }
}

impl Default for Arena {
    fn default() -> (a: Arena)
        ensures
            a.wf(),
            a.words_view() == Seq::<u64>::empty(),
            a.marks_view() == Seq::<usize>::empty(),
            a.allocs_view() == 0,
            a.room_view() == 1024,
    {
        Arena::new()
    }
}

/// Law: rolling back to the end taken before any number of allocations gives
/// back exactly the words there were (nothing allocated after it survives,
/// and no bookkeeping is left), so the next allocation reuses the same offset.
pub proof fn law_rollback_undoes_alloc(w0: Seq<u64>, w1: Seq<u64>, k1: nat, w2: Seq<u64>, k2: nat)
    requires
        grown(w0, w1, k1),
        grown(w1, w2, k2),
    ensures
        grown(w0, w2, k1 + k2),
        w2.subrange(0, w0.len() as int) == w0,
{
    assert(w2.subrange(0, w0.len() as int) =~= w1.subrange(0, w0.len() as int));
    assert forall|i: int| w0.len() <= i < w2.len() implies #[trigger] w2[i] == 0 by {
        if i < w1.len() {
            assert(w2[i] == w1[i]) by {
                assert(w2.subrange(0, w1.len() as int)[i] == w2[i]);
            }
        }
    }
}

proof fn lemma_drop_marks_prefix(marks: Seq<usize>, w: nat)
    ensures
        drop_marks(marks, w).len() <= marks.len(),
        drop_marks(marks, w) == marks.subrange(0, drop_marks(marks, w).len() as int),
    decreases marks.len(),
{
    if marks.len() > 0 && marks.last() >= w {
        let d = marks.drop_last();
        lemma_drop_marks_prefix(d, w);
        let r = drop_marks(d, w);
        assert(d.subrange(0, r.len() as int) =~= marks.subrange(0, r.len() as int));
    } else {
        assert(marks.subrange(0, marks.len() as int) =~= marks);
    }
}

/// Law: a rollback to a mark just pushed closes that mark and every mark
/// registered at the same end; the marks left are exactly those below it.
pub proof fn law_rollback_closes_mark(marks: Seq<usize>, w: usize)
    requires
        forall|i: int, k: int| 0 <= i <= k < marks.len() ==> marks[i] <= marks[k],
        forall|i: int| 0 <= i < marks.len() ==> marks[i] <= w,
    ensures
        drop_marks(marks.push(w), w as nat) == drop_marks(marks, w as nat),
        ({
            let d = drop_marks(marks, w as nat);
            &&& d == marks.subrange(0, d.len() as int)
            &&& forall|i: int| 0 <= i < d.len() ==> d[i] < w
            &&& forall|i: int| d.len() <= i < marks.len() ==> marks[i] >= w
        }),
    decreases marks.len(),
{
    assert(marks.push(w).drop_last() =~= marks);
    if marks.len() == 0 {
        assert(marks.subrange(0, 0) =~= marks);
    } else {
        let d = marks.drop_last();
        if marks.last() >= w {
            law_rollback_closes_mark(d, w);
            lemma_drop_marks_prefix(d, w as nat);
            let r = drop_marks(d, w as nat);
            assert(d.subrange(0, r.len() as int) =~= marks.subrange(0, r.len() as int));
            assert forall|i: int| r.len() <= i < marks.len() implies marks[i] >= w by {
                if i < d.len() {
                    assert(d[i] == marks[i]);
                }
            }
        } else {
            assert(drop_marks(marks, w as nat) == marks);
            assert(marks.subrange(0, marks.len() as int) =~= marks);
            assert forall|i: int| 0 <= i < marks.len() implies marks[i] < w by {
                assert(marks[i] <= marks[marks.len() - 1]);
            }
        }
    }
}

} // verus!
