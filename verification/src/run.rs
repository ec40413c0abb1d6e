//! Sorted runs: ordered, dedicated sequences of lines, in memory or spilled.
//!
//! A [`SortedChunk`] owns one sorted sequence of lines and hands them out
//! front to back. It caches its head line so that ordering two runs costs no
//! consumption. It starts in memory and can be flushed to temporary storage
//! exactly once; enumeration is oblivious to the backing.

use vstd::prelude::*;
use vstd::relations::sorted_by;
use crate::line::{lex_le, lex_leq, line_le, line_ok, lines_ok, reverse_lines, views, Line};
use crate::spill::{
    spill_finish, spill_next, spill_push, spill_reader_lines, spill_writer_lines, spill_writer_new,
    SpillReader,
};

verus! {

/// How many lines a run emits when drained against `limit`: the head always
/// goes, and emission continues while the line after the one just emitted is
/// at most `limit`.
pub open spec fn drain_cut(s: Seq<Seq<u8>>, limit: Seq<u8>) -> int
    decreases s.len(),
{
    if s.len() == 0 {
        0
    } else if s.len() == 1 {
        1
    } else if lex_le(s[1], limit) {
        1 + drain_cut(s.drop_first(), limit)
    } else {
        1
    }
}

/// Bounds of the cut, and the order facts that hold on either side of it.
pub proof fn lemma_drain_cut_bounds(s: Seq<Seq<u8>>, limit: Seq<u8>)
    ensures
        0 <= drain_cut(s, limit) <= s.len(),
        s.len() > 0 ==> 1 <= drain_cut(s, limit),
        forall|t: int| 1 <= t < drain_cut(s, limit) ==> lex_le(#[trigger] s[t], limit),
        drain_cut(s, limit) < s.len() ==> !lex_le(s[drain_cut(s, limit)], limit),
    decreases s.len(),
{
    if s.len() > 1 && lex_le(s[1], limit) {
        lemma_drain_cut_bounds(s.drop_first(), limit);
        let k = drain_cut(s, limit);
        assert forall|t: int| 1 <= t < k implies lex_le(#[trigger] s[t], limit) by {
            if t >= 2 {
                assert(lex_le(s.drop_first()[t - 1], limit));
            }
        }
        if k < s.len() {
            assert(!lex_le(s.drop_first()[k - 1], limit));
        }
    }
}

/// The cut is the one index its defining conditions admit.
proof fn lemma_drain_cut_fix(s: Seq<Seq<u8>>, limit: Seq<u8>, m: int)
    requires
        1 <= m <= s.len(),
        forall|t: int| 1 <= t < m ==> lex_le(#[trigger] s[t], limit),
        m < s.len() ==> !lex_le(s[m], limit),
    ensures
        drain_cut(s, limit) == m,
    decreases m,
{
    if s.len() == 1 {
    } else if m == 1 {
    } else {
        assert(lex_le(s[1], limit));
        let s2 = s.drop_first();
        assert forall|t: int| 1 <= t < m - 1 implies lex_le(#[trigger] s2[t], limit) by {
            assert(s2[t] == s[t + 1]);
        }
        assert(m - 1 < s2.len() ==> !lex_le(s2[m - 1], limit)) by {
            if m - 1 < s2.len() {
                assert(s2[m - 1] == s[m]);
            }
        }
        lemma_drain_cut_fix(s2, limit, m - 1);
    }
}

/// Why a sort was aborted. Every failure is fatal: no partial output is
/// considered safe to emit.
#[derive(Clone, Copy, Debug, PartialEq, Eq, Structural)]
pub enum SortError {
    /// Reading or writing temporary storage failed.
    Io,
}

/// Where the remaining lines of a run live.
enum LineSource {
    /// Lines owned in memory, stored back to front so that the next line to
    /// emit is the last element.
    Memory(Vec<Line>),
    /// Lines spilled to a temporary file.
    Spilled(SpillReader),
}

/// The lines a source still holds, in emission order.
spec fn source_lines(s: LineSource) -> Seq<Seq<u8>> {
    match s {
        LineSource::Memory(v) => views(v@).reverse(),
        LineSource::Spilled(r) => spill_reader_lines(r),
    }
}

/// A run whose tail was lost to a failed spill still stands well-formed:
/// it keeps exactly its cached head — the old view's first line, or nothing
/// when the run was already empty.
proof fn lemma_kept_head(before: SortedChunk, now: SortedChunk)
    requires
        before.wf(),
        now.head == before.head,
        source_lines(now.source).len() == 0,
    ensures
        now.wf(),
        now@ == before@.take(
            if before@.len() > 0 {
                1int
            } else {
                0int
            },
        ),
{
    if now.head is Some {
        assert(now@ =~= seq![now.head->0@]);
        assert(before@.take(1) =~= seq![before.head->0@]);
        assert(line_ok(before@[0]));
        assert forall|t: int| 0 <= t < now@.len() implies #[trigger] line_ok(now@[t]) by {
            assert(now@[t] == before@[0]);
        }
    } else {
        assert(before@.len() == 0);
        assert(now@ =~= before@.take(0));
    }
}

/// One sorted, dedicated run of lines.
pub struct SortedChunk {
    /// Whether this run came out of a merge.
    merged: bool,
    /// The lines after the cached head.
    source: LineSource,
    /// The next line to emit, if any remain.
    head: Option<Line>,
}

impl View for SortedChunk {
    type V = Seq<Seq<u8>>;

    /// The lines still to be emitted, the cached head first.
    closed spec fn view(&self) -> Seq<Seq<u8>> {
        match self.head {
            Some(h) => seq![h@] + source_lines(self.source),
            None => Seq::empty(),
        }
    }
}

impl SortedChunk {
    /// This run came out of a merge job.
    pub closed spec fn merged_flag(self) -> bool {
        self.merged
    }

    /// This run is backed by temporary storage.
    pub closed spec fn flushed(self) -> bool {
        self.source is Spilled
    }

    /// The head cache is honest: an absent head means an empty run.
    pub closed spec fn head_inv(self) -> bool {
        self.head is None ==> source_lines(self.source).len() == 0
    }

    /// Internal consistency: an honest head cache, and the remaining lines
    /// are sorted, delimiter-free lines.
    pub open spec fn wf(self) -> bool {
        &&& self.head_inv()
        &&& sorted_by(self@, lex_leq())
        &&& lines_ok(self@)
    }

    /// Wrap an already-sorted vector of lines into a run and prime the head
    /// cache.
    pub fn new(lines: Vec<Line>) -> (r: Self)
        requires
            sorted_by(views(lines@), lex_leq()),
            lines_ok(views(lines@)),
        ensures
            r.wf(),
            r@ == views(lines@),
            !r.merged_flag(),
            !r.flushed(),
    {
        Self::with_merged(lines, false)
    }

    /// Wrap the outcome of a merge job into a run marked as merged.
    pub fn new_merged(lines: Vec<Line>) -> (r: Self)
        requires
            sorted_by(views(lines@), lex_leq()),
            lines_ok(views(lines@)),
        ensures
            r.wf(),
            r@ == views(lines@),
            r.merged_flag(),
            !r.flushed(),
    {
        Self::with_merged(lines, true)
    }

    fn with_merged(lines: Vec<Line>, merged: bool) -> (r: Self)
        requires
            sorted_by(views(lines@), lex_leq()),
            lines_ok(views(lines@)),
        ensures
            r.wf(),
            r@ == views(lines@),
            r.merged_flag() == merged,
            !r.flushed(),
    {
        let ghost all = views(lines@);
        let mut rev = reverse_lines(lines);
        let ghost rv = rev@;
        let head = rev.pop();
        let r = SortedChunk { merged, source: LineSource::Memory(rev), head };
        proof {
            if all.len() == 0 {
                assert(r@ =~= all);
            } else {
                assert(head->0@ == views(rv).last());
                assert(views(rev@) =~= views(rv).drop_last());
                assert(views(rev@).reverse() =~= all.drop_first());
                assert(r@ =~= all);
            }
        }
        r
    }

    /// Wrap a finished spill into a run marked as merged and flushed,
    /// priming the head cache from storage.
    pub(crate) fn from_spill(rd: SpillReader) -> (r: Result<Self, SortError>)
        requires
            sorted_by(spill_reader_lines(rd), lex_leq()),
            lines_ok(spill_reader_lines(rd)),
        ensures
            r matches Ok(c) ==> c.wf() && c@ == spill_reader_lines(rd) && c.merged_flag()
                && c.flushed(),
    {
        let ghost all = spill_reader_lines(rd);
        let mut rd = rd;
        let head = match spill_next(&mut rd) {
            Err(_) => {
                return Err(SortError::Io);
            },
            Ok(h) => h,
        };
        let r = SortedChunk { merged: true, source: LineSource::Spilled(rd), head };
        proof {
            assert(r@ =~= all);
        }
        Ok(r)
    }

    /// This run has been flushed to temporary storage.
    pub fn is_flushed(&self) -> (r: bool)
        ensures
            r == self.flushed(),
    {
        match &self.source {
            LineSource::Spilled(_) => true,
            LineSource::Memory(_) => false,
        }
    }

    /// This run came out of a merge job.
    pub fn is_merged(&self) -> (r: bool)
        ensures
            r == self.merged_flag(),
    {
        self.merged
    }

    /// The cached head: the next line to emit, not consumed.
    pub fn peek(&self) -> (r: Option<&Line>)
        ensures
            match r {
                Some(l) => self@.len() > 0 && l@ == self@.first(),
                None => self@.len() == 0,
            },
    {
        self.head.as_ref()
    }

    /// Consume and return the head line, advancing the cache.
    pub fn next_line(&mut self) -> (r: Result<Option<Line>, SortError>)
        requires
            old(self).wf(),
        ensures
            final(self).merged_flag() == old(self).merged_flag(),
            !old(self).flushed() ==> r is Ok,
            match r {
                Ok(Some(l)) => {
                    &&& old(self)@.len() > 0
                    &&& l@ == old(self)@.first()
                    &&& final(self)@ == old(self)@.drop_first()
                    &&& final(self).wf()
                    &&& final(self).flushed() == old(self).flushed()
                },
                Ok(None) => {
                    &&& old(self)@.len() == 0
                    &&& final(self)@ == old(self)@
                    &&& final(self).wf()
                    &&& final(self).flushed() == old(self).flushed()
                },
                Err(_) => true,
            },
    {
        let next = match &mut self.source {
            LineSource::Memory(v) => {
                let ghost rv = v@;
                let n = v.pop();
                proof {
                    if rv.len() > 0 {
                        assert(n->0@ == views(rv).last());
                        assert(views(v@) =~= views(rv).drop_last());
                        assert(views(v@).reverse() =~= views(rv).reverse().drop_first());
                    }
                }
                n
            },
            LineSource::Spilled(rd) => {
                match spill_next(rd) {
                    Err(_) => {
                        return Err(SortError::Io);
                    },
                    Ok(n) => n,
                }
            },
        };
        let mut out = next;
        std::mem::swap(&mut out, &mut self.head);
        proof {
            let s = *old(self);
            if s.head is Some {
                assert(self@ =~= s@.drop_first());
                lemma_sorted_suffix(s@, 1);
                assert forall|i: int| 0 <= i < self@.len() implies #[trigger] line_ok(
                    self@[i],
                ) by {
                    assert(self@[i] == s@[i + 1]);
                    assert(line_ok(s@[i + 1]));
                }
            } else {
                assert(self@ =~= s@);
            }
        }
        Ok(out)
    }

    /// Consume the whole run, appending every remaining line to `out`.
    pub fn drain(&mut self, out: &mut Vec<Line>) -> (r: Result<(), SortError>)
        requires
            old(self).wf(),
        ensures
            final(self).merged_flag() == old(self).merged_flag(),
            !old(self).flushed() ==> r is Ok,
            r is Ok ==> {
                &&& views(final(out)@) == views(old(out)@) + old(self)@
                &&& final(self)@.len() == 0
                &&& final(self).wf()
                &&& final(self).flushed() == old(self).flushed()
            },
    {
        loop
            invariant
                self.wf(),
                self.merged_flag() == old(self).merged_flag(),
                self.flushed() == old(self).flushed(),
                views(out@) + self@ == views(old(out)@) + old(self)@,
            decreases self@.len(),
        {
            match self.next_line() {
                Err(e) => {
                    return Err(e);
                },
                Ok(None) => {
                    proof {
                        assert(views(out@) =~= views(old(out)@) + old(self)@);
                    }
                    return Ok(());
                },
                Ok(Some(l)) => {
                    let ghost prev = views(out@);
                    out.push(l);
                    proof {
                        assert(views(out@) =~= prev.push(l@));
                        assert(views(out@) + self@ =~= views(old(out)@) + old(self)@);
                    }
                },
            }
        }
    }

    /// Consume lines into `out` until either the run is exhausted (then
    /// `true`) or the line after the one just emitted exceeds `limit` (then
    /// `false`, and the run keeps its remainder).
    pub fn drain_until(&mut self, out: &mut Vec<Line>, limit: &Line) -> (r: Result<
        bool,
        SortError,
    >)
        requires
            old(self).wf(),
        ensures
            final(self).merged_flag() == old(self).merged_flag(),
            !old(self).flushed() ==> r is Ok,
            r matches Ok(ex) ==> {
                let k = drain_cut(old(self)@, limit@);
                &&& views(final(out)@) == views(old(out)@) + old(self)@.take(k)
                &&& final(self)@ == old(self)@.skip(k)
                &&& ex == (k == old(self)@.len())
                &&& final(self).wf()
                &&& final(self).flushed() == old(self).flushed()
            },
    {
        let ghost orig = old(self)@;
        match self.peek() {
            None => {
                proof {
                    assert(views(out@) =~= views(old(out)@) + orig.take(0));
                    assert(self@ =~= orig.skip(0));
                }
                return Ok(true);
            },
            Some(_) => {},
        }
        let ghost mut j: int = 0;
        loop
            invariant
                self.wf(),
                self.merged_flag() == old(self).merged_flag(),
                self.flushed() == old(self).flushed(),
                0 <= j < orig.len(),
                orig == old(self)@,
                self@ == orig.skip(j),
                self@.len() > 0,
                views(out@) == views(old(out)@) + orig.take(j),
                forall|t: int| 1 <= t <= j ==> lex_le(#[trigger] orig[t], limit@),
            decreases self@.len(),
        {
            let l = match self.next_line() {
                Err(e) => {
                    return Err(e);
                },
                Ok(None) => {
                    return vstd::pervasive::unreached();
                },
                Ok(Some(l)) => l,
            };
            let ghost prev = views(out@);
            out.push(l);
            proof {
                j = j + 1;
                assert(orig.skip(j - 1).first() == orig[j - 1]);
                assert(l@ == orig[j - 1]);
                assert(self@ =~= orig.skip(j));
                assert(views(out@) =~= prev.push(l@));
                assert(views(out@) =~= views(old(out)@) + orig.take(j));
            }
            match self.peek() {
                None => {
                    proof {
                        assert(j == orig.len());
                        lemma_drain_cut_fix(orig, limit@, j);
                    }
                    return Ok(true);
                },
                Some(h) => {
                    proof {
                        assert(h@ == orig.skip(j).first());
                        assert(orig.skip(j).first() == orig[j]);
                    }
                    if !line_le(h, limit) {
                        proof {
                            lemma_drain_cut_fix(orig, limit@, j);
                        }
                        return Ok(false);
                    }
                },
            }
        }
    }

    /// Flush this run's remaining lines behind the cached head to temporary
    /// storage, once; a run that is already file-backed is left alone. The
    /// lines the run will emit do not change.
    #[verifier::loop_isolation(false)]
    pub fn flush_to_disk(&mut self) -> (r: Result<(), SortError>)
        requires
            old(self).wf(),
        ensures
            final(self).merged_flag() == old(self).merged_flag(),
            old(self).flushed() ==> r is Ok,
            r is Ok ==> {
                &&& final(self)@ == old(self)@
                &&& final(self).wf()
                &&& final(self).flushed()
            },
            r is Err ==> {
                &&& final(self).wf()
                &&& final(self)@ == old(self)@.take(
                    if old(self)@.len() > 0 {
                        1int
                    } else {
                        0int
                    },
                )
            },
    {
        let mut src = LineSource::Memory(Vec::new());
        std::mem::swap(&mut src, &mut self.source);
        let v = match src {
            LineSource::Spilled(rd) => {
                self.source = LineSource::Spilled(rd);
                return Ok(());
            },
            LineSource::Memory(v) => v,
        };
        let ghost rest = views(v@).reverse();
        proof {
            assert(source_lines(old(self).source) == rest);
            assert forall|t: int| 0 <= t < rest.len() implies #[trigger] line_ok(rest[t]) by {
                assert(old(self)@[t + 1] == rest[t]);
                assert(line_ok(old(self)@[t + 1]));
            }
        }
        let mut v = v;
        let mut w = spill_writer_new();
        let ghost mut j: int = 0;
        while v.len() > 0
            invariant
                self.merged_flag() == old(self).merged_flag(),
                0 <= j <= rest.len(),
                views(v@).reverse() == rest.skip(j),
                spill_writer_lines(w) == rest.take(j),
                forall|t: int| 0 <= t < rest.len() ==> #[trigger] line_ok(rest[t]),
            decreases v@.len(),
        {
            let ghost vv = v@;
            let x = match v.pop() {
                None => {
                    return vstd::pervasive::unreached();
                },
                Some(x) => x,
            };
            proof {
                assert(views(vv).reverse() == rest.skip(j));
                assert(views(vv).reverse().len() == vv.len());
                assert(rest.skip(j).len() == rest.len() - j);
                assert(j < rest.len());
                assert(rest.skip(j).first() == rest[j]);
                assert(x@ == views(vv)[vv.len() - 1]);
                assert(views(vv).reverse().first() == views(vv)[vv.len() - 1]);
                assert(x@ == rest[j]);
                assert(views(v@).reverse() =~= views(vv).reverse().drop_first());
                assert(views(v@).reverse() =~= rest.skip(j + 1));
            }
            w = match spill_push(w, &x) {
                Err(_) => {
                    // fatal: the run keeps only its cached head
                    proof {
                        assert(source_lines(self.source) =~= Seq::<Seq<u8>>::empty());
                        lemma_kept_head(*old(self), *self);
                    }
                    return Err(SortError::Io);
                },
                Ok(w2) => w2,
            };
            proof {
                j = j + 1;
                assert(spill_writer_lines(w) =~= rest.take(j));
            }
        }
        proof {
            assert(rest.skip(j) =~= views(v@).reverse());
            assert(j == rest.len());
            assert(spill_writer_lines(w) =~= rest);
        }
        let rd = match spill_finish(w) {
            Err(_) => {
                // fatal: the run keeps only its cached head
                proof {
                    assert(source_lines(self.source) =~= Seq::<Seq<u8>>::empty());
                    lemma_kept_head(*old(self), *self);
                }
                return Err(SortError::Io);
            },
            Ok(rd) => rd,
        };
        self.source = LineSource::Spilled(rd);
        proof {
            assert(self@ =~= old(self)@);
        }
        Ok(())
    }
}

/// Dropping a prefix of a sorted sequence keeps it sorted.
pub proof fn lemma_sorted_suffix(s: Seq<Seq<u8>>, k: int)
    requires
        sorted_by(s, lex_leq()),
        0 <= k <= s.len(),
    ensures
        sorted_by(s.skip(k), lex_leq()),
{
    let t = s.skip(k);
    assert forall|i: int, j: int| 0 <= i < j < t.len() implies #[trigger] lex_leq()(
        t[i],
        t[j],
    ) by {
        assert(t[i] == s[i + k]);
        assert(t[j] == s[j + k]);
        assert(lex_leq()(s[i + k], s[j + k]));
    }
}

/// Keeping a prefix of a sorted sequence keeps it sorted.
pub proof fn lemma_sorted_prefix(s: Seq<Seq<u8>>, k: int)
    requires
        sorted_by(s, lex_leq()),
        0 <= k <= s.len(),
    ensures
        sorted_by(s.take(k), lex_leq()),
{
    let t = s.take(k);
    assert forall|i: int, j: int| 0 <= i < j < t.len() implies #[trigger] lex_leq()(
        t[i],
        t[j],
    ) by {
        assert(t[i] == s[i]);
        assert(t[j] == s[j]);
        assert(lex_leq()(s[i], s[j]));
    }
}

} // verus!
