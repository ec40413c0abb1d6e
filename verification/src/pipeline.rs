//! The sort orchestrator: the end-to-end pipeline.
//!
//! Input bytes are split into lines, collected into batches bounded by a
//! line count and a cumulative byte budget, and each batch is sorted into a
//! run. Every few batches the accumulated unmerged runs are grouped and
//! merged; under memory pressure the merge streams to temporary storage
//! instead. Once input is exhausted, a final k-way merge across all
//! remaining runs produces the output: the sorted permutation of the input
//! lines, each followed by the delimiter.

use vstd::prelude::*;
use vstd::multiset::Multiset;
use vstd::relations::sorted_by;
use crate::batch::{lemma_lines_ok_multiset, run_sort};
use crate::chunks::append_range;
use crate::line::{
    lemma_lex_total_ordering, lex_leq, line_ok, lines_ok, sort_spec, views, Line, DELIMITER,
};
use crate::merge::{
    build_pool, count_flushed, count_unmerged, groups_lines, lemma_counts_nonneg, merge_pool,
    run_merge, run_merge_flush, runs_lines, runs_unflushed, runs_wf,
};
use crate::line::reverse_lines;
use crate::run::{SortError, SortedChunk};

verus! {

broadcast use {
    vstd::seq_lib::group_to_multiset_ensures,
    vstd::multiset::group_multiset_axioms,
    vstd::seq_lib::lemma_multiset_commutative,
};

/// How many runs one merge job takes: the fan-in factor.
pub const N_WAY_MERGE: usize = 5;

/// The segments of `s` between occurrences of `d`, with no segment for a
/// trailing delimiter: what splitting a stream on its line delimiter reads.
pub open spec fn split_seq(s: Seq<u8>, d: u8) -> Seq<Seq<u8>>
    decreases s.len(),
{
    if s.len() == 0 {
        Seq::empty()
    } else if s.first() == d {
        seq![Seq::<u8>::empty()] + split_seq(s.drop_first(), d)
    } else {
        let rest = split_seq(s.drop_first(), d);
        if rest.len() == 0 {
            seq![s]
        } else {
            seq![seq![s.first()] + rest.first()] + rest.drop_first()
        }
    }
}

/// The lines joined back into one byte stream, each line followed by the
/// delimiter.
pub open spec fn joined(s: Seq<Seq<u8>>, d: u8) -> Seq<u8>
    decreases s.len(),
{
    if s.len() == 0 {
        Seq::empty()
    } else {
        s.first() + seq![d] + joined(s.drop_first(), d)
    }
}

/// The lines of several streams, in stream-list order, with no
/// concatenation across stream boundaries.
pub open spec fn streams_lines(ss: Seq<Seq<u8>>, d: u8) -> Seq<Seq<u8>>
    decreases ss.len(),
{
    if ss.len() == 0 {
        Seq::empty()
    } else {
        split_seq(ss.first(), d) + streams_lines(ss.drop_first(), d)
    }
}

/// Splitting a delimiter-free block, one delimiter, and a remainder yields
/// the block and then the remainder's segments.
proof fn lemma_split_prefix(cur: Seq<u8>, rest: Seq<u8>, d: u8)
    requires
        forall|i: int| 0 <= i < cur.len() ==> cur[i] != d,
    ensures
        split_seq(cur + seq![d] + rest, d) == seq![cur] + split_seq(rest, d),
    decreases cur.len(),
{
    let s = cur + seq![d] + rest;
    if cur.len() == 0 {
        assert(s.first() == d);
        assert(s.drop_first() =~= rest);
        assert(cur =~= Seq::<u8>::empty());
        assert(split_seq(s, d) =~= seq![cur] + split_seq(rest, d));
    } else {
        assert(s.first() == cur[0]);
        assert(s.drop_first() =~= cur.drop_first() + seq![d] + rest);
        lemma_split_prefix(cur.drop_first(), rest, d);
        let inner = split_seq(s.drop_first(), d);
        assert(inner == seq![cur.drop_first()] + split_seq(rest, d));
        assert(inner.len() > 0);
        assert(inner.first() == cur.drop_first());
        assert(inner.drop_first() =~= split_seq(rest, d));
        assert(seq![s.first()] + inner.first() =~= cur);
        assert(split_seq(s, d) =~= seq![cur] + split_seq(rest, d));
    }
}

/// A non-empty block without any delimiter splits into itself alone.
proof fn lemma_split_single(cur: Seq<u8>, d: u8)
    requires
        cur.len() > 0,
        forall|i: int| 0 <= i < cur.len() ==> cur[i] != d,
    ensures
        split_seq(cur, d) == seq![cur],
    decreases cur.len(),
{
    if cur.len() == 1 {
        assert(cur.drop_first() =~= Seq::<u8>::empty());
        assert(split_seq(Seq::<u8>::empty(), d) =~= Seq::<Seq<u8>>::empty());
        assert(split_seq(cur, d) =~= seq![cur]);
    } else {
        lemma_split_single(cur.drop_first(), d);
        let inner = split_seq(cur.drop_first(), d);
        assert(inner == seq![cur.drop_first()]);
        assert(inner.first() == cur.drop_first());
        assert(inner.drop_first() =~= Seq::<Seq<u8>>::empty());
        assert(seq![cur.first()] + inner.first() =~= cur);
        assert(split_seq(cur, d) =~= seq![cur]);
    }
}

/// Appending one line extends the joined bytes by that line and a
/// delimiter.
proof fn lemma_joined_push(s: Seq<Seq<u8>>, x: Seq<u8>, d: u8)
    ensures
        joined(s.push(x), d) == joined(s, d) + x + seq![d],
    decreases s.len(),
{
    if s.len() == 0 {
        assert(s.push(x).first() == x);
        assert(s.push(x).drop_first() =~= Seq::<Seq<u8>>::empty());
        assert(joined(Seq::<Seq<u8>>::empty(), d) =~= Seq::<u8>::empty());
        assert(joined(s.push(x), d) =~= joined(s, d) + x + seq![d]);
    } else {
        lemma_joined_push(s.drop_first(), x, d);
        assert(s.push(x).drop_first() =~= s.drop_first().push(x));
        assert(s.push(x).first() == s.first());
        assert(joined(s.push(x), d) =~= joined(s, d) + x + seq![d]);
    }
}

/// One more stream contributes its lines after those before it.
proof fn lemma_streams_lines_push(ss: Seq<Seq<u8>>, x: Seq<u8>, d: u8)
    ensures
        streams_lines(ss.push(x), d) == streams_lines(ss, d) + split_seq(x, d),
    decreases ss.len(),
{
    if ss.len() == 0 {
        assert(ss.push(x).first() == x);
        assert(ss.push(x).drop_first() =~= Seq::<Seq<u8>>::empty());
        assert(streams_lines(Seq::<Seq<u8>>::empty(), d) =~= Seq::<Seq<u8>>::empty());
        assert(streams_lines(ss.push(x), d) =~= streams_lines(ss, d) + split_seq(x, d));
    } else {
        lemma_streams_lines_push(ss.drop_first(), x, d);
        assert(ss.push(x).drop_first() =~= ss.drop_first().push(x));
        assert(ss.push(x).first() == ss.first());
        assert(streams_lines(ss.push(x), d) =~= streams_lines(ss, d) + split_seq(x, d));
    }
}

/// Split one byte stream into its lines on the engine's delimiter.
#[verifier::loop_isolation(false)]
pub fn split_lines(data: &Vec<u8>) -> (r: Vec<Line>)
    ensures
        views(r@) == split_seq(data@, DELIMITER),
        lines_ok(views(r@)),
{
    let mut out: Vec<Line> = Vec::new();
    let mut cur: Vec<u8> = Vec::new();
    let mut i: usize = 0;
    proof {
        assert(cur@ + data@.skip(0) =~= data@);
        assert(views(out@) =~= Seq::<Seq<u8>>::empty());
        assert(views(out@) + split_seq(cur@ + data@.skip(0), DELIMITER) =~= split_seq(
            data@,
            DELIMITER,
        ));
    }
    while i < data.len()
        invariant
            i <= data@.len(),
            line_ok(cur@),
            lines_ok(views(out@)),
            views(out@) + split_seq(cur@ + data@.skip(i as int), DELIMITER) == split_seq(
                data@,
                DELIMITER,
            ),
        decreases data@.len() - i,
    {
        let b = data[i];
        let ghost curv = cur@;
        let ghost outv = views(out@);
        if b == DELIMITER {
            let mut done: Vec<u8> = Vec::new();
            std::mem::swap(&mut done, &mut cur);
            out.push(done);
            i = i + 1;
            proof {
                lemma_split_prefix(curv, data@.skip(i as int), DELIMITER);
                assert(curv + seq![DELIMITER] + data@.skip(i as int) =~= curv + data@.skip(
                    i as int - 1,
                ));
                assert(views(out@) =~= outv.push(curv));
                assert(cur@ + data@.skip(i as int) =~= data@.skip(i as int));
                assert(views(out@) + split_seq(cur@ + data@.skip(i as int), DELIMITER) =~= outv
                    + split_seq(curv + data@.skip(i as int - 1), DELIMITER));
                assert forall|t: int| 0 <= t < views(out@).len() implies #[trigger] line_ok(
                    views(out@)[t],
                ) by {
                    if t < outv.len() {
                        assert(line_ok(outv[t]));
                    } else {
                        assert(views(out@)[t] == curv);
                    }
                }
            }
        } else {
            cur.push(b);
            i = i + 1;
            proof {
                assert(cur@ + data@.skip(i as int) =~= curv + data@.skip(i as int - 1));
            }
        }
    }
    proof {
        assert(data@.skip(data@.len() as int) =~= Seq::<u8>::empty());
        assert(cur@ + data@.skip(data@.len() as int) =~= cur@);
    }
    if cur.len() > 0 {
        let ghost outv = views(out@);
        let ghost curv = cur@;
        proof {
            lemma_split_single(cur@, DELIMITER);
        }
        out.push(cur);
        proof {
            assert(views(out@) =~= outv + seq![curv]);
            assert(views(out@) =~= split_seq(data@, DELIMITER));
            assert forall|t: int| 0 <= t < views(out@).len() implies #[trigger] line_ok(
                views(out@)[t],
            ) by {
                if t < outv.len() {
                    assert(line_ok(outv[t]));
                } else {
                    assert(views(out@)[t] == curv);
                }
            }
        }
    } else {
        proof {
            assert(split_seq(cur@, DELIMITER) =~= Seq::<Seq<u8>>::empty());
            assert(views(out@) =~= split_seq(data@, DELIMITER));
        }
    }
    out
}

/// Join lines back into one byte stream, each line followed by the
/// delimiter.
#[verifier::loop_isolation(false)]
pub fn join_lines(lines: &Vec<Line>) -> (r: Vec<u8>)
    ensures
        r@ == joined(views(lines@), DELIMITER),
{
    let mut out: Vec<u8> = Vec::new();
    let mut t: usize = 0;
    proof {
        assert(views(lines@).take(0) =~= Seq::<Seq<u8>>::empty());
        assert(out@ =~= joined(views(lines@).take(0), DELIMITER));
    }
    while t < lines.len()
        invariant
            t <= lines@.len(),
            out@ == joined(views(lines@).take(t as int), DELIMITER),
        decreases lines@.len() - t,
    {
        let ghost before = out@;
        let line = &lines[t];
        append_range(&mut out, line, 0, line.len());
        out.push(DELIMITER);
        proof {
            lemma_joined_push(views(lines@).take(t as int), views(lines@)[t as int], DELIMITER);
            assert(views(lines@).take(t as int + 1) =~= views(lines@).take(t as int).push(
                views(lines@)[t as int],
            ));
            assert(line@.subrange(0, line@.len() as int) =~= line@);
            assert(out@ =~= joined(views(lines@).take(t as int + 1), DELIMITER));
        }
        t = t + 1;
    }
    proof {
        assert(views(lines@).take(lines@.len() as int) =~= views(lines@));
    }
    out
}

/// Tuning of the sort pipeline.
pub struct SortConfig {
    /// Cut a batch after this many lines.
    pub batch_size: usize,
    /// Dispatch merge rounds once this many buffered bytes accumulate,
    /// spilling when the budget is exceeded; `None` leaves memory unbounded.
    pub buffer_size: Option<usize>,
}

impl SortConfig {
    /// Both bounds, where given, must admit at least one line or byte.
    pub open spec fn wf(self) -> bool {
        &&& self.batch_size >= 1
        &&& match self.buffer_size {
            None => true,
            Some(b) => b >= 1,
        }
    }
}

/// The byte budget still has room.
/// Bytes across all the lines, delimiters not counted.
pub open spec fn bytes_of(s: Seq<Seq<u8>>) -> int
    decreases s.len(),
{
    if s.len() == 0 {
        0
    } else {
        bytes_of(s.drop_last()) + s.last().len()
    }
}

/// A prefix and the matching suffix account for all the bytes.
proof fn lemma_bytes_of_split(s: Seq<Seq<u8>>, k: int)
    requires
        0 <= k <= s.len(),
    ensures
        bytes_of(s) == bytes_of(s.take(k)) + bytes_of(s.skip(k)),
        bytes_of(s.take(k)) >= 0,
        bytes_of(s.skip(k)) >= 0,
    decreases s.len(),
{
    if k == s.len() {
        assert(s.take(k) =~= s);
        assert(s.skip(k) =~= Seq::<Seq<u8>>::empty());
        lemma_bytes_of_nonneg(s);
    } else {
        lemma_bytes_of_split(s.drop_last(), k);
        assert(s.take(k) =~= s.drop_last().take(k));
        assert(s.skip(k).drop_last() =~= s.drop_last().skip(k));
        assert(s.skip(k).last() == s.last());
    }
}

proof fn lemma_bytes_of_nonneg(s: Seq<Seq<u8>>)
    ensures
        bytes_of(s) >= 0,
    decreases s.len(),
{
    if s.len() > 0 {
        lemma_bytes_of_nonneg(s.drop_last());
    }
}

/// The whole input fits the byte budget, where one is set: no merge round
/// will spill, so the sort owes success.
pub open spec fn within_buffer(config: SortConfig, lines: Seq<Seq<u8>>) -> bool {
    match config.buffer_size {
        None => true,
        Some(b) => bytes_of(lines) <= b,
    }
}

/// The byte budget still has room for the next line.
pub open spec fn under_spec(buffer_size: Option<usize>, bytes: u128) -> bool {
    match buffer_size {
        None => true,
        Some(b) => bytes < b as u128,
    }
}

fn under_buffer(config: &SortConfig, bytes: u128) -> (r: bool)
    ensures
        r == under_spec(config.buffer_size, bytes),
{
    match config.buffer_size {
        None => true,
        Some(b) => bytes < b as u128,
    }
}

/// The byte budget is exceeded: merge rounds must spill.
pub fn over_buffer(config: &SortConfig, bytes: u128) -> (r: bool)
    ensures
        r == match config.buffer_size {
            None => false,
            Some(b) => bytes > b as u128,
        },
{
    match config.buffer_size {
        None => false,
        Some(b) => bytes > b as u128,
    }
}

/// Pull lines off the front of the pending input into a batch, until the
/// line count or the byte budget cuts it, or the input runs dry; the second
/// result tells the caller the input is exhausted.
///
/// The pending input is stored back to front — the next line to take is the
/// last element — as [`crate::line::reverse_lines`] leaves it. The consumed
/// lines grow the saturating byte tally by at most their lengths.
#[verifier::loop_isolation(false)]
pub fn collect_batch(rest: &mut Vec<Line>, config: &SortConfig, bytes: &mut u128) -> (r: (
    Vec<Line>,
    bool,
))
    requires
        config.wf(),
    ensures
        views(old(rest)@).reverse() == views(r.0@) + views(final(rest)@).reverse(),
        r.0@.len() <= config.batch_size,
        r.1 ==> final(rest)@.len() == 0,
        r.0@.len() == 0 ==> *final(bytes) == *old(bytes),
        r.0@.len() == 0 && !r.1 ==> !under_spec(config.buffer_size, *old(bytes)),
        *final(bytes) <= *old(bytes) + bytes_of(views(r.0@)),
{
    let ghost pending = views(old(rest)@).reverse();
    let mut batch: Vec<Line> = Vec::new();
    proof {
        assert(views(batch@) =~= Seq::<Seq<u8>>::empty());
        assert(pending =~= views(batch@) + views(rest@).reverse());
    }
    loop
        invariant
            pending == views(batch@) + views(rest@).reverse(),
            batch@.len() <= config.batch_size,
            batch@.len() == 0 ==> *bytes == *old(bytes),
            *bytes <= *old(bytes) + bytes_of(views(batch@)),
        decreases rest@.len(),
    {
        if batch.len() >= config.batch_size {
            return (batch, false);
        }
        if !under_buffer(config, *bytes) {
            return (batch, false);
        }
        let ghost rv = rest@;
        let l = match rest.pop() {
            None => {
                proof {
                    assert(views(rest@).reverse() =~= Seq::<Seq<u8>>::empty());
                }
                return (batch, true);
            },
            Some(l) => l,
        };
        let len = l.len();
        let grown = if *bytes <= u128::MAX - (len as u128) {
            *bytes + (len as u128)
        } else {
            u128::MAX
        };
        *bytes = grown;
        let ghost bv = views(batch@);
        batch.push(l);
        proof {
            assert(l@ == views(rv).reverse().first());
            assert(views(rest@) =~= views(rv).drop_last());
            assert(views(rest@).reverse() =~= views(rv).reverse().drop_first());
            assert(views(batch@) =~= bv.push(l@));
            assert(pending =~= views(batch@) + views(rest@).reverse());
            assert(views(batch@).drop_last() =~= bv);
            assert(views(batch@).last() == l@);
            assert(bytes_of(views(batch@)) == bytes_of(bv) + l@.len());
        }
    }
}

/// One merge round's grouping decision: take the unmerged, unflushed runs
/// out of the registry in fan-in-sized groups, requeueing merged, flushed
/// and leftover runs untouched. The groups and the registry together hold
/// exactly the lines the registry held, and a registry holding at least a
/// fan-in's worth of unmerged runs yields at least one group.
#[verifier::loop_isolation(false)]
pub fn plan_merges(registry: &mut Vec<SortedChunk>) -> (groups: Vec<Vec<SortedChunk>>)
    requires
        runs_wf(old(registry)@),
    ensures
        runs_wf(final(registry)@),
        forall|g: int|
            0 <= g < groups@.len() ==> runs_wf((#[trigger] groups@[g])@) && groups@[g]@.len()
                == N_WAY_MERGE,
        forall|g: int, i: int|
            0 <= g < groups@.len() && 0 <= i < groups@[g]@.len() ==> !(
            #[trigger] groups@[g]@[i]).merged_flag() && !groups@[g]@[i].flushed(),
        groups_lines(groups@).add(runs_lines(final(registry)@)) == runs_lines(old(registry)@),
        runs_unflushed(old(registry)@) ==> runs_unflushed(final(registry)@) && (forall|g: int|
            0 <= g < groups@.len() ==> runs_unflushed((#[trigger] groups@[g])@)),
        count_unmerged(old(registry)@) >= N_WAY_MERGE ==> groups@.len() >= 1,
{
    let ghost total = runs_lines(old(registry)@);
    let ghost uf = runs_unflushed(old(registry)@);
    let ghost unm = count_unmerged(old(registry)@);
    let mut src: Vec<SortedChunk> = Vec::new();
    std::mem::swap(&mut src, registry);
    let mut group: Vec<SortedChunk> = Vec::new();
    let mut groups: Vec<Vec<SortedChunk>> = Vec::new();
    proof {
        assert(runs_lines(registry@) =~= Multiset::<Seq<u8>>::empty());
        assert(runs_lines(group@) =~= Multiset::<Seq<u8>>::empty());
        assert(groups_lines(groups@) =~= Multiset::<Seq<u8>>::empty());
        assert(runs_lines(src@).add(runs_lines(group@)).add(groups_lines(groups@)).add(
            runs_lines(registry@),
        ) =~= total);
    }
    while src.len() > 0
        invariant
            runs_wf(src@),
            runs_wf(group@),
            runs_wf(registry@),
            forall|g: int|
                0 <= g < groups@.len() ==> runs_wf((#[trigger] groups@[g])@) && groups@[g]@.len()
                    == N_WAY_MERGE,
            forall|t: int|
                0 <= t < group@.len() ==> !(#[trigger] group@[t]).merged_flag()
                    && !group@[t].flushed(),
            forall|g: int, i: int|
                0 <= g < groups@.len() && 0 <= i < groups@[g]@.len() ==> !(
                #[trigger] groups@[g]@[i]).merged_flag() && !groups@[g]@[i].flushed(),
            group@.len() < N_WAY_MERGE,
            runs_lines(src@).add(runs_lines(group@)).add(groups_lines(groups@)).add(
                runs_lines(registry@),
            ) == total,
            count_unmerged(src@) + group@.len() + N_WAY_MERGE * groups@.len() >= unm,
            uf ==> runs_unflushed(src@) && runs_unflushed(group@) && runs_unflushed(registry@) && (
            forall|g: int| 0 <= g < groups@.len() ==> runs_unflushed((#[trigger] groups@[g])@)),
        decreases src.len(),
    {
        let ghost before = src@;
        let c = match src.pop() {
            Some(c) => c,
            None => {
                return vstd::pervasive::unreached();
            },
        };
        proof {
            assert(before =~= src@.push(c));
            crate::merge::lemma_runs_lines_push(src@, c);
            assert(before.drop_last() =~= src@);
            assert(count_unmerged(before) == count_unmerged(src@) + if !c.merged_flag()
                && !c.flushed() {
                1int
            } else {
                0int
            });
            assert forall|t: int| 0 <= t < src@.len() implies (#[trigger] src@[t]).wf() by {
                assert(src@[t] == before[t]);
                assert(before[t].wf());
            }
            assert(c.wf()) by {
                assert(before[before.len() - 1].wf());
            }
            if uf {
                assert forall|t: int| 0 <= t < src@.len() implies !(#[trigger] src@[t]).flushed() by {
                    assert(src@[t] == before[t]);
                    assert(!before[t].flushed());
                }
                assert(!c.flushed()) by {
                    assert(!before[before.len() - 1].flushed());
                }
            }
        }
        if c.is_flushed() || c.is_merged() {
            let ghost keep = registry@;
            registry.push(c);
            proof {
                crate::merge::lemma_runs_lines_push(keep, c);
                lemma_pushed_pool(keep, c, uf);
                assert(runs_lines(src@).add(runs_lines(group@)).add(groups_lines(groups@)).add(
                    runs_lines(registry@),
                ) =~= total);
            }
        } else {
            let ghost grp = group@;
            group.push(c);
            proof {
                crate::merge::lemma_runs_lines_push(grp, c);
                lemma_pushed_pool(grp, c, uf);
                assert(runs_lines(src@).add(runs_lines(group@)).add(groups_lines(groups@)).add(
                    runs_lines(registry@),
                ) =~= total);
                assert forall|t: int| 0 <= t < group@.len() implies !(
                #[trigger] group@[t]).merged_flag() && !group@[t].flushed() by {
                    if t < grp.len() {
                        assert(group@[t] == grp[t]);
                        assert(!grp[t].merged_flag() && !grp[t].flushed());
                    } else {
                        assert(group@[t] == c);
                    }
                }
            }
            if group.len() >= N_WAY_MERGE {
                let mut g: Vec<SortedChunk> = Vec::new();
                std::mem::swap(&mut g, &mut group);
                let ghost gs = groups@;
                groups.push(g);
                proof {
                    assert(groups@.drop_last() =~= gs);
                    assert(groups@.last() == g);
                    assert(groups_lines(groups@) == groups_lines(gs).add(runs_lines(g@)));
                    assert(runs_lines(group@) =~= Multiset::<Seq<u8>>::empty());
                    assert(runs_lines(src@).add(runs_lines(group@)).add(groups_lines(groups@)).add(
                        runs_lines(registry@),
                    ) =~= total);
                    assert forall|t: int| 0 <= t < groups@.len() implies runs_wf(
                        (#[trigger] groups@[t])@,
                    ) && groups@[t]@.len() == N_WAY_MERGE by {
                        if t < gs.len() {
                            assert(groups@[t] == gs[t]);
                        } else {
                            assert(groups@[t] == g);
                        }
                    }
                    assert forall|t: int, i: int|
                        0 <= t < groups@.len() && 0 <= i < groups@[t]@.len() implies !(
                    #[trigger] groups@[t]@[i]).merged_flag() && !groups@[t]@[i].flushed() by {
                        if t < gs.len() {
                            assert(groups@[t] == gs[t]);
                            assert(!gs[t]@[i].merged_flag() && !gs[t]@[i].flushed());
                        } else {
                            assert(groups@[t] == g);
                        }
                    }
                    if uf {
                        assert forall|t: int| 0 <= t < groups@.len() implies runs_unflushed(
                            (#[trigger] groups@[t])@,
                        ) by {
                            if t < gs.len() {
                                assert(groups@[t] == gs[t]);
                            } else {
                                assert(groups@[t] == g);
                            }
                        }
                    }
                }
            }
        }
    }
    // Requeue the leftover group untouched.
    while group.len() > 0
        invariant
            runs_wf(group@),
            runs_wf(registry@),
            runs_lines(group@).add(groups_lines(groups@)).add(runs_lines(registry@)) == total,
            uf ==> runs_unflushed(group@) && runs_unflushed(registry@),
        decreases group.len(),
    {
        let ghost before = group@;
        let c = match group.pop() {
            Some(c) => c,
            None => {
                return vstd::pervasive::unreached();
            },
        };
        proof {
            assert(before =~= group@.push(c));
            crate::merge::lemma_runs_lines_push(group@, c);
            assert forall|t: int| 0 <= t < group@.len() implies (#[trigger] group@[t]).wf() by {
                assert(group@[t] == before[t]);
                assert(before[t].wf());
            }
            assert(c.wf()) by {
                assert(before[before.len() - 1].wf());
            }
            if uf {
                assert forall|t: int| 0 <= t < group@.len() implies !(
                #[trigger] group@[t]).flushed() by {
                    assert(group@[t] == before[t]);
                    assert(!before[t].flushed());
                }
                assert(!c.flushed()) by {
                    assert(!before[before.len() - 1].flushed());
                }
            }
        }
        let ghost keep = registry@;
        registry.push(c);
        proof {
            crate::merge::lemma_runs_lines_push(keep, c);
            lemma_pushed_pool(keep, c, uf);
            assert(runs_lines(group@).add(groups_lines(groups@)).add(runs_lines(registry@)) =~=
                total);
        }
    }
    proof {
        assert(runs_lines(group@) =~= Multiset::<Seq<u8>>::empty());
        assert(groups_lines(groups@).add(runs_lines(registry@)) =~= total);
        lemma_counts_nonneg(src@);
    }
    groups
}

/// One merge round: group the registry through [`plan_merges`] and merge
/// each group on the calling thread, spilling to temporary storage when the
/// byte budget was exceeded. The registry holds the same lines after the
/// round as before it, and a spilling round over at least a fan-in's worth
/// of unmerged runs leaves a file-backed run in the registry.
#[verifier::loop_isolation(false)]
fn dispatch_merges(registry: &mut Vec<SortedChunk>, spill: bool, spills: &mut usize) -> (r: Result<
    (),
    SortError,
>)
    requires
        runs_wf(old(registry)@),
    ensures
        !spill && runs_unflushed(old(registry)@) ==> r is Ok && runs_unflushed(final(registry)@),
        !spill ==> *final(spills) == *old(spills),
        *final(spills) >= *old(spills),
        r is Ok ==> runs_wf(final(registry)@) && runs_lines(final(registry)@) == runs_lines(
            old(registry)@,
        ),
        spill && r is Ok && count_unmerged(old(registry)@) >= N_WAY_MERGE ==> count_flushed(
            final(registry)@,
        ) >= 1,
{
    let ghost total = runs_lines(old(registry)@);
    let ghost uf = runs_unflushed(old(registry)@);
    let mut groups = plan_merges(registry);
    let ghost g0 = groups@.len();
    while groups.len() > 0
        invariant
            runs_wf(registry@),
            forall|g: int| 0 <= g < groups@.len() ==> runs_wf((#[trigger] groups@[g])@),
            groups_lines(groups@).add(runs_lines(registry@)) == total,
            !spill && uf ==> runs_unflushed(registry@) && (forall|g: int|
                0 <= g < groups@.len() ==> runs_unflushed((#[trigger] groups@[g])@)),
            !spill ==> *spills == *old(spills),
            *spills >= *old(spills),
            spill && groups@.len() < g0 ==> count_flushed(registry@) >= 1,
        decreases groups.len(),
    {
        let ghost before = groups@;
        let g = match groups.pop() {
            Some(g) => g,
            None => {
                return vstd::pervasive::unreached();
            },
        };
        proof {
            assert(before.drop_last() =~= groups@);
            assert(before.last() == g);
            assert(groups_lines(before) == groups_lines(groups@).add(runs_lines(g@)));
            assert(runs_wf(g@)) by {
                assert(runs_wf((before[before.len() - 1])@));
            }
            assert forall|t: int| 0 <= t < groups@.len() implies runs_wf(
                (#[trigger] groups@[t])@,
            ) by {
                assert(groups@[t] == before[t]);
            }
            if !spill && uf {
                assert(runs_unflushed(g@)) by {
                    assert(runs_unflushed((before[before.len() - 1])@));
                }
                assert forall|t: int| 0 <= t < groups@.len() implies runs_unflushed(
                    (#[trigger] groups@[t])@,
                ) by {
                    assert(groups@[t] == before[t]);
                }
            }
        }
        let merged = if spill {
            let s = *spills;
            if s < usize::MAX {
                *spills = s + 1;
            }
            match run_merge_flush(g) {
                Err(e) => {
                    return Err(e);
                },
                Ok(m) => m,
            }
        } else {
            match run_merge(g) {
                Err(e) => {
                    return Err(e);
                },
                Ok(m) => m,
            }
        };
        let ghost keep = registry@;
        registry.push(merged);
        proof {
            crate::merge::lemma_runs_lines_push(keep, merged);
            lemma_pushed_pool(keep, merged, !spill && uf);
            assert(groups_lines(groups@).add(runs_lines(registry@)) =~= total);
            assert(registry@.drop_last() =~= keep);
            assert(registry@.last() == merged);
            assert(count_flushed(registry@) == count_flushed(keep) + if merged.flushed() {
                1int
            } else {
                0int
            });
            lemma_counts_nonneg(keep);
        }
    }
    proof {
        assert(groups_lines(groups@) =~= Multiset::<Seq<u8>>::empty());
        assert(runs_lines(registry@) =~= total);
    }
    Ok(())
}

/// Pushing a well-formed run onto a well-formed pool keeps it well-formed,
/// and unflushed when asked to track that.
proof fn lemma_pushed_pool(pool: Seq<SortedChunk>, c: SortedChunk, track_unflushed: bool)
    requires
        runs_wf(pool),
        c.wf(),
        track_unflushed ==> runs_unflushed(pool) && !c.flushed(),
    ensures
        runs_wf(pool.push(c)),
        track_unflushed ==> runs_unflushed(pool.push(c)),
{
    let p = pool.push(c);
    assert forall|t: int| 0 <= t < p.len() implies (#[trigger] p[t]).wf() by {
        if t < pool.len() {
            assert(p[t] == pool[t]);
            assert(pool[t].wf());
        } else {
            assert(p[t] == c);
        }
    }
    if track_unflushed {
        assert forall|t: int| 0 <= t < p.len() implies !(#[trigger] p[t]).flushed() by {
            if t < pool.len() {
                assert(p[t] == pool[t]);
                assert(!pool[t].flushed());
            } else {
                assert(p[t] == c);
            }
        }
    }
}

/// Run the whole pipeline over lines already split from their streams:
/// collect bounded batches, sort each into a run, merge accumulated runs
/// every few batches — spilling when the byte budget is exceeded — and
/// k-way merge everything at the end. The output is the sorted permutation
/// of the input lines; the count says how many merge rounds spilled. Where
/// the whole input fits the byte budget (or none is set) nothing spills and
/// nothing can fail.
#[verifier::loop_isolation(false)]
pub fn sort_pipeline(lines: Vec<Line>, config: &SortConfig) -> (r: Result<
    (Vec<Line>, usize),
    SortError,
>)
    requires
        config.wf(),
        lines_ok(views(lines@)),
    ensures
        within_buffer(*config, views(lines@)) ==> r is Ok,
        r matches Ok(out) ==> {
            &&& views(out.0@) == sort_spec(views(lines@))
            &&& sorted_by(views(out.0@), lex_leq())
            &&& views(out.0@).to_multiset() == views(lines@).to_multiset()
            &&& lines_ok(views(out.0@))
            &&& (within_buffer(*config, views(lines@)) ==> out.1 == 0)
        },
{
    let ghost total = views(lines@);
    let ghost fits = within_buffer(*config, total);
    let mut rest = reverse_lines(lines);
    let mut registry: Vec<SortedChunk> = Vec::new();
    let mut bytes: u128 = 0;
    let mut batches: usize = 0;
    let mut spills: usize = 0;
    let mut exhausted = false;
    let ghost mut consumed: int = 0;
    proof {
        assert(views(rest@).reverse() =~= total);
        assert(total.skip(0) =~= total);
        assert(runs_lines(registry@) =~= Multiset::<Seq<u8>>::empty());
        assert(runs_lines(registry@).add(views(rest@).reverse().to_multiset()) =~=
            total.to_multiset());
        assert(total.take(0) =~= Seq::<Seq<u8>>::empty());
    }
    while !exhausted
        invariant
            runs_wf(registry@),
            runs_lines(registry@).add(views(rest@).reverse().to_multiset()) == total.to_multiset(),
            lines_ok(views(rest@).reverse()),
            0 <= consumed <= total.len(),
            views(rest@).reverse() == total.skip(consumed),
            fits ==> spills == 0 && runs_unflushed(registry@) && bytes as int <= bytes_of(
                total.take(consumed),
            ),
            batches <= N_WAY_MERGE + 1,
            !exhausted ==> batches <= N_WAY_MERGE,
            exhausted ==> rest@.len() == 0,
        decreases rest@.len(), (if under_spec(config.buffer_size, bytes) {
            0int
        } else {
            1int
        }), N_WAY_MERGE + 1 - batches,
    {
        let ghost pending0 = views(rest@).reverse();
        let pair = collect_batch(&mut rest, config, &mut bytes);
        let batch = pair.0;
        if pair.1 {
            exhausted = true;
        }
        let ghost bviews = views(batch@);
        let ghost pending1 = views(rest@).reverse();
        proof {
            assert(pending0 =~= bviews + pending1);
            assert forall|t: int| 0 <= t < bviews.len() implies #[trigger] line_ok(bviews[t]) by {
                assert(bviews[t] == pending0[t]);
                assert(line_ok(pending0[t]));
            }
            assert forall|t: int| 0 <= t < pending1.len() implies #[trigger] line_ok(
                pending1[t],
            ) by {
                assert(pending1[t] == pending0[t + bviews.len()]);
                assert(line_ok(pending0[t + bviews.len()]));
            }
            // the batch is the next slice of the input, and the byte tally
            // grew by at most its size
            let c2 = consumed + bviews.len();
            assert(bviews =~= total.subrange(consumed, c2));
            assert(pending1.len() == total.skip(c2).len());
            assert forall|t: int| 0 <= t < pending1.len() implies pending1[t] == total.skip(
                c2,
            )[t] by {
                assert(pending1[t] == pending0[t + bviews.len()]);
                assert(pending0[t + bviews.len()] == total.skip(consumed)[t + bviews.len()]);
            }
            assert(pending1 =~= total.skip(c2));
            if fits {
                lemma_bytes_of_split(total.take(c2), consumed);
                assert(total.take(c2).take(consumed) =~= total.take(consumed));
                assert(total.take(c2).skip(consumed) =~= bviews);
                assert(bytes as int <= bytes_of(total.take(c2)));
            }
            consumed = c2;
        }
        let run = run_sort(batch);
        let ghost reg0 = registry@;
        registry.push(run);
        proof {
            crate::merge::lemma_runs_lines_push(reg0, run);
            lemma_pushed_pool(reg0, run, fits);
            assert(pending0.to_multiset() == bviews.to_multiset().add(pending1.to_multiset()));
            assert(runs_lines(registry@).add(views(rest@).reverse().to_multiset()) =~=
                total.to_multiset());
        }
        if batches <= N_WAY_MERGE {
            batches = batches + 1;
        }
        let over = over_buffer(config, bytes);
        proof {
            // an input within the budget never pushes the tally over it
            if fits {
                lemma_bytes_of_split(total, consumed);
                assert(total.take(consumed) =~= total.take(consumed));
                assert(bytes_of(total.take(consumed)) <= bytes_of(total));
                assert(!over);
            }
        }
        if !exhausted && (over || batches > N_WAY_MERGE) {
            batches = 0;
            match dispatch_merges(&mut registry, over, &mut spills) {
                Err(e) => {
                    return Err(e);
                },
                Ok(()) => {},
            }
            bytes = 0;
            proof {
                if fits {
                    lemma_bytes_of_split(total.take(consumed), 0);
                }
            }
        }
    }
    proof {
        assert(views(rest@).reverse() =~= Seq::<Seq<u8>>::empty());
        assert(views(rest@).reverse().to_multiset() =~= Multiset::<Seq<u8>>::empty());
        assert(runs_lines(registry@) =~= total.to_multiset());
    }
    let pool = build_pool(registry);
    let sorted = match merge_pool(pool) {
        Err(e) => {
            return Err(e);
        },
        Ok(s) => s,
    };
    proof {
        lemma_lex_total_ordering();
        total.lemma_sort_by_ensures(lex_leq());
        vstd::seq_lib::lemma_sorted_unique(views(sorted@), sort_spec(total), lex_leq());
        lemma_lines_ok_multiset(total, views(sorted@));
    }
    Ok((sorted, spills))
}

/// Sort whole byte streams, in stream-list order: split each into lines,
/// run the pipeline, and join the sorted lines, each followed by the
/// delimiter. The second result counts the merge rounds that spilled.
#[verifier::loop_isolation(false)]
pub fn sort_bytes(streams: &Vec<Vec<u8>>, config: &SortConfig) -> (r: Result<
    (Vec<u8>, usize),
    SortError,
>)
    requires
        config.wf(),
    ensures
        within_buffer(*config, streams_lines(views(streams@), DELIMITER)) ==> r is Ok,
        r matches Ok(out) ==> {
            &&& out.0@ == joined(sort_spec(streams_lines(views(streams@), DELIMITER)), DELIMITER)
            &&& (within_buffer(*config, streams_lines(views(streams@), DELIMITER)) ==> out.1 == 0)
        },
{
    let mut all: Vec<Line> = Vec::new();
    let mut k: usize = 0;
    proof {
        assert(views(streams@).take(0) =~= Seq::<Seq<u8>>::empty());
        assert(streams_lines(views(streams@).take(0), DELIMITER) =~= Seq::<Seq<u8>>::empty());
        assert(views(all@) =~= streams_lines(views(streams@).take(0), DELIMITER));
    }
    while k < streams.len()
        invariant
            k <= streams@.len(),
            views(all@) == streams_lines(views(streams@).take(k as int), DELIMITER),
            lines_ok(views(all@)),
        decreases streams@.len() - k,
    {
        let ghost acc = views(all@);
        let mut part = split_lines(&streams[k]);
        let ghost pv = views(part@);
        all.append(&mut part);
        proof {
            lemma_streams_lines_push(views(streams@).take(k as int), views(streams@)[k as int],
                DELIMITER);
            assert(views(streams@).take(k as int + 1) =~= views(streams@).take(k as int).push(
                views(streams@)[k as int],
            ));
            assert(views(all@) =~= acc + pv);
            assert(views(all@) =~= streams_lines(views(streams@).take(k as int + 1), DELIMITER));
            assert forall|t: int| 0 <= t < views(all@).len() implies #[trigger] line_ok(
                views(all@)[t],
            ) by {
                if t < acc.len() {
                    assert(line_ok(acc[t]));
                } else {
                    assert(views(all@)[t] == pv[t - acc.len()]);
                    assert(line_ok(pv[t - acc.len()]));
                }
            }
        }
        k = k + 1;
    }
    proof {
        assert(views(streams@).take(streams@.len() as int) =~= views(streams@));
    }
    let ghost all_lines = views(all@);
    let pair = match sort_pipeline(all, config) {
        Err(e) => {
            return Err(e);
        },
        Ok(p) => p,
    };
    let out = join_lines(&pair.0);
    Ok((out, pair.1))
}

/// Sorting lines that are already sorted changes nothing: the sorted
/// permutation of a sorted sequence is that sequence.
pub proof fn lemma_sort_idempotent(s: Seq<Seq<u8>>)
    requires
        sorted_by(s, lex_leq()),
    ensures
        sort_spec(s) == s,
{
    lemma_lex_total_ordering();
    s.lemma_sort_by_ensures(lex_leq());
    vstd::seq_lib::lemma_sorted_unique(sort_spec(s), s, lex_leq());
}

/// Joining the lines of a delimiter-terminated stream restores the stream.
proof fn lemma_join_split(data: Seq<u8>)
    requires
        data.len() == 0 || data.last() == DELIMITER,
    ensures
        joined(split_seq(data, DELIMITER), DELIMITER) == data,
    decreases data.len(),
{
    let d = DELIMITER;
    if data.len() == 0 {
        assert(joined(split_seq(data, d), d) =~= data);
    } else if data.first() == d {
        let rest = data.drop_first();
        lemma_join_split(rest);
        let sp = split_seq(data, d);
        assert(sp == seq![Seq::<u8>::empty()] + split_seq(rest, d));
        assert(sp.first() == Seq::<u8>::empty());
        assert(sp.drop_first() =~= split_seq(rest, d));
        assert(joined(sp, d) =~= data);
    } else {
        let rest = data.drop_first();
        assert(rest.len() > 0) by {
            assert(data.last() == d);
            assert(data.first() != d);
        }
        assert(rest.last() == data.last());
        lemma_join_split(rest);
        let inner = split_seq(rest, d);
        assert(inner.len() > 0) by {
            if inner.len() == 0 {
                assert(joined(inner, d) =~= Seq::<u8>::empty());
            }
        }
        let sp = split_seq(data, d);
        assert(sp == seq![seq![data.first()] + inner.first()] + inner.drop_first());
        assert(sp.first() == seq![data.first()] + inner.first());
        assert(sp.drop_first() =~= inner.drop_first());
        assert(joined(inner, d) == inner.first() + seq![d] + joined(inner.drop_first(), d));
        assert(inner.first() + seq![d] + joined(inner.drop_first(), d) == rest);
        assert(joined(sp, d) == sp.first() + seq![d] + joined(sp.drop_first(), d));
        assert(joined(sp, d) =~= seq![data.first()] + inner.first() + seq![d] + joined(
            inner.drop_first(),
            d,
        ));
        assert(joined(sp, d) =~= seq![data.first()] + rest);
        assert(seq![data.first()] + rest =~= data);
    }
}

/// Sorting an already-sorted, delimiter-terminated stream is byte-identical:
/// what the pipeline emits for it is the stream itself.
pub proof fn lemma_sort_bytes_idempotent(data: Seq<u8>)
    requires
        sorted_by(split_seq(data, DELIMITER), lex_leq()),
        data.len() == 0 || data.last() == DELIMITER,
    ensures
        joined(sort_spec(split_seq(data, DELIMITER)), DELIMITER) == data,
{
    lemma_sort_idempotent(split_seq(data, DELIMITER));
    lemma_join_split(data);
}

} // verus!
