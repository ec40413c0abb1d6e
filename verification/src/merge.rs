//! k-way merge of sorted runs.
//!
//! The merge keeps a pool of non-exhausted runs. One step picks the run with
//! the smallest head, drains it until its head would pass the next-smallest
//! head among the others (or fully, when it is the last run), and puts it
//! back if lines remain. Repeating the step until the pool is empty emits
//! every line the runs held, in order, holding at most one such slice in
//! memory at a time.

use vstd::prelude::*;
use vstd::multiset::Multiset;
use vstd::relations::sorted_by;
use crate::line::{lex_le, lex_leq, line_le, line_ok, lines_ok, views, Line};
use crate::line::{lemma_lex_le_connected, lemma_lex_le_refl, lemma_lex_le_transitive};
use crate::run::{
    drain_cut, lemma_drain_cut_bounds, lemma_sorted_prefix, SortError, SortedChunk,
};
use crate::spill::{spill_finish, spill_push, spill_writer_lines, spill_writer_new};

verus! {

broadcast use {
    vstd::seq_lib::group_to_multiset_ensures,
    vstd::multiset::group_multiset_axioms,
    vstd::seq_lib::lemma_multiset_commutative,
};

/// Every run of the pool is well-formed.
pub open spec fn runs_wf(rs: Seq<SortedChunk>) -> bool {
    forall|i: int| 0 <= i < rs.len() ==> (#[trigger] rs[i]).wf()
}

/// Every run of the pool still has lines to emit.
pub open spec fn runs_nonempty(rs: Seq<SortedChunk>) -> bool {
    forall|i: int| 0 <= i < rs.len() ==> (#[trigger] rs[i])@.len() > 0
}

/// No run of the pool is backed by temporary storage. A merge over such a
/// pool touches no storage, so it cannot fail.
pub open spec fn runs_unflushed(rs: Seq<SortedChunk>) -> bool {
    forall|i: int| 0 <= i < rs.len() ==> !(#[trigger] rs[i]).flushed()
}

/// All lines the runs of the pool together still hold, as a multiset.
pub open spec fn runs_lines(rs: Seq<SortedChunk>) -> Multiset<Seq<u8>>
    decreases rs.len(),
{
    if rs.len() == 0 {
        Multiset::empty()
    } else {
        rs.first()@.to_multiset().add(runs_lines(rs.drop_first()))
    }
}

/// Runs of the pool that no merge produced and no spill backs: the ones a
/// merge round groups.
pub open spec fn count_unmerged(rs: Seq<SortedChunk>) -> int
    decreases rs.len(),
{
    if rs.len() == 0 {
        0
    } else {
        count_unmerged(rs.drop_last()) + if !rs.last().merged_flag() && !rs.last().flushed() {
            1int
        } else {
            0int
        }
    }
}

/// Runs of the pool that are backed by temporary storage.
pub open spec fn count_flushed(rs: Seq<SortedChunk>) -> int
    decreases rs.len(),
{
    if rs.len() == 0 {
        0
    } else {
        count_flushed(rs.drop_last()) + if rs.last().flushed() {
            1int
        } else {
            0int
        }
    }
}

/// All lines the grouped runs together still hold, as a multiset.
pub open spec fn groups_lines(gs: Seq<Vec<SortedChunk>>) -> Multiset<Seq<u8>>
    decreases gs.len(),
{
    if gs.len() == 0 {
        Multiset::empty()
    } else {
        groups_lines(gs.drop_last()).add(runs_lines(gs.last()@))
    }
}

/// The pool counts never run below zero.
pub proof fn lemma_counts_nonneg(rs: Seq<SortedChunk>)
    ensures
        count_unmerged(rs) >= 0,
        count_flushed(rs) >= 0,
    decreases rs.len(),
{
    if rs.len() > 0 {
        lemma_counts_nonneg(rs.drop_last());
    }
}

/// `b` is at most every line every run of the pool still holds.
pub open spec fn runs_lower_bound(rs: Seq<SortedChunk>, b: Seq<u8>) -> bool {
    forall|i: int, u: int|
        0 <= i < rs.len() && 0 <= u < rs[i]@.len() ==> lex_le(b, #[trigger] rs[i]@[u])
}

/// `b` is at most every line of `a`.
pub open spec fn seq_lower_bound(a: Seq<Seq<u8>>, b: Seq<u8>) -> bool {
    forall|t: int| 0 <= t < a.len() ==> lex_le(b, #[trigger] a[t])
}

/// Every line of `a` is at most every line every run of the pool holds.
pub open spec fn lines_below_runs(a: Seq<Seq<u8>>, rs: Seq<SortedChunk>) -> bool {
    forall|t: int| 0 <= t < a.len() ==> runs_lower_bound(rs, #[trigger] a[t])
}

/// Appending a run to the pool adds its lines to the pool's multiset.
pub proof fn lemma_runs_lines_push(rs: Seq<SortedChunk>, c: SortedChunk)
    ensures
        runs_lines(rs.push(c)) == runs_lines(rs).add(c@.to_multiset()),
    decreases rs.len(),
{
    if rs.len() == 0 {
        assert(runs_lines(Seq::<SortedChunk>::empty()) =~= Multiset::<Seq<u8>>::empty());
        assert(rs.push(c).drop_first() =~= Seq::<SortedChunk>::empty());
        assert(rs.push(c).first() == c);
        assert(runs_lines(rs.push(c)) =~= runs_lines(rs).add(c@.to_multiset()));
    } else {
        lemma_runs_lines_push(rs.drop_first(), c);
        assert(rs.push(c).drop_first() =~= rs.drop_first().push(c));
        assert(rs.push(c).first() == rs.first());
        assert(runs_lines(rs.push(c)) =~= runs_lines(rs).add(c@.to_multiset()));
    }
}

/// Taking a run out of the pool takes exactly its lines out of the pool's
/// multiset.
proof fn lemma_runs_lines_remove(rs: Seq<SortedChunk>, i: int)
    requires
        0 <= i < rs.len(),
    ensures
        runs_lines(rs) == rs[i]@.to_multiset().add(runs_lines(rs.remove(i))),
    decreases i,
{
    if i == 0 {
        assert(rs.remove(0) =~= rs.drop_first());
    } else {
        lemma_runs_lines_remove(rs.drop_first(), i - 1);
        assert(rs.remove(i).drop_first() =~= rs.drop_first().remove(i - 1));
        assert(rs.remove(i).first() == rs.first());
        assert(rs.drop_first()[i - 1] == rs[i]);
        assert(runs_lines(rs) =~= rs[i]@.to_multiset().add(runs_lines(rs.remove(i))));
    }
}

/// A sequence splits, as a multiset, into any prefix and the matching
/// suffix.
proof fn lemma_take_skip_multiset(s: Seq<Seq<u8>>, k: int)
    requires
        0 <= k <= s.len(),
    ensures
        s.to_multiset() == s.take(k).to_multiset().add(s.skip(k).to_multiset()),
{
    assert(s =~= s.take(k) + s.skip(k));
}

/// Taking one run out keeps the pool well-formed and keeps every lower
/// bound that held of the whole pool.
proof fn lemma_pool_remove(rs: Seq<SortedChunk>, i: int)
    requires
        runs_wf(rs),
        runs_nonempty(rs),
        0 <= i < rs.len(),
    ensures
        runs_wf(rs.remove(i)),
        runs_nonempty(rs.remove(i)),
        runs_unflushed(rs) ==> runs_unflushed(rs.remove(i)),
        forall|b: Seq<u8>| #[trigger] runs_lower_bound(rs, b) ==> runs_lower_bound(
            rs.remove(i),
            b,
        ),
{
    let rr = rs.remove(i);
    if runs_unflushed(rs) {
        assert forall|t: int| 0 <= t < rr.len() implies !(#[trigger] rr[t]).flushed() by {
            if t < i {
                assert(rr[t] == rs[t]);
                assert(!rs[t].flushed());
            } else {
                assert(rr[t] == rs[t + 1]);
                assert(!rs[t + 1].flushed());
            }
        }
    }
    assert forall|t: int| 0 <= t < rr.len() implies (#[trigger] rr[t]).wf() by {
        if t < i {
            assert(rr[t] == rs[t]);
            assert(rs[t].wf());
        } else {
            assert(rr[t] == rs[t + 1]);
            assert(rs[t + 1].wf());
        }
    }
    assert forall|t: int| 0 <= t < rr.len() implies (#[trigger] rr[t])@.len() > 0 by {
        if t < i {
            assert(rr[t] == rs[t]);
            assert(rs[t]@.len() > 0);
        } else {
            assert(rr[t] == rs[t + 1]);
            assert(rs[t + 1]@.len() > 0);
        }
    }
    assert forall|b: Seq<u8>| #[trigger] runs_lower_bound(rs, b) implies runs_lower_bound(
        rr,
        b,
    ) by {
        assert forall|t: int, u: int| 0 <= t < rr.len() && 0 <= u < rr[t]@.len() implies lex_le(
            b,
            #[trigger] rr[t]@[u],
        ) by {
            if t < i {
                assert(rr[t] == rs[t]);
                assert(lex_le(b, rs[t]@[u]));
            } else {
                assert(rr[t] == rs[t + 1]);
                assert(lex_le(b, rs[t + 1]@[u]));
            }
        }
    }
}

/// A bound below every run's head is below every line the pool holds.
proof fn lemma_min_head_bounds(rs: Seq<SortedChunk>, m: Seq<u8>)
    requires
        runs_wf(rs),
        runs_nonempty(rs),
        forall|p: int| 0 <= p < rs.len() ==> lex_le(m, (#[trigger] rs[p])@.first()),
    ensures
        runs_lower_bound(rs, m),
{
    assert forall|p: int, u: int| 0 <= p < rs.len() && 0 <= u < rs[p]@.len() implies lex_le(
        m,
        #[trigger] rs[p]@[u],
    ) by {
        assert(lex_le(m, rs[p]@.first()));
        assert(rs[p]@.first() == rs[p]@[0]);
        if u > 0 {
            assert(lex_leq()(rs[p]@[0], rs[p]@[u]));
            lemma_lex_le_transitive(m, rs[p]@[0], rs[p]@[u]);
        }
    }
}

/// Index of a run whose head is at most every other run's head.
fn min_head_index(runs: &Vec<SortedChunk>) -> (r: usize)
    requires
        runs@.len() > 0,
        runs_wf(runs@),
        runs_nonempty(runs@),
    ensures
        r < runs@.len(),
        forall|j: int| 0 <= j < runs@.len() ==> lex_le(runs@[r as int]@.first(), (#[trigger] runs@[j])@.first()),
{
    let mut best: usize = 0;
    let mut i: usize = 1;
    proof {
        lemma_lex_le_refl(runs@[0]@.first());
    }
    while i < runs.len()
        invariant
            runs@.len() > 0,
            runs_wf(runs@),
            runs_nonempty(runs@),
            best < i <= runs@.len(),
            forall|j: int|
                0 <= j < i ==> lex_le(runs@[best as int]@.first(), (#[trigger] runs@[j])@.first()),
        decreases runs@.len() - i,
    {
        let hb = match (&runs[best]).peek() {
            Some(l) => l,
            None => {
                return vstd::pervasive::unreached();
            },
        };
        let hc = match (&runs[i]).peek() {
            Some(l) => l,
            None => {
                return vstd::pervasive::unreached();
            },
        };
        if !line_le(hb, hc) {
            proof {
                lemma_lex_le_connected(hb@, hc@);
                assert forall|j: int| 0 <= j < i + 1 implies lex_le(
                    runs@[i as int]@.first(),
                    (#[trigger] runs@[j])@.first(),
                ) by {
                    if j < i {
                        lemma_lex_le_transitive(hc@, hb@, runs@[j]@.first());
                    } else {
                        lemma_lex_le_refl(hc@);
                    }
                }
            }
            best = i;
        }
        i = i + 1;
    }
    best
}

/// One merge step: take the run with the smallest head out of the pool,
/// emit its lines until its head would pass the smallest head among the
/// remaining runs (or all of them, when it was the last run), and put it
/// back unless it is exhausted.
///
/// The emitted slice is sorted, no larger than anything the pool still
/// holds, and together with the pool the lines are exactly the old pool's:
/// repeating the step until the pool is empty is a k-way merge.
pub fn merge_step(runs: &mut Vec<SortedChunk>) -> (r: Result<Option<Vec<Line>>, SortError>)
    requires
        runs_wf(old(runs)@),
        runs_nonempty(old(runs)@),
    ensures
        runs_unflushed(old(runs)@) ==> r is Ok && runs_unflushed(final(runs)@),
        match r {
            Ok(None) => old(runs)@.len() == 0 && final(runs)@ == old(runs)@,
            Ok(Some(piece)) => {
                &&& old(runs)@.len() > 0
                &&& views(piece@).len() > 0
                &&& sorted_by(views(piece@), lex_leq())
                &&& lines_ok(views(piece@))
                &&& runs_wf(final(runs)@)
                &&& runs_nonempty(final(runs)@)
                &&& views(piece@).to_multiset().add(runs_lines(final(runs)@)) == runs_lines(
                    old(runs)@,
                )
                &&& lines_below_runs(views(piece@), final(runs)@)
                &&& forall|b: Seq<u8>| #[trigger] runs_lower_bound(old(runs)@, b)
                    ==> runs_lower_bound(final(runs)@, b)
                &&& forall|b: Seq<u8>| #[trigger] runs_lower_bound(old(runs)@, b)
                    ==> seq_lower_bound(views(piece@), b)
            },
            Err(_) => true,
        },
{
    if runs.len() == 0 {
        return Ok(None);
    }
    let ghost rs0 = runs@;
    let i = min_head_index(runs);
    let mut run = runs.remove(i);
    let ghost rv = rs0[i as int]@;
    let ghost rs1 = runs@;
    proof {
        lemma_runs_lines_remove(rs0, i as int);
        lemma_pool_remove(rs0, i as int);
    }
    let mut piece: Vec<Line> = Vec::new();
    if runs.len() == 0 {
        match run.drain(&mut piece) {
            Err(e) => {
                return Err(e);
            },
            Ok(()) => {},
        }
        proof {
            assert(views(piece@) =~= rv);
            assert(runs_lines(rs1) =~= Multiset::<Seq<u8>>::empty());
            assert(views(piece@).to_multiset().add(runs_lines(runs@)) =~= runs_lines(rs0));
            assert forall|b: Seq<u8>| #[trigger] runs_lower_bound(rs0, b) implies seq_lower_bound(
                views(piece@),
                b,
            ) by {
                assert forall|t: int| 0 <= t < views(piece@).len() implies lex_le(
                    b,
                    #[trigger] views(piece@)[t],
                ) by {
                    assert(lex_le(b, rs0[i as int]@[t]));
                }
            }
        }
        return Ok(Some(piece));
    }
    let j = min_head_index(runs);
    let ghost limitg = rs1[j as int]@.first();
    let ex = {
        let limit = match (&runs[j]).peek() {
            Some(l) => l,
            None => {
                return vstd::pervasive::unreached();
            },
        };
        match run.drain_until(&mut piece, limit) {
            Err(e) => {
                return Err(e);
            },
            Ok(ex) => ex,
        }
    };
    let ghost k = drain_cut(rv, limitg);
    proof {
        lemma_drain_cut_bounds(rv, limitg);
        lemma_take_skip_multiset(rv, k);
        lemma_sorted_prefix(rv, k);
        assert(views(piece@) =~= rv.take(k));
        assert(views(piece@).len() == k);
        assert(k >= 1);
        // The emitted lines are proper lines.
        assert forall|t: int| 0 <= t < views(piece@).len() implies #[trigger] line_ok(
            views(piece@)[t],
        ) by {
            assert(views(piece@)[t] == rv[t]);
            assert(line_ok(rv[t]));
        }
        // The limit head is below everything the pool still holds.
        lemma_min_head_bounds(rs1, limitg);
        // Every emitted line is at most the limit head.
        let ghost mapped: int = if (j as int) < i as int {
            j as int
        } else {
            j as int + 1
        };
        assert(rs1[j as int] == rs0[mapped]);
        assert(lex_le(rv.first(), rs0[mapped]@.first()));
        assert forall|t: int| 0 <= t < k implies lex_le(#[trigger] rv[t], limitg) by {
            if t == 0 {
                assert(rv[0] == rv.first());
            } else {
                assert(lex_le(rv[t], limitg));
            }
        }
    }
    let ghost runv2 = run@;
    if !ex {
        runs.push(run);
        proof {
            lemma_runs_lines_push(rs1, rs1.push(run).last());
        }
    }
    let ghost rs2 = runs@;
    proof {
        // A pool with no file-backed run stays that way.
        if runs_unflushed(rs0) {
            assert forall|t: int| 0 <= t < rs2.len() implies !(#[trigger] rs2[t]).flushed() by {
                if t < rs1.len() {
                    assert(rs2[t] == rs1[t]);
                } else {
                    assert(!rs0[i as int].flushed());
                }
            }
        }
        // The pool after the step is well-formed and non-empty run by run.
        assert forall|t: int| 0 <= t < rs2.len() implies (#[trigger] rs2[t]).wf() && rs2[t]@.len()
            > 0 by {
            if t < rs1.len() {
                assert(rs2[t] == rs1[t]);
            } else {
                assert(rs2[t]@ == rv.skip(k));
            }
        }
        // The multisets balance: piece plus pool equals the old pool.
        if ex {
            assert(rv.skip(k) =~= Seq::<Seq<u8>>::empty());
            assert(rv.skip(k).to_multiset() =~= Multiset::<Seq<u8>>::empty());
            assert(views(piece@).to_multiset().add(runs_lines(rs2)) =~= runs_lines(rs0));
        } else {
            assert(runs_lines(rs2) == runs_lines(rs1).add(rv.skip(k).to_multiset()));
            assert(views(piece@).to_multiset().add(runs_lines(rs2)) =~= runs_lines(rs0));
        }
        // The piece sits below everything the pool still holds.
        assert forall|t: int| 0 <= t < views(piece@).len() implies runs_lower_bound(
            rs2,
            #[trigger] views(piece@)[t],
        ) by {
            let pl = views(piece@)[t];
            assert(pl == rv[t]);
            assert(lex_le(pl, limitg));
            assert forall|p: int, u: int| 0 <= p < rs2.len() && 0 <= u < rs2[p]@.len() implies
                lex_le(pl, #[trigger] rs2[p]@[u]) by {
                if p < rs1.len() {
                    assert(rs2[p] == rs1[p]);
                    assert(lex_le(limitg, rs1[p]@[u]));
                    lemma_lex_le_transitive(pl, limitg, rs1[p]@[u]);
                } else {
                    assert(rs2[p]@ == rv.skip(k));
                    assert(rs2[p]@[u] == rv[k + u]);
                    assert(lex_leq()(rv[t], rv[k + u]));
                }
            }
        }
        // Lower bounds of the old pool carry to the new pool and the piece.
        assert forall|b: Seq<u8>| #[trigger] runs_lower_bound(rs0, b) implies runs_lower_bound(
            rs2,
            b,
        ) && seq_lower_bound(views(piece@), b) by {
            assert(runs_lower_bound(rs1, b));
            assert forall|p: int, u: int| 0 <= p < rs2.len() && 0 <= u < rs2[p]@.len() implies
                lex_le(b, #[trigger] rs2[p]@[u]) by {
                if p < rs1.len() {
                    assert(rs2[p] == rs1[p]);
                    assert(lex_le(b, rs1[p]@[u]));
                } else {
                    assert(rs2[p]@ == rv.skip(k));
                    assert(rs2[p]@[u] == rv[k + u]);
                    assert(lex_le(b, rs0[i as int]@[k + u]));
                }
            }
            assert forall|t: int| 0 <= t < views(piece@).len() implies lex_le(
                b,
                #[trigger] views(piece@)[t],
            ) by {
                assert(views(piece@)[t] == rv[t]);
                assert(lex_le(b, rs0[i as int]@[t]));
            }
        }
    }
    Ok(Some(piece))
}

/// What one merge step guarantees lets the emitted slice extend sorted
/// output: the concatenation stays sorted, the multisets keep balancing,
/// and the output stays below everything the pool still holds.
proof fn lemma_extend_merged(
    acc: Seq<Seq<u8>>,
    pv: Seq<Seq<u8>>,
    pool1: Seq<SortedChunk>,
    pool2: Seq<SortedChunk>,
    total: Multiset<Seq<u8>>,
)
    requires
        sorted_by(acc, lex_leq()),
        lines_ok(acc),
        sorted_by(pv, lex_leq()),
        lines_ok(pv),
        lines_below_runs(acc, pool1),
        acc.to_multiset().add(runs_lines(pool1)) == total,
        pv.to_multiset().add(runs_lines(pool2)) == runs_lines(pool1),
        lines_below_runs(pv, pool2),
        forall|b: Seq<u8>| #[trigger] runs_lower_bound(pool1, b) ==> runs_lower_bound(pool2, b),
        forall|b: Seq<u8>| #[trigger] runs_lower_bound(pool1, b) ==> seq_lower_bound(pv, b),
    ensures
        sorted_by(acc + pv, lex_leq()),
        lines_ok(acc + pv),
        (acc + pv).to_multiset().add(runs_lines(pool2)) == total,
        lines_below_runs(acc + pv, pool2),
{
    let both = acc + pv;
    assert forall|x: int, y: int| 0 <= x < y < both.len() implies #[trigger] lex_leq()(
        both[x],
        both[y],
    ) by {
        if y < acc.len() {
            assert(lex_leq()(acc[x], acc[y]));
        } else if x >= acc.len() {
            assert(lex_leq()(pv[x - acc.len()], pv[y - acc.len()]));
        } else {
            assert(runs_lower_bound(pool1, acc[x]));
            assert(seq_lower_bound(pv, acc[x]));
            assert(lex_le(acc[x], pv[y - acc.len()]));
        }
    }
    assert forall|t: int| 0 <= t < both.len() implies #[trigger] line_ok(both[t]) by {
        if t < acc.len() {
            assert(line_ok(acc[t]));
        } else {
            assert(line_ok(pv[t - acc.len()]));
        }
    }
    assert(both.to_multiset().add(runs_lines(pool2)) =~= total);
    assert forall|t: int| 0 <= t < both.len() implies runs_lower_bound(
        pool2,
        #[trigger] both[t],
    ) by {
        if t < acc.len() {
            assert(runs_lower_bound(pool1, acc[t]));
            assert(runs_lower_bound(pool2, acc[t]));
        } else {
            assert(runs_lower_bound(pool2, pv[t - acc.len()]));
        }
    }
}

/// Keep only the runs that still hold lines, transferring ownership. The
/// pool holds the same lines as the runs it was built from.
pub fn build_pool(runs: Vec<SortedChunk>) -> (pool: Vec<SortedChunk>)
    requires
        runs_wf(runs@),
    ensures
        runs_wf(pool@),
        runs_nonempty(pool@),
        runs_lines(pool@) == runs_lines(runs@),
        runs_unflushed(runs@) ==> runs_unflushed(pool@),
{
    let ghost total = runs_lines(runs@);
    let ghost uf = runs_unflushed(runs@);
    let mut src = runs;
    let mut pool: Vec<SortedChunk> = Vec::new();
    proof {
        assert(runs_lines(pool@) =~= Multiset::<Seq<u8>>::empty());
        assert(runs_lines(src@).add(runs_lines(pool@)) =~= total);
    }
    while src.len() > 0
        invariant
            runs_wf(src@),
            runs_wf(pool@),
            runs_nonempty(pool@),
            runs_lines(src@).add(runs_lines(pool@)) == total,
            uf ==> runs_unflushed(src@) && runs_unflushed(pool@),
        decreases src.len(),
    {
        let ghost before = src@;
        let c = match src.pop() {
            Some(c) => c,
            None => {
                return vstd::pervasive::unreached();
            },
        };
        proof {
            assert(before =~= src@.push(c));
            lemma_runs_lines_push(src@, c);
            assert forall|t: int| 0 <= t < src@.len() implies (#[trigger] src@[t]).wf() by {
                assert(src@[t] == before[t]);
                assert(before[t].wf());
            }
            assert(c.wf()) by {
                assert(before[before.len() - 1].wf());
            }
            if uf {
                assert forall|t: int| 0 <= t < src@.len() implies !(#[trigger] src@[t]).flushed() by {
                    assert(src@[t] == before[t]);
                    assert(!before[t].flushed());
                }
                assert(!c.flushed()) by {
                    assert(!before[before.len() - 1].flushed());
                }
            }
        }
        let keep = c.peek().is_some();
        if keep {
            let ghost pp = pool@;
            pool.push(c);
            proof {
                lemma_runs_lines_push(pp, c);
                assert forall|t: int| 0 <= t < pool@.len() implies (#[trigger] pool@[t]).wf()
                    && pool@[t]@.len() > 0 by {
                    if t < pp.len() {
                        assert(pool@[t] == pp[t]);
                        assert(pp[t].wf());
                        assert(pp[t]@.len() > 0);
                    } else {
                        assert(pool@[t] == c);
                    }
                }
                if uf {
                    assert forall|t: int| 0 <= t < pool@.len() implies !(
                    #[trigger] pool@[t]).flushed() by {
                        if t < pp.len() {
                            assert(pool@[t] == pp[t]);
                            assert(!pp[t].flushed());
                        } else {
                            assert(pool@[t] == c);
                        }
                    }
                }
                assert(runs_lines(src@).add(runs_lines(pool@)) =~= total);
            }
        } else {
            proof {
                assert(c@ =~= Seq::<Seq<u8>>::empty());
                assert(c@.to_multiset() =~= Multiset::<Seq<u8>>::empty());
                assert(runs_lines(src@).add(runs_lines(pool@)) =~= total);
            }
        }
    }
    proof {
        assert(src@ =~= Seq::<SortedChunk>::empty());
        assert(runs_lines(src@) =~= Multiset::<Seq<u8>>::empty());
        assert(runs_lines(pool@) =~= total);
    }
    pool
}

/// Merge a pool of runs into one sorted vector of lines holding exactly the
/// lines the pool held.
#[verifier::loop_isolation(false)]
pub fn merge_pool(pool: Vec<SortedChunk>) -> (r: Result<Vec<Line>, SortError>)
    requires
        runs_wf(pool@),
        runs_nonempty(pool@),
    ensures
        runs_unflushed(pool@) ==> r is Ok,
        r matches Ok(out) ==> {
            &&& sorted_by(views(out@), lex_leq())
            &&& lines_ok(views(out@))
            &&& views(out@).to_multiset() == runs_lines(pool@)
        },
{
    let ghost total = runs_lines(pool@);
    let ghost uf = runs_unflushed(pool@);
    let mut pool = pool;
    let mut out: Vec<Line> = Vec::new();
    proof {
        assert(views(out@) =~= Seq::<Seq<u8>>::empty());
        assert(views(out@).to_multiset().add(runs_lines(pool@)) =~= total);
    }
    loop
        invariant
            runs_wf(pool@),
            runs_nonempty(pool@),
            uf ==> runs_unflushed(pool@),
            sorted_by(views(out@), lex_leq()),
            lines_ok(views(out@)),
            views(out@).to_multiset().add(runs_lines(pool@)) == total,
            lines_below_runs(views(out@), pool@),
        decreases runs_lines(pool@).len(),
    {
        let ghost pool1 = pool@;
        let ghost acc = views(out@);
        match merge_step(&mut pool) {
            Err(e) => {
                return Err(e);
            },
            Ok(None) => {
                proof {
                    assert(runs_lines(pool@) =~= Multiset::<Seq<u8>>::empty());
                    assert(views(out@).to_multiset() =~= total);
                }
                return Ok(out);
            },
            Ok(Some(mut piece)) => {
                let ghost pv = views(piece@);
                out.append(&mut piece);
                proof {
                    lemma_extend_merged(acc, pv, pool1, pool@, total);
                    assert(views(out@) =~= acc + pv);
                    assert(pv.to_multiset().len() == pv.len());
                    assert(runs_lines(pool@).len() < runs_lines(pool1).len());
                }
            },
        }
    }
}

/// Merge several runs into one in-memory run: the merge job. Exhausted runs
/// in the input are allowed and contribute nothing.
pub fn run_merge(runs: Vec<SortedChunk>) -> (r: Result<SortedChunk, SortError>)
    requires
        runs_wf(runs@),
    ensures
        runs_unflushed(runs@) ==> r is Ok,
        r matches Ok(c) ==> {
            &&& c.wf()
            &&& c.merged_flag()
            &&& !c.flushed()
            &&& sorted_by(c@, lex_leq())
            &&& c@.to_multiset() == runs_lines(runs@)
        },
{
    let pool = build_pool(runs);
    let lines = match merge_pool(pool) {
        Err(e) => {
            return Err(e);
        },
        Ok(lines) => lines,
    };
    Ok(SortedChunk::new_merged(lines))
}

/// Merge several runs while streaming the result to temporary storage: the
/// merge-and-spill job. Only one emitted slice is in memory at a time; the
/// produced run is file-backed and holds exactly the lines the inputs held.
#[verifier::loop_isolation(false)]
pub fn run_merge_flush(runs: Vec<SortedChunk>) -> (r: Result<SortedChunk, SortError>)
    requires
        runs_wf(runs@),
    ensures
        r matches Ok(c) ==> {
            &&& c.wf()
            &&& c.merged_flag()
            &&& c.flushed()
            &&& sorted_by(c@, lex_leq())
            &&& c@.to_multiset() == runs_lines(runs@)
        },
{
    let ghost total = runs_lines(runs@);
    let mut pool = build_pool(runs);
    let mut w = spill_writer_new();
    proof {
        assert(spill_writer_lines(w).to_multiset().add(runs_lines(pool@)) =~= total);
    }
    loop
        invariant
            runs_wf(pool@),
            runs_nonempty(pool@),
            sorted_by(spill_writer_lines(w), lex_leq()),
            lines_ok(spill_writer_lines(w)),
            spill_writer_lines(w).to_multiset().add(runs_lines(pool@)) == total,
            lines_below_runs(spill_writer_lines(w), pool@),
        decreases runs_lines(pool@).len(),
    {
        let ghost pool1 = pool@;
        let ghost acc = spill_writer_lines(w);
        match merge_step(&mut pool) {
            Err(e) => {
                return Err(e);
            },
            Ok(None) => {
                proof {
                    assert(runs_lines(pool@) =~= Multiset::<Seq<u8>>::empty());
                    assert(spill_writer_lines(w).to_multiset() =~= total);
                }
                let ghost written = spill_writer_lines(w);
                let rd = match spill_finish(w) {
                    Err(_) => {
                        return Err(SortError::Io);
                    },
                    Ok(rd) => rd,
                };
                let c = match SortedChunk::from_spill(rd) {
                    Err(e) => {
                        return Err(e);
                    },
                    Ok(c) => c,
                };
                return Ok(c);
            },
            Ok(Some(piece)) => {
                let ghost pv = views(piece@);
                let mut t: usize = 0;
                while t < piece.len()
                    invariant
                        t <= piece.len(),
                        pv == views(piece@),
                        lines_ok(pv),
                        spill_writer_lines(w) == acc + pv.take(t as int),
                    decreases piece.len() - t,
                {
                    proof {
                        assert(line_ok(pv[t as int]));
                    }
                    w = match spill_push(w, &piece[t]) {
                        Err(_) => {
                            return Err(SortError::Io);
                        },
                        Ok(w2) => w2,
                    };
                    proof {
                        assert(spill_writer_lines(w) =~= acc + pv.take(t as int + 1));
                    }
                    t = t + 1;
                }
                proof {
                    assert(pv.take(piece.len() as int) =~= pv);
                    assert(spill_writer_lines(w) == acc + pv);
                    lemma_extend_merged(acc, pv, pool1, pool@, total);
                    assert(pv.to_multiset().len() == pv.len());
                    assert(runs_lines(pool@).len() < runs_lines(pool1).len());
                }
            },
        }
    }
}

} // verus!
