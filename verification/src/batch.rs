//! Sorting one batch of lines: the sort job.
//!
//! A batch collected from the chunked source is sorted in memory by merge
//! sort under the byte-wise comparator and wrapped into a fresh sorted run.

use vstd::prelude::*;
use vstd::relations::sorted_by;
use crate::line::{lex_le, lex_leq, line_le, line_ok, lines_ok, sort_spec, views, Line};
use crate::line::{lemma_lex_le_connected, lemma_lex_le_transitive, lemma_lex_total_ordering};
use crate::line::reverse_lines;
use crate::run::SortedChunk;

verus! {

broadcast use {
    vstd::seq_lib::group_to_multiset_ensures,
    vstd::multiset::group_multiset_axioms,
    vstd::seq_lib::lemma_multiset_commutative,
};

/// A sorted sequence stays sorted when a line no smaller than its last is
/// appended.
proof fn lemma_sorted_push(s: Seq<Seq<u8>>, x: Seq<u8>)
    requires
        sorted_by(s, lex_leq()),
        s.len() > 0 ==> lex_le(s.last(), x),
    ensures
        sorted_by(s.push(x), lex_leq()),
{
    let t = s.push(x);
    assert forall|i: int, j: int| 0 <= i < j < t.len() implies #[trigger] lex_leq()(
        t[i],
        t[j],
    ) by {
        if j < s.len() {
            assert(lex_leq()(s[i], s[j]));
        } else {
            assert(t[j] == x);
            assert(t[i] == s[i]);
            if i == s.len() - 1 {
                assert(lex_le(s[i], x));
            } else {
                assert(lex_leq()(s[i], s[s.len() - 1]));
                lemma_lex_le_transitive(s[i], s[s.len() - 1], x);
            }
        }
    }
}

/// Two sequences with the same lines as multisets are proper lines
/// together or not at all.
pub proof fn lemma_lines_ok_multiset(a: Seq<Seq<u8>>, b: Seq<Seq<u8>>)
    requires
        lines_ok(a),
        a.to_multiset() == b.to_multiset(),
    ensures
        lines_ok(b),
{
    assert forall|i: int| 0 <= i < b.len() implies #[trigger] line_ok(b[i]) by {
        assert(b.contains(b[i]));
        assert(b.to_multiset().contains(b[i]));
        assert(a.to_multiset().contains(b[i]));
        assert(a.contains(b[i]));
        let w = choose|w: int| 0 <= w < a.len() && a[w] == b[i];
        assert(line_ok(a[w]));
    }
}

/// Merge two sorted vectors of lines into one sorted vector holding the
/// lines of both.
#[verifier::loop_isolation(false)]
fn merge_two(a: Vec<Line>, b: Vec<Line>) -> (r: Vec<Line>)
    requires
        sorted_by(views(a@), lex_leq()),
        sorted_by(views(b@), lex_leq()),
    ensures
        sorted_by(views(r@), lex_leq()),
        views(r@).to_multiset() == views(a@).to_multiset().add(views(b@).to_multiset()),
{
    let ghost sa = views(a@);
    let ghost sb = views(b@);
    let mut ra = reverse_lines(a);
    let mut rb = reverse_lines(b);
    let mut out: Vec<Line> = Vec::new();
    let ghost mut ia: int = 0;
    let ghost mut ib: int = 0;
    proof {
        assert(views(ra@).reverse() =~= sa.skip(0));
        assert(views(rb@).reverse() =~= sb.skip(0));
        assert(views(out@) =~= Seq::<Seq<u8>>::empty());
        assert(views(out@).to_multiset() =~= sa.take(0).to_multiset().add(
            sb.take(0).to_multiset(),
        ));
    }
    loop
        invariant
            0 <= ia <= sa.len(),
            0 <= ib <= sb.len(),
            views(ra@).reverse() == sa.skip(ia),
            views(rb@).reverse() == sb.skip(ib),
            sorted_by(views(out@), lex_leq()),
            views(out@).to_multiset() == sa.take(ia).to_multiset().add(sb.take(ib).to_multiset()),
            views(out@).len() > 0 ==> forall|u: int|
                ia <= u < sa.len() ==> lex_le(views(out@).last(), #[trigger] sa[u]),
            views(out@).len() > 0 ==> forall|u: int|
                ib <= u < sb.len() ==> lex_le(views(out@).last(), #[trigger] sb[u]),
        decreases ra.len() + rb.len(),
    {
        proof {
            assert(views(ra@).reverse().len() == ra.len());
            assert(views(rb@).reverse().len() == rb.len());
        }
        if ra.len() == 0 && rb.len() == 0 {
            proof {
                assert(sa.take(ia) =~= sa);
                assert(sb.take(ib) =~= sb);
            }
            return out;
        }
        let take_a = if rb.len() == 0 {
            true
        } else if ra.len() == 0 {
            false
        } else {
            line_le(&ra[ra.len() - 1], &rb[rb.len() - 1])
        };
        let ghost acc = views(out@);
        if take_a {
            let ghost rav = ra@;
            let x = match ra.pop() {
                Some(x) => x,
                None => {
                    return vstd::pervasive::unreached();
                },
            };
            proof {
                assert(views(rav)[rav.len() - 1] == views(rav).reverse()[0]);
                assert(x@ == sa[ia]);
                assert(views(ra@) =~= views(rav).drop_last());
                assert(views(ra@).reverse() =~= views(rav).reverse().drop_first());
                assert(sa.skip(ia).drop_first() =~= sa.skip(ia + 1));
                assert(views(ra@).reverse() =~= sa.skip(ia + 1));
            }
            out.push(x);
            proof {
                assert(views(out@) =~= acc.push(x@));
                if acc.len() > 0 {
                    assert(lex_le(acc.last(), sa[ia]));
                }
                lemma_sorted_push(acc, x@);
                assert(sa.take(ia + 1) =~= sa.take(ia).push(sa[ia]));
                assert(views(out@).to_multiset() =~= sa.take(ia + 1).to_multiset().add(
                    sb.take(ib).to_multiset(),
                ));
                ia = ia + 1;
                assert forall|u: int| ia <= u < sa.len() implies lex_le(
                    views(out@).last(),
                    #[trigger] sa[u],
                ) by {
                    assert(lex_leq()(sa[ia - 1], sa[u]));
                }
                assert forall|u: int| ib <= u < sb.len() implies lex_le(
                    views(out@).last(),
                    #[trigger] sb[u],
                ) by {
                    assert(views(rb@).reverse().first() == sb[ib]);
                    assert(lex_le(x@, sb[ib]));
                    if u > ib {
                        assert(lex_leq()(sb[ib], sb[u]));
                        lemma_lex_le_transitive(x@, sb[ib], sb[u]);
                    }
                }
            }
        } else {
            let ghost rbv = rb@;
            let x = match rb.pop() {
                Some(x) => x,
                None => {
                    return vstd::pervasive::unreached();
                },
            };
            proof {
                assert(views(rbv)[rbv.len() - 1] == views(rbv).reverse()[0]);
                assert(x@ == sb[ib]);
                assert(views(rb@) =~= views(rbv).drop_last());
                assert(views(rb@).reverse() =~= views(rbv).reverse().drop_first());
                assert(sb.skip(ib).drop_first() =~= sb.skip(ib + 1));
                assert(views(rb@).reverse() =~= sb.skip(ib + 1));
            }
            out.push(x);
            proof {
                assert(views(out@) =~= acc.push(x@));
                if acc.len() > 0 {
                    assert(lex_le(acc.last(), sb[ib]));
                }
                lemma_sorted_push(acc, x@);
                assert(sb.take(ib + 1) =~= sb.take(ib).push(sb[ib]));
                assert(views(out@).to_multiset() =~= sa.take(ia).to_multiset().add(
                    sb.take(ib + 1).to_multiset(),
                ));
                ib = ib + 1;
                assert forall|u: int| ib <= u < sb.len() implies lex_le(
                    views(out@).last(),
                    #[trigger] sb[u],
                ) by {
                    assert(lex_leq()(sb[ib - 1], sb[u]));
                }
                assert forall|u: int| ia <= u < sa.len() implies lex_le(
                    views(out@).last(),
                    #[trigger] sa[u],
                ) by {
                    assert(views(ra@).reverse().first() == sa[ia]);
                    assert(!lex_le(sa[ia], sb[ib - 1]));
                    lemma_lex_le_connected(sa[ia], sb[ib - 1]);
                    assert(lex_le(x@, sa[ia]));
                    if u > ia {
                        assert(lex_leq()(sa[ia], sa[u]));
                        lemma_lex_le_transitive(x@, sa[ia], sa[u]);
                    }
                }
            }
        }
    }
}

/// Sort a vector of lines by merge sort under the byte-wise comparator: the
/// result is the sorted permutation of the given lines.
pub fn sort_lines(lines: Vec<Line>) -> (r: Vec<Line>)
    ensures
        sorted_by(views(r@), lex_leq()),
        views(r@).to_multiset() == views(lines@).to_multiset(),
        views(r@) == sort_spec(views(lines@)),
    decreases lines@.len(),
{
    if lines.len() <= 1 {
        proof {
            lemma_lex_total_ordering();
            views(lines@).lemma_sort_by_ensures(lex_leq());
            vstd::seq_lib::lemma_sorted_unique(views(lines@), sort_spec(views(lines@)), lex_leq());
        }
        return lines;
    }
    let ghost all = views(lines@);
    let mut a = lines;
    let half = a.len() / 2;
    let b = a.split_off(half);
    proof {
        assert(views(a@) =~= all.take(half as int));
        assert(views(b@) =~= all.skip(half as int));
        assert(all =~= all.take(half as int) + all.skip(half as int));
    }
    let sa = sort_lines(a);
    let sb = sort_lines(b);
    let r = merge_two(sa, sb);
    proof {
        assert(views(r@).to_multiset() =~= all.to_multiset());
        lemma_lex_total_ordering();
        all.lemma_sort_by_ensures(lex_leq());
        vstd::seq_lib::lemma_sorted_unique(views(r@), sort_spec(all), lex_leq());
    }
    r
}

/// Sort one batch of lines into a fresh in-memory run: the sort job.
pub fn run_sort(lines: Vec<Line>) -> (r: SortedChunk)
    requires
        lines_ok(views(lines@)),
    ensures
        r.wf(),
        !r.merged_flag(),
        !r.flushed(),
        sorted_by(r@, lex_leq()),
        r@.to_multiset() == views(lines@).to_multiset(),
        r@ == sort_spec(views(lines@)),
{
    let ghost all = views(lines@);
    let sorted = sort_lines(lines);
    proof {
        lemma_lines_ok_multiset(all, views(sorted@));
    }
    SortedChunk::new(sorted)
}

} // verus!
