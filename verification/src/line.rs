//! Lines and their order.
//!
//! A [`Line`] is the atomic sortable unit: an immutable byte sequence with no
//! trailing delimiter, compared byte-wise lexicographically.

use vstd::prelude::*;
use vstd::relations::{sorted_by, total_ordering};

verus! {

/// A line of input: an opaque byte string, the trailing delimiter stripped.
pub type Line = Vec<u8>;

/// The line delimiter used throughout the sort engine.
pub const DELIMITER: u8 = 10;

/// A proper line holds no delimiter of its own.
pub open spec fn line_ok(l: Seq<u8>) -> bool {
    forall|i: int| 0 <= i < l.len() ==> l[i] != DELIMITER
}

/// Every line of the sequence is a proper line.
pub open spec fn lines_ok(s: Seq<Seq<u8>>) -> bool {
    forall|i: int| 0 <= i < s.len() ==> #[trigger] line_ok(s[i])
}

/// The byte sequences of a sequence of lines.
pub open spec fn views(ls: Seq<Line>) -> Seq<Seq<u8>> {
    ls.map_values(|l: Line| l@)
}

/// The sorted permutation of a sequence of lines under the byte-wise
/// comparator.
pub open spec fn sort_spec(s: Seq<Seq<u8>>) -> Seq<Seq<u8>> {
    s.sort_by(lex_leq())
}

/// Byte-wise lexicographic comparison of `a` and `b`, started at index `i`:
/// the bytes before `i` are taken as already equal.
pub open spec fn lex_le_from(a: Seq<u8>, b: Seq<u8>, i: int) -> bool
    decreases a.len() - i,
{
    if i >= a.len() {
        true
    } else if i >= b.len() {
        false
    } else if a[i] < b[i] {
        true
    } else if a[i] > b[i] {
        false
    } else {
        lex_le_from(a, b, i + 1)
    }
}

/// `a` is less than or equal to `b` in byte-wise lexicographic order.
pub open spec fn lex_le(a: Seq<u8>, b: Seq<u8>) -> bool {
    lex_le_from(a, b, 0)
}

/// The lexicographic order as a relation value, for `sorted_by` and friends.
pub open spec fn lex_leq() -> spec_fn(Seq<u8>, Seq<u8>) -> bool {
    |a: Seq<u8>, b: Seq<u8>| lex_le(a, b)
}

proof fn lemma_lex_le_from_refl(a: Seq<u8>, i: int)
    ensures
        lex_le_from(a, a, i),
    decreases a.len() - i,
{
    if i < a.len() {
        lemma_lex_le_from_refl(a, i + 1);
    }
}

proof fn lemma_lex_le_from_connected(a: Seq<u8>, b: Seq<u8>, i: int)
    ensures
        lex_le_from(a, b, i) || lex_le_from(b, a, i),
    decreases a.len() - i,
{
    if i < a.len() && i < b.len() && a[i] == b[i] {
        lemma_lex_le_from_connected(a, b, i + 1);
    }
}

proof fn lemma_lex_le_from_antisymmetric(a: Seq<u8>, b: Seq<u8>, i: int)
    requires
        lex_le_from(a, b, i),
        lex_le_from(b, a, i),
        0 <= i <= a.len(),
        0 <= i <= b.len(),
        a.subrange(0, i) == b.subrange(0, i),
    ensures
        a == b,
    decreases a.len() - i,
{
    if i >= a.len() {
        assert(i >= b.len());
        assert(a =~= a.subrange(0, i));
        assert(b =~= b.subrange(0, i));
    } else if i >= b.len() {
        assert(!lex_le_from(a, b, i));
    } else {
        assert(a[i] == b[i]);
        assert(a.subrange(0, i + 1) =~= b.subrange(0, i + 1)) by {
            assert forall|j: int| 0 <= j < i implies a[j] == #[trigger] b[j] by {
                assert(a.subrange(0, i)[j] == a[j]);
                assert(b.subrange(0, i)[j] == b[j]);
            }
        }
        lemma_lex_le_from_antisymmetric(a, b, i + 1);
    }
}

proof fn lemma_lex_le_from_transitive(a: Seq<u8>, b: Seq<u8>, c: Seq<u8>, i: int)
    requires
        lex_le_from(a, b, i),
        lex_le_from(b, c, i),
    ensures
        lex_le_from(a, c, i),
    decreases a.len() - i,
{
    if i < a.len() && i < b.len() && i < c.len() && a[i] == b[i] && b[i] == c[i] {
        lemma_lex_le_from_transitive(a, b, c, i + 1);
    }
}

/// The comparator is reflexive.
pub proof fn lemma_lex_le_refl(a: Seq<u8>)
    ensures
        lex_le(a, a),
{
    lemma_lex_le_from_refl(a, 0);
}

/// Of any two byte strings, one is less than or equal to the other.
pub proof fn lemma_lex_le_connected(a: Seq<u8>, b: Seq<u8>)
    ensures
        lex_le(a, b) || lex_le(b, a),
{
    lemma_lex_le_from_connected(a, b, 0);
}

/// Two byte strings each less than or equal to the other are equal.
pub proof fn lemma_lex_le_antisymmetric(a: Seq<u8>, b: Seq<u8>)
    requires
        lex_le(a, b),
        lex_le(b, a),
    ensures
        a == b,
{
    assert(a.subrange(0, 0) =~= b.subrange(0, 0));
    lemma_lex_le_from_antisymmetric(a, b, 0);
}

/// The comparator is transitive.
pub proof fn lemma_lex_le_transitive(a: Seq<u8>, b: Seq<u8>, c: Seq<u8>)
    requires
        lex_le(a, b),
        lex_le(b, c),
    ensures
        lex_le(a, c),
{
    lemma_lex_le_from_transitive(a, b, c, 0);
}

/// The active comparator is a total order: the ground for every ordering
/// claim the sort engine makes.
pub proof fn lemma_lex_total_ordering()
    ensures
        total_ordering(lex_leq()),
{
    let leq = lex_leq();
    assert forall|a: Seq<u8>| #[trigger] leq(a, a) by {
        lemma_lex_le_refl(a);
    }
    assert forall|a: Seq<u8>, b: Seq<u8>| #[trigger] leq(a, b) && #[trigger] leq(b, a)
        implies a == b by {
        lemma_lex_le_antisymmetric(a, b);
    }
    assert forall|a: Seq<u8>, b: Seq<u8>, c: Seq<u8>|
        #[trigger] leq(a, b) && #[trigger] leq(b, c) implies leq(a, c) by {
        lemma_lex_le_transitive(a, b, c);
    }
    assert forall|a: Seq<u8>, b: Seq<u8>| #[trigger] leq(a, b) || #[trigger] leq(b, a) by {
        lemma_lex_le_connected(a, b);
    }
}

proof fn lemma_adjacent_chain(s: Seq<Seq<u8>>, i: int, j: int)
    requires
        forall|t: int| 0 <= t < s.len() - 1 ==> lex_le(#[trigger] s[t], s[t + 1]),
        0 <= i <= j < s.len(),
    ensures
        lex_le(s[i], s[j]),
    decreases j - i,
{
    if i == j {
        lemma_lex_le_refl(s[i]);
    } else {
        lemma_adjacent_chain(s, i, j - 1);
        assert(lex_le(s[j - 1], s[j]));
        lemma_lex_le_transitive(s[i], s[j - 1], s[j]);
    }
}

/// Order that holds of every adjacent pair holds everywhere: a sequence of
/// lines whose neighbours are each in order is totally sorted under the
/// comparator, so checking the output pair by pair checks all of it.
pub proof fn lemma_adjacent_pairs_sorted(s: Seq<Seq<u8>>)
    requires
        forall|i: int| 0 <= i < s.len() - 1 ==> lex_le(#[trigger] s[i], s[i + 1]),
    ensures
        sorted_by(s, lex_leq()),
{
    assert forall|i: int, j: int| 0 <= i < j < s.len() implies #[trigger] lex_leq()(
        s[i],
        s[j],
    ) by {
        lemma_adjacent_chain(s, i, j);
    }
}

/// Compare two lines; true when `a` is less than or equal to `b` under the
/// byte-wise lexicographic order.
pub fn line_le(a: &Line, b: &Line) -> (r: bool)
    ensures
        r == lex_le(a@, b@),
{
    let mut i: usize = 0;
    loop
        invariant
            0 <= i <= a@.len(),
            0 <= i <= b@.len(),
            lex_le(a@, b@) == lex_le_from(a@, b@, i as int),
        decreases a@.len() - i,
    {
        if i == a.len() {
            return true;
        }
        if i == b.len() {
            return false;
        }
        if a[i] < b[i] {
            return true;
        }
        if a[i] > b[i] {
            return false;
        }
        i = i + 1;
    }
}

/// Reverse a vector of lines, transferring ownership.
pub(crate) fn reverse_lines(v: Vec<Line>) -> (r: Vec<Line>)
    ensures
        views(r@) == views(v@).reverse(),
{
    let ghost o = views(v@);
    let mut src = v;
    let mut r: Vec<Line> = Vec::new();
    proof {
        assert(views(src@) =~= o.take(src.len() as int));
        assert(views(r@) =~= o.skip(src.len() as int).reverse());
    }
    while src.len() > 0
        invariant
            views(src@) == o.take(src.len() as int),
            views(r@) == o.skip(src.len() as int).reverse(),
            src.len() <= o.len(),
        decreases src.len(),
    {
        let ghost n = src.len() as int;
        let ghost before = src@;
        let x = match src.pop() {
            Some(x) => x,
            None => {
                return r;
            },
        };
        proof {
            assert(x@ == views(before)[n - 1]);
            assert(views(before)[n - 1] == o.take(n)[n - 1]);
            assert(views(src@) =~= o.take(n - 1));
        }
        let ghost held = views(r@);
        r.push(x);
        proof {
            let rr = views(r@);
            let target = o.skip(n - 1).reverse();
            assert(rr.len() == held.len() + 1);
            assert(held.len() == o.len() - n);
            assert(o.skip(n - 1).len() == o.len() - (n - 1));
            assert(target.len() == o.len() - (n - 1));
            assert(rr.len() == target.len());
            assert forall|i: int| 0 <= i < rr.len() implies rr[i] == target[i] by {
                assert(target[i] == o.skip(n - 1)[o.len() - n - i]);
                assert(o.skip(n - 1)[o.len() - n - i] == o[o.len() - 1 - i]);
                if i < rr.len() - 1 {
                    assert(rr[i] == held[i]);
                    assert(held[i] == o.skip(n)[o.len() - n - 1 - i]);
                    assert(o.skip(n)[o.len() - n - 1 - i] == o[o.len() - 1 - i]);
                } else {
                    assert(rr[i] == x@);
                }
            }
            assert(rr =~= target);
        }
    }
    proof {
        assert(views(r@) =~= o.reverse());
    }
    r
}

} // verus!
