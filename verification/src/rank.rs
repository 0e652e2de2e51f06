//! Ordering counted entries by weight, heaviest first (the `--sort` option): a stable merge
//! sort of positions by their counts.

use vstd::prelude::*;

verus! {

broadcast use {vstd::seq_lib::group_to_multiset_ensures, vstd::multiset::group_multiset_axioms};

/// Position `x` comes before position `y`: a larger count, or an equal count and an earlier
/// position.
pub open spec fn ordered_before(counts: Seq<u32>, x: usize, y: usize) -> bool {
    counts[x as int] > counts[y as int] || (counts[x as int] == counts[y as int] && x < y)
}

/// The positions `lo, lo + 1, ..., hi - 1`.
pub open spec fn index_range(lo: int, hi: int) -> Seq<usize> {
    Seq::new((hi - lo) as nat, |i: int| (lo + i) as usize)
}

/// `r` holds the positions `lo..hi`, each once, heaviest first and, among equal counts, in
/// order of their positions.
pub open spec fn ranks(counts: Seq<u32>, r: Seq<usize>, lo: int, hi: int) -> bool {
    &&& r.to_multiset() == index_range(lo, hi).to_multiset()
    &&& forall|p: int, q: int| 0 <= p < q < r.len() ==> ordered_before(counts, r[p], r[q])
}

proof fn lemma_ranks_range(counts: Seq<u32>, r: Seq<usize>, lo: int, hi: int)
    requires
        ranks(counts, r, lo, hi),
        0 <= lo <= hi <= usize::MAX,
    ensures
        r.len() == hi - lo,
        forall|p: int| 0 <= p < r.len() ==> lo <= #[trigger] r[p] < hi,
{
    assert(r.to_multiset().len() == index_range(lo, hi).to_multiset().len());
    assert forall|p: int| 0 <= p < r.len() implies lo <= #[trigger] r[p] < hi by {
        assert(r.contains(r[p]));
        assert(r.to_multiset().count(r[p]) > 0);
        assert(index_range(lo, hi).to_multiset().count(r[p]) > 0);
        assert(index_range(lo, hi).contains(r[p]));
        let i = choose|i: int| 0 <= i < index_range(lo, hi).len() && index_range(lo, hi)[i] == r[p];
        assert(index_range(lo, hi)[i] == (lo + i) as usize);
    }
}

fn merge(counts: &Vec<u32>, left: Vec<usize>, right: Vec<usize>, lo: usize, mid: usize, hi: usize) -> (r: Vec<usize>)
    requires
        lo <= mid <= hi <= counts@.len(),
        ranks(counts@, left@, lo as int, mid as int),
        ranks(counts@, right@, mid as int, hi as int),
    ensures
        ranks(counts@, r@, lo as int, hi as int),
{
    proof {
        lemma_ranks_range(counts@, left@, lo as int, mid as int);
        lemma_ranks_range(counts@, right@, mid as int, hi as int);
    }
    let ghost c = counts@;
    let ghost l = left@;
    let ghost rr = right@;
    let nl = left.len();
    let nr = right.len();
    let mut out: Vec<usize> = Vec::new();
    let mut i: usize = 0;
    let mut j: usize = 0;
    proof {
        assert(l.take(0) =~= Seq::<usize>::empty());
        assert(rr.take(0) =~= Seq::<usize>::empty());
        assert(out@.to_multiset() =~= l.take(0).to_multiset().add(rr.take(0).to_multiset()));
    }
    while i < nl || j < nr
        invariant
            c == counts@,
            l == left@,
            rr == right@,
            nl == l.len(),
            nr == rr.len(),
            lo <= mid <= hi <= c.len(),
            nl == mid - lo,
            nr == hi - mid,
            forall|p: int| 0 <= p < nl ==> lo <= #[trigger] l[p] < mid,
            forall|p: int| 0 <= p < nr ==> mid <= #[trigger] rr[p] < hi,
            forall|p: int, q: int| 0 <= p < q < nl ==> ordered_before(c, l[p], l[q]),
            forall|p: int, q: int| 0 <= p < q < nr ==> ordered_before(c, rr[p], rr[q]),
            i <= nl,
            j <= nr,
            out@.len() == i + j,
            out@.to_multiset() == l.take(i as int).to_multiset().add(rr.take(j as int).to_multiset()),
            forall|p: int, q: int| 0 <= p < q < out@.len() ==> ordered_before(c, out@[p], out@[q]),
            forall|p: int, k: int|
                0 <= p < out@.len() && i <= k < nl ==> ordered_before(c, out@[p], l[k]),
            forall|p: int, k: int|
                0 <= p < out@.len() && j <= k < nr ==> ordered_before(c, out@[p], rr[k]),
        decreases nl + nr - i - j,
    {
        let take_left = if i < nl && j < nr {
            counts[left[i]] >= counts[right[j]]
        } else {
            i < nl
        };
        if take_left {
            let x = left[i];
            proof {
                assert forall|k: int| j <= k < nr implies ordered_before(c, x, rr[k]) by {
                    if j < k {
                        assert(ordered_before(c, rr[j as int], rr[k]));
                    }
                }
                assert forall|k: int| i < k < nl implies ordered_before(c, x, l[k]) by {
                    assert(ordered_before(c, l[i as int], l[k]));
                }
                assert(l.take(i + 1) =~= l.take(i as int).push(x));
            }
            out.push(x);
            i = i + 1;
        } else {
            let y = right[j];
            proof {
                assert forall|k: int| i <= k < nl implies ordered_before(c, y, l[k]) by {
                    if i < k {
                        assert(ordered_before(c, l[i as int], l[k]));
                    }
                }
                assert forall|k: int| j < k < nr implies ordered_before(c, y, rr[k]) by {
                    assert(ordered_before(c, rr[j as int], rr[k]));
                }
                assert(rr.take(j + 1) =~= rr.take(j as int).push(y));
            }
            out.push(y);
            j = j + 1;
        }
    }
    proof {
        assert(l.take(nl as int) =~= l);
        assert(rr.take(nr as int) =~= rr);
        assert(index_range(lo as int, mid as int) + index_range(mid as int, hi as int) =~= index_range(
            lo as int,
            hi as int,
        ));
        vstd::seq_lib::lemma_multiset_commutative(
            index_range(lo as int, mid as int),
            index_range(mid as int, hi as int),
        );
    }
    out
}

fn sort_range(counts: &Vec<u32>, lo: usize, hi: usize) -> (r: Vec<usize>)
    requires
        lo <= hi <= counts@.len(),
    ensures
        ranks(counts@, r@, lo as int, hi as int),
    decreases hi - lo,
{
    if hi - lo == 0 {
        let r: Vec<usize> = Vec::new();
        assert(index_range(lo as int, hi as int) =~= Seq::<usize>::empty());
        assert(r@ =~= Seq::<usize>::empty());
        r
    } else if hi - lo == 1 {
        let mut r: Vec<usize> = Vec::new();
        r.push(lo);
        assert(index_range(lo as int, hi as int) =~= r@);
        r
    } else {
        let mid = lo + (hi - lo) / 2;
        let left = sort_range(counts, lo, mid);
        let right = sort_range(counts, mid, hi);
        merge(counts, left, right, lo, mid, hi)
    }
}

/// The positions of `counts`, heaviest first; equal counts keep their order. This is what a
/// stable sort by descending count gives.
pub fn rank_by_count(counts: &Vec<u32>) -> (r: Vec<usize>)
    ensures
        ranks(counts@, r@, 0, counts@.len() as int),
{
    sort_range(counts, 0, counts.len())
}

/// A ranking lists every position once: it is a permutation of `0..n`, sorted heaviest first,
/// with equal counts in the order of their positions.
pub proof fn lemma_ranks_permutation(counts: Seq<u32>, r: Seq<usize>)
    requires
        ranks(counts, r, 0, counts.len() as int),
        counts.len() <= usize::MAX,
    ensures
        r.len() == counts.len(),
        forall|p: int| 0 <= p < r.len() ==> #[trigger] r[p] < counts.len(),
        forall|p: int, q: int| 0 <= p < q < r.len() ==> r[p] != r[q],
        forall|x: usize| x < counts.len() ==> r.contains(x),
        forall|p: int, q: int| 0 <= p < q < r.len() ==> counts[r[p] as int] >= counts[r[q] as int],
        forall|p: int, q: int|
            0 <= p < q < r.len() && counts[r[p] as int] == counts[r[q] as int] ==> r[p] < r[q],
{
    lemma_ranks_range(counts, r, 0, counts.len() as int);
    assert forall|x: usize| x < counts.len() implies r.contains(x) by {
        assert(index_range(0, counts.len() as int)[x as int] == x);
        assert(index_range(0, counts.len() as int).contains(x));
        assert(index_range(0, counts.len() as int).to_multiset().count(x) > 0);
    }
    assert forall|p: int, q: int| 0 <= p < q < r.len() implies r[p] != r[q] && counts[r[p] as int]
        >= counts[r[q] as int] && (counts[r[p] as int] == counts[r[q] as int] ==> r[p] < r[q]) by {
        assert(ordered_before(counts, r[p], r[q]));
    }
}

} // verus!
