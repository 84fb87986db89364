use vstd::prelude::*;
use vstd::multiset::Multiset;

verus! {

broadcast use vstd::multiset::group_multiset_axioms;

/// The degrees of `h` rise strictly from one entry to the next, so that no
/// degree has two entries.
pub open spec fn strictly_ascending(h: Seq<(usize, usize)>) -> bool {
    forall|i: int, j: int| 0 <= i < j < h.len() ==> h[i].0 < h[j].0
}

pub open spec fn has_degree(h: Seq<(usize, usize)>, d: usize) -> bool {
    exists|i: int| 0 <= i < h.len() && h[i].0 == d
}

/// `h` is the histogram of the degrees in `m`: ascending by degree, one entry
/// for each degree that occurs in `m`, paired with its number of occurrences,
/// and no entry for a degree that does not occur.
pub open spec fn is_histogram_of(h: Seq<(usize, usize)>, m: Multiset<usize>) -> bool {
    &&& strictly_ascending(h)
    &&& forall|i: int| 0 <= i < h.len() ==> #[trigger] h[i].1 == m.count(h[i].0) && h[i].1 > 0
    &&& forall|d: usize| m.count(d) > 0 ==> has_degree(h, d)
}

/// The sum of the counts of `h`.
pub open spec fn total_count(h: Seq<(usize, usize)>) -> nat
    decreases h.len(),
{
    if h.len() == 0 {
        0
    } else {
        total_count(h.drop_last()) + h.last().1 as nat
    }
}

/// Counts how many times each degree occurs in `length_vec`, and lists the
/// degrees that occur in ascending order, each with its count.
#[verifier::loop_isolation(false)]
pub fn length_freq(length_vec: Vec<usize>) -> (hist: Vec<(usize, usize)>)
    ensures
        is_histogram_of(hist@, length_vec@.to_multiset()),
        strictly_ascending(hist@),
{
    let mut hist: Vec<(usize, usize)> = Vec::new();
    let mut i: usize = 0;
    proof {
        length_vec@.take(0).to_multiset_ensures();
        assert(length_vec@.take(0).to_multiset() =~= Multiset::empty());
    }
    while i < length_vec.len()
        invariant
            i <= length_vec@.len(),
            is_histogram_of(hist@, length_vec@.take(i as int).to_multiset()),
            forall|k: int| 0 <= k < hist@.len() ==> #[trigger] hist@[k].1 <= i,
        decreases length_vec@.len() - i,
    {
        let d = length_vec[i];
        let ghost h0 = hist@;
        let ghost m0 = length_vec@.take(i as int).to_multiset();
        let ghost m1 = length_vec@.take(i + 1).to_multiset();
        proof {
            assert(length_vec@.take(i + 1) =~= length_vec@.take(i as int).push(d));
            length_vec@.take(i as int).to_multiset_ensures();
            assert(m1 =~= m0.insert(d));
        }
        let mut p: usize = 0;
        while p < hist.len() && hist[p].0 < d
            invariant
                p <= hist@.len(),
                hist@ == h0,
                forall|k: int| 0 <= k < p ==> #[trigger] hist@[k].0 < d,
            decreases hist@.len() - p,
        {
            p += 1;
        }
        if p < hist.len() && hist[p].0 == d {
            let c = hist[p].1;
            hist.set(p, (d, c + 1));
            proof {
                assert forall|k: int| 0 <= k < hist@.len() implies #[trigger] hist@[k].1 == m1.count(
                    hist@[k].0,
                ) && hist@[k].1 > 0 by {
                    if k != p {
                        assert(h0[k].0 != d);
                    }
                }
                assert forall|x: usize| m1.count(x) > 0 implies has_degree(hist@, x) by {
                    if x == d {
                        assert(hist@[p as int].0 == x);
                    } else {
                        assert(has_degree(h0, x));
                        let k = choose|k: int| 0 <= k < h0.len() && h0[k].0 == x;
                        assert(hist@[k].0 == x);
                    }
                }
            }
        } else {
            proof {
                if m0.count(d) > 0 {
                    assert(has_degree(h0, d));
                    let k = choose|k: int| 0 <= k < h0.len() && h0[k].0 == d;
                    if k >= p {
                        assert(h0[p as int].0 <= h0[k].0);
                    }
                }
            }
            hist.insert(p, (d, 1));
            proof {
                assert(hist@ == h0.insert(p as int, (d, 1usize)));
                assert forall|a: int, b: int| 0 <= a < b < hist@.len() implies hist@[a].0
                    < hist@[b].0 by {
                    if b < p {
                    } else if b == p {
                    } else if a < p {
                        assert(hist@[b] == h0[b - 1]);
                        assert(h0[p as int].0 <= h0[b - 1].0);
                    } else if a == p {
                        assert(hist@[b] == h0[b - 1]);
                        assert(h0[p as int].0 <= h0[b - 1].0);
                    } else {
                        assert(hist@[b] == h0[b - 1]);
                        assert(hist@[a] == h0[a - 1]);
                    }
                }
                assert forall|k: int| 0 <= k < hist@.len() implies #[trigger] hist@[k].1 == m1.count(
                    hist@[k].0,
                ) && hist@[k].1 > 0 by {
                    if k < p {
                        assert(hist@[k] == h0[k]);
                    } else if k > p {
                        assert(hist@[k] == h0[k - 1]);
                        assert(h0[p as int].0 <= h0[k - 1].0);
                    }
                }
                assert forall|x: usize| m1.count(x) > 0 implies has_degree(hist@, x) by {
                    if x == d {
                        assert(hist@[p as int].0 == x);
                    } else {
                        assert(has_degree(h0, x));
                        let k = choose|k: int| 0 <= k < h0.len() && h0[k].0 == x;
                        if k < p {
                            assert(hist@[k].0 == x);
                        } else {
                            assert(hist@[k + 1].0 == x);
                        }
                    }
                }
                assert forall|k: int| 0 <= k < hist@.len() implies #[trigger] hist@[k].1 <= i
                    + 1 by {
                    if k < p {
                        assert(hist@[k] == h0[k]);
                    } else if k > p {
                        assert(hist@[k] == h0[k - 1]);
                    }
                }
            }
        }
        i += 1;
    }
    proof {
        assert(length_vec@.take(i as int) =~= length_vec@);
    }
    hist
}

/// Two strictly ascending sequences with the same degrees list them at the
/// same positions.
proof fn lemma_same_degrees(a: Seq<(usize, usize)>, b: Seq<(usize, usize)>)
    requires
        strictly_ascending(a),
        strictly_ascending(b),
        forall|x: usize| has_degree(a, x) <==> has_degree(b, x),
    ensures
        a.len() == b.len(),
        forall|k: int| 0 <= k < a.len() ==> #[trigger] a[k].0 == b[k].0,
    decreases a.len(),
{
    if a.len() == 0 {
        if b.len() > 0 {
            assert(has_degree(b, b[0].0));
        }
    } else {
        assert(has_degree(a, a[0].0));
        let j = choose|j: int| 0 <= j < b.len() && b[j].0 == a[0].0;
        assert(has_degree(b, b[0].0));
        let k = choose|k: int| 0 <= k < a.len() && a[k].0 == b[0].0;
        assert(a[0].0 == b[0].0);
        let a1 = a.drop_first();
        let b1 = b.drop_first();
        assert forall|x: usize| has_degree(a1, x) <==> has_degree(b1, x) by {
            if has_degree(a1, x) {
                let i = choose|i: int| 0 <= i < a1.len() && a1[i].0 == x;
                assert(a[i + 1].0 == x);
                assert(has_degree(a, x));
                let i2 = choose|i2: int| 0 <= i2 < b.len() && b[i2].0 == x;
                assert(i2 != 0);
                assert(b1[i2 - 1].0 == x);
            }
            if has_degree(b1, x) {
                let i = choose|i: int| 0 <= i < b1.len() && b1[i].0 == x;
                assert(b[i + 1].0 == x);
                assert(has_degree(b, x));
                let i2 = choose|i2: int| 0 <= i2 < a.len() && a[i2].0 == x;
                assert(i2 != 0);
                assert(a1[i2 - 1].0 == x);
            }
        }
        lemma_same_degrees(a1, b1);
        assert forall|k: int| 0 <= k < a.len() implies #[trigger] a[k].0 == b[k].0 by {
            if k > 0 {
                assert(a1[k - 1].0 == b1[k - 1].0);
            }
        }
    }
}

/// A multiset of degrees has one histogram.
pub proof fn lemma_histogram_unique(
    h1: Seq<(usize, usize)>,
    h2: Seq<(usize, usize)>,
    m: Multiset<usize>,
)
    requires
        is_histogram_of(h1, m),
        is_histogram_of(h2, m),
    ensures
        h1 == h2,
{
    assert forall|x: usize| has_degree(h1, x) <==> has_degree(h2, x) by {
        if has_degree(h1, x) {
            let i = choose|i: int| 0 <= i < h1.len() && h1[i].0 == x;
            assert(h1[i].1 == m.count(h1[i].0));
            assert(m.count(x) > 0);
        }
        if has_degree(h2, x) {
            let i = choose|i: int| 0 <= i < h2.len() && h2[i].0 == x;
            assert(h2[i].1 == m.count(h2[i].0));
            assert(m.count(x) > 0);
        }
    }
    lemma_same_degrees(h1, h2);
    assert forall|k: int| 0 <= k < h1.len() implies h1[k] == h2[k] by {
        assert(h1[k].0 == h2[k].0);
        assert(h1[k].1 == m.count(h1[k].0));
        assert(h2[k].1 == m.count(h2[k].0));
    }
    assert(h1 =~= h2);
}

/// The histogram does not depend on the order of the degrees: two sequences
/// that hold the same degrees, each as often, have the same histogram.
pub proof fn lemma_histogram_order_independent(
    d1: Seq<usize>,
    d2: Seq<usize>,
    h1: Seq<(usize, usize)>,
    h2: Seq<(usize, usize)>,
)
    requires
        d1.to_multiset() == d2.to_multiset(),
        is_histogram_of(h1, d1.to_multiset()),
        is_histogram_of(h2, d2.to_multiset()),
    ensures
        h1 == h2,
{
    lemma_histogram_unique(h1, h2, d1.to_multiset());
}

/// `c` copies of `x`.
spec fn copies(x: usize, c: nat) -> Multiset<usize>
    decreases c,
{
    if c == 0 {
        Multiset::empty()
    } else {
        copies(x, (c - 1) as nat).insert(x)
    }
}

proof fn lemma_copies(x: usize, c: nat)
    ensures
        copies(x, c).len() == c,
        forall|y: usize| #[trigger] copies(x, c).count(y) == if y == x { c } else { 0 },
    decreases c,
{
    if c > 0 {
        lemma_copies(x, (c - 1) as nat);
    }
}

/// The degrees that `h` counts, each as often as its count.
spec fn counted(h: Seq<(usize, usize)>) -> Multiset<usize>
    decreases h.len(),
{
    if h.len() == 0 {
        Multiset::empty()
    } else {
        counted(h.drop_last()).add(copies(h.last().0, h.last().1 as nat))
    }
}

proof fn lemma_counted(h: Seq<(usize, usize)>)
    requires
        strictly_ascending(h),
    ensures
        counted(h).len() == total_count(h),
        forall|k: int| 0 <= k < h.len() ==> counted(h).count(#[trigger] h[k].0) == h[k].1,
        forall|y: usize| !has_degree(h, y) ==> #[trigger] counted(h).count(y) == 0,
    decreases h.len(),
{
    if h.len() > 0 {
        let h0 = h.drop_last();
        let x = h.last().0;
        let c = h.last().1 as nat;
        lemma_counted(h0);
        lemma_copies(x, c);
        assert forall|k: int| 0 <= k < h.len() implies counted(h).count(#[trigger] h[k].0)
            == h[k].1 by {
            if k < h.len() - 1 {
                assert(h0[k] == h[k]);
                assert(h[k].0 != x);
            } else {
                if has_degree(h0, x) {
                    let i = choose|i: int| 0 <= i < h0.len() && h0[i].0 == x;
                    assert(h[i].0 == x);
                }
            }
        }
        assert forall|y: usize| !has_degree(h, y) implies #[trigger] counted(h).count(y) == 0 by {
            if has_degree(h0, y) {
                let i = choose|i: int| 0 <= i < h0.len() && h0[i].0 == y;
                assert(h[i].0 == y);
            }
            assert(h[h.len() - 1].0 != y);
        }
    }
}

/// Every degree is counted once: the counts of the histogram of `d` add up
/// to the length of `d`.
pub proof fn lemma_histogram_total(d: Seq<usize>, h: Seq<(usize, usize)>)
    requires
        is_histogram_of(h, d.to_multiset()),
    ensures
        total_count(h) == d.len(),
{
    let m = d.to_multiset();
    lemma_counted(h);
    assert forall|y: usize| counted(h).count(y) == m.count(y) by {
        if has_degree(h, y) {
            let i = choose|i: int| 0 <= i < h.len() && h[i].0 == y;
            assert(counted(h).count(h[i].0) == h[i].1);
        }
    }
    assert(counted(h) =~= m);
    d.to_multiset_ensures();
}

} // verus!
