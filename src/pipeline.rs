use vstd::prelude::*;
use vstd::multiset::Multiset;

use crate::adjacency::{adj_list, adjacency, calc_length, out_degrees};
use crate::edge::Edge;
use crate::histogram::{is_histogram_of, length_freq, lemma_histogram_unique};

verus! {

/// The out-degrees of the sources of `edges`, as a multiset.
pub open spec fn degree_multiset(edges: Seq<Edge>) -> Multiset<usize> {
    out_degrees(adjacency(edges)).to_multiset()
}

/// The out-degree distribution of `edges`: for each out-degree that some
/// source has, in ascending order, the number of sources that have it.
/// Identifiers that occur only as targets have no out-degree here.
pub fn degree_distribution(edges: Vec<Edge>) -> (hist: Vec<(usize, usize)>)
    ensures
        is_histogram_of(hist@, degree_multiset(edges@)),
{
    let graph = adj_list(edges);
    let lengths = calc_length(graph);
    length_freq(lengths)
}

/// The computation is a function of its input: on the same edges, two runs
/// give the same histogram.
pub proof fn lemma_distribution_deterministic(
    edges: Seq<Edge>,
    h1: Seq<(usize, usize)>,
    h2: Seq<(usize, usize)>,
)
    requires
        is_histogram_of(h1, degree_multiset(edges)),
        is_histogram_of(h2, degree_multiset(edges)),
    ensures
        h1 == h2,
{
    lemma_histogram_unique(h1, h2, degree_multiset(edges));
}

} // verus!
