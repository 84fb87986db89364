use vstd::prelude::*;

use crate::edge::Edge;

verus! {

/// Abstract adjacency: each entry pairs a source identifier with the targets
/// recorded for it, in the order in which they were recorded.
pub type AdjModel = Seq<(Seq<char>, Seq<Seq<char>>)>;

pub open spec fn has_key(adj: AdjModel, s: Seq<char>) -> bool {
    exists|i: int| 0 <= i < adj.len() && adj[i].0 == s
}

pub open spec fn keys_unique(adj: AdjModel) -> bool {
    forall|i: int, j: int|
        0 <= i < adj.len() && 0 <= j < adj.len() && i != j ==> adj[i].0 != adj[j].0
}

pub open spec fn keys(adj: AdjModel) -> Seq<Seq<char>> {
    adj.map_values(|e: (Seq<char>, Seq<Seq<char>>)| e.0)
}

/// Records one edge from `s` to `t`: appends `t` to the list of `s`, or
/// starts a new entry for `s` at the end when `s` has none yet.
pub open spec fn add_edge(adj: AdjModel, s: Seq<char>, t: Seq<char>) -> AdjModel {
    if has_key(adj, s) {
        let i = choose|i: int| 0 <= i < adj.len() && adj[i].0 == s;
        adj.update(i, (s, adj[i].1.push(t)))
    } else {
        adj.push((s, seq![t]))
    }
}

/// The adjacency of a sequence of edges: the edges recorded one after the
/// other, starting from no entries.
pub open spec fn adjacency(edges: Seq<Edge>) -> AdjModel
    decreases edges.len(),
{
    if edges.len() == 0 {
        Seq::empty()
    } else {
        add_edge(adjacency(edges.drop_last()), edges.last().source@, edges.last().target@)
    }
}

/// The source of each edge, in order.
pub open spec fn sources(edges: Seq<Edge>) -> Seq<Seq<char>> {
    edges.map_values(|e: Edge| e.source@)
}

/// The edges that leave `s`, in order.
pub open spec fn edges_from(edges: Seq<Edge>, s: Seq<char>) -> Seq<Edge> {
    edges.filter(|e: Edge| e.source@ == s)
}

/// The targets of the edges that leave `s`, in order, repeats included.
pub open spec fn targets_of(edges: Seq<Edge>, s: Seq<char>) -> Seq<Seq<char>> {
    edges_from(edges, s).map_values(|e: Edge| e.target@)
}

/// The number of targets over all entries.
pub open spec fn total_targets(adj: AdjModel) -> nat
    decreases adj.len(),
{
    if adj.len() == 0 {
        0
    } else {
        total_targets(adj.drop_last()) + adj.last().1.len()
    }
}

/// The length of each list, entry by entry.
pub open spec fn out_degrees(adj: AdjModel) -> Seq<usize> {
    adj.map_values(|e: (Seq<char>, Seq<Seq<char>>)| e.1.len() as usize)
}

pub open spec fn entries_view(entries: Seq<(String, Vec<String>)>) -> AdjModel {
    entries.map_values(|e: (String, Vec<String>)| (e.0@, e.1@.map_values(|t: String| t@)))
}

/// A mapping from each source identifier to the targets it points to.
pub struct AdjacencyMap {
    entries: Vec<(String, Vec<String>)>,
}

impl View for AdjacencyMap {
    type V = AdjModel;

    closed spec fn view(&self) -> AdjModel {
        entries_view(self.entries@)
    }
}

impl AdjacencyMap {
    /// Every source has one entry.
    pub open spec fn wf(&self) -> bool {
        keys_unique(self@)
    }

    /// The number of sources.
    pub fn len(&self) -> (n: usize)
        ensures
            n == self@.len(),
    {
        self.entries.len()
    }

    /// The targets recorded for `source`, if it has an entry.
    pub fn targets(&self, source: &String) -> (r: Option<&Vec<String>>)
        requires
            self.wf(),
        ensures
            r is None <==> !has_key(self@, source@),
            r matches Some(v) ==> forall|i: int|
                0 <= i < self@.len() && self@[i].0 == source@ ==> self@[i].1 == v@.map_values(
                    |t: String| t@,
                ),
    {
        match find_key(&self.entries, source) {
            Some(j) => {
                proof {
                    assert(self@[j as int].0 == source@);
                }
                Some(&self.entries[j].1)
            },
            None => {
                proof {
                    assert forall|i: int| 0 <= i < self@.len() implies self@[i].0 != source@ by {
                        assert(self@[i].0 == self.entries@[i].0@);
                    }
                }
                None
            },
        }
    }
}

proof fn lemma_targets_push(edges: Seq<Edge>, e: Edge, s: Seq<char>)
    ensures
        targets_of(edges.push(e), s) == if e.source@ == s {
            targets_of(edges, s).push(e.target@)
        } else {
            targets_of(edges, s)
        },
{
    let f = |x: Edge| x.target@;
    reveal(Seq::filter);
    assert(edges.push(e).drop_last() =~= edges);
    if e.source@ == s {
        assert(edges_from(edges.push(e), s) == edges_from(edges, s).push(e));
        assert(edges_from(edges, s).push(e).map_values(f) =~= edges_from(edges, s).map_values(
            f,
        ).push(e.target@));
    } else {
        assert(edges_from(edges.push(e), s) == edges_from(edges, s));
    }
}

/// What `adjacency` holds: one entry per distinct source, whose list is the
/// targets of the edges leaving that source, in order; no entry for any other
/// identifier.
proof fn lemma_adjacency_shape(edges: Seq<Edge>)
    ensures
        keys_unique(adjacency(edges)),
        forall|s: Seq<char>| has_key(adjacency(edges), s) <==> sources(edges).contains(s),
        forall|i: int|
            0 <= i < adjacency(edges).len() ==> #[trigger] adjacency(edges)[i].1 == targets_of(
                edges,
                adjacency(edges)[i].0,
            ),
        forall|s: Seq<char>|
            !has_key(adjacency(edges), s) ==> #[trigger] targets_of(edges, s) == Seq::<
                Seq<char>,
            >::empty(),
    decreases edges.len(),
{
    if edges.len() == 0 {
        reveal(Seq::filter);
        assert forall|s: Seq<char>| !has_key(adjacency(edges), s) implies #[trigger] targets_of(
            edges,
            s,
        ) == Seq::<Seq<char>>::empty() by {
            assert(targets_of(edges, s) =~= Seq::<Seq<char>>::empty());
        }
    } else {
        let prev = edges.drop_last();
        let e = edges.last();
        let s = e.source@;
        let t = e.target@;
        let a0 = adjacency(prev);
        let a = adjacency(edges);
        lemma_adjacency_shape(prev);
        assert(prev.push(e) =~= edges);
        assert(sources(edges) =~= sources(prev).push(s));
        assert forall|x: Seq<char>| #[trigger]
            sources(edges).contains(x) <==> (sources(prev).contains(x) || x == s) by {
            if sources(prev).contains(x) {
                let k = choose|k: int| 0 <= k < sources(prev).len() && sources(prev)[k] == x;
                assert(sources(edges)[k] == x);
            }
            if sources(edges).contains(x) {
                let k = choose|k: int| 0 <= k < sources(edges).len() && sources(edges)[k] == x;
                if k < prev.len() {
                    assert(sources(prev)[k] == x);
                }
            }
            if x == s {
                assert(sources(edges)[prev.len() as int] == s);
            }
        }
        assert forall|x: Seq<char>| #[trigger]
            targets_of(edges, x) == (if s == x {
                targets_of(prev, x).push(t)
            } else {
                targets_of(prev, x)
            }) by {
            lemma_targets_push(prev, e, x);
        }
        if has_key(a0, s) {
            let i = choose|i: int| 0 <= i < a0.len() && a0[i].0 == s;
            assert(a == a0.update(i, (s, a0[i].1.push(t))));
            assert forall|x: Seq<char>| has_key(a, x) <==> sources(edges).contains(x) by {
                if has_key(a0, x) {
                    let k = choose|k: int| 0 <= k < a0.len() && a0[k].0 == x;
                    assert(a[k].0 == x);
                }
                if has_key(a, x) {
                    let k = choose|k: int| 0 <= k < a.len() && a[k].0 == x;
                    assert(a0[k].0 == x);
                }
            }
            assert forall|k: int| 0 <= k < a.len() implies #[trigger] a[k].1 == targets_of(
                edges,
                a[k].0,
            ) by {
                if k != i {
                    assert(a[k] == a0[k]);
                    assert(a0[k].1 == targets_of(prev, a0[k].0));
                }
            }
            assert forall|x: Seq<char>| !has_key(a, x) implies #[trigger] targets_of(edges, x)
                == Seq::<Seq<char>>::empty() by {
                if has_key(a0, x) {
                    let k = choose|k: int| 0 <= k < a0.len() && a0[k].0 == x;
                    assert(a[k].0 == x);
                }
                assert(x != s);
            }
        } else {
            assert(a == a0.push((s, seq![t])));
            assert(targets_of(prev, s) == Seq::<Seq<char>>::empty());
            assert(targets_of(edges, s) =~= seq![t]);
            assert forall|x: Seq<char>| has_key(a, x) <==> sources(edges).contains(x) by {
                if has_key(a0, x) {
                    let k = choose|k: int| 0 <= k < a0.len() && a0[k].0 == x;
                    assert(a[k].0 == x);
                }
                if has_key(a, x) && x != s {
                    let k = choose|k: int| 0 <= k < a.len() && a[k].0 == x;
                    assert(a0[k].0 == x);
                }
                if x == s {
                    assert(a[a0.len() as int].0 == x);
                }
            }
            assert forall|k: int| 0 <= k < a.len() implies #[trigger] a[k].1 == targets_of(
                edges,
                a[k].0,
            ) by {
                if k < a0.len() {
                    assert(a[k] == a0[k]);
                    assert(a0[k].1 == targets_of(prev, a0[k].0));
                    assert(a0[k].0 != s);
                }
            }
            assert forall|x: Seq<char>| !has_key(a, x) implies #[trigger] targets_of(edges, x)
                == Seq::<Seq<char>>::empty() by {
                if has_key(a0, x) {
                    let k = choose|k: int| 0 <= k < a0.len() && a0[k].0 == x;
                    assert(a[k].0 == x);
                }
                if x == s {
                    assert(a[a0.len() as int].0 == x);
                }
            }
        }
    }
}

/// Finds the position of the entry for `s`, if there is one.
fn find_key(entries: &Vec<(String, Vec<String>)>, s: &String) -> (r: Option<usize>)
    ensures
        match r {
            Some(j) => j < entries@.len() && entries@[j as int].0@ == s@,
            None => forall|j: int| 0 <= j < entries@.len() ==> entries@[j].0@ != s@,
        },
{
    let mut j: usize = 0;
    while j < entries.len()
        invariant
            j <= entries@.len(),
            forall|k: int| 0 <= k < j ==> entries@[k].0@ != s@,
        decreases entries@.len() - j,
    {
        if entries[j].0 == *s {
            return Some(j);
        }
        j += 1;
    }
    None
}

/// Builds the adjacency of `edges`: one entry per distinct source, in the
/// order in which sources first occur, holding the targets of the edges that
/// leave it, in input order, with repeated edges counted each time.
pub fn adj_list(edges: Vec<Edge>) -> (graph: AdjacencyMap)
    ensures
        graph.wf(),
        graph@ == adjacency(edges@),
        forall|s: Seq<char>| has_key(graph@, s) <==> sources(edges@).contains(s),
        forall|i: int|
            0 <= i < graph@.len() ==> #[trigger] graph@[i].1 == targets_of(edges@, graph@[i].0),
{
    let mut entries: Vec<(String, Vec<String>)> = Vec::new();
    let mut i: usize = 0;
    while i < edges.len()
        invariant
            i <= edges@.len(),
            entries_view(entries@) == adjacency(edges@.take(i as int)),
        decreases edges@.len() - i,
    {
        let e = &edges[i];
        let ghost a0 = entries_view(entries@);
        proof {
            lemma_adjacency_shape(edges@.take(i as int));
            assert(edges@.take(i + 1).drop_last() =~= edges@.take(i as int));
            assert(edges@.take(i + 1).last() == edges@[i as int]);
        }
        match find_key(&entries, &e.source) {
            Some(j) => {
                let ghost old_entries = entries@;
                entries[j].1.push(e.target.clone());
                proof {
                    assert(entries@.len() == old_entries.len());
                    assert(forall|k: int|
                        0 <= k < entries@.len() && k != j ==> entries@[k] == old_entries[k]);
                    assert(entries@[j as int].0 == old_entries[j as int].0);
                    assert(entries@[j as int].1@ == old_entries[j as int].1@.push(e.target));
                    assert(old_entries[j as int].1@.push(e.target).map_values(|t: String| t@)
                        =~= a0[j as int].1.push(e.target@));
                    assert(a0[j as int].0 == e.source@);
                    let k = choose|k: int| 0 <= k < a0.len() && a0[k].0 == e.source@;
                    assert(k == j);
                    assert(entries_view(entries@) =~= a0.update(
                        j as int,
                        (e.source@, a0[j as int].1.push(e.target@)),
                    ));
                }
            },
            None => {
                entries.push((e.source.clone(), vec![e.target.clone()]));
                proof {
                    assert(entries@.last().1@.map_values(|t: String| t@) =~= seq![e.target@]);
                    assert(!has_key(a0, e.source@));
                    assert(entries_view(entries@) =~= a0.push((e.source@, seq![e.target@])));
                }
            },
        }
        i += 1;
    }
    proof {
        assert(edges@.take(i as int) =~= edges@);
        lemma_adjacency_shape(edges@);
    }
    AdjacencyMap { entries }
}

/// The out-degree of each source: the length of its list, entry by entry.
pub fn calc_length(graph: AdjacencyMap) -> (lengths: Vec<usize>)
    requires
        graph.wf(),
    ensures
        lengths@ == out_degrees(graph@),
        lengths@.len() == keys(graph@).to_set().len(),
{
    let mut lengths: Vec<usize> = Vec::new();
    let mut i: usize = 0;
    while i < graph.entries.len()
        invariant
            i <= graph.entries@.len(),
            lengths@ =~= out_degrees(graph@).take(i as int),
        decreases graph.entries@.len() - i,
    {
        let length = graph.entries[i].1.len();
        lengths.push(length);
        i += 1;
    }
    proof {
        assert(lengths@ =~= out_degrees(graph@));
        assert(keys(graph@).no_duplicates());
        keys(graph@).unique_seq_to_set();
    }
    lengths
}

proof fn lemma_total_update(
    adj: AdjModel,
    i: int,
    x: (Seq<char>, Seq<Seq<char>>),
)
    requires
        0 <= i < adj.len(),
    ensures
        total_targets(adj.update(i, x)) + adj[i].1.len() == total_targets(adj) + x.1.len(),
    decreases adj.len(),
{
    let u = adj.update(i, x);
    if i == adj.len() - 1 {
        assert(u.drop_last() =~= adj.drop_last());
    } else {
        lemma_total_update(adj.drop_last(), i, x);
        assert(u.drop_last() =~= adj.drop_last().update(i, x));
    }
}

/// The sources of the adjacency of `edges` are the distinct sources of the
/// edges, each one once, and the list of each source is as long as the number
/// of edges that leave it.
pub proof fn lemma_adjacency_keys_and_lengths(edges: Seq<Edge>)
    ensures
        keys(adjacency(edges)).no_duplicates(),
        keys(adjacency(edges)).to_set() == sources(edges).to_set(),
        forall|i: int|
            0 <= i < adjacency(edges).len() ==> #[trigger] adjacency(edges)[i].1.len()
                == edges_from(edges, adjacency(edges)[i].0).len(),
{
    lemma_adjacency_shape(edges);
    let a = adjacency(edges);
    assert forall|x: Seq<char>| #[trigger] keys(a).contains(x) <==> has_key(a, x) by {
        if keys(a).contains(x) {
            let k = choose|k: int| 0 <= k < keys(a).len() && keys(a)[k] == x;
            assert(a[k].0 == x);
        }
        if has_key(a, x) {
            let k = choose|k: int| 0 <= k < a.len() && a[k].0 == x;
            assert(keys(a)[k] == x);
        }
    }
    assert(keys(a).to_set() =~= sources(edges).to_set());
}

/// Each edge is recorded once: the lists of the adjacency of `edges` hold as
/// many targets in all as there are edges.
pub proof fn lemma_total_targets(edges: Seq<Edge>)
    ensures
        total_targets(adjacency(edges)) == edges.len(),
    decreases edges.len(),
{
    if edges.len() > 0 {
        let prev = edges.drop_last();
        let e = edges.last();
        let s = e.source@;
        let t = e.target@;
        let a0 = adjacency(prev);
        let a = adjacency(edges);
        lemma_total_targets(prev);
        lemma_adjacency_shape(prev);
        if has_key(a0, s) {
            let i = choose|i: int| 0 <= i < a0.len() && a0[i].0 == s;
            assert(a == a0.update(i, (s, a0[i].1.push(t))));
            lemma_total_update(a0, i, (s, a0[i].1.push(t)));
        } else {
            assert(a == a0.push((s, seq![t])));
            assert(a.drop_last() =~= a0);
        }
    }
}

} // verus!
