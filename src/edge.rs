use vstd::prelude::*;

verus! {

/// A directed edge from `source` to `target`; both are opaque identifiers.
#[derive(Clone, Debug)]
pub struct Edge {
    pub source: String,
    pub target: String,
}

impl View for Edge {
    type V = (Seq<char>, Seq<char>);

    open spec fn view(&self) -> (Seq<char>, Seq<char>) {
        (self.source@, self.target@)
    }
}

impl Edge {
    pub fn new(source: String, target: String) -> (e: Edge)
        ensures
            e.source == source,
            e.target == target,
    {
        Edge { source, target }
    }
}

/// Turns the fields of one record into an edge: the first field is the source,
/// the second the target, and any further fields are ignored. A record with
/// fewer than two fields gives `None`.
pub fn edge_from_fields(fields: &Vec<String>) -> (r: Option<Edge>)
    ensures
        fields@.len() < 2 <==> r is None,
        r matches Some(e) ==> e.source == fields@[0] && e.target == fields@[1],
{
    if fields.len() < 2 {
        None
    } else {
        Some(Edge { source: fields[0].clone(), target: fields[1].clone() })
    }
}

} // verus!
