use vstd::prelude::*;

verus! {

/// The identifiers `0, 1, ..., n - 1`, in order.
pub open spec fn node_ids(n: nat) -> Seq<usize> {
    Seq::new(n, |i: int| i as usize)
}

/// A directed graph that only grows: node identifiers are insertion
/// indices, and edges are kept in the order they were added.
pub struct Graph {
    pub nodes: Vec<usize>,
    pub edges: Vec<(usize, usize)>,
}

impl Graph {
    /// Nodes are numbered densely from zero and every edge joins two of them.
    pub open spec fn wf(&self) -> bool {
        &&& self.nodes@ == node_ids(self.nodes@.len())
        &&& forall|i: int|
            0 <= i < self.edges@.len() ==> #[trigger] self.edges@[i].0 < self.nodes@.len()
                && self.edges@[i].1 < self.nodes@.len()
    }

    /// An empty graph: no nodes, no edges.
    pub fn new() -> (g: Graph)
        ensures
            g.nodes@ == Seq::<usize>::empty(),
            g.edges@ == Seq::<(usize, usize)>::empty(),
            g.wf(),
    {
        let g = Graph { nodes: Vec::new(), edges: Vec::new() };
        assert(g.nodes@ =~= node_ids(0));
        g
    }

    /// Appends the next node and returns its identifier, the old node count.
    pub fn add_node(&mut self) -> (id: usize)
        ensures
            id == old(self).nodes@.len(),
            final(self).nodes@ == old(self).nodes@.push(id),
            final(self).edges@ == old(self).edges@,
            old(self).wf() ==> final(self).wf(),
    {
        let node_id = self.nodes.len();
        self.nodes.push(node_id);
        proof {
            if old(self).wf() {
                assert(self.nodes@ =~= node_ids(self.nodes@.len()));
            }
        }
        node_id
    }

    /// Appends the edge `(source, destination)`; both endpoints must exist.
    pub fn add_edge(&mut self, edge: (usize, usize))
        requires
            edge.0 < old(self).nodes@.len(),
            edge.1 < old(self).nodes@.len(),
        ensures
            final(self).nodes@ == old(self).nodes@,
            final(self).edges@ == old(self).edges@.push(edge),
            old(self).wf() ==> final(self).wf(),
    {
        self.edges.push(edge);
    }

    /// The number of nodes.
    pub fn node_count(&self) -> (r: usize)
        ensures
            r == self.nodes@.len(),
    {
        self.nodes.len()
    }

    /// The number of edges.
    pub fn edge_count(&self) -> (r: usize)
        ensures
            r == self.edges@.len(),
    {
        self.edges.len()
    }
}

} // verus!
