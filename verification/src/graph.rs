use vstd::prelude::*;

verus! {

/// The discovered link graph. `nodes` is an ordered record of URLs, each
/// appearing once; a node's position is its stable identifier for the whole
/// run. `edges` records the parent-to-child "link" relation, each tuple
/// `(parent index, child index, label)` appearing once.
pub struct Graph {
    nodes: Vec<String>,
    edges: Vec<(usize, usize, String)>,
}

/// One `ensure_node` step over the mathematical node list: the index an
/// existing URL already has, or the URL appended at the next free index.
pub open spec fn ensure_node_spec(nodes: Seq<Seq<char>>, url: Seq<char>) -> (Seq<Seq<char>>, int) {
    if nodes.contains(url) {
        (nodes, nodes.index_of(url))
    } else {
        (nodes.push(url), nodes.len() as int)
    }
}

/// One `add_edge` step over the mathematical edge list: a tuple that is
/// already present is rejected and nothing changes.
pub open spec fn add_edge_spec(
    edges: Seq<(usize, usize, Seq<char>)>,
    e: (usize, usize, Seq<char>),
) -> (Seq<(usize, usize, Seq<char>)>, bool) {
    if edges.contains(e) {
        (edges, false)
    } else {
        (edges.push(e), true)
    }
}

/// Edge idempotence: inserting the same `(parent, child, label)` tuple
/// twice changes the edge list exactly once; the second insertion is a
/// no-op that reports rejection.
pub proof fn lemma_add_edge_idempotent(
    edges: Seq<(usize, usize, Seq<char>)>,
    e: (usize, usize, Seq<char>),
)
    ensures
        add_edge_spec(add_edge_spec(edges, e).0, e) == (add_edge_spec(edges, e).0, false),
{
    let once = add_edge_spec(edges, e).0;
    assert(once.contains(e)) by {
        if !edges.contains(e) {
            assert(edges.push(e)[edges.len() as int] == e);
        }
    }
}

/// Node uniqueness: in a well-formed graph a URL occupies at most one
/// index, so the index `ensure_node` reports is the only one that URL will
/// ever map to.
pub proof fn lemma_node_index_unique(nodes: Seq<Seq<char>>, i: int, j: int)
    requires
        nodes.no_duplicates(),
        0 <= i < nodes.len(),
        0 <= j < nodes.len(),
        nodes[i] == nodes[j],
    ensures
        i == j,
{
}

impl Graph {
    /// The recorded URLs, in discovery order.
    pub closed spec fn nodes_seq(&self) -> Seq<Seq<char>> {
        self.nodes.deep_view()
    }

    /// The recorded edges, in insertion order.
    pub closed spec fn edges_seq(&self) -> Seq<(usize, usize, Seq<char>)> {
        self.edges.deep_view()
    }

    /// Well-formedness: nodes and edges are free of duplicates and every
    /// edge endpoint names an existing node.
    pub open spec fn wf(&self) -> bool {
        &&& self.nodes_seq().no_duplicates()
        &&& self.edges_seq().no_duplicates()
        &&& forall|i: int|
            0 <= i < self.edges_seq().len()
                ==> (#[trigger] self.edges_seq()[i]).0 < self.nodes_seq().len()
                    && self.edges_seq()[i].1 < self.nodes_seq().len()
    }

    pub fn new() -> (g: Graph)
        ensures
            g.wf(),
            g.nodes_seq() == Seq::<Seq<char>>::empty(),
            g.edges_seq() == Seq::<(usize, usize, Seq<char>)>::empty(),
    {
        let g = Graph { nodes: Vec::new(), edges: Vec::new() };
        proof {
            assert(g.nodes_seq() =~= Seq::<Seq<char>>::empty());
            assert(g.edges_seq() =~= Seq::<(usize, usize, Seq<char>)>::empty());
        }
        g
    }

    /// Returns the index of `url`, appending it as a fresh node first if it
    /// was not recorded yet. Indices of existing nodes never change.
    pub fn ensure_node(&mut self, url: String) -> (i: usize)
        requires
            old(self).wf(),
        ensures
            final(self).wf(),
            final(self).edges_seq() == old(self).edges_seq(),
            i < final(self).nodes_seq().len(),
            final(self).nodes_seq()[i as int] == url@,
            old(self).nodes_seq().contains(url@) ==> *final(self) == *old(self),
            !old(self).nodes_seq().contains(url@) ==> final(self).nodes_seq() == old(
                self,
            ).nodes_seq().push(url@) && i == old(self).nodes_seq().len(),
            (final(self).nodes_seq(), i as int) == ensure_node_spec(old(self).nodes_seq(), url@),
    {
        let n = self.nodes.len();
        let mut i: usize = 0;
        while i < n
            invariant
                *self == *old(self),
                old(self).wf(),
                n == self.nodes.len(),
                i <= n,
                forall|j: int| 0 <= j < i ==> self.nodes_seq()[j] != url@,
            decreases n - i,
        {
            if self.nodes[i].eq(&url) {
                proof {
                    assert(self.nodes_seq()[i as int] == url@);
                    assert(self.nodes_seq().contains(url@));
                    let j = self.nodes_seq().index_of(url@);
                    assert(0 <= j < self.nodes_seq().len() && self.nodes_seq()[j] == url@);
                    lemma_node_index_unique(self.nodes_seq(), i as int, j);
                }
                return i;
            }
            i += 1;
        }
        let ghost old_n = self.nodes_seq();
        proof {
            assert(!old_n.contains(url@));
        }
        self.nodes.push(url);
        proof {
            assert(self.nodes_seq() =~= old_n.push(url@));
            assert(self.edges_seq() =~= old(self).edges_seq());
        }
        n
    }

    /// Records the edge `(parent, child, label)` unless that exact tuple is
    /// already present; reports whether the graph changed.
    pub fn add_edge(&mut self, parent: usize, child: usize, label: String) -> (added: bool)
        requires
            old(self).wf(),
            parent < old(self).nodes_seq().len(),
            child < old(self).nodes_seq().len(),
        ensures
            final(self).wf(),
            final(self).nodes_seq() == old(self).nodes_seq(),
            (final(self).edges_seq(), added) == add_edge_spec(
                old(self).edges_seq(),
                (parent, child, label@),
            ),
    {
        let n = self.edges.len();
        let mut i: usize = 0;
        while i < n
            invariant
                *self == *old(self),
                old(self).wf(),
                parent < old(self).nodes_seq().len(),
                child < old(self).nodes_seq().len(),
                n == self.edges.len(),
                i <= n,
                forall|j: int| 0 <= j < i ==> self.edges_seq()[j] != (parent, child, label@),
            decreases n - i,
        {
            let e = &self.edges[i];
            if e.0 == parent && e.1 == child && e.2.eq(&label) {
                proof {
                    assert(self.edges_seq()[i as int] == (parent, child, label@));
                }
                return false;
            }
            i += 1;
        }
        let ghost old_e = self.edges_seq();
        proof {
            assert(!old_e.contains((parent, child, label@)));
        }
        self.edges.push((parent, child, label));
        proof {
            assert(self.edges_seq() =~= old_e.push((parent, child, label@)));
            assert(self.nodes_seq() =~= old(self).nodes_seq());
        }
        true
    }

    /// Read-only export of the discovered graph, for the collaborators that
    /// render it once the crawl has terminated.
    pub fn snapshot(&self) -> (r: (&Vec<String>, &Vec<(usize, usize, String)>))
        ensures
            r.0.deep_view() == self.nodes_seq(),
            r.1.deep_view() == self.edges_seq(),
    {
        (&self.nodes, &self.edges)
    }

    /// Number of recorded nodes.
    pub fn node_count(&self) -> (n: usize)
        ensures
            n == self.nodes_seq().len(),
    {
        self.nodes.len()
    }

    /// Number of recorded edges.
    pub fn edge_count(&self) -> (n: usize)
        ensures
            n == self.edges_seq().len(),
    {
        self.edges.len()
    }
}

} // verus!
