//! The graph accumulator: the committed node and edge sets.  Both only
//! grow during the crawl; set semantics on full value equality.

use vstd::prelude::*;
use crate::paper::ProtoPaper;
use crate::paper::StubView;

verus! {

/// Mathematical image of an [`Edge`].
pub struct EdgeView {
    pub from_id: Seq<char>,
    pub to_id: Seq<char>,
}

/// A committed edge: the expanded paper `from_id` cites `to_id`.
/// Self-loops are legal and not special-cased.
pub struct Edge {
    pub from_id: String,
    pub to_id: String,
}

impl View for Edge {
    type V = EdgeView;

    open spec fn view(&self) -> EdgeView {
        EdgeView { from_id: self.from_id@, to_id: self.to_id@ }
    }
}

impl Clone for Edge {
    fn clone(&self) -> (r: Self)
        ensures
            r == *self,
    {
        Edge { from_id: self.from_id.clone(), to_id: self.to_id.clone() }
    }
}

impl PartialEq for Edge {
    fn eq(&self, other: &Self) -> (r: bool) {
        self.from_id == other.from_id && self.to_id == other.to_id
    }
}

impl vstd::std_specs::cmp::PartialEqSpecImpl for Edge {
    open spec fn obeys_eq_spec() -> bool {
        true
    }

    open spec fn eq_spec(&self, other: &Self) -> bool {
        self@ == other@
    }
}

/// Appends an element unless it is already present: one set-insertion
/// on a duplicate-free sequence.
pub open spec fn insert_unique<T>(s: Seq<T>, x: T) -> Seq<T> {
    if s.contains(x) {
        s
    } else {
        s.push(x)
    }
}

/// Folds [`insert_unique`] over `xs` from the left: the set union that
/// keeps the left operand's order and appends the right operand's new
/// elements in first-occurrence order.
pub open spec fn union_unique<T>(s: Seq<T>, xs: Seq<T>) -> Seq<T>
    decreases xs.len(),
{
    if xs.len() == 0 {
        s
    } else {
        insert_unique(union_unique(s, xs.drop_last()), xs.last())
    }
}

/// No two elements of the sequence are equal.
pub open spec fn unique_seq<T>(s: Seq<T>) -> bool {
    forall|i: int, j: int| 0 <= i < j < s.len() ==> s[i] != s[j]
}

proof fn lemma_insert_unique_props<T>(s: Seq<T>, x: T)
    ensures
        forall|y: T| insert_unique(s, x).contains(y) <==> s.contains(y) || y == x,
        unique_seq(s) ==> unique_seq(insert_unique(s, x)),
        s.len() <= insert_unique(s, x).len(),
{
    assert forall|y: T| insert_unique(s, x).contains(y) <==> s.contains(y) || y == x by {
        if s.contains(x) {
        } else {
            assert(forall|i: int|
                0 <= i < s.len() ==> s.push(x)[i] == s[i]);
            if s.contains(y) {
                let i = choose|i: int| 0 <= i < s.len() && s[i] == y;
                assert(s.push(x)[i] == y);
            }
            if insert_unique(s, x).contains(y) {
                let i = choose|i: int| 0 <= i < s.push(x).len() && s.push(x)[i] == y;
                if i < s.len() {
                    assert(s[i] == y);
                }
            }
            assert(s.push(x)[s.len() as int] == x);
        }
    }
}

/// Membership in the dedup-union is exactly membership in either
/// operand; the union of duplicate-free input stays duplicate-free.
pub proof fn lemma_union_unique_props<T>(s: Seq<T>, xs: Seq<T>)
    ensures
        forall|y: T| union_unique(s, xs).contains(y) <==> s.contains(y) || xs.contains(y),
        unique_seq(s) ==> unique_seq(union_unique(s, xs)),
        s.len() <= union_unique(s, xs).len(),
    decreases xs.len(),
{
    if xs.len() == 0 {
        assert forall|y: T| union_unique(s, xs).contains(y) <==> s.contains(y) || xs.contains(y) by {
            if xs.contains(y) {
                let i = choose|i: int| 0 <= i < xs.len() && xs[i] == y;
            }
        }
    } else {
        let rest = xs.drop_last();
        lemma_union_unique_props(s, rest);
        lemma_insert_unique_props(union_unique(s, rest), xs.last());
        assert forall|y: T| union_unique(s, xs).contains(y) <==> s.contains(y) || xs.contains(y) by {
            if xs.contains(y) {
                let i = choose|i: int| 0 <= i < xs.len() && xs[i] == y;
                if i < xs.len() - 1 {
                    assert(rest[i] == y);
                }
            }
            if rest.contains(y) {
                let i = choose|i: int| 0 <= i < rest.len() && rest[i] == y;
                assert(xs[i] == y);
            }
        }
    }
}

/// Mathematical image of a [`Graph`].
pub struct GraphView {
    pub nodes: Seq<StubView>,
    pub edges: Seq<EdgeView>,
}

/// The committed citation graph: nodes are paper stubs deduplicated by
/// full structural equality, edges are referencer-to-referencee pairs
/// deduplicated by value.
pub struct Graph {
    pub nodes: Vec<ProtoPaper>,
    pub edges: Vec<Edge>,
}

impl View for Graph {
    type V = GraphView;

    open spec fn view(&self) -> GraphView {
        GraphView {
            nodes: self.nodes@.map_values(|p: ProtoPaper| p@),
            edges: self.edges@.map_values(|e: Edge| e@),
        }
    }
}

/// Both committed sets are free of duplicates.
pub open spec fn graph_wf(g: GraphView) -> bool {
    unique_seq(g.nodes) && unique_seq(g.edges)
}

pub(crate) fn contains_stub(v: &Vec<ProtoPaper>, x: &ProtoPaper) -> (r: bool)
    ensures
        r == v@.map_values(|p: ProtoPaper| p@).contains(x@),
{
    let ghost views = v@.map_values(|p: ProtoPaper| p@);
    let mut i: usize = 0;
    while i < v.len()
        invariant
            i <= v.len(),
            views == v@.map_values(|p: ProtoPaper| p@),
            forall|j: int| 0 <= j < i ==> views[j] != x@,
        decreases v.len() - i,
    {
        if v[i].eq(x) {
            assert(views[i as int] == x@);
            return true;
        }
        i = i + 1;
    }
    false
}

fn contains_edge(v: &Vec<Edge>, x: &Edge) -> (r: bool)
    ensures
        r == v@.map_values(|e: Edge| e@).contains(x@),
{
    let ghost views = v@.map_values(|e: Edge| e@);
    let mut i: usize = 0;
    while i < v.len()
        invariant
            i <= v.len(),
            views == v@.map_values(|e: Edge| e@),
            forall|j: int| 0 <= j < i ==> views[j] != x@,
        decreases v.len() - i,
    {
        if v[i].eq(x) {
            assert(views[i as int] == x@);
            return true;
        }
        i = i + 1;
    }
    false
}

impl Graph {
    /// The empty graph.
    pub fn new() -> (r: Graph)
        ensures
            r@.nodes == Seq::<StubView>::empty(),
            r@.edges == Seq::<EdgeView>::empty(),
            graph_wf(r@),
    {
        let g = Graph { nodes: Vec::new(), edges: Vec::new() };
        proof {
            assert(g@.nodes =~= Seq::<StubView>::empty());
            assert(g@.edges =~= Seq::<EdgeView>::empty());
        }
        g
    }

    /// Unions a round's new nodes and edges into the committed sets.
    /// Set semantics on full value equality: an element already present
    /// is not added again, and nothing is ever removed here.
    pub fn commit(&mut self, new_nodes: &Vec<ProtoPaper>, new_edges: &Vec<Edge>)
        requires
            graph_wf(old(self)@),
        ensures
            final(self)@.nodes == union_unique(
                old(self)@.nodes,
                new_nodes@.map_values(|p: ProtoPaper| p@),
            ),
            final(self)@.edges == union_unique(
                old(self)@.edges,
                new_edges@.map_values(|e: Edge| e@),
            ),
            graph_wf(final(self)@),
    {
        let ghost old_nodes = self@.nodes;
        let ghost node_views = new_nodes@.map_values(|p: ProtoPaper| p@);
        let mut i: usize = 0;
        while i < new_nodes.len()
            invariant
                i <= new_nodes.len(),
                node_views == new_nodes@.map_values(|p: ProtoPaper| p@),
                self@.nodes == union_unique(old_nodes, node_views.take(i as int)),
                self@.edges == old(self)@.edges,
                graph_wf(self@),
            decreases new_nodes.len() - i,
        {
            proof {
                assert(node_views.take(i + 1).drop_last() =~= node_views.take(i as int));
                assert(node_views.take(i + 1).last() == node_views[i as int]);
                lemma_union_unique_props(old_nodes, node_views.take(i as int));
            }
            if !contains_stub(&self.nodes, &new_nodes[i]) {
                let ghost before = self@.nodes;
                self.nodes.push(new_nodes[i].clone());
                proof {
                    assert(self@.nodes =~= before.push(node_views[i as int]));
                    lemma_insert_unique_props(before, node_views[i as int]);
                }
            }
            i = i + 1;
        }
        proof {
            assert(node_views.take(new_nodes@.len() as int) =~= node_views);
        }
        let ghost old_edges = self@.edges;
        let ghost edge_views = new_edges@.map_values(|e: Edge| e@);
        let mut k: usize = 0;
        while k < new_edges.len()
            invariant
                k <= new_edges.len(),
                edge_views == new_edges@.map_values(|e: Edge| e@),
                self@.edges == union_unique(old_edges, edge_views.take(k as int)),
                self@.nodes == union_unique(
                    old(self)@.nodes,
                    new_nodes@.map_values(|p: ProtoPaper| p@),
                ),
                graph_wf(self@),
            decreases new_edges.len() - k,
        {
            proof {
                assert(edge_views.take(k + 1).drop_last() =~= edge_views.take(k as int));
                assert(edge_views.take(k + 1).last() == edge_views[k as int]);
                lemma_union_unique_props(old_edges, edge_views.take(k as int));
            }
            if !contains_edge(&self.edges, &new_edges[k]) {
                let ghost before = self@.edges;
                self.edges.push(new_edges[k].clone());
                proof {
                    assert(self@.edges =~= before.push(edge_views[k as int]));
                    lemma_insert_unique_props(before, edge_views[k as int]);
                }
            }
            k = k + 1;
        }
        proof {
            assert(edge_views.take(new_edges@.len() as int) =~= edge_views);
        }
    }
}

} // verus!
