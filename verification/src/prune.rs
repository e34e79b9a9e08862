//! The pruner: repeated low-connectivity elimination over the committed
//! graph.  Each pass removes nodes with at most one incoming and at
//! most one outgoing edge, then removes edges whose endpoints no longer
//! name surviving nodes.  Passes only shrink the graph, and a pass that
//! changes nothing is a fixed point.

use vstd::prelude::*;
use crate::graph::Edge;
use crate::graph::EdgeView;
use crate::graph::Graph;
use crate::graph::GraphView;
use crate::graph::graph_wf;
use crate::graph::unique_seq;
use crate::paper::ProtoPaper;
use crate::paper::StubView;
use crate::paper::real_id;

verus! {

/// Number of committed edges pointing at `id`.
pub open spec fn in_count(edges: Seq<EdgeView>, id: Seq<char>) -> nat
    decreases edges.len(),
{
    if edges.len() == 0 {
        0
    } else {
        in_count(edges.drop_last(), id) + if edges.last().to_id == id {
            1nat
        } else {
            0nat
        }
    }
}

/// Number of committed edges leaving `id`.
pub open spec fn out_count(edges: Seq<EdgeView>, id: Seq<char>) -> nat
    decreases edges.len(),
{
    if edges.len() == 0 {
        0
    } else {
        out_count(edges.drop_last(), id) + if edges.last().from_id == id {
            1nat
        } else {
            0nat
        }
    }
}

/// The degree rule: a node with a real id survives a pass only when
/// more than one edge comes in or more than one goes out.  A node whose
/// id is absent or empty is exempt and always survives.
pub open spec fn keep_node(n: StubView, edges: Seq<EdgeView>) -> bool {
    match n.id {
        Some(id) => id.len() == 0 || in_count(edges, id) > 1 || out_count(edges, id) > 1,
        None => true,
    }
}

/// Some surviving node carries exactly this id.
pub open spec fn has_node_id(nodes: Seq<StubView>, id: Seq<char>) -> bool {
    exists|i: int| 0 <= i < nodes.len() && nodes[i].id == Some(id)
}

/// An edge survives when both of its endpoints still name surviving
/// nodes.
pub open spec fn keep_edge(e: EdgeView, nodes: Seq<StubView>) -> bool {
    has_node_id(nodes, e.from_id) && has_node_id(nodes, e.to_id)
}

/// The nodes surviving the degree rule, in their committed order.
pub open spec fn filter_nodes(nodes: Seq<StubView>, edges: Seq<EdgeView>) -> Seq<StubView>
    decreases nodes.len(),
{
    if nodes.len() == 0 {
        nodes
    } else {
        let rest = filter_nodes(nodes.drop_last(), edges);
        if keep_node(nodes.last(), edges) {
            rest.push(nodes.last())
        } else {
            rest
        }
    }
}

/// The edges surviving the endpoint check, in their committed order.
pub open spec fn filter_edges(edges: Seq<EdgeView>, nodes: Seq<StubView>) -> Seq<EdgeView>
    decreases edges.len(),
{
    if edges.len() == 0 {
        edges
    } else {
        let rest = filter_edges(edges.drop_last(), nodes);
        if keep_edge(edges.last(), nodes) {
            rest.push(edges.last())
        } else {
            rest
        }
    }
}

/// One pruning pass: apply the degree rule against the current edge
/// set, then drop edges that lost an endpoint.
pub open spec fn prune_pass_spec(g: GraphView) -> GraphView {
    let nodes = filter_nodes(g.nodes, g.edges);
    GraphView { nodes, edges: filter_edges(g.edges, nodes) }
}

/// `passes` pruning passes, applied in sequence.
pub open spec fn prune_iter(g: GraphView, passes: nat) -> GraphView
    decreases passes,
{
    if passes == 0 {
        g
    } else {
        prune_pass_spec(prune_iter(g, (passes - 1) as nat))
    }
}

proof fn lemma_filter_nodes_props(nodes: Seq<StubView>, edges: Seq<EdgeView>)
    ensures
        filter_nodes(nodes, edges).len() <= nodes.len(),
        forall|n: StubView|
            nodes.contains(n) && keep_node(n, edges) ==> #[trigger] filter_nodes(
                nodes,
                edges,
            ).contains(n),
        forall|n: StubView|
            #[trigger] filter_nodes(nodes, edges).contains(n) ==> nodes.contains(n) && keep_node(
                n,
                edges,
            ),
        filter_nodes(nodes, edges).len() == nodes.len() ==> filter_nodes(nodes, edges) == nodes,
    decreases nodes.len(),
{
    if nodes.len() > 0 {
        let rest = nodes.drop_last();
        lemma_filter_nodes_props(rest, edges);
        assert forall|n: StubView| nodes.contains(n) && keep_node(n, edges) implies #[trigger]
            filter_nodes(nodes, edges).contains(n) by {
            let i = choose|i: int| 0 <= i < nodes.len() && nodes[i] == n;
            if i < nodes.len() - 1 {
                assert(rest[i] == n);
                assert(rest.contains(n));
                let out = filter_nodes(rest, edges);
                assert(out.contains(n));
                let j = choose|j: int| 0 <= j < out.len() && out[j] == n;
                if keep_node(nodes.last(), edges) {
                    assert(out.push(nodes.last())[j] == n);
                }
            } else {
                let out = filter_nodes(rest, edges);
                assert(out.push(nodes.last())[out.len() as int] == n);
            }
        }
        assert forall|n: StubView| #[trigger]
            filter_nodes(nodes, edges).contains(n) implies nodes.contains(n) && keep_node(
            n,
            edges,
        ) by {
            let out = filter_nodes(nodes, edges);
            let sub = filter_nodes(rest, edges);
            let j = choose|j: int| 0 <= j < out.len() && out[j] == n;
            if keep_node(nodes.last(), edges) && j == out.len() - 1 {
                assert(n == nodes.last());
                assert(nodes[nodes.len() - 1] == n);
            } else {
                if keep_node(nodes.last(), edges) {
                    assert(out == sub.push(nodes.last()));
                    assert(out[j] == sub[j]);
                } else {
                    assert(out == sub);
                }
                assert(sub[j] == n);
                assert(sub.contains(n));
                assert(rest.contains(n));
                let i = choose|i: int| 0 <= i < rest.len() && rest[i] == n;
                assert(nodes[i] == n);
            }
        }
        if filter_nodes(nodes, edges).len() == nodes.len() {
            assert(keep_node(nodes.last(), edges));
            assert(filter_nodes(rest, edges) =~= rest);
            assert(filter_nodes(nodes, edges) =~= nodes);
        }
    }
}

proof fn lemma_filter_edges_props(edges: Seq<EdgeView>, nodes: Seq<StubView>)
    ensures
        filter_edges(edges, nodes).len() <= edges.len(),
        forall|e: EdgeView|
            edges.contains(e) && keep_edge(e, nodes) ==> #[trigger] filter_edges(
                edges,
                nodes,
            ).contains(e),
        forall|e: EdgeView|
            #[trigger] filter_edges(edges, nodes).contains(e) ==> edges.contains(e) && keep_edge(
                e,
                nodes,
            ),
        filter_edges(edges, nodes).len() == edges.len() ==> filter_edges(edges, nodes) == edges,
    decreases edges.len(),
{
    if edges.len() > 0 {
        let rest = edges.drop_last();
        lemma_filter_edges_props(rest, nodes);
        assert forall|e: EdgeView| edges.contains(e) && keep_edge(e, nodes) implies #[trigger]
            filter_edges(edges, nodes).contains(e) by {
            let i = choose|i: int| 0 <= i < edges.len() && edges[i] == e;
            if i < edges.len() - 1 {
                assert(rest[i] == e);
                assert(rest.contains(e));
                let out = filter_edges(rest, nodes);
                assert(out.contains(e));
                let j = choose|j: int| 0 <= j < out.len() && out[j] == e;
                if keep_edge(edges.last(), nodes) {
                    assert(out.push(edges.last())[j] == e);
                }
            } else {
                let out = filter_edges(rest, nodes);
                assert(out.push(edges.last())[out.len() as int] == e);
            }
        }
        assert forall|e: EdgeView| #[trigger]
            filter_edges(edges, nodes).contains(e) implies edges.contains(e) && keep_edge(
            e,
            nodes,
        ) by {
            let out = filter_edges(edges, nodes);
            let sub = filter_edges(rest, nodes);
            let j = choose|j: int| 0 <= j < out.len() && out[j] == e;
            if keep_edge(edges.last(), nodes) && j == out.len() - 1 {
                assert(e == edges.last());
                assert(edges[edges.len() - 1] == e);
            } else {
                if keep_edge(edges.last(), nodes) {
                    assert(out == sub.push(edges.last()));
                    assert(out[j] == sub[j]);
                } else {
                    assert(out == sub);
                }
                assert(sub[j] == e);
                assert(sub.contains(e));
                assert(rest.contains(e));
                let i = choose|i: int| 0 <= i < rest.len() && rest[i] == e;
                assert(edges[i] == e);
            }
        }
        if filter_edges(edges, nodes).len() == edges.len() {
            assert(keep_edge(edges.last(), nodes));
            assert(filter_edges(rest, nodes) =~= rest);
            assert(filter_edges(edges, nodes) =~= edges);
        }
    }
}

proof fn lemma_unique_drop_last<T>(s: Seq<T>)
    requires
        unique_seq(s),
        s.len() > 0,
    ensures
        unique_seq(s.drop_last()),
{
    let rest = s.drop_last();
    assert forall|i: int, j: int| 0 <= i < j < rest.len() implies rest[i] != rest[j] by {
        assert(rest[i] == s[i]);
        assert(rest[j] == s[j]);
    }
}

proof fn lemma_filter_nodes_unique(nodes: Seq<StubView>, edges: Seq<EdgeView>)
    requires
        unique_seq(nodes),
    ensures
        unique_seq(filter_nodes(nodes, edges)),
    decreases nodes.len(),
{
    if nodes.len() > 0 {
        let rest = nodes.drop_last();
        lemma_unique_drop_last(nodes);
        lemma_filter_nodes_unique(rest, edges);
        lemma_filter_nodes_props(rest, edges);
        if keep_node(nodes.last(), edges) {
            let sub = filter_nodes(rest, edges);
            let out = sub.push(nodes.last());
            assert forall|i: int, j: int| 0 <= i < j < out.len() implies out[i] != out[j] by {
                if j < sub.len() {
                    assert(out[i] == sub[i]);
                    assert(out[j] == sub[j]);
                } else {
                    assert(out[j] == nodes.last());
                    assert(out[i] == sub[i]);
                    assert(sub.contains(sub[i]));
                    assert(rest.contains(sub[i]));
                    let m = choose|m: int| 0 <= m < rest.len() && rest[m] == sub[i];
                    assert(nodes[m] == sub[i]);
                    assert(nodes[nodes.len() - 1] == nodes.last());
                }
            }
        }
    }
}

proof fn lemma_filter_edges_unique(edges: Seq<EdgeView>, nodes: Seq<StubView>)
    requires
        unique_seq(edges),
    ensures
        unique_seq(filter_edges(edges, nodes)),
    decreases edges.len(),
{
    if edges.len() > 0 {
        let rest = edges.drop_last();
        lemma_unique_drop_last(edges);
        lemma_filter_edges_unique(rest, nodes);
        lemma_filter_edges_props(rest, nodes);
        if keep_edge(edges.last(), nodes) {
            let sub = filter_edges(rest, nodes);
            let out = sub.push(edges.last());
            assert forall|i: int, j: int| 0 <= i < j < out.len() implies out[i] != out[j] by {
                if j < sub.len() {
                    assert(out[i] == sub[i]);
                    assert(out[j] == sub[j]);
                } else {
                    assert(out[j] == edges.last());
                    assert(out[i] == sub[i]);
                    assert(sub.contains(sub[i]));
                    assert(rest.contains(sub[i]));
                    let m = choose|m: int| 0 <= m < rest.len() && rest[m] == sub[i];
                    assert(edges[m] == sub[i]);
                    assert(edges[edges.len() - 1] == edges.last());
                }
            }
        }
    }
}

/// A pass never introduces duplicates: pruning a well-formed graph
/// leaves a well-formed graph.
pub proof fn lemma_prune_pass_wf(g: GraphView)
    requires
        graph_wf(g),
    ensures
        graph_wf(prune_pass_spec(g)),
{
    lemma_filter_nodes_unique(g.nodes, g.edges);
    lemma_filter_edges_unique(g.edges, filter_nodes(g.nodes, g.edges));
}

/// Pass over pass, the node and edge counts are non-increasing: a pass
/// only ever removes.
pub proof fn lemma_prune_pass_monotone(g: GraphView)
    ensures
        prune_pass_spec(g).nodes.len() <= g.nodes.len(),
        prune_pass_spec(g).edges.len() <= g.edges.len(),
{
    lemma_filter_nodes_props(g.nodes, g.edges);
    lemma_filter_edges_props(g.edges, filter_nodes(g.nodes, g.edges));
}

/// A pass that removes nothing was the identity on that graph.
proof fn lemma_prune_pass_full(g: GraphView)
    requires
        prune_pass_spec(g).nodes.len() == g.nodes.len(),
        prune_pass_spec(g).edges.len() == g.edges.len(),
    ensures
        prune_pass_spec(g) == g,
{
    lemma_filter_nodes_props(g.nodes, g.edges);
    lemma_filter_edges_props(g.edges, filter_nodes(g.nodes, g.edges));
}

/// Once a pass leaves the graph unchanged, every further pass leaves it
/// unchanged as well: a stabilized graph is a fixed point.
pub proof fn lemma_prune_stable(g: GraphView, k: nat, m: nat)
    requires
        prune_iter(g, k + 1) == prune_iter(g, k),
        k <= m,
    ensures
        prune_iter(g, m) == prune_iter(g, k),
    decreases m - k,
{
    if k < m {
        lemma_prune_stable(g, k + 1, m);
    }
}

/// A node whose id is absent or empty is never removed by the degree
/// rule: every pass keeps it, whatever its degree.
pub proof fn lemma_prune_keeps_idless(g: GraphView, n: StubView)
    requires
        g.nodes.contains(n),
        !real_id(n),
    ensures
        prune_pass_spec(g).nodes.contains(n),
{
    lemma_filter_nodes_props(g.nodes, g.edges);
}

fn count_incoming(edges: &Vec<Edge>, id: &String) -> (n: usize)
    ensures
        n == in_count(edges@.map_values(|e: Edge| e@), id@),
{
    let ghost views = edges@.map_values(|e: Edge| e@);
    let mut n: usize = 0;
    let mut i: usize = 0;
    while i < edges.len()
        invariant
            i <= edges.len(),
            views == edges@.map_values(|e: Edge| e@),
            n == in_count(views.take(i as int), id@),
            n <= i,
        decreases edges.len() - i,
    {
        proof {
            assert(views.take(i + 1).drop_last() =~= views.take(i as int));
            assert(views.take(i + 1).last() == views[i as int]);
        }
        if edges[i].to_id.eq(id) {
            n = n + 1;
        }
        i = i + 1;
    }
    proof {
        assert(views.take(edges@.len() as int) =~= views);
    }
    n
}

fn count_outgoing(edges: &Vec<Edge>, id: &String) -> (n: usize)
    ensures
        n == out_count(edges@.map_values(|e: Edge| e@), id@),
{
    let ghost views = edges@.map_values(|e: Edge| e@);
    let mut n: usize = 0;
    let mut i: usize = 0;
    while i < edges.len()
        invariant
            i <= edges.len(),
            views == edges@.map_values(|e: Edge| e@),
            n == out_count(views.take(i as int), id@),
            n <= i,
        decreases edges.len() - i,
    {
        proof {
            assert(views.take(i + 1).drop_last() =~= views.take(i as int));
            assert(views.take(i + 1).last() == views[i as int]);
        }
        if edges[i].from_id.eq(id) {
            n = n + 1;
        }
        i = i + 1;
    }
    proof {
        assert(views.take(edges@.len() as int) =~= views);
    }
    n
}

fn node_survives(n: &ProtoPaper, edges: &Vec<Edge>) -> (r: bool)
    ensures
        r == keep_node(n@, edges@.map_values(|e: Edge| e@)),
{
    match &n.id {
        None => true,
        Some(id) => {
            if id.as_str().is_empty() {
                true
            } else {
                count_incoming(edges, id) > 1 || count_outgoing(edges, id) > 1
            }
        },
    }
}

fn some_node_has_id(nodes: &Vec<ProtoPaper>, id: &String) -> (r: bool)
    ensures
        r == has_node_id(nodes@.map_values(|p: ProtoPaper| p@), id@),
{
    let ghost views = nodes@.map_values(|p: ProtoPaper| p@);
    let mut i: usize = 0;
    while i < nodes.len()
        invariant
            i <= nodes.len(),
            views == nodes@.map_values(|p: ProtoPaper| p@),
            forall|j: int| 0 <= j < i ==> views[j].id != Some(id@),
        decreases nodes.len() - i,
    {
        match &nodes[i].id {
            Some(nid) => {
                if nid.eq(id) {
                    assert(views[i as int].id == Some(id@));
                    return true;
                }
            },
            None => {},
        }
        i = i + 1;
    }
    false
}

/// One pruning pass over the committed graph, exactly as
/// [`prune_pass_spec`] describes it.
pub fn prune_pass(g: &mut Graph)
    ensures
        final(g)@ == prune_pass_spec(old(g)@),
        final(g)@.nodes.len() <= old(g)@.nodes.len(),
        final(g)@.edges.len() <= old(g)@.edges.len(),
        graph_wf(old(g)@) ==> graph_wf(final(g)@),
{
    let ghost node_views = g@.nodes;
    let ghost edge_views = g@.edges;
    let mut kept_nodes: Vec<ProtoPaper> = Vec::new();
    let mut i: usize = 0;
    while i < g.nodes.len()
        invariant
            i <= g.nodes.len(),
            node_views == g@.nodes,
            edge_views == g@.edges,
            kept_nodes@.map_values(|p: ProtoPaper| p@) == filter_nodes(
                node_views.take(i as int),
                edge_views,
            ),
        decreases g.nodes.len() - i,
    {
        proof {
            assert(node_views.take(i + 1).drop_last() =~= node_views.take(i as int));
            assert(node_views.take(i + 1).last() == node_views[i as int]);
        }
        if node_survives(&g.nodes[i], &g.edges) {
            let ghost before = kept_nodes@.map_values(|p: ProtoPaper| p@);
            kept_nodes.push(g.nodes[i].clone());
            proof {
                assert(kept_nodes@.map_values(|p: ProtoPaper| p@) =~= before.push(
                    node_views[i as int],
                ));
            }
        }
        i = i + 1;
    }
    proof {
        assert(node_views.take(g.nodes@.len() as int) =~= node_views);
    }
    g.nodes = kept_nodes;
    let ghost new_node_views = g@.nodes;
    let mut kept_edges: Vec<Edge> = Vec::new();
    let mut k: usize = 0;
    while k < g.edges.len()
        invariant
            k <= g.edges.len(),
            edge_views == g@.edges,
            new_node_views == g@.nodes,
            kept_edges@.map_values(|e: Edge| e@) == filter_edges(
                edge_views.take(k as int),
                new_node_views,
            ),
        decreases g.edges.len() - k,
    {
        proof {
            assert(edge_views.take(k + 1).drop_last() =~= edge_views.take(k as int));
            assert(edge_views.take(k + 1).last() == edge_views[k as int]);
        }
        let from_ok = some_node_has_id(&g.nodes, &g.edges[k].from_id);
        let to_ok = from_ok && some_node_has_id(&g.nodes, &g.edges[k].to_id);
        if to_ok {
            let ghost before = kept_edges@.map_values(|e: Edge| e@);
            kept_edges.push(g.edges[k].clone());
            proof {
                assert(kept_edges@.map_values(|e: Edge| e@) =~= before.push(
                    edge_views[k as int],
                ));
            }
        }
        k = k + 1;
    }
    proof {
        assert(edge_views.take(g.edges@.len() as int) =~= edge_views);
    }
    g.edges = kept_edges;
    proof {
        lemma_filter_nodes_props(node_views, edge_views);
        lemma_filter_edges_props(edge_views, new_node_views);
        if graph_wf(old(g)@) {
            lemma_prune_pass_wf(old(g)@);
        }
    }
}

/// Runs a fixed number of pruning passes, the bounded elimination the
/// crawl performs after its last round.
pub fn prune(g: &mut Graph, passes: u64)
    ensures
        final(g)@ == prune_iter(old(g)@, passes as nat),
        graph_wf(old(g)@) ==> graph_wf(final(g)@),
{
    let mut p: u64 = 0;
    while p < passes
        invariant
            p <= passes,
            g@ == prune_iter(old(g)@, p as nat),
            graph_wf(old(g)@) ==> graph_wf(g@),
        decreases passes - p,
    {
        prune_pass(g);
        p = p + 1;
    }
}

/// Runs passes until one changes nothing: the stricter alternative for
/// callers that need an exact fixed point rather than a pass bound.
pub fn prune_to_fixpoint(g: &mut Graph)
    ensures
        prune_pass_spec(final(g)@) == final(g)@,
        exists|k: nat| final(g)@ == prune_iter(old(g)@, k),
        graph_wf(old(g)@) ==> graph_wf(final(g)@),
{
    let ghost mut k: nat = 0;
    loop
        invariant
            g@ == prune_iter(old(g)@, k),
            graph_wf(old(g)@) ==> graph_wf(g@),
        ensures
            prune_pass_spec(g@) == g@,
            exists|k2: nat| g@ == prune_iter(old(g)@, k2),
            graph_wf(old(g)@) ==> graph_wf(g@),
        decreases g.nodes.len() + g.edges.len(),
    {
        let n0 = g.nodes.len();
        let e0 = g.edges.len();
        let ghost before = g@;
        prune_pass(g);
        proof {
            k = k + 1;
        }
        if g.nodes.len() == n0 && g.edges.len() == e0 {
            proof {
                lemma_prune_pass_full(before);
            }
            proof {
                assert(g@ == prune_iter(old(g)@, k));
            }
            return ;
        }
    }
}

} // verus!
