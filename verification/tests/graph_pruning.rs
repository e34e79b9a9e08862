use citegraph::Connectivity;
use citegraph::Edge;
use citegraph::FrontierStore;
use citegraph::Graph;
use citegraph::Paper;
use citegraph::ProtoPaper;
use citegraph::from_staging;
use citegraph::prune::prune;
use citegraph::prune::prune_pass;
use citegraph::prune::prune_to_fixpoint;

fn stub(id: Option<&str>, title: &str) -> ProtoPaper {
    ProtoPaper { id: id.map(String::from), title: String::from(title), url: None }
}

fn edge(from: &str, to: &str) -> Edge {
    Edge { from_id: String::from(from), to_id: String::from(to) }
}

fn paper(id: &str, refs: Vec<ProtoPaper>) -> Paper {
    Paper {
        id: String::from(id),
        title: format!("title of {id}"),
        url: format!("https://example.org/{id}"),
        references: refs,
    }
}

#[test]
fn commit_deduplicates_by_full_equality() {
    let mut g = Graph::new();
    g.commit(&vec![stub(Some("a"), "one"), stub(Some("a"), "one")], &vec![
        edge("a", "b"),
        edge("a", "b"),
    ]);
    assert_eq!(g.nodes.len(), 1);
    assert_eq!(g.edges.len(), 1);
    // same id under a different title is a distinct element
    g.commit(&vec![stub(Some("a"), "two")], &vec![]);
    assert_eq!(g.nodes.len(), 2);
}

#[test]
fn commit_only_grows_the_sets() {
    let mut g = Graph::new();
    g.commit(&vec![stub(Some("a"), "a")], &vec![]);
    g.commit(&vec![], &vec![edge("a", "a")]);
    g.commit(&vec![], &vec![]);
    assert_eq!(g.nodes.len(), 1);
    assert_eq!(g.edges.len(), 1);
}

#[test]
fn degree_rule_removes_weakly_connected_nodes() {
    let mut g = Graph::new();
    // b has one incoming edge and none outgoing: one pass removes it,
    // and the edge follows since its endpoint is gone.
    g.commit(&vec![stub(Some("a"), "a"), stub(Some("b"), "b")], &vec![edge("a", "b")]);
    prune_pass(&mut g);
    assert!(g.nodes.is_empty());
    assert!(g.edges.is_empty());
}

#[test]
fn well_connected_nodes_survive() {
    let mut g = Graph::new();
    let nodes = vec![stub(Some("a"), "a"), stub(Some("b"), "b"), stub(Some("c"), "c")];
    // a cites b and c; b and c cite each other and a: everyone has
    // degree 2 on at least one side
    let edges = vec![
        edge("a", "b"),
        edge("a", "c"),
        edge("b", "c"),
        edge("b", "a"),
        edge("c", "a"),
        edge("c", "b"),
    ];
    g.commit(&nodes, &edges);
    prune(&mut g, 10);
    assert_eq!(g.nodes.len(), 3);
    assert_eq!(g.edges.len(), 6);
}

#[test]
fn idless_nodes_are_exempt_from_the_degree_rule() {
    let mut g = Graph::new();
    g.commit(&vec![stub(None, "anonymous"), stub(Some(""), "blank")], &vec![]);
    prune(&mut g, 10);
    assert_eq!(g.nodes.len(), 2);
}

#[test]
fn pass_sizes_are_non_increasing() {
    let mut g = Graph::new();
    g.commit(
        &vec![stub(Some("a"), "a"), stub(Some("b"), "b"), stub(Some("c"), "c")],
        &vec![edge("a", "b"), edge("b", "c"), edge("c", "a")],
    );
    let mut nodes = g.nodes.len();
    let mut edges = g.edges.len();
    for _ in 0..10 {
        prune_pass(&mut g);
        assert!(g.nodes.len() <= nodes);
        assert!(g.edges.len() <= edges);
        nodes = g.nodes.len();
        edges = g.edges.len();
    }
}

#[test]
fn an_extra_pass_after_stabilizing_changes_nothing() {
    let mut g = Graph::new();
    g.commit(
        &vec![stub(Some("a"), "a"), stub(Some("b"), "b"), stub(None, "anonymous")],
        &vec![edge("a", "b"), edge("b", "a"), edge("a", "a")],
    );
    prune_to_fixpoint(&mut g);
    let nodes_before: Vec<Option<String>> = g.nodes.iter().map(|n| n.id.clone()).collect();
    let edges_before = g.edges.len();
    prune_pass(&mut g);
    let nodes_after: Vec<Option<String>> = g.nodes.iter().map(|n| n.id.clone()).collect();
    assert_eq!(nodes_before, nodes_after);
    assert_eq!(edges_before, g.edges.len());
}

#[test]
fn end_to_end_single_seed_crawl() {
    // Scenario: one seed paper citing r1 and r2, which themselves cite
    // nothing.  Round 0 expands the seed; the next fetch returns bare
    // records; pruning then peels everything away.
    let c = Connectivity::new(13, 4).unwrap();
    let mut store = FrontierStore::new();
    let mut graph = Graph::new();

    let seed = vec![paper("p1", vec![stub(Some("r1"), "r1"), stub(Some("r2"), "r2")])];
    store.seed(&seed);
    graph.commit(&from_staging(&store), &vec![]);

    // round 0: threshold 1 selects p1 (signal 1)
    let x = store.select_for_expansion(0, &c);
    assert_eq!(x.to_fetch, vec![String::from("r1"), String::from("r2")]);
    let fetched = vec![paper("r1", vec![]), paper("r2", vec![])];
    store.accumulate(&fetched);
    graph.commit(&x.nodes, &x.edges);
    assert!(graph.nodes.iter().any(|n| n.id.as_deref() == Some("r1")));
    assert!(graph.nodes.iter().any(|n| n.id.as_deref() == Some("r2")));
    assert_eq!(graph.edges.len(), 2);

    // round 1: threshold 3; r1 and r2 sit at signal 1 and starve
    let x = store.select_for_expansion(1, &c);
    assert!(x.to_fetch.is_empty());
    graph.commit(&x.nodes, &x.edges);

    // r1 and r2 each have incoming 1 and outgoing 0: pruned away, and
    // their edges with them; the seed follows once its edges are gone.
    prune(&mut graph, 10);
    assert!(graph.nodes.is_empty());
    assert!(graph.edges.is_empty());
}

#[test]
fn idless_stubs_flow_into_the_graph_and_survive() {
    // An expanded paper may cite a stub the upstream never resolved:
    // the stub is committed as a node and the degree rule spares it.
    let c = Connectivity::new(13, 4).unwrap();
    let mut store = FrontierStore::new();
    let mut graph = Graph::new();
    store.seed(&vec![paper("p1", vec![stub(None, "anonymous"), stub(Some("r1"), "r1")])]);
    let x = store.select_for_expansion(0, &c);
    assert_eq!(x.nodes.len(), 2);
    graph.commit(&x.nodes, &x.edges);
    prune(&mut graph, 10);
    assert_eq!(graph.nodes.len(), 1);
    assert!(graph.nodes[0].id.is_none());
    assert!(graph.edges.is_empty());
}
