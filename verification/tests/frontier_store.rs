use citegraph::Connectivity;
use citegraph::FrontierStore;
use citegraph::Paper;
use citegraph::ProtoPaper;
use citegraph::from_staging;

fn stub(id: Option<&str>, title: &str) -> ProtoPaper {
    ProtoPaper { id: id.map(String::from), title: String::from(title), url: None }
}

fn paper(id: &str, refs: Vec<ProtoPaper>) -> Paper {
    Paper {
        id: String::from(id),
        title: format!("title of {id}"),
        url: format!("https://example.org/{id}"),
        references: refs,
    }
}

fn signal(store: &FrontierStore, id: &str) -> Option<u64> {
    store
        .entries
        .iter()
        .find(|e| e.paper.id == id)
        .map(|e| e.citation_signal)
}

fn factor() -> Connectivity {
    // 13/4 = 3.25
    Connectivity::new(13, 4).unwrap()
}

#[test]
fn seed_starts_every_signal_at_one() {
    let mut store = FrontierStore::new();
    store.seed(&vec![paper("a", vec![]), paper("b", vec![])]);
    assert_eq!(signal(&store, "a"), Some(1));
    assert_eq!(signal(&store, "b"), Some(1));
    assert_eq!(store.entries.len(), 2);
}

#[test]
fn reseeding_does_not_lower_a_signal() {
    let mut store = FrontierStore::new();
    store.seed(&vec![paper("a", vec![])]);
    store.accumulate(&vec![paper("b", vec![stub(Some("a"), "a")])]);
    assert_eq!(signal(&store, "a"), Some(2));
    // a arrives again in a later batch: its signal must not drop back
    store.accumulate(&vec![paper("a", vec![])]);
    assert_eq!(signal(&store, "a"), Some(2));
    assert_eq!(store.entries.len(), 2);
}

#[test]
fn accumulate_counts_each_reference_occurrence() {
    // Seeding with {a, b}, then accumulating records that cite a twice,
    // raises a's signal by exactly 2 and leaves b alone.
    let mut store = FrontierStore::new();
    store.seed(&vec![paper("a", vec![]), paper("b", vec![])]);
    store.accumulate(&vec![
        paper("c", vec![stub(Some("a"), "a")]),
        paper("d", vec![stub(Some("a"), "a"), stub(None, "no id"), stub(Some(""), "empty id")]),
    ]);
    assert_eq!(signal(&store, "a"), Some(3));
    assert_eq!(signal(&store, "b"), Some(1));
    assert_eq!(signal(&store, "c"), Some(1));
    assert_eq!(signal(&store, "d"), Some(1));
}

#[test]
fn selection_is_one_shot() {
    let mut store = FrontierStore::new();
    store.seed(&vec![paper("a", vec![stub(Some("r"), "r")])]);
    let c = factor();
    let first = store.select_for_expansion(0, &c);
    assert_eq!(first.to_fetch, vec![String::from("r")]);
    assert!(store.entries.iter().all(|e| e.paper.id != "a"));
    assert!(store.expanded.iter().any(|id| id == "a"));
    // the upstream returns a again: it may not be staged anew
    store.accumulate(&vec![paper("a", vec![stub(Some("r"), "r")])]);
    assert!(store.entries.iter().all(|e| e.paper.id != "a"));
    let second = store.select_for_expansion(0, &c);
    assert!(second.to_fetch.is_empty());
    assert!(second.nodes.is_empty());
    assert!(second.edges.is_empty());
}

#[test]
fn selection_leaves_entries_below_the_bar() {
    let mut store = FrontierStore::new();
    store.seed(&vec![paper("a", vec![]), paper("b", vec![])]);
    // raise a's signal to 3; round 1's bar for 13/4 is floor(3.25) = 3
    store.accumulate(&vec![
        paper("c", vec![stub(Some("a"), "a")]),
        paper("d", vec![stub(Some("a"), "a")]),
    ]);
    let x = store.select_for_expansion(1, &factor());
    assert!(store.expanded.iter().any(|id| id == "a"));
    assert!(store.expanded.iter().all(|id| id != "b"));
    assert_eq!(signal(&store, "b"), Some(1));
    assert!(x.edges.is_empty());
}

#[test]
fn selection_reports_nodes_edges_and_fetch_list() {
    let mut store = FrontierStore::new();
    store.seed(&vec![paper(
        "a",
        vec![stub(Some("r1"), "first"), stub(None, "anonymous"), stub(Some(""), "blank")],
    )]);
    let x = store.select_for_expansion(0, &factor());
    // the full stub list becomes nodes, id-less and empty-id stubs included
    assert_eq!(x.nodes.len(), 3);
    assert!(x.nodes.iter().any(|n| n.id.is_none()));
    // only stubs with a present id yield edges, even an empty one
    assert_eq!(x.edges.len(), 2);
    assert_eq!(x.edges[0].from_id, "a");
    assert_eq!(x.edges[0].to_id, "r1");
    assert_eq!(x.edges[1].to_id, "");
    // only non-empty ids are fetched
    assert_eq!(x.to_fetch, vec![String::from("r1")]);
}

#[test]
fn try_select_refuses_an_unrepresentable_bar() {
    let mut store = FrontierStore::new();
    store.seed(&vec![paper("a", vec![])]);
    let c = Connectivity::new(1u64 << 32, 1).unwrap();
    assert!(store.try_select(2, &c).is_none());
    assert_eq!(signal(&store, "a"), Some(1));
    let x = store.try_select(0, &c);
    assert!(x.is_some());
}

#[test]
fn from_staging_returns_one_stub_per_staged_record() {
    let mut store = FrontierStore::new();
    store.seed(&vec![paper("a", vec![]), paper("b", vec![])]);
    let stubs = from_staging(&store);
    assert_eq!(stubs.len(), 2);
    assert!(stubs.iter().any(|s| s.id.as_deref() == Some("a")));
    assert!(stubs.iter().any(|s| s.id.as_deref() == Some("b")));
    assert!(stubs.iter().all(|s| s.url.is_some()));
}
