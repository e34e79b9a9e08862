use citegraph::PaperId;
use citegraph::parse_ids;

#[test]
fn recognizes_a_doi_suffix() {
    let id = PaperId::try_from_str("https://doi.org/10.1234/JTERRA.2024.100989");
    match id {
        Some(PaperId::Doi(d)) => assert_eq!(d, "10.1234/JTERRA.2024.100989"),
        other => panic!("expected a DOI, got {other:?}"),
    }
}

#[test]
fn recognizes_a_catalog_url() {
    let id = PaperId::try_from_str("https://www.semanticscholar.org/paper/0123abcdef");
    match id {
        Some(PaperId::SemanticScholar(n)) => assert_eq!(n, "0123abcdef"),
        other => panic!("expected a catalog id, got {other:?}"),
    }
}

#[test]
fn refuses_unrecognized_strings() {
    assert!(PaperId::try_from_str("not an identifier").is_none());
    assert!(PaperId::try_from_str("").is_none());
}

#[test]
fn parse_ids_keeps_order_and_drops_failures() {
    let ids = parse_ids(vec![
        String::from("10.1000/FOO-1"),
        String::from("garbage"),
        String::from("semanticscholar.org/paper/deadbeef"),
    ]);
    assert_eq!(ids.len(), 2);
    match &ids[0] {
        PaperId::Doi(d) => assert_eq!(d, "10.1000/FOO-1"),
        other => panic!("expected a DOI, got {other:?}"),
    }
    match &ids[1] {
        PaperId::SemanticScholar(n) => assert_eq!(n, "deadbeef"),
        other => panic!("expected a catalog id, got {other:?}"),
    }
}

#[test]
fn wire_form_prefixes_dois_only() {
    let doi = PaperId::Doi(String::from("10.1000/XYZZY"));
    assert_eq!(doi.wire_form(), "DOI:10.1000/XYZZY");
    let native = PaperId::SemanticScholar(String::from("deadbeef"));
    assert_eq!(native.wire_form(), "deadbeef");
}
