use citegraph::PaperId;
use citegraph::fetch::FetchStep;
use citegraph::fetch::UpstreamReply;
use citegraph::fetch::batch_ranges;
use citegraph::fetch::next_fetch_step;
use citegraph::fetch::wire_ids;

#[test]
fn empty_input_means_no_calls() {
    assert!(batch_ranges(0).is_empty());
}

#[test]
fn small_inputs_travel_in_one_call() {
    assert_eq!(batch_ranges(1), vec![(0, 1)]);
    assert_eq!(batch_ranges(500), vec![(0, 500)]);
}

#[test]
fn large_inputs_are_tiled_completely() {
    assert_eq!(batch_ranges(501), vec![(0, 500), (500, 501)]);
    assert_eq!(batch_ranges(1001), vec![(0, 500), (500, 1000), (1000, 1001)]);
}

#[test]
fn wire_ids_serialize_in_order() {
    let ids = vec![
        PaperId::Doi(String::from("10.1000/A")),
        PaperId::SemanticScholar(String::from("beef")),
    ];
    assert_eq!(wire_ids(&ids), vec![String::from("DOI:10.1000/A"), String::from("beef")]);
}

#[test]
fn success_is_accepted() {
    assert_eq!(next_fetch_step(&UpstreamReply::Success, 1, 3), FetchStep::Accept);
}

#[test]
fn other_errors_surface_immediately() {
    assert_eq!(next_fetch_step(&UpstreamReply::OtherError, 1, 3), FetchStep::FailUpstream);
}

#[test]
fn rate_limits_retry_until_the_budget_is_spent() {
    assert_eq!(next_fetch_step(&UpstreamReply::TooManyRequests, 1, 3), FetchStep::Retry);
    assert_eq!(next_fetch_step(&UpstreamReply::TooManyRequests, 2, 3), FetchStep::Retry);
    assert_eq!(
        next_fetch_step(&UpstreamReply::TooManyRequests, 3, 3),
        FetchStep::FailRateLimited
    );
}
