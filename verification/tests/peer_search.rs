use bt::engine::Endpoint;
use bt::peer_search::PeerSearch;

fn v4(n: u32) -> Endpoint {
    Endpoint::V4(n, 6881)
}

#[test]
fn learning_skips_addresses_already_known() {
    let mut search = PeerSearch::new();
    search.learn(&[v4(1), v4(2), v4(1)]);
    search.learn(&[v4(2), v4(3)]);
    assert_eq!(search.known(), &[v4(1), v4(2), v4(3)]);
    assert!(!search.tried_any());
}

#[test]
fn batches_take_untried_addresses_then_start_over() {
    let mut search = PeerSearch::new();
    assert!(search.exhausted());
    assert!(search.next_batch().is_empty());
    search.learn(&[v4(1), v4(2)]);
    assert!(!search.exhausted());
    assert_eq!(search.next_batch(), vec![v4(1), v4(2)]);
    assert!(search.exhausted());
    assert!(search.tried_any());
    search.learn(&[v4(3)]);
    assert_eq!(search.next_batch(), vec![v4(3)]);
    assert_eq!(search.next_batch(), vec![v4(1), v4(2), v4(3)]);
}
