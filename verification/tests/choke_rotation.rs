use bt::choke::{select_unchoked, OptimisticRotor, PeerRate};

fn rate(id: u64, downloaded: u64, interested: bool) -> PeerRate {
    PeerRate {
        id,
        downloaded_from: downloaded,
        interested,
    }
}

const SECOND: u64 = 1000;

#[test]
fn top_downloaders_win_slots() {
    let peers = vec![
        rate(1, 100, true),
        rate(2, 300, true),
        rate(3, 200, true),
        rate(4, 400, true),
    ];
    let unchoked = select_unchoked(&peers, 3, None);
    assert!(unchoked.contains(&4) && unchoked.contains(&2) && unchoked.contains(&3));
    assert!(!unchoked.contains(&1));
}

#[test]
fn uninterested_peers_get_no_slot() {
    let peers = vec![rate(1, 500, false), rate(2, 10, true)];
    let unchoked = select_unchoked(&peers, 2, None);
    assert_eq!(unchoked.len(), 1);
    assert!(unchoked.contains(&2));
}

#[test]
fn optimistic_peer_added_on_top() {
    let peers = vec![rate(1, 100, true), rate(2, 50, true), rate(3, 0, true)];
    let unchoked = select_unchoked(&peers, 1, Some(3));
    assert!(unchoked.contains(&1));
    assert!(unchoked.contains(&3));
    assert_eq!(unchoked.len(), 2);
}

#[test]
fn vanished_optimistic_ignored() {
    let peers = vec![rate(1, 100, true)];
    let unchoked = select_unchoked(&peers, 1, Some(9));
    assert_eq!(unchoked.len(), 1);
}

#[test]
fn rotor_holds_between_intervals() {
    let mut rotor = OptimisticRotor::new(30 * SECOND);
    let now = 5_000_000;
    assert_eq!(rotor.maybe_rotate(&[5, 6, 7], now), Some(5));
    assert_eq!(rotor.maybe_rotate(&[5, 6, 7], now + 10 * SECOND), Some(5));
    assert_eq!(rotor.maybe_rotate(&[5, 6, 7], now + 30 * SECOND), Some(6));
}

#[test]
fn rotor_round_robins() {
    let mut rotor = OptimisticRotor::new(0);
    let now = 5_000_000;
    assert_eq!(rotor.maybe_rotate(&[1, 2], now), Some(1));
    assert_eq!(rotor.maybe_rotate(&[1, 2], now), Some(2));
    assert_eq!(rotor.maybe_rotate(&[1, 2], now), Some(1));
}

#[test]
fn rotor_replaces_vanished_current() {
    let mut rotor = OptimisticRotor::new(600 * SECOND);
    let now = 5_000_000;
    assert_eq!(rotor.maybe_rotate(&[1, 2], now), Some(1));
    assert_eq!(rotor.maybe_rotate(&[2, 3], now), Some(2));
}

#[test]
fn rotor_empties_gracefully() {
    let mut rotor = OptimisticRotor::new(0);
    let now = 5_000_000;
    assert_eq!(rotor.maybe_rotate(&[], now), None);
    assert_eq!(rotor.current(), None);
}

#[test]
fn interested_peers_fill_free_slots_by_rate() {
    let peers = vec![rate(1, 0, true), rate(2, 0, true)];
    let unchoked = select_unchoked(&peers, 5, Some(2));
    assert_eq!(unchoked.len(), 2);
    assert!(unchoked.contains(&1) && unchoked.contains(&2));
    assert!(select_unchoked(&peers, 0, None).is_empty());
}

#[test]
fn rotor_starts_empty() {
    let rotor = OptimisticRotor::new(SECOND);
    assert_eq!(rotor.current(), None);
}

#[test]
fn slots_are_bounded() {
    let peers: Vec<PeerRate> = (1..=6).map(|i| rate(i, i * 10, true)).collect();
    let unchoked = select_unchoked(&peers, 3, Some(1));
    assert_eq!(unchoked.len(), 4);
    assert!(unchoked.contains(&6) && unchoked.contains(&5) && unchoked.contains(&4));
    assert!(unchoked.contains(&1));
}
