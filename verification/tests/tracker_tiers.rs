use bt::metainfo::InfoHash;
use bt::tracker::{AnnounceRequest, AnnounceResponse, Error, Event};
use bt::tracker_set::{AnnounceTimer, TrackerSet};

const SECOND: u64 = 1000;

fn request() -> AnnounceRequest {
    AnnounceRequest {
        info_hash: InfoHash([1; 20]),
        peer_id: *b"-BG0001-abcdefghijkl",
        port: 6881,
        uploaded: 0,
        downloaded: 0,
        left: 1,
        event: Event::Regular,
    }
}

fn ok_response() -> AnnounceResponse {
    AnnounceResponse {
        interval: 60,
        peers: vec![],
    }
}

#[test]
fn first_working_url_wins_and_is_promoted() {
    let mut set = TrackerSet::new(vec![vec![
        "http://a/announce".to_string(),
        "http://b/announce".to_string(),
    ]]);
    let mut calls = Vec::new();
    let result = set.announce(&request(), &mut |url, _| {
        calls.push(url.to_string());
        if url.contains("//a/") {
            Err(Error::Io("down".to_string()))
        } else {
            Ok(ok_response())
        }
    });
    assert!(result.is_ok());
    assert_eq!(calls, vec!["http://a/announce", "http://b/announce"]);
    assert_eq!(
        set.tiers()[0],
        vec!["http://b/announce".to_string(), "http://a/announce".to_string()]
    );
    let mut calls = Vec::new();
    let _ = set.announce(&request(), &mut |url, _| {
        calls.push(url.to_string());
        Ok(ok_response())
    });
    assert_eq!(calls, vec!["http://b/announce"]);
}

#[test]
fn second_tier_used_when_first_fails() {
    let mut set = TrackerSet::new(vec![
        vec!["udp://t1:1".to_string()],
        vec!["udp://t2:1".to_string()],
    ]);
    let result = set.announce(&request(), &mut |url, _| {
        if url.contains("t1") {
            Err(Error::Io("down".to_string()))
        } else {
            Ok(ok_response())
        }
    });
    assert!(result.is_ok());
}

#[test]
fn all_failing_returns_last_error() {
    let mut set = TrackerSet::new(vec![vec!["udp://t1:1".to_string()]]);
    let result = set.announce(&request(), &mut |_, _| Err(Error::HttpStatus(500)));
    assert_eq!(result, Err(Error::HttpStatus(500)));
}

#[test]
fn empty_set_errors() {
    let mut set = TrackerSet::new(vec![]);
    assert!(set.announce(&request(), &mut |_, _| Ok(ok_response())).is_err());
}

#[test]
fn timer_starts_ready() {
    let timer = AnnounceTimer::new();
    assert!(timer.ready(1_000_000u64));
}

#[test]
fn timer_waits_for_interval_after_success() {
    let mut timer = AnnounceTimer::new();
    let now = 1_000_000u64;
    timer.after_success(60, now);
    assert!(!timer.ready(now + 59 * SECOND));
    assert!(timer.ready(now + 60 * SECOND));
}

#[test]
fn timer_backoff_doubles_and_caps() {
    let mut timer = AnnounceTimer::new();
    let now = 1_000_000u64;
    timer.after_failure(now);
    assert!(!timer.ready(now + 14 * SECOND));
    assert!(timer.ready(now + 15 * SECOND));
    timer.after_failure(now);
    assert!(!timer.ready(now + 29 * SECOND));
    assert!(timer.ready(now + 30 * SECOND));
    for _ in 0..20 {
        timer.after_failure(now);
    }
    assert!(timer.ready(now + 900 * SECOND));
}

#[test]
fn success_resets_backoff() {
    let mut timer = AnnounceTimer::new();
    let now = 1_000_000u64;
    timer.after_failure(now);
    timer.after_failure(now);
    timer.after_success(10, now);
    timer.after_failure(now);
    assert!(timer.ready(now + 15 * SECOND));
    assert!(!timer.ready(now + 14 * SECOND));
}

#[test]
fn every_url_of_a_tier_is_tried_in_order() {
    let mut set = TrackerSet::new(vec![
        vec!["u1".to_string(), "u2".to_string()],
        vec!["u3".to_string()],
    ]);
    let mut calls = Vec::new();
    let result = set.announce(&request(), &mut |url, _| {
        calls.push(url.to_string());
        Err(Error::Io(url.to_string()))
    });
    assert_eq!(calls, vec!["u1", "u2", "u3"]);
    assert_eq!(result, Err(Error::Io("u3".to_string())));
    assert_eq!(set.tiers()[0], vec!["u1".to_string(), "u2".to_string()]);
}

#[test]
fn timer_default_is_new() {
    assert!(AnnounceTimer::default().ready(0));
}
