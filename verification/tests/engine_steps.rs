use bt::engine::{after_final_check, check_trackers, Error};
use bt::bencode::{encode, Dict, Value};
use bt::engine::{Action, Endpoint, Engine, EngineConfig, Event, Round};
use bt::metainfo::{parse, Metainfo};
use bt::peer::Message;
use sha1::{Digest, Sha1};

fn bytes_value(s: &[u8]) -> Value {
    Value::Bytes(s.to_vec())
}

fn torrent(content: &[u8], piece_length: i64) -> Metainfo {
    let mut pieces = Vec::new();
    for chunk in content.chunks(piece_length as usize) {
        pieces.extend_from_slice(&Sha1::digest(chunk));
    }
    let mut info = Dict::new();
    info.insert(b"length".to_vec(), Value::Int(content.len() as i64));
    info.insert(b"name".to_vec(), bytes_value(b"demo.bin"));
    info.insert(b"piece length".to_vec(), Value::Int(piece_length));
    info.insert(b"pieces".to_vec(), Value::Bytes(pieces));
    let mut top = Dict::new();
    top.insert(b"announce".to_vec(), bytes_value(b"http://127.0.0.1:8080/announce"));
    top.insert(b"info".to_vec(), Value::Dict(info));
    parse(&encode(&Value::Dict(top))).unwrap()
}

fn config() -> EngineConfig {
    EngineConfig {
        output_dir: "out".to_string(),
        peer_id: *b"-BG0001-abcdefghijkl",
        port: 6881,
        max_peers: 2,
        bootstrap_peers: vec![],
    }
}

fn requests(actions: &[Action], peer: u64) -> Vec<(u32, u32, u32)> {
    actions
        .iter()
        .filter_map(|a| match a {
            Action::Send { peer: p, message: Message::Request { index, begin, length } }
                if *p == peer =>
            {
                Some((*index, *begin, *length))
            }
            _ => None,
        })
        .collect()
}

#[test]
fn one_peer_delivers_the_whole_torrent() {
    let content = b"hello world\n";
    let meta = torrent(content, 16384);
    let mut engine = Engine::new(&meta, &config());
    assert!(!engine.is_complete());
    assert!(engine.announce_due(0));
    let peer_addr = Endpoint::V4(0x7f00_0001, 6881);
    assert_eq!(engine.on_announced(1800, &[peer_addr], 0), Round::Proceed);
    let (id, addr) = engine.next_connection().unwrap();
    assert_eq!(addr, peer_addr);
    let _ = engine.on_connected(id, 0);
    assert_eq!(engine.peer_count(), 1);
    let _ = engine.on_message(id, Message::Bitfield(vec![0x80]), 1);
    let _ = engine.on_message(id, Message::Unchoke, 2);
    let out = engine.housekeeping(2);
    assert!(out
        .actions
        .iter()
        .any(|a| matches!(a, Action::Send { message: Message::Interested, .. })));
    assert_eq!(requests(&out.actions, id), vec![(0, 0, 12)]);
    let out = engine.on_message(
        id,
        Message::Piece { index: 0, begin: 0, data: content.to_vec() },
        3,
    );
    assert!(out
        .actions
        .iter()
        .any(|a| matches!(a, Action::Store { index: 0, data } if data == content)));
    assert!(out.events.contains(&Event::PieceDone { index: 0, have: 1, total: 1 }));
    assert!(engine.is_complete());
}

#[test]
fn a_corrupt_piece_is_not_stored() {
    let content = b"hello world\n";
    let meta = torrent(content, 16384);
    let mut engine = Engine::new(&meta, &config());
    engine.on_announced(1800, &[Endpoint::V4(1, 1)], 0);
    let (id, _) = engine.next_connection().unwrap();
    let _ = engine.on_connected(id, 0);
    let _ = engine.on_message(id, Message::Have(0), 1);
    let _ = engine.on_message(id, Message::Unchoke, 2);
    let out = engine.housekeeping(2);
    assert_eq!(requests(&out.actions, id), vec![(0, 0, 12)]);
    let out = engine.on_message(
        id,
        Message::Piece { index: 0, begin: 0, data: b"hellO world\n".to_vec() },
        3,
    );
    assert!(!out.actions.iter().any(|a| matches!(a, Action::Store { .. })));
    assert!(!engine.is_complete());
}

#[test]
fn an_empty_announce_asks_to_retry_then_gives_up() {
    let meta = torrent(b"hello world\n", 16384);
    let mut engine = Engine::new(&meta, &config());
    for _ in 0..4 {
        assert_eq!(engine.on_announced(1800, &[], 0), Round::Retry);
    }
    assert_eq!(engine.on_announced(1800, &[], 0), Round::GiveUp);
}

#[test]
fn requests_are_served_only_when_unchoked_and_held() {
    let meta = torrent(b"hello world\n", 16384);
    let mut engine = Engine::new(&meta, &config());
    engine.on_announced(1800, &[Endpoint::V4(1, 1)], 0);
    let (id, _) = engine.next_connection().unwrap();
    let _ = engine.on_connected(id, 0);
    let _ = engine.on_message(id, Message::Interested, 1);
    let out = engine.on_message(id, Message::Request { index: 0, begin: 0, length: 12 }, 2);
    assert!(out.actions.is_empty());
}

#[test]
fn messages_from_strangers_change_nothing() {
    let meta = torrent(b"hello world\n", 16384);
    let mut engine = Engine::new(&meta, &config());
    let out = engine.on_message(99, Message::Unchoke, 0);
    assert!(out.actions.is_empty() && out.events.is_empty());
    assert_eq!(engine.peer_count(), 0);
}

#[test]
fn the_connection_limit_holds() {
    let meta = torrent(b"hello world\n", 16384);
    let mut engine = Engine::new(&meta, &config());
    engine.on_announced(
        1800,
        &[Endpoint::V4(1, 1), Endpoint::V4(2, 2), Endpoint::V4(3, 3)],
        0,
    );
    assert!(engine.next_connection().is_some());
    assert!(engine.next_connection().is_some());
    assert!(engine.next_connection().is_none());
}

#[test]
fn bootstrap_peers_are_queued_once() {
    let meta = torrent(b"hello world\n", 16384);
    let mut cfg = config();
    cfg.bootstrap_peers = vec![Endpoint::V4(1, 1), Endpoint::V4(1, 1), Endpoint::V4(2, 2)];
    let mut engine = Engine::new(&meta, &cfg);
    assert_eq!(engine.next_connection().map(|c| c.1), Some(Endpoint::V4(1, 1)));
    assert_eq!(engine.next_connection().map(|c| c.1), Some(Endpoint::V4(2, 2)));
    assert!(engine.next_connection().is_none());
}

#[test]
fn a_saved_piece_that_hashes_right_is_taken_up() {
    let content = b"hello world\n";
    let meta = torrent(content, 16384);
    let mut engine = Engine::new(&meta, &config());
    assert!(!engine.restore(0, Some(b"hellO world\n".as_slice())));
    assert!(!engine.restore(0, None));
    assert!(!engine.is_complete());
    assert!(engine.restore(0, Some(content.as_slice())));
    assert!(engine.is_complete());
    assert_eq!(engine.downloaded(), 12);
    assert_eq!(engine.resumed_event(), Event::Resumed { have: 1, total: 1, bytes: 12 });
}

#[test]
fn the_final_check_decides_the_end() {
    assert_eq!(after_final_check(0, 0), Some(Ok(())));
    assert_eq!(after_final_check(3, 0), None);
    assert_eq!(after_final_check(3, 1), None);
    assert_eq!(after_final_check(3, 2), Some(Err(Error::Incomplete)));
}

#[test]
fn a_torrent_without_trackers_is_refused() {
    let mut meta = torrent(b"hello world\n", 16384);
    assert_eq!(check_trackers(&meta), Ok(()));
    meta.trackers = vec![];
    assert_eq!(check_trackers(&meta), Err(Error::NoTrackers));
}

#[test]
fn a_dead_peer_frees_its_piece() {
    let content = b"hello world\n";
    let meta = torrent(content, 16384);
    let mut engine = Engine::new(&meta, &config());
    engine.on_announced(1800, &[Endpoint::V4(1, 1), Endpoint::V4(2, 2)], 0);
    let (a, _) = engine.next_connection().unwrap();
    let (b, _) = engine.next_connection().unwrap();
    let _ = engine.on_connected(a, 0);
    let _ = engine.on_connected(b, 0);
    let _ = engine.on_message(a, Message::Have(0), 1);
    let _ = engine.on_message(a, Message::Unchoke, 1);
    let out = engine.housekeeping(1);
    assert_eq!(requests(&out.actions, a), vec![(0, 0, 12)]);
    let out = engine.on_died(a);
    assert_eq!(out.actions, vec![Action::Close { peer: a }]);
    let _ = engine.on_message(b, Message::Have(0), 2);
    let _ = engine.on_message(b, Message::Unchoke, 2);
    let out = engine.housekeeping(2);
    assert_eq!(requests(&out.actions, b), vec![(0, 0, 12)]);
}

#[test]
fn a_silent_peer_with_a_piece_is_dropped() {
    let meta = torrent(b"hello world\n", 16384);
    let mut engine = Engine::new(&meta, &config());
    engine.on_announced(1800, &[Endpoint::V4(1, 1)], 0);
    let (id, _) = engine.next_connection().unwrap();
    let _ = engine.on_connected(id, 0);
    let _ = engine.on_message(id, Message::Have(0), 0);
    let out = engine.housekeeping(0);
    assert!(out.actions.contains(&Action::Send { peer: id, message: Message::Interested }));
    let out = engine.housekeeping(200_000);
    assert!(out.actions.contains(&Action::Close { peer: id }));
    assert_eq!(engine.peer_count(), 0);
}
