use bt::metainfo::InfoHash;
use bt::tracker::{AnnounceRequest, Error, Event, PeerAddr};
use bt::tracker_udp::{
    build_announce, build_connect, parse_announce, parse_connect, udp_tracker_addr,
};

fn request() -> AnnounceRequest {
    AnnounceRequest {
        info_hash: InfoHash([0xab; 20]),
        peer_id: *b"-BG0001-abcdefghijkl",
        port: 6881,
        uploaded: 1,
        downloaded: 2,
        left: 3,
        event: Event::Started,
    }
}

#[test]
fn connect_packet_layout() {
    let packet = build_connect(0xdead_beef);
    assert_eq!(&packet[0..8], &0x0417_2710_1980u64.to_be_bytes());
    assert_eq!(&packet[8..12], &[0, 0, 0, 0]);
    assert_eq!(&packet[12..16], &0xdead_beefu32.to_be_bytes());
}

#[test]
fn connect_response_parses() {
    let mut raw = Vec::new();
    raw.extend_from_slice(&0u32.to_be_bytes());
    raw.extend_from_slice(&7u32.to_be_bytes());
    raw.extend_from_slice(&99u64.to_be_bytes());
    assert_eq!(parse_connect(&raw, 7).unwrap(), 99);
}

#[test]
fn connect_response_txid_mismatch_rejected() {
    let mut raw = Vec::new();
    raw.extend_from_slice(&0u32.to_be_bytes());
    raw.extend_from_slice(&8u32.to_be_bytes());
    raw.extend_from_slice(&99u64.to_be_bytes());
    assert_eq!(parse_connect(&raw, 7), Err(Error::BadResponse));
}

#[test]
fn announce_packet_layout() {
    let packet = build_announce(0x1122_3344_5566_7788, 5, &request());
    assert_eq!(&packet[0..8], &0x1122_3344_5566_7788u64.to_be_bytes());
    assert_eq!(&packet[8..12], &1u32.to_be_bytes());
    assert_eq!(&packet[12..16], &5u32.to_be_bytes());
    assert_eq!(&packet[16..36], &[0xab; 20]);
    assert_eq!(&packet[36..56], b"-BG0001-abcdefghijkl");
    assert_eq!(&packet[56..64], &2u64.to_be_bytes());
    assert_eq!(&packet[64..72], &3u64.to_be_bytes());
    assert_eq!(&packet[72..80], &1u64.to_be_bytes());
    assert_eq!(&packet[80..84], &2u32.to_be_bytes());
    assert_eq!(&packet[92..96], &(-1i32).to_be_bytes());
    assert_eq!(&packet[96..98], &6881u16.to_be_bytes());
}

#[test]
fn announce_response_parses_peers() {
    let mut raw = Vec::new();
    raw.extend_from_slice(&1u32.to_be_bytes());
    raw.extend_from_slice(&5u32.to_be_bytes());
    raw.extend_from_slice(&900u32.to_be_bytes());
    raw.extend_from_slice(&2u32.to_be_bytes());
    raw.extend_from_slice(&10u32.to_be_bytes());
    raw.extend_from_slice(&[127, 0, 0, 1, 0x1a, 0xe1]);
    raw.extend_from_slice(&[10, 0, 0, 9, 0, 0]);
    let response = parse_announce(&raw, 5, false).unwrap();
    assert_eq!(response.interval, 900);
    assert_eq!(response.peers, vec![PeerAddr::Ipv4([127, 0, 0, 1], 6881)]);
}

#[test]
fn error_action_surfaces_message() {
    let mut raw = Vec::new();
    raw.extend_from_slice(&3u32.to_be_bytes());
    raw.extend_from_slice(&5u32.to_be_bytes());
    raw.extend_from_slice(b"denied");
    assert_eq!(
        parse_announce(&raw, 5, false),
        Err(Error::Failure("denied".to_string()))
    );
    assert_eq!(
        parse_connect(&{
            let mut c = raw.clone();
            c.extend_from_slice(&[0, 0]);
            c
        }, 5),
        Err(Error::Failure("denied\0\0".to_string()))
    );
}

#[test]
fn short_responses_rejected() {
    assert_eq!(parse_connect(&[0; 15], 0), Err(Error::BadResponse));
    assert_eq!(parse_announce(&[0; 19], 0, false), Err(Error::BadResponse));
}

#[test]
fn url_parsing() {
    assert_eq!(
        udp_tracker_addr("udp://127.0.0.1:8081").unwrap(),
        ("127.0.0.1".to_string(), 8081)
    );
    assert_eq!(
        udp_tracker_addr("udp://t.example:80/announce").unwrap(),
        ("t.example".to_string(), 80)
    );
    assert!(udp_tracker_addr("http://x:1").is_err());
    assert!(udp_tracker_addr("udp://noport").is_err());
}

#[test]
fn announce_response_parses_v6_peers() {
    let mut raw = Vec::new();
    raw.extend_from_slice(&1u32.to_be_bytes());
    raw.extend_from_slice(&5u32.to_be_bytes());
    raw.extend_from_slice(&900u32.to_be_bytes());
    raw.extend_from_slice(&2u32.to_be_bytes());
    raw.extend_from_slice(&10u32.to_be_bytes());
    let mut ip = [0u8; 16];
    ip[15] = 1;
    raw.extend_from_slice(&ip);
    raw.extend_from_slice(&0x1ae1u16.to_be_bytes());
    let response = parse_announce(&raw, 5, true).unwrap();
    assert_eq!(response.peers, vec![PeerAddr::Ipv6(ip, 6881)]);
}

#[test]
fn bracketed_v6_url_parses() {
    assert_eq!(
        udp_tracker_addr("udp://[2001:db8::7]:6969/announce").unwrap(),
        ("2001:db8::7".to_string(), 6969)
    );
}

#[test]
fn announce_event_codes() {
    let mut req = request();
    for (event, code) in [
        (Event::Regular, 0u32),
        (Event::Completed, 1),
        (Event::Started, 2),
        (Event::Stopped, 3),
    ] {
        req.event = event;
        let packet = build_announce(1, 2, &req);
        assert_eq!(&packet[80..84], &code.to_be_bytes());
    }
}

#[test]
fn wrong_action_or_transaction_is_refused() {
    let mut raw = Vec::new();
    raw.extend_from_slice(&1u32.to_be_bytes());
    raw.extend_from_slice(&5u32.to_be_bytes());
    raw.extend_from_slice(&900u32.to_be_bytes());
    raw.extend_from_slice(&0u32.to_be_bytes());
    raw.extend_from_slice(&0u32.to_be_bytes());
    assert!(parse_announce(&raw, 5, false).unwrap().peers.is_empty());
    assert_eq!(parse_announce(&raw, 6, false), Err(Error::BadResponse));
    raw.extend_from_slice(&[1, 2, 3]);
    assert_eq!(parse_announce(&raw, 5, false), Err(Error::BadResponse));
    let mut connect = Vec::new();
    connect.extend_from_slice(&1u32.to_be_bytes());
    connect.extend_from_slice(&7u32.to_be_bytes());
    connect.extend_from_slice(&99u64.to_be_bytes());
    assert_eq!(parse_connect(&connect, 7), Err(Error::BadResponse));
}

#[test]
fn udp_url_without_path_or_with_bad_port() {
    assert_eq!(
        udp_tracker_addr("udp://h:1").unwrap(),
        ("h".to_string(), 1)
    );
    assert!(udp_tracker_addr("udp://h:99999").is_err());
    assert!(udp_tracker_addr("udp://h:").is_err());
}
