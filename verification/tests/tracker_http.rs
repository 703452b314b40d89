use bt::tracker::http_target;
use bt::metainfo::InfoHash;
use bt::tracker::{
    build_announce_url, escape_bytes, parse_response, split_http_response, AnnounceRequest,
    AnnounceResponse, Error, Event, PeerAddr,
};

fn request() -> AnnounceRequest {
    AnnounceRequest {
        info_hash: InfoHash([0x01; 20]),
        peer_id: *b"-BG0001-abcdefghijkl",
        port: 6881,
        uploaded: 0,
        downloaded: 0,
        left: 1000,
        event: Event::Started,
    }
}

fn v6_loopback(port: u16) -> PeerAddr {
    let mut ip = [0u8; 16];
    ip[15] = 1;
    PeerAddr::Ipv6(ip, port)
}

#[test]
fn escaping_covers_reserved_bytes() {
    assert_eq!(escape_bytes(b"Az09-_.~"), "Az09-_.~");
    assert_eq!(escape_bytes(&[0x00, 0x1f, 0xff, b' ', b'/']), "%00%1F%FF%20%2F");
}

#[test]
fn announce_url_contains_all_fields() {
    let url = build_announce_url("http://127.0.0.1:9999/announce", &request()).unwrap();
    assert!(url.starts_with("http://127.0.0.1:9999/announce?info_hash=%01%01"));
    assert!(url.contains("&peer_id=-BG0001-abcdefghijkl"));
    assert!(url.contains("&port=6881"));
    assert!(url.contains("&left=1000"));
    assert!(url.contains("&compact=1"));
    assert!(url.contains("&event=started"));
}

#[test]
fn existing_query_is_extended() {
    let url = build_announce_url("http://127.0.0.1/announce?key=1", &request()).unwrap();
    assert!(url.contains("announce?key=1&info_hash="));
}

#[test]
fn non_http_scheme_rejected() {
    assert!(matches!(
        build_announce_url("udp://127.0.0.1:1", &request()),
        Err(Error::UnsupportedUrl(_))
    ));
}

#[test]
fn compact_peers_parse() {
    let body = b"d8:intervali900e5:peers12:\x7f\x00\x00\x01\x1a\xe1\x0a\x00\x00\x02\x1a\xe2e";
    let response = parse_response(body).unwrap();
    assert_eq!(response.interval, 900);
    assert_eq!(
        response.peers,
        vec![
            PeerAddr::Ipv4([127, 0, 0, 1], 6881),
            PeerAddr::Ipv4([10, 0, 0, 2], 6882),
        ]
    );
}

#[test]
fn zero_port_peers_dropped() {
    let body = b"d8:intervali900e5:peers6:\x7f\x00\x00\x01\x00\x00e";
    assert_eq!(parse_response(body).unwrap().peers, vec![]);
}

#[test]
fn dict_peers_keep_their_address_text() {
    let body =
        b"d8:intervali60e5:peersld2:ip9:127.0.0.14:porti6881eed2:ip3:bad4:porti1eeee";
    let response = parse_response(body).unwrap();
    assert_eq!(
        response.peers,
        vec![
            PeerAddr::Host("127.0.0.1".to_string(), 6881),
            PeerAddr::Host("bad".to_string(), 1),
        ]
    );
}

#[test]
fn failure_reason_surfaces() {
    let body = b"d14:failure reason9:not founde";
    assert_eq!(
        parse_response(body),
        Err(Error::Failure("not found".to_string()))
    );
}

#[test]
fn truncated_compact_peers_rejected() {
    let body = b"d8:intervali900e5:peers5:\x7f\x00\x00\x01\x1ae";
    assert_eq!(parse_response(body), Err(Error::BadResponse));
}

#[test]
fn garbage_rejected() {
    assert_eq!(parse_response(b"hello"), Err(Error::BadResponse));
}

#[test]
fn compact_v6_peers_parse() {
    let mut body = b"d8:intervali900e5:peers0:6:peers618:".to_vec();
    let mut ip = [0u8; 16];
    ip[15] = 1;
    body.extend_from_slice(&ip);
    body.extend_from_slice(&0x1ae1u16.to_be_bytes());
    body.push(b'e');
    let response = parse_response(&body).unwrap();
    assert_eq!(response.peers, vec![v6_loopback(6881)]);
}

#[test]
fn v6_only_response_parses() {
    let mut body = b"d8:intervali900e6:peers618:".to_vec();
    let mut ip = [0u8; 16];
    ip[15] = 1;
    body.extend_from_slice(&ip);
    body.extend_from_slice(&0x1ae1u16.to_be_bytes());
    body.push(b'e');
    assert_eq!(parse_response(&body).unwrap().peers.len(), 1);
}

#[test]
fn mixed_families_combine() {
    let mut body = b"d8:intervali900e5:peers6:\x7f\x00\x00\x01\x1a\xe16:peers618:".to_vec();
    let mut ip = [0u8; 16];
    ip[15] = 1;
    body.extend_from_slice(&ip);
    body.extend_from_slice(&0x1ae1u16.to_be_bytes());
    body.push(b'e');
    let response = parse_response(&body).unwrap();
    assert_eq!(response.peers.len(), 2);
}

#[test]
fn truncated_v6_peers_rejected() {
    let body = b"d8:intervali900e6:peers610:0123456789e";
    assert_eq!(parse_response(body), Err(Error::BadResponse));
}

#[test]
fn no_peer_key_rejected() {
    assert_eq!(parse_response(b"d8:intervali900ee"), Err(Error::BadResponse));
}

#[test]
fn control_bytes_in_the_url_are_refused() {
    for base in [
        "http://127.0.0.1:9999/announce\r\nX-Injected: yes",
        "http://127.0.0.1:9999/announce\nX-Injected: yes",
        "http://127.0.0.1:9999/announce HTTP/1.0",
        "http://127.0.0.1:9999/announce\0",
    ] {
        assert_eq!(
            build_announce_url(base, &request()),
            Err(Error::UnsupportedUrl(base.to_string())),
            "accepted {:?}",
            base
        );
    }
}

#[test]
fn missing_interval_defaults_and_bad_interval_is_refused() {
    let body = b"d5:peers0:e";
    assert_eq!(
        parse_response(body),
        Ok(AnnounceResponse { interval: 1800, peers: vec![] })
    );
    assert_eq!(parse_response(b"d8:intervali0e5:peers0:e"), Err(Error::BadResponse));
}

#[test]
fn announce_url_layout_is_exact() {
    let mut req = request();
    req.info_hash = InfoHash([b'a'; 20]);
    req.event = Event::Regular;
    req.uploaded = 5;
    assert_eq!(
        build_announce_url("http://t/a", &req).unwrap(),
        "http://t/a?info_hash=aaaaaaaaaaaaaaaaaaaa&peer_id=-BG0001-abcdefghijkl&port=6881\
&uploaded=5&downloaded=0&left=1000&compact=1&numwant=50"
    );
}

#[test]
fn status_line_and_body_offset() {
    let raw = b"HTTP/1.0 200 OK\r\nContent-Length: 2\r\n\r\nde";
    assert_eq!(split_http_response(raw), Ok((200, raw.len() - 2)));
    assert_eq!(split_http_response(b"HTTP/1.0 404 Not Found\r\n\r\n"), Ok((404, 26)));
    assert_eq!(split_http_response(b"no blank line"), Err(Error::BadResponse));
    assert_eq!(split_http_response(b"HTTP/1.0 abc\r\n\r\n"), Err(Error::BadResponse));
}

#[test]
fn announce_urls_split_into_where_to_connect() {
    let t = http_target("http://tracker.example:6969/announce?info_hash=%01").unwrap();
    assert_eq!(t.authority, "tracker.example:6969");
    assert_eq!(t.path, "/announce?info_hash=%01");
    assert_eq!(t.host, "tracker.example");
    assert_eq!(t.port, 6969);
    let t = http_target("http://tracker.example").unwrap();
    assert_eq!(t.authority, "tracker.example");
    assert_eq!(t.path, "/");
    assert_eq!(t.host, "tracker.example");
    assert_eq!(t.port, 80);
    let t = http_target("http://[::1]:8080/a").unwrap();
    assert_eq!(t.host, "::1");
    assert_eq!(t.port, 8080);
    assert_eq!(http_target("http://host:99999/"), None);
    assert_eq!(http_target("http://host:x/"), None);
    assert_eq!(http_target("udp://host:80/"), None);
}
