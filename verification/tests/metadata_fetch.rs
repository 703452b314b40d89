use bt::bencode::{decode, encode, Dict, Value};
use bt::extensions::{
    build_metadata_data, build_metadata_reject, parse_metadata_message, MetadataMessage,
    EXT_HANDSHAKE_ID, METADATA_PIECE_SIZE,
};
use bt::metadata::{fetch_from_stream, FetchError, FetchStep, MetadataFetch};
use bt::metainfo::{parse, parse_info_dict, InfoHash};
use bt::peer::{encode_message, read_message, Message};
use sha1::{Digest, Sha1};
use std::io::Cursor;

struct ScriptedPeer {
    replies: Cursor<Vec<u8>>,
    written: Vec<u8>,
}

impl std::io::Read for ScriptedPeer {
    fn read(&mut self, buf: &mut [u8]) -> std::io::Result<usize> {
        self.replies.read(buf)
    }
}

impl std::io::Write for ScriptedPeer {
    fn write(&mut self, buf: &[u8]) -> std::io::Result<usize> {
        self.written.extend_from_slice(buf);
        Ok(buf.len())
    }
    fn flush(&mut self) -> std::io::Result<()> {
        Ok(())
    }
}

fn their_handshake(size: usize) -> Message {
    let mut m = Dict::new();
    m.insert(b"ut_metadata".to_vec(), Value::Int(3));
    let mut top = Dict::new();
    top.insert(b"m".to_vec(), Value::Dict(m));
    top.insert(b"metadata_size".to_vec(), Value::Int(size as i64));
    Message::Extended { ext: EXT_HANDSHAKE_ID, payload: encode(&Value::Dict(top)) }
}

fn data_messages(metadata: &[u8], corrupt: bool) -> Vec<Message> {
    let mut out = Vec::new();
    let mut piece = 0u64;
    while (piece * METADATA_PIECE_SIZE) < metadata.len() as u64 {
        let start = (piece * METADATA_PIECE_SIZE) as usize;
        let end = std::cmp::min(start + METADATA_PIECE_SIZE as usize, metadata.len());
        let mut chunk = metadata[start..end].to_vec();
        if corrupt {
            chunk[0] ^= 0xff;
        }
        out.push(Message::Extended {
            ext: 1,
            payload: build_metadata_data(piece, metadata.len() as u64, &chunk),
        });
        piece += 1;
    }
    out
}

fn scripted(messages: &[Message]) -> ScriptedPeer {
    let mut replies = Vec::new();
    for m in messages {
        replies.extend_from_slice(&encode_message(m));
    }
    ScriptedPeer { replies: Cursor::new(replies), written: Vec::new() }
}

fn big_info() -> Vec<u8> {
    let mut pieces = Vec::new();
    for i in 0..1000u32 {
        let mut hash = [0u8; 20];
        hash[0..4].copy_from_slice(&i.to_be_bytes());
        pieces.extend_from_slice(&hash);
    }
    let mut info = Dict::new();
    info.insert(b"length".to_vec(), Value::Int(1000 * 16384));
    info.insert(b"name".to_vec(), Value::Bytes(b"big.bin".to_vec()));
    info.insert(b"piece length".to_vec(), Value::Int(16384));
    info.insert(b"pieces".to_vec(), Value::Bytes(pieces));
    encode(&Value::Dict(info))
}

#[test]
fn multi_piece_metadata_reassembles() {
    let info = big_info();
    assert!(info.len() > METADATA_PIECE_SIZE as usize);
    let expected = parse_info_dict(&info, vec![]).unwrap();
    let mut script = vec![their_handshake(info.len())];
    script.extend(data_messages(&info, false));
    let mut peer = scripted(&script);
    let fetched = fetch_from_stream(&mut peer, expected.info_hash).unwrap();
    assert_eq!(fetched, info);
    let mut sent = Cursor::new(peer.written);
    let first = read_message(&mut sent).unwrap();
    assert!(matches!(first, Message::Extended { ext: 0, .. }));
    let mut piece = 0u64;
    while let Ok(Message::Extended { ext, payload }) = read_message(&mut sent) {
        assert_eq!(ext, 3);
        assert_eq!(
            parse_metadata_message(&payload).unwrap(),
            MetadataMessage::Request { piece }
        );
        piece += 1;
    }
    assert_eq!(piece, (info.len() as u64 + METADATA_PIECE_SIZE - 1) / METADATA_PIECE_SIZE);
}

fn bytes_value(s: &[u8]) -> Value {
    Value::Bytes(s.to_vec())
}

fn dict(entries: Vec<(&[u8], Value)>) -> Value {
    let mut map = Dict::new();
    for (k, v) in entries {
        map.insert(k.to_vec(), v);
    }
    Value::Dict(map)
}

fn single_file_torrent() -> Vec<u8> {
    let info = dict(vec![
        (b"length", Value::Int(12)),
        (b"name", bytes_value(b"demo.bin")),
        (b"piece length", Value::Int(16384)),
        (b"pieces", Value::Bytes(Sha1::digest(b"hello world\n").to_vec())),
    ]);
    encode(&dict(vec![
        (b"announce", bytes_value(b"http://127.0.0.1:8080/announce")),
        (b"info", info),
    ]))
}

fn multi_file_torrent() -> Vec<u8> {
    let files = Value::List(vec![
        dict(vec![
            (b"length", Value::Int(5)),
            (b"path", Value::List(vec![bytes_value(b"a.txt")])),
        ]),
        dict(vec![
            (b"length", Value::Int(4)),
            (b"path", Value::List(vec![bytes_value(b"sub"), bytes_value(b"b.txt")])),
        ]),
    ]);
    let info = dict(vec![
        (b"files", files),
        (b"name", bytes_value(b"demo-dir")),
        (b"piece length", Value::Int(16384)),
        (b"pieces", Value::Bytes(Sha1::digest(b"alphabeta").to_vec())),
    ]);
    let tiers = Value::List(vec![
        Value::List(vec![bytes_value(b"http://127.0.0.1:8080/announce")]),
        Value::List(vec![bytes_value(b"udp://127.0.0.1:8081")]),
    ]);
    encode(&dict(vec![
        (b"announce", bytes_value(b"http://127.0.0.1:8080/announce")),
        (b"announce-list", tiers),
        (b"info", info),
    ]))
}

fn info_bytes(torrent: &[u8]) -> Vec<u8> {
    match decode(torrent).unwrap() {
        Value::Dict(top) => encode(top.get(b"info".as_slice()).unwrap()),
        _ => unreachable!(),
    }
}

#[test]
fn metadata_fetch_reproduces_info_dict() {
    let torrent = multi_file_torrent();
    let meta = parse(&torrent).unwrap();
    let info = info_bytes(&torrent);
    let mut script = vec![their_handshake(info.len())];
    script.extend(data_messages(&info, false));
    let mut peer = scripted(&script);
    let fetched = fetch_from_stream(&mut peer, meta.info_hash).unwrap();
    assert_eq!(fetched, info);
    let rebuilt = parse_info_dict(&fetched, meta.trackers.clone()).unwrap();
    assert_eq!(rebuilt, meta);
}

#[test]
fn corrupted_metadata_rejected() {
    let torrent = single_file_torrent();
    let meta = parse(&torrent).unwrap();
    let info = info_bytes(&torrent);
    let mut script = vec![their_handshake(info.len())];
    script.extend(data_messages(&info, true));
    let mut peer = scripted(&script);
    assert_eq!(fetch_from_stream(&mut peer, meta.info_hash), Err(FetchError::HashMismatch));
}

#[test]
fn rejected_request_fails_the_fetch() {
    let info = b"d4:name1:xe".to_vec();
    let hash: [u8; 20] = Sha1::digest(&info).into();
    let script = vec![
        their_handshake(info.len()),
        Message::Extended { ext: 1, payload: build_metadata_reject(0) },
    ];
    let mut peer = scripted(&script);
    assert_eq!(fetch_from_stream(&mut peer, InfoHash(hash)), Err(FetchError::Rejected));
}

#[test]
fn peer_without_metadata_is_refused() {
    let (mut fetch, opening) = MetadataFetch::new(InfoHash([1; 20]));
    assert!(matches!(opening, Message::Extended { ext: 0, .. }));
    let step = fetch.on_message(Message::Extended { ext: 0, payload: b"d1:mdee".to_vec() });
    assert!(matches!(step, FetchStep::Fail(FetchError::NoMetadata)));
}

#[test]
fn unrelated_messages_are_waited_out() {
    let (mut fetch, _) = MetadataFetch::new(InfoHash([1; 20]));
    assert!(matches!(fetch.on_message(Message::Unchoke), FetchStep::Wait));
    assert!(matches!(fetch.on_message(Message::Have(1)), FetchStep::Wait));
    match fetch.on_message(their_handshake(10)) {
        FetchStep::Send(Message::Extended { ext, payload }) => {
            assert_eq!(ext, 3);
            assert_eq!(
                parse_metadata_message(&payload).unwrap(),
                MetadataMessage::Request { piece: 0 }
            );
        }
        other => panic!("{:?}", other),
    }
}

#[test]
fn oversized_piece_overflows() {
    let (mut fetch, _) = MetadataFetch::new(InfoHash([1; 20]));
    let _ = fetch.on_message(their_handshake(4));
    let step = fetch.on_message(Message::Extended {
        ext: 1,
        payload: build_metadata_data(0, 4, b"too long"),
    });
    assert!(matches!(step, FetchStep::Fail(FetchError::Overflow)));
}

#[test]
fn the_deadline_names_what_was_missing() {
    let (fetch, _) = MetadataFetch::new(bt::metainfo::InfoHash([1u8; 20]));
    assert_eq!(fetch.on_deadline(), FetchError::NoHandshake);
}

#[test]
fn a_peer_without_extensions_cannot_hand_over_metadata() {
    let mut theirs = bt::peer::Handshake { info_hash: InfoHash([1u8; 20]), peer_id: [2u8; 20], extensions: false };
    assert_eq!(bt::metadata::check_extensions(&theirs), Err(FetchError::NoExtensions));
    theirs.extensions = true;
    assert_eq!(bt::metadata::check_extensions(&theirs), Ok(()));
}
