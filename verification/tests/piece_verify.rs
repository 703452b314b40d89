use bt::bencode::{encode, Dict, Value};
use bt::metainfo::parse;
use bt::verify::{piece_digest, verify_piece};
use sha1::{Digest, Sha1};

fn bytes_value(s: &[u8]) -> Value {
    Value::Bytes(s.to_vec())
}

fn dict(entries: Vec<(&[u8], Value)>) -> Value {
    let mut map = Dict::new();
    for (k, v) in entries {
        map.insert(k.to_vec(), v);
    }
    Value::Dict(map)
}

fn single_file_torrent() -> Vec<u8> {
    let info = dict(vec![
        (b"length", Value::Int(12)),
        (b"name", bytes_value(b"demo.bin")),
        (b"piece length", Value::Int(16384)),
        (b"pieces", Value::Bytes(Sha1::digest(b"hello world\n").to_vec())),
    ]);
    encode(&dict(vec![
        (b"announce", bytes_value(b"http://127.0.0.1:8080/announce")),
        (b"info", info),
    ]))
}

#[test]
fn digest_matches_known_vector() {
    let digest = piece_digest(b"hello world\n");
    let hex: String = digest.iter().map(|b| format!("{:02x}", b)).collect();
    assert_eq!(hex, "22596363b3de40b06f981fb85d82312e8c0ed511");
}

#[test]
fn fixture_piece_verifies() {
    let meta = parse(&single_file_torrent()).unwrap();
    assert!(verify_piece(b"hello world\n", &meta.pieces[0]));
}

#[test]
fn corrupt_piece_rejected() {
    let meta = parse(&single_file_torrent()).unwrap();
    let mut data = b"hello world\n".to_vec();
    data[0] ^= 0x01;
    assert!(!verify_piece(&data, &meta.pieces[0]));
}

#[test]
fn truncated_piece_rejected() {
    let meta = parse(&single_file_torrent()).unwrap();
    assert!(!verify_piece(b"hello world", &meta.pieces[0]));
}

#[test]
fn padded_piece_rejected() {
    let meta = parse(&single_file_torrent()).unwrap();
    assert!(!verify_piece(b"hello world\n\0", &meta.pieces[0]));
}

#[test]
fn empty_input_digest() {
    let hex: String = piece_digest(b"").iter().map(|b| format!("{:02x}", b)).collect();
    assert_eq!(hex, "da39a3ee5e6b4b0d3255bfef95601890afd80709");
}
