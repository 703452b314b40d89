use bt::bencode::{decode, encode, Dict, Value};
use bt::metainfo::{parse, parse_info_dict, Error, FileEntry, InfoHash};
use sha1::{Digest, Sha1};

fn bytes_value(s: &[u8]) -> Value {
    Value::Bytes(s.to_vec())
}

fn dict(entries: Vec<(&[u8], Value)>) -> Value {
    let mut map = Dict::new();
    for (k, v) in entries {
        map.insert(k.to_vec(), v);
    }
    Value::Dict(map)
}

fn piece_hash(content: &[u8]) -> Vec<u8> {
    Sha1::digest(content).to_vec()
}

fn single_file_torrent() -> Vec<u8> {
    let info = dict(vec![
        (b"length", Value::Int(12)),
        (b"name", bytes_value(b"demo.bin")),
        (b"piece length", Value::Int(16384)),
        (b"pieces", Value::Bytes(piece_hash(b"hello world\n"))),
    ]);
    let top = dict(vec![
        (b"announce", bytes_value(b"http://127.0.0.1:8080/announce")),
        (b"info", info),
    ]);
    encode(&top)
}

fn multi_file_torrent() -> Vec<u8> {
    let files = Value::List(vec![
        dict(vec![
            (b"length", Value::Int(5)),
            (b"path", Value::List(vec![bytes_value(b"a.txt")])),
        ]),
        dict(vec![
            (b"length", Value::Int(4)),
            (b"path", Value::List(vec![bytes_value(b"sub"), bytes_value(b"b.txt")])),
        ]),
    ]);
    let info = dict(vec![
        (b"files", files),
        (b"name", bytes_value(b"demo-dir")),
        (b"piece length", Value::Int(16384)),
        (b"pieces", Value::Bytes(piece_hash(b"alphabeta"))),
    ]);
    let tiers = Value::List(vec![
        Value::List(vec![bytes_value(b"http://127.0.0.1:8080/announce")]),
        Value::List(vec![bytes_value(b"udp://127.0.0.1:8081")]),
    ]);
    let top = dict(vec![
        (b"announce", bytes_value(b"http://127.0.0.1:8080/announce")),
        (b"announce-list", tiers),
        (b"info", info),
    ]);
    encode(&top)
}

fn with_info<F: FnOnce(&mut Dict)>(torrent: &[u8], mutate: F) -> Vec<u8> {
    let mut top = match decode(torrent).unwrap() {
        Value::Dict(map) => map,
        _ => unreachable!(),
    };
    let mut info = top.get_dict(b"info").unwrap().deep_clone();
    mutate(&mut info);
    top.insert(b"info".to_vec(), Value::Dict(info));
    encode(&Value::Dict(top))
}

#[test]
fn single_file_parses() {
    let meta = parse(&single_file_torrent()).unwrap();
    assert_eq!(meta.info_hash.to_hex(), "71af21365358f65e33ed4da954118a5fa643a503");
    assert_eq!(meta.name, "demo.bin");
    assert_eq!(meta.piece_length, 16384);
    assert_eq!(meta.total_length, 12);
    assert_eq!(meta.pieces.len(), 1);
    assert_eq!(meta.files, vec![FileEntry { path: vec![], length: 12 }]);
    assert_eq!(meta.trackers, vec![vec!["http://127.0.0.1:8080/announce".to_string()]]);
}

#[test]
fn multi_file_parses() {
    let meta = parse(&multi_file_torrent()).unwrap();
    assert_eq!(meta.info_hash.to_hex(), "a08e4714b1bf517d465c9efacff4ee40dc9d2436");
    assert_eq!(meta.name, "demo-dir");
    assert_eq!(meta.total_length, 9);
    assert_eq!(
        meta.files,
        vec![
            FileEntry { path: vec!["a.txt".into()], length: 5 },
            FileEntry { path: vec!["sub".into(), "b.txt".into()], length: 4 },
        ]
    );
    assert_eq!(
        meta.trackers,
        vec![
            vec!["http://127.0.0.1:8080/announce".to_string()],
            vec!["udp://127.0.0.1:8081".to_string()],
        ]
    );
}

#[test]
fn bad_pieces_length_rejected() {
    let torrent = with_info(&single_file_torrent(), |info| {
        info.insert(b"pieces".to_vec(), Value::Bytes(vec![0u8; 19]));
    });
    assert_eq!(parse(&torrent), Err(Error::BadPieces));
}

#[test]
fn piece_count_mismatch_rejected() {
    let torrent = with_info(&single_file_torrent(), |info| {
        info.insert(b"pieces".to_vec(), Value::Bytes(vec![0u8; 40]));
    });
    assert_eq!(parse(&torrent), Err(Error::PieceCountMismatch));
}

#[test]
fn both_length_and_files_rejected() {
    let torrent = with_info(&multi_file_torrent(), |info| {
        info.insert(b"length".to_vec(), Value::Int(9));
    });
    assert_eq!(parse(&torrent), Err(Error::BothLengthAndFiles));
}

#[test]
fn traversal_path_rejected() {
    let torrent = with_info(&multi_file_torrent(), |info| {
        let files = Value::List(vec![dict(vec![
            (b"length".as_slice(), Value::Int(9)),
            (b"path".as_slice(), Value::List(vec![bytes_value(b"..")])),
        ])]);
        info.insert(b"files".to_vec(), files);
    });
    assert_eq!(parse(&torrent), Err(Error::BadPath));
}

#[test]
fn separator_in_name_rejected() {
    let torrent = with_info(&single_file_torrent(), |info| {
        info.insert(b"name".to_vec(), bytes_value(b"a/b"));
    });
    assert_eq!(parse(&torrent), Err(Error::BadPath));
}

#[test]
fn zero_piece_length_rejected() {
    let torrent = with_info(&single_file_torrent(), |info| {
        info.insert(b"piece length".to_vec(), Value::Int(0));
    });
    assert_eq!(parse(&torrent), Err(Error::BadLength));
}

#[test]
fn missing_info_rejected() {
    assert_eq!(parse(b"de"), Err(Error::MissingKey("info")));
}

#[test]
fn top_level_not_dict_rejected() {
    assert_eq!(parse(b"le"), Err(Error::NotADict));
}

#[test]
fn empty_files_rejected() {
    let torrent = with_info(&multi_file_torrent(), |info| {
        info.insert(b"files".to_vec(), Value::List(vec![]));
    });
    assert_eq!(parse(&torrent), Err(Error::NoFiles));
}

#[test]
fn info_hash_is_sha1_of_the_info_bytes() {
    let torrent = single_file_torrent();
    let top = match decode(&torrent).unwrap() {
        Value::Dict(map) => map,
        _ => unreachable!(),
    };
    let info = encode(top.get(b"info").unwrap());
    let expected: [u8; 20] = Sha1::digest(&info).into();
    assert_eq!(parse(&torrent).unwrap().info_hash, InfoHash(expected));
    let again = parse_info_dict(&info, vec![vec!["x".to_string()]]).unwrap();
    assert_eq!(again.info_hash, InfoHash(expected));
    assert_eq!(again.trackers, vec![vec!["x".to_string()]]);
    assert_eq!(again.name, "demo.bin");
}

#[test]
fn hex_round_trips() {
    let hash = InfoHash([0xab; 20]);
    assert_eq!(InfoHash::from_hex(&hash.to_hex()), Some(hash));
    assert_eq!(InfoHash::from_hex("abc"), None);
}

#[test]
fn broken_encoding_is_a_bencode_error() {
    assert!(matches!(parse(b"d"), Err(Error::Bencode(_))));
    assert_eq!(parse(b"d4:infoi1ee"), Err(Error::WrongType("info")));
}

#[test]
fn hex_reading_ignores_letter_case() {
    let lower = "0123456789abcdef0123456789abcdef01234567";
    let upper = "0123456789ABCDEF0123456789ABCDEF01234567";
    let mixed = "0123456789aBcDeF0123456789AbCdEf01234567";
    let h = InfoHash::from_hex(lower).unwrap();
    assert_eq!(InfoHash::from_hex(upper), Some(h));
    assert_eq!(InfoHash::from_hex(mixed), Some(h));
    assert_eq!(h.to_hex(), lower);
    assert_eq!(InfoHash::from_hex(&"z".repeat(40)), None);
}

#[test]
fn accepted_torrents_are_sound() {
    for torrent in [single_file_torrent(), multi_file_torrent()] {
        let meta = parse(&torrent).unwrap();
        assert!(meta.piece_length > 0);
        assert!(meta.total_length > 0);
        let sum: u64 = meta.files.iter().map(|f| f.length).sum();
        assert_eq!(meta.total_length, sum);
        let count = (meta.total_length + meta.piece_length - 1) / meta.piece_length;
        assert_eq!(meta.pieces.len() as u64, count);
        assert!(!meta.name.is_empty() && !meta.name.contains('/'));
        for f in &meta.files {
            for c in &f.path {
                assert!(!c.is_empty() && c != "." && c != ".." && !c.contains('/') && !c.contains('\\'));
            }
        }
        assert_eq!(meta.info_hash.0.to_vec(), Sha1::digest(&info_part(&torrent)).to_vec());
    }
    assert_eq!(parse(&single_file_torrent()).unwrap().files[0].path.len(), 0);
}

fn info_part(torrent: &[u8]) -> Vec<u8> {
    match decode(torrent).unwrap() {
        Value::Dict(map) => encode(&Value::Dict(map.get_dict(b"info").unwrap().deep_clone())),
        _ => unreachable!(),
    }
}
