use bt::bencode::{encode, Dict, Value};
use bt::metainfo::{parse, Metainfo};
use bt::storage::{Segment, Storage};
use sha1::{Digest, Sha1};

fn bytes_value(s: &[u8]) -> Value {
    Value::Bytes(s.to_vec())
}

fn dict(entries: Vec<(&[u8], Value)>) -> Value {
    let mut map = Dict::new();
    for (k, v) in entries {
        map.insert(k.to_vec(), v);
    }
    Value::Dict(map)
}

fn piece_hash(content: &[u8]) -> Vec<u8> {
    Sha1::digest(content).to_vec()
}

fn single_file_torrent() -> Vec<u8> {
    let info = dict(vec![
        (b"length", Value::Int(12)),
        (b"name", bytes_value(b"demo.bin")),
        (b"piece length", Value::Int(16384)),
        (b"pieces", Value::Bytes(piece_hash(b"hello world\n"))),
    ]);
    encode(&dict(vec![
        (b"announce", bytes_value(b"http://127.0.0.1:8080/announce")),
        (b"info", info),
    ]))
}

fn multi_file_torrent() -> Vec<u8> {
    let files = Value::List(vec![
        dict(vec![
            (b"length", Value::Int(5)),
            (b"path", Value::List(vec![bytes_value(b"a.txt")])),
        ]),
        dict(vec![
            (b"length", Value::Int(4)),
            (b"path", Value::List(vec![bytes_value(b"sub"), bytes_value(b"b.txt")])),
        ]),
    ]);
    let info = dict(vec![
        (b"files", files),
        (b"name", bytes_value(b"demo-dir")),
        (b"piece length", Value::Int(16384)),
        (b"pieces", Value::Bytes(piece_hash(b"alphabeta"))),
    ]);
    encode(&dict(vec![
        (b"announce", bytes_value(b"http://127.0.0.1:8080/announce")),
        (b"info", info),
    ]))
}

fn multi_storage(dir: &str) -> Storage {
    let meta: Metainfo = parse(&multi_file_torrent()).unwrap();
    Storage::from_metainfo(&meta, dir)
}

#[test]
fn paths_resolve_under_name() {
    let dir = "scratch/paths";
    let storage = multi_storage(dir);
    assert_eq!(storage.paths()[0], format!("{}/demo-dir/a.txt", dir));
    assert_eq!(storage.paths()[1], format!("{}/demo-dir/sub/b.txt", dir));
}

#[test]
fn single_file_path_is_name() {
    let dir = "scratch/single-path";
    let meta = parse(&single_file_torrent()).unwrap();
    let storage = Storage::from_metainfo(&meta, dir);
    assert_eq!(storage.paths(), &[format!("{}/demo.bin", dir)]);
}

#[test]
fn segments_split_across_files() {
    let storage = multi_storage("scratch/segments");
    assert_eq!(
        storage.segments(0, 9),
        vec![
            Segment { file: 0, offset: 0, length: 5 },
            Segment { file: 1, offset: 0, length: 4 },
        ]
    );
    assert_eq!(
        storage.segments(3, 4),
        vec![
            Segment { file: 0, offset: 3, length: 2 },
            Segment { file: 1, offset: 0, length: 2 },
        ]
    );
    assert_eq!(storage.segments(5, 4), vec![Segment { file: 1, offset: 0, length: 4 }]);
}

#[test]
fn piece_size_handles_short_last_piece() {
    let storage = multi_storage("scratch/piece-size");
    assert_eq!(storage.piece_size(0), 9);
    assert_eq!(storage.piece_size(1), 0);
}

#[test]
fn spans_past_the_end_are_refused() {
    let storage = multi_storage("scratch/oob");
    assert_eq!(
        storage.span(0, 4, 5),
        Some(vec![
            Segment { file: 0, offset: 4, length: 1 },
            Segment { file: 1, offset: 0, length: 4 },
        ])
    );
    assert_eq!(storage.span(0, 8, 2), None);
    assert_eq!(storage.span(0, 0, 10), None);
    assert_eq!(storage.span(1, 0, 1), None);
}

#[test]
fn paths_lengths_and_total() {
    let storage = multi_storage("");
    assert_eq!(storage.paths()[0], "demo-dir/a.txt");
    assert_eq!(storage.lengths(), &[5, 4]);
    assert_eq!(storage.total(), 9);
    let slash = multi_storage("out/");
    assert_eq!(slash.paths()[1], "out/demo-dir/sub/b.txt");
}

#[test]
fn segments_cover_what_is_asked_up_to_the_end() {
    let storage = multi_storage("scratch/cover");
    let total = |segs: &Vec<Segment>| segs.iter().map(|s| s.length).sum::<u64>();
    assert_eq!(total(&storage.segments(2, 5)), 5);
    assert_eq!(total(&storage.segments(7, 10)), 2);
    assert_eq!(total(&storage.segments(12, 3)), 0);
}
