use bt::bencode::{decode, encode, Dict, Value};
use bt::dht::{
    build_query, parse_compact_nodes, parse_reply, random_node_id, reply_id, Error, NodeAddr,
    NodeEntry, NodeId, RoutingTable, K,
};

fn own() -> NodeId {
    NodeId([7u8; 20])
}

fn addr(ip: [u8; 4], port: u16) -> NodeAddr {
    NodeAddr { ip, port }
}

#[test]
fn query_layout_is_krpc() {
    let packet = build_query(b"aa", &own(), "ping", vec![]);
    match decode(&packet).unwrap() {
        Value::Dict(top) => {
            assert_eq!(top.get(b"t".as_slice()), Some(&Value::Bytes(b"aa".to_vec())));
            assert_eq!(top.get(b"y".as_slice()), Some(&Value::Bytes(b"q".to_vec())));
            assert_eq!(top.get(b"q".as_slice()), Some(&Value::Bytes(b"ping".to_vec())));
            match top.get(b"a".as_slice()) {
                Some(Value::Dict(a)) => assert_eq!(
                    a.get(b"id".as_slice()),
                    Some(&Value::Bytes(vec![7u8; 20]))
                ),
                other => panic!("{:?}", other),
            }
        }
        other => panic!("{:?}", other),
    }
}

fn reply_bytes(txid: &[u8], r: Dict) -> Vec<u8> {
    let mut top = Dict::new();
    top.insert(b"t".to_vec(), Value::Bytes(txid.to_vec()));
    top.insert(b"y".to_vec(), Value::Bytes(b"r".to_vec()));
    top.insert(b"r".to_vec(), Value::Dict(r));
    encode(&Value::Dict(top))
}

#[test]
fn reply_parses_and_checks_txid() {
    let mut r = Dict::new();
    r.insert(b"id".to_vec(), Value::Bytes(vec![1u8; 20]));
    let raw = reply_bytes(b"xy", r);
    assert!(parse_reply(&raw, b"xy").is_ok());
    assert_eq!(parse_reply(&raw, b"zz"), Err(Error::BadResponse));
}

#[test]
fn error_reply_surfaces() {
    let mut top = Dict::new();
    top.insert(b"t".to_vec(), Value::Bytes(b"xy".to_vec()));
    top.insert(b"y".to_vec(), Value::Bytes(b"e".to_vec()));
    top.insert(
        b"e".to_vec(),
        Value::List(vec![Value::Int(201), Value::Bytes(b"Generic".to_vec())]),
    );
    let raw = encode(&Value::Dict(top));
    assert_eq!(
        parse_reply(&raw, b"xy"),
        Err(Error::Remote("201 Generic".to_string()))
    );
}

#[test]
fn compact_nodes_parse() {
    let mut raw = Vec::new();
    raw.extend_from_slice(&[1u8; 20]);
    raw.extend_from_slice(&[127, 0, 0, 1, 0x1a, 0xe1]);
    raw.extend_from_slice(&[2u8; 20]);
    raw.extend_from_slice(&[10, 0, 0, 1, 0, 0]);
    let nodes = parse_compact_nodes(&raw);
    assert_eq!(nodes.len(), 1);
    assert_eq!(nodes[0].id, NodeId([1u8; 20]));
    assert_eq!(nodes[0].addr, addr([127, 0, 0, 1], 6881));
}

#[test]
fn bucket_index_by_leading_zeroes() {
    let a = NodeId([0u8; 20]);
    let mut close = [0u8; 20];
    close[19] = 1;
    assert_eq!(a.bucket_index(&NodeId(close)), 159);
    let mut far = [0u8; 20];
    far[0] = 0x80;
    assert_eq!(a.bucket_index(&NodeId(far)), 0);
}

#[test]
fn routing_table_dedups_and_caps() {
    let mut table = RoutingTable::new(own());
    let mut inserted = 0;
    for i in 0..(K as u8 + 4) {
        let mut id = [0x80u8; 20];
        id[19] = i;
        let entry = NodeEntry {
            id: NodeId(id),
            addr: addr([10, 0, 0, i], 6881),
        };
        if table.insert(entry) {
            inserted += 1;
        }
        table.insert(entry);
    }
    assert_eq!(inserted, K);
    assert_eq!(table.len(), K);
}

#[test]
fn closest_sorts_by_distance() {
    let mut table = RoutingTable::new(own());
    for i in 1..=4u8 {
        let mut id = [0u8; 20];
        id[0] = i;
        table.insert(NodeEntry {
            id: NodeId(id),
            addr: addr([10, 0, 0, i], 6881),
        });
    }
    let mut target = [0u8; 20];
    target[0] = 3;
    let closest = table.closest(&NodeId(target), 2);
    assert_eq!(closest[0].id.0[0], 3);
    assert_eq!(closest[1].id.0[0], 2);
}

#[test]
fn distance_is_bytewise_xor() {
    let a = NodeId([0x0f; 20]);
    let b = NodeId([0xff; 20]);
    assert_eq!(a.distance(&b), [0xf0; 20]);
    assert_eq!(a.distance(&a), [0u8; 20]);
}

#[test]
fn own_id_is_never_stored() {
    let mut table = RoutingTable::new(own());
    assert!(table.is_empty());
    assert!(!table.insert(NodeEntry { id: own(), addr: addr([1, 2, 3, 4], 1) }));
    assert_eq!(table.len(), 0);
}

#[test]
fn reply_id_reads_twenty_bytes() {
    let mut r = Dict::new();
    r.insert(b"id".to_vec(), Value::Bytes(vec![4u8; 20]));
    assert_eq!(reply_id(&r), Ok(NodeId([4u8; 20])));
    let mut short = Dict::new();
    short.insert(b"id".to_vec(), Value::Bytes(vec![4u8; 19]));
    assert_eq!(reply_id(&short), Err(Error::BadResponse));
}

#[test]
fn query_carries_extra_arguments() {
    let packet = build_query(
        b"tt",
        &own(),
        "find_node",
        vec![(b"target".as_slice(), Value::Bytes(vec![1u8; 20]))],
    );
    let mut a = Dict::new();
    a.insert(b"id".to_vec(), Value::Bytes(vec![7u8; 20]));
    a.insert(b"target".to_vec(), Value::Bytes(vec![1u8; 20]));
    let mut top = Dict::new();
    top.insert(b"a".to_vec(), Value::Dict(a));
    top.insert(b"q".to_vec(), Value::Bytes(b"find_node".to_vec()));
    top.insert(b"t".to_vec(), Value::Bytes(b"tt".to_vec()));
    top.insert(b"y".to_vec(), Value::Bytes(b"q".to_vec()));
    assert_eq!(packet, encode(&Value::Dict(top)));
}

#[test]
fn random_ids_have_top_bit_clear() {
    for _ in 0..8 {
        assert_eq!(random_node_id().0[0] & 0x80, 0);
    }
}
