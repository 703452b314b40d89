use bt::metainfo::InfoHash;
use bt::pieces::Bitfield;
use bt::resume::{decode_state, encode_state, state_path};

#[test]
fn state_round_trip_and_hash_check_in_memory() {
    let mut have = Bitfield::new(3);
    have.set(0);
    have.set(2);
    let raw = encode_state(InfoHash([5u8; 20]), &have);
    assert_eq!(decode_state(&raw, InfoHash([5u8; 20]), 3), Some(have));
    assert_eq!(decode_state(&raw, InfoHash([6u8; 20]), 3), None);
    assert_eq!(decode_state(&raw, InfoHash([5u8; 20]), 4), None);
}

#[test]
fn state_layout_is_a_sorted_dictionary() {
    let mut have = Bitfield::new(8);
    have.set(0);
    let raw = encode_state(InfoHash([b'h'; 20]), &have);
    let mut expected = b"d4:hash20:".to_vec();
    expected.extend_from_slice(&[b'h'; 20]);
    expected.extend_from_slice(b"4:have1:\x806:piecesi8ee");
    assert_eq!(raw, expected);
}

#[test]
fn garbage_state_is_ignored() {
    assert_eq!(decode_state(b"not bencode", InfoHash([5u8; 20]), 3), None);
    assert_eq!(decode_state(b"le", InfoHash([5u8; 20]), 3), None);
}

#[test]
fn state_path_is_hidden_under_the_output_dir() {
    assert_eq!(state_path("out", "demo.bin"), "out/.demo.bin.resume");
    assert_eq!(state_path("out/", "x"), "out/.x.resume");
    assert_eq!(state_path("", "x"), ".x.resume");
}
