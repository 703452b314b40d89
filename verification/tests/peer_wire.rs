use bt::peer::{check_handshake, frame_from, frame_length};
use bt::metainfo::InfoHash;
use bt::peer::{
    decode_handshake, encode_handshake, encode_message, exchange_handshake, parse_frame,
    read_message, write_message, Error, Handshake, Message, MAX_FRAME,
};
use std::io::Cursor;

fn ours() -> Handshake {
    Handshake {
        info_hash: InfoHash([7u8; 20]),
        peer_id: *b"-BG0001-abcdefghijkl",
        extensions: true,
    }
}

#[test]
fn handshake_round_trip() {
    let raw = encode_handshake(&ours());
    assert_eq!(raw[0], 19);
    assert_eq!(&raw[1..20], b"BitTorrent protocol");
    assert_eq!(decode_handshake(&raw).unwrap(), ours());
}

#[test]
fn handshake_without_extensions() {
    let mut hs = ours();
    hs.extensions = false;
    let raw = encode_handshake(&hs);
    assert_eq!(raw[25] & 0x10, 0);
    assert!(!decode_handshake(&raw).unwrap().extensions);
}

#[test]
fn bad_pstr_rejected() {
    let mut raw = encode_handshake(&ours());
    raw[3] = b'X';
    assert_eq!(decode_handshake(&raw), Err(Error::BadHandshake));
}

#[test]
fn exchange_rejects_wrong_hash() {
    let mut theirs = ours();
    theirs.info_hash = InfoHash([9u8; 20]);
    let their_raw = encode_handshake(&theirs);
    let mut stream = FakeStream {
        read: their_raw.to_vec(),
        written: Vec::new(),
        pos: 0,
    };
    assert_eq!(exchange_handshake(&mut stream, &ours()), Err(Error::WrongInfoHash));
    assert_eq!(stream.written, encode_handshake(&ours()).to_vec());
}

#[test]
fn exchange_accepts_matching_hash() {
    let mut theirs = ours();
    theirs.peer_id = *b"-XX0001-000000000000";
    let mut stream = FakeStream {
        read: encode_handshake(&theirs).to_vec(),
        written: Vec::new(),
        pos: 0,
    };
    assert_eq!(exchange_handshake(&mut stream, &ours()).unwrap(), theirs);
}

struct FakeStream {
    read: Vec<u8>,
    written: Vec<u8>,
    pos: usize,
}

impl std::io::Read for FakeStream {
    fn read(&mut self, buf: &mut [u8]) -> std::io::Result<usize> {
        let n = std::cmp::min(buf.len(), self.read.len() - self.pos);
        buf[..n].copy_from_slice(&self.read[self.pos..self.pos + n]);
        self.pos += n;
        Ok(n)
    }
}

impl std::io::Write for FakeStream {
    fn write(&mut self, buf: &[u8]) -> std::io::Result<usize> {
        self.written.extend_from_slice(buf);
        Ok(buf.len())
    }
    fn flush(&mut self) -> std::io::Result<()> {
        Ok(())
    }
}

#[test]
fn every_message_round_trips() {
    let messages = vec![
        Message::KeepAlive,
        Message::Choke,
        Message::Unchoke,
        Message::Interested,
        Message::NotInterested,
        Message::Have(7),
        Message::Bitfield(vec![0xf0, 0x01]),
        Message::Request { index: 1, begin: 16384, length: 16384 },
        Message::Piece { index: 2, begin: 0, data: vec![1, 2, 3] },
        Message::Cancel { index: 3, begin: 4, length: 5 },
        Message::Port(6881),
        Message::Extended { ext: 0, payload: b"de".to_vec() },
    ];
    let mut stream = Vec::new();
    for m in &messages {
        write_message(&mut stream, m).unwrap();
    }
    let mut cursor = Cursor::new(stream);
    for m in &messages {
        assert_eq!(&read_message(&mut cursor).unwrap(), m);
    }
}

#[test]
fn have_frame_layout_is_exact() {
    assert_eq!(encode_message(&Message::Have(0x01020304)), vec![0, 0, 0, 5, 4, 1, 2, 3, 4]);
    assert_eq!(encode_message(&Message::KeepAlive), vec![0, 0, 0, 0]);
    assert_eq!(parse_frame(&[]), Ok(Message::KeepAlive));
}

#[test]
fn bad_frames_are_refused() {
    assert_eq!(parse_frame(&[42]), Err(Error::UnknownId(42)));
    assert_eq!(parse_frame(&[4, 0, 0]), Err(Error::BadFrame));
    assert_eq!(parse_frame(&[0, 1]), Err(Error::BadFrame));
    let too_long = (MAX_FRAME + 1).to_be_bytes().to_vec();
    let mut cursor = Cursor::new(too_long);
    assert_eq!(read_message(&mut cursor), Err(Error::FrameTooLong(MAX_FRAME + 1)));
    let mut short = Cursor::new(vec![0u8, 0]);
    assert!(matches!(read_message(&mut short), Err(Error::Io(_))));
}

#[test]
fn frames_are_checked_from_their_bytes() {
    let too_long = (2u32 << 20).to_be_bytes();
    assert_eq!(frame_length(&too_long), Err(Error::FrameTooLong(2 << 20)));
    assert_eq!(frame_from(&too_long, &[]), Err(Error::FrameTooLong(2 << 20)));
    let len = 5u32.to_be_bytes();
    assert_eq!(frame_length(&len), Ok(5));
    assert_eq!(frame_from(&len, &[4, 0, 0, 0, 7]), Ok(bt::peer::Message::Have(7)));
    assert_eq!(frame_from(&len, &[4, 0, 0]), Err(Error::BadFrame));
    assert_eq!(frame_from(&len, &[99]), Err(Error::UnknownId(99)));
}

#[test]
fn a_handshake_for_another_torrent_is_refused() {
    let ours = Handshake { info_hash: InfoHash([7u8; 20]), peer_id: *b"-BG0001-abcdefghijkl", extensions: true };
    let theirs = Handshake { info_hash: InfoHash([9u8; 20]), ..ours };
    assert_eq!(check_handshake(&encode_handshake(&theirs), &ours), Err(Error::WrongInfoHash));
    assert_eq!(check_handshake(&encode_handshake(&ours), &ours), Ok(ours));
    let mut bad = encode_handshake(&ours);
    bad[0] = 18;
    assert_eq!(check_handshake(&bad, &ours), Err(Error::BadHandshake));
}
