//! The peer wire protocol: the handshake and the length-prefixed messages.
use vstd::prelude::*;
use crate::metainfo::InfoHash;
use crate::wire::{
    be_bytes, be_value, lemma_be_bytes_len, lemma_be_bytes_of_value, lemma_be_injective, lemma_pow256_values,
    push_all, push_be, read_u16_be, read_u32_be,
};

verus! {

/// The largest message body that `read_message` accepts.
pub const MAX_FRAME: u32 = 1048576;

/// The protocol name that starts every handshake.
pub open spec fn pstr() -> Seq<u8> {
    seq![66u8, 105, 116, 84, 111, 114, 114, 101, 110, 116, 32, 112, 114, 111, 116, 111, 99, 111, 108]
}

/// "BitTorrent protocol", the name in every handshake.
pub fn protocol_name() -> (r: [u8; 19])
    ensures
        r@ == pstr(),
{
    let r: [u8; 19] = [66, 105, 116, 84, 111, 114, 114, 101, 110, 116, 32, 112, 114, 111, 116, 111, 99, 111, 108];
    proof {
        assert(r@ =~= pstr());
    }
    r
}

#[derive(Debug, Clone, Copy, PartialEq, Eq)]
pub struct Handshake {
    pub info_hash: InfoHash,
    pub peer_id: [u8; 20],
    pub extensions: bool,
}

/// The eight reserved bytes: only the extension-protocol bit is used.
pub open spec fn reserved(extensions: bool) -> Seq<u8> {
    seq![0u8, 0, 0, 0, 0, if extensions { 0x10u8 } else { 0u8 }, 0, 0]
}

/// The 68 bytes of a handshake.
pub open spec fn handshake_bytes(h: Handshake) -> Seq<u8> {
    seq![19u8] + pstr() + reserved(h.extensions) + h.info_hash.0@ + h.peer_id@
}

#[derive(Debug, Clone, PartialEq, Eq)]
pub enum Message {
    KeepAlive,
    Choke,
    Unchoke,
    Interested,
    NotInterested,
    Have(u32),
    Bitfield(Vec<u8>),
    Request { index: u32, begin: u32, length: u32 },
    Piece { index: u32, begin: u32, data: Vec<u8> },
    Cancel { index: u32, begin: u32, length: u32 },
    Port(u16),
    Extended { ext: u8, payload: Vec<u8> },
}

/// A message as a mathematical value.
pub enum Msg {
    KeepAlive,
    Choke,
    Unchoke,
    Interested,
    NotInterested,
    Have(u32),
    Bitfield(Seq<u8>),
    Request(u32, u32, u32),
    Piece(u32, u32, Seq<u8>),
    Cancel(u32, u32, u32),
    Port(u16),
    Extended(u8, Seq<u8>),
}

impl View for Message {
    type V = Msg;

    open spec fn view(&self) -> Msg {
        match *self {
            Message::KeepAlive => Msg::KeepAlive,
            Message::Choke => Msg::Choke,
            Message::Unchoke => Msg::Unchoke,
            Message::Interested => Msg::Interested,
            Message::NotInterested => Msg::NotInterested,
            Message::Have(i) => Msg::Have(i),
            Message::Bitfield(b) => Msg::Bitfield(b@),
            Message::Request { index, begin, length } => Msg::Request(index, begin, length),
            Message::Piece { index, begin, data } => Msg::Piece(index, begin, data@),
            Message::Cancel { index, begin, length } => Msg::Cancel(index, begin, length),
            Message::Port(p) => Msg::Port(p),
            Message::Extended { ext, payload } => Msg::Extended(ext, payload@),
        }
    }
}

pub open spec fn be32(x: u32) -> Seq<u8> {
    be_bytes(x as nat, 4)
}

/// The body of a message: its id and payload, without the length prefix.
pub open spec fn body(m: Msg) -> Seq<u8> {
    match m {
        Msg::KeepAlive => Seq::empty(),
        Msg::Choke => seq![0u8],
        Msg::Unchoke => seq![1u8],
        Msg::Interested => seq![2u8],
        Msg::NotInterested => seq![3u8],
        Msg::Have(i) => seq![4u8] + be32(i),
        Msg::Bitfield(b) => seq![5u8] + b,
        Msg::Request(i, b, l) => seq![6u8] + be32(i) + be32(b) + be32(l),
        Msg::Piece(i, b, d) => seq![7u8] + be32(i) + be32(b) + d,
        Msg::Cancel(i, b, l) => seq![8u8] + be32(i) + be32(b) + be32(l),
        Msg::Port(p) => seq![9u8] + be_bytes(p as nat, 2),
        Msg::Extended(e, p) => seq![20u8, e] + p,
    }
}

/// A message as it travels: the body's length in four bytes, then the body.
pub open spec fn frame(m: Msg) -> Seq<u8> {
    be32(body(m).len() as u32) + body(m)
}

/// The ids that `parse_frame` knows.
pub open spec fn known_id(id: u8) -> bool {
    id <= 9 || id == 20
}

#[derive(Debug, Clone, PartialEq, Eq)]
pub enum Error {
    Io(String),
    BadHandshake,
    WrongInfoHash,
    UnknownId(u8),
    BadFrame,
    FrameTooLong(u32),
}

/// The handshake we send.
pub fn encode_handshake(handshake: &Handshake) -> (out: [u8; 68])
    ensures
        out@ == handshake_bytes(*handshake),
{
    let mut out = [0u8; 68];
    out[0] = 19;
    let name = protocol_name();
    let mut i: usize = 0;
    while i < 19
        invariant
            i <= 19,
            name@ == pstr(),
            out@.len() == 68,
            out@[0] == 19,
            forall|k: int| 1 <= k < 1 + i ==> out@[k] == pstr()[k - 1],
            forall|k: int| 20 <= k < 68 ==> out@[k] == 0,
        decreases 19 - i,
    {
        out[1 + i] = name[i];
        i = i + 1;
    }
    if handshake.extensions {
        out[25] = 0x10;
    }
    let mut i: usize = 0;
    while i < 20
        invariant
            i <= 20,
            out@.len() == 68,
            out@[0] == 19,
            forall|k: int| 1 <= k < 20 ==> out@[k] == pstr()[k - 1],
            forall|k: int| 20 <= k < 28 ==> out@[k] == reserved(handshake.extensions)[k - 20],
            forall|k: int| 28 <= k < 28 + i ==> out@[k] == handshake.info_hash.0@[k - 28],
            forall|k: int| 48 <= k < 48 + i ==> out@[k] == handshake.peer_id@[k - 48],
            forall|k: int| 28 + i <= k < 48 ==> out@[k] == 0,
            forall|k: int| 48 + i <= k < 68 ==> out@[k] == 0,
        decreases 20 - i,
    {
        out[28 + i] = handshake.info_hash.0[i];
        out[48 + i] = handshake.peer_id[i];
        i = i + 1;
    }
    proof {
        assert(out@ =~= handshake_bytes(*handshake));
    }
    out
}

/// Reads a peer's handshake: the protocol name must match.
pub fn decode_handshake(raw: &[u8; 68]) -> (r: Result<Handshake, Error>)
    ensures
        match r {
            Ok(h) => raw@[0] == 19 && raw@.subrange(1, 20) == pstr() && h.info_hash.0@
                == raw@.subrange(28, 48) && h.peer_id@ == raw@.subrange(48, 68) && h.extensions == (
            raw@[25] & 0x10 != 0),
            Err(e) => e == Error::BadHandshake && !(raw@[0] == 19 && raw@.subrange(1, 20)
                == pstr()),
        },
        forall|h: Handshake| #[trigger] handshake_bytes(h) == raw@ ==> r == Ok::<Handshake, Error>(h),
{
    let r = read_handshake(raw);
    proof {
        assert forall|h: Handshake| #[trigger] handshake_bytes(h) == raw@ implies r == Ok::<Handshake, Error>(h) by {
            let hb = handshake_bytes(h);
            assert(hb.subrange(1, 20) =~= pstr());
            assert(hb.subrange(28, 48) =~= h.info_hash.0@);
            assert(hb.subrange(48, 68) =~= h.peer_id@);
            assert(hb[25] == if h.extensions { 0x10u8 } else { 0u8 });
            assert((0x10u8 & 0x10u8) != 0u8 && (0u8 & 0x10u8) == 0u8) by (bit_vector);
            if let Ok(x) = r {
                assert(x.info_hash.0@ =~= h.info_hash.0@);
                assert(x.peer_id@ =~= h.peer_id@);
                assert(x.info_hash.0 == h.info_hash.0);
                assert(x.peer_id == h.peer_id);
            }
        }
    }
    r
}

/// Reads the fields of a handshake whose protocol name matches.
fn read_handshake(raw: &[u8; 68]) -> (r: Result<Handshake, Error>)
    ensures
        match r {
            Ok(h) => raw@[0] == 19 && raw@.subrange(1, 20) == pstr() && h.info_hash.0@
                == raw@.subrange(28, 48) && h.peer_id@ == raw@.subrange(48, 68) && h.extensions == (
            raw@[25] & 0x10 != 0),
            Err(e) => e == Error::BadHandshake && !(raw@[0] == 19 && raw@.subrange(1, 20)
                == pstr()),
        },
{
    let name = protocol_name();
    if raw[0] != 19 {
        return Err(Error::BadHandshake);
    }
    let mut i: usize = 0;
    while i < 19
        invariant
            i <= 19,
            name@ == pstr(),
            raw@.len() == 68,
            forall|k: int| 0 <= k < i ==> raw@[1 + k] == pstr()[k],
        decreases 19 - i,
    {
        if raw[1 + i] != name[i] {
            proof {
                assert(raw@.subrange(1, 20)[i as int] != pstr()[i as int]);
            }
            return Err(Error::BadHandshake);
        }
        i = i + 1;
    }
    let mut info_hash = [0u8; 20];
    let mut peer_id = [0u8; 20];
    let mut i: usize = 0;
    while i < 20
        invariant
            i <= 20,
            raw@.len() == 68,
            info_hash@.len() == 20,
            peer_id@.len() == 20,
            forall|k: int| 0 <= k < i ==> info_hash@[k] == raw@[28 + k],
            forall|k: int| 0 <= k < i ==> peer_id@[k] == raw@[48 + k],
        decreases 20 - i,
    {
        info_hash[i] = raw[28 + i];
        peer_id[i] = raw[48 + i];
        i = i + 1;
    }
    proof {
        assert(raw@.subrange(1, 20) =~= pstr());
        assert(info_hash@ =~= raw@.subrange(28, 48));
        assert(peer_id@ =~= raw@.subrange(48, 68));
    }
    Ok(Handshake { info_hash: InfoHash(info_hash), peer_id, extensions: raw[25] & 0x10 != 0 })
}

/// Calls `Write::write_all` of std on `writer`. Trusted: nothing is claimed
/// of what the stream does with the bytes; an I/O failure comes back as
/// `Error::Io`.
#[verifier::external_body]
fn write_all<W: std::io::Write>(writer: &mut W, data: &[u8]) -> (r: Result<(), Error>)
    ensures
        r matches Err(e) ==> e is Io,
{
    writer.write_all(data).map_err(|e| Error::Io(e.to_string()))
}

/// Calls `Read::read_exact` of std to read `n` bytes from `reader`.
/// Trusted: on success exactly `n` bytes came back; what they are depends on
/// the stream.
#[verifier::external_body]
fn read_exact<R: std::io::Read>(reader: &mut R, n: usize) -> (r: Result<Vec<u8>, Error>)
    ensures
        r matches Ok(v) ==> v@.len() == n,
        r matches Err(e) ==> e is Io,
{
    let mut buf = vec![0u8; n];
    match reader.read_exact(&mut buf) {
        Ok(()) => Ok(buf),
        Err(e) => Err(Error::Io(e.to_string())),
    }
}

/// Checks the handshake `raw` that a peer sent against ours: it must carry
/// the protocol name and our info hash.
pub fn check_handshake(raw: &[u8; 68], ours: &Handshake) -> (r: Result<Handshake, Error>)
    ensures
        match r {
            Ok(h) => raw@[0] == 19 && raw@.subrange(1, 20) == pstr() && h.info_hash == ours.info_hash
                && h.info_hash.0@ == raw@.subrange(28, 48) && h.peer_id@ == raw@.subrange(48, 68) && h.extensions == (
            raw@[25] & 0x10 != 0),
            Err(Error::BadHandshake) => !(raw@[0] == 19 && raw@.subrange(1, 20) == pstr()),
            Err(Error::WrongInfoHash) => raw@[0] == 19 && raw@.subrange(1, 20) == pstr() && raw@.subrange(28, 48)
                != ours.info_hash.0@,
            Err(_) => false,
        },
{
    let theirs = decode_handshake(raw)?;
    if !crate::wire::bytes_eq(&theirs.info_hash.0, &ours.info_hash.0) {
        return Err(Error::WrongInfoHash);
    }
    proof {
        assert(theirs.info_hash.0@ =~= ours.info_hash.0@);
        assert(theirs.info_hash.0 == ours.info_hash.0);
    }
    Ok(theirs)
}

/// The length that a frame's four-byte prefix `len_bytes` announces;
/// `FrameTooLong` when it is above `MAX_FRAME`.
pub fn frame_length(len_bytes: &[u8]) -> (r: Result<u32, Error>)
    requires
        len_bytes@.len() == 4,
    ensures
        be_value(len_bytes@) <= u32::MAX,
        r == if be_value(len_bytes@) > MAX_FRAME {
            Err::<u32, Error>(Error::FrameTooLong(be_value(len_bytes@) as u32))
        } else {
            Ok::<u32, Error>(be_value(len_bytes@) as u32)
        },
{
    let len = read_u32_be(len_bytes, 0);
    proof {
        assert(len_bytes@.subrange(0, 4) =~= len_bytes@);
    }
    if len > MAX_FRAME {
        return Err(Error::FrameTooLong(len));
    }
    Ok(len)
}

/// The message of a frame whose length prefix is `len_bytes` and whose body
/// is `body_bytes`: `FrameTooLong` for a length above `MAX_FRAME`, else
/// what the body parses to.
pub fn frame_from(len_bytes: &[u8], body_bytes: &[u8]) -> (r: Result<Message, Error>)
    requires
        len_bytes@.len() == 4,
    ensures
        match r {
            Ok(m) => be_value(len_bytes@) <= MAX_FRAME && body(m@) == body_bytes@,
            Err(Error::FrameTooLong(n)) => be_value(len_bytes@) > MAX_FRAME && n == be_value(len_bytes@),
            Err(Error::UnknownId(id)) => be_value(len_bytes@) <= MAX_FRAME && body_bytes@.len() > 0
                && body_bytes@[0] == id && !known_id(id),
            Err(Error::BadFrame) => be_value(len_bytes@) <= MAX_FRAME && body_bytes@.len() > 0 && known_id(
                body_bytes@[0],
            ) && forall|m: Msg| body(m) != body_bytes@,
            Err(_) => false,
        },
        be_value(len_bytes@) <= MAX_FRAME ==> forall|m: Msg| #[trigger] body(m) == body_bytes@ ==> (r matches Ok(x)
            && x@ == m),
{
    match frame_length(len_bytes) {
        Ok(_) => {
            assert(be_value(len_bytes@) <= MAX_FRAME);
            parse_frame(body_bytes)
        },
        Err(e) => Err(e),
    }
}

/// Sends our handshake, reads theirs, and checks that it names the same
/// torrent.
pub fn exchange_handshake<S: std::io::Read + std::io::Write>(stream: &mut S, ours: &Handshake) -> (r:
    Result<Handshake, Error>)
    ensures
        r matches Ok(h) ==> h.info_hash == ours.info_hash,
        r matches Err(e) ==> e is Io || e == Error::BadHandshake || e == Error::WrongInfoHash,
{
    let raw = encode_handshake(ours);
    write_all(stream, &raw)?;
    let got = read_exact(stream, 68)?;
    let mut theirs_raw = [0u8; 68];
    let mut i: usize = 0;
    while i < 68
        invariant
            i <= 68,
            got@.len() == 68,
            theirs_raw@.len() == 68,
        decreases 68 - i,
    {
        theirs_raw[i] = got[i];
        i = i + 1;
    }
    check_handshake(&theirs_raw, ours)
}

/// The body of `message`, id and payload.
fn encode_body(message: &Message) -> (out: Vec<u8>)
    ensures
        out@ == body(message@),
{
    let mut out: Vec<u8> = Vec::new();
    match message {
        Message::KeepAlive => {},
        Message::Choke => out.push(0),
        Message::Unchoke => out.push(1),
        Message::Interested => out.push(2),
        Message::NotInterested => out.push(3),
        Message::Have(index) => {
            out.push(4);
            push_be(&mut out, *index as u64, 4);
        },
        Message::Bitfield(bits) => {
            out.push(5);
            push_all(&mut out, bits.as_slice());
        },
        Message::Request { index, begin, length } => {
            out.push(6);
            push_be(&mut out, *index as u64, 4);
            push_be(&mut out, *begin as u64, 4);
            push_be(&mut out, *length as u64, 4);
        },
        Message::Piece { index, begin, data } => {
            out.push(7);
            push_be(&mut out, *index as u64, 4);
            push_be(&mut out, *begin as u64, 4);
            push_all(&mut out, data.as_slice());
        },
        Message::Cancel { index, begin, length } => {
            out.push(8);
            push_be(&mut out, *index as u64, 4);
            push_be(&mut out, *begin as u64, 4);
            push_be(&mut out, *length as u64, 4);
        },
        Message::Port(port) => {
            out.push(9);
            push_be(&mut out, *port as u64, 2);
        },
        Message::Extended { ext, payload } => {
            out.push(20);
            out.push(*ext);
            push_all(&mut out, payload.as_slice());
        },
    }
    proof {
        assert(out@ =~= body(message@));
    }
    out
}

/// A message framed for the wire: the body's length, then the body.
pub fn encode_message(message: &Message) -> (out: Vec<u8>)
    requires
        body(message@).len() <= u32::MAX,
    ensures
        out@ == frame(message@),
{
    let b = encode_body(message);
    let mut out: Vec<u8> = Vec::new();
    push_be(&mut out, b.len() as u64, 4);
    push_all(&mut out, b.as_slice());
    proof {
        assert(out@ =~= frame(message@));
    }
    out
}

/// The message whose body is `body`, or why there is none: an id this
/// protocol does not know, or a payload of the wrong length.
pub fn parse_frame(body_bytes: &[u8]) -> (r: Result<Message, Error>)
    ensures
        match r {
            Ok(m) => body(m@) == body_bytes@,
            Err(Error::UnknownId(id)) => body_bytes@.len() > 0 && body_bytes@[0] == id && !known_id(id),
            Err(Error::BadFrame) => body_bytes@.len() > 0 && known_id(body_bytes@[0]) && forall|m: Msg|
                body(m) != body_bytes@,
            Err(_) => false,
        },
        forall|m: Msg| #[trigger] body(m) == body_bytes@ ==> (r matches Ok(x) && x@ == m),
{
    let r = parse_body(body_bytes);
    proof {
        lemma_body_shape();
        assert forall|m: Msg| #[trigger] body(m) == body_bytes@ implies (r matches Ok(x) && x@ == m) by {
            if let Ok(x) = r {
                law_body_injective(x@, m);
            } else if body_bytes@.len() == 0 {
            }
        }
    }
    r
}

/// Reads the body of one message.
fn parse_body(body_bytes: &[u8]) -> (r: Result<Message, Error>)
    ensures
        match r {
            Ok(m) => body(m@) == body_bytes@,
            Err(Error::UnknownId(id)) => body_bytes@.len() > 0 && body_bytes@[0] == id && !known_id(id),
            Err(Error::BadFrame) => body_bytes@.len() > 0 && known_id(body_bytes@[0]) && forall|m: Msg|
                body(m) != body_bytes@,
            Err(_) => false,
        },
{
    let ghost s = body_bytes@;
    if body_bytes.len() == 0 {
        proof {
            assert(body(Msg::KeepAlive) =~= s);
        }
        return Ok(Message::KeepAlive);
    }
    let id = body_bytes[0];
    let n = body_bytes.len();
    proof {
        lemma_body_shape();
    }
    if id <= 3 {
        if n != 1 {
            return Err(Error::BadFrame);
        }
        let m = if id == 0 {
            Message::Choke
        } else if id == 1 {
            Message::Unchoke
        } else if id == 2 {
            Message::Interested
        } else {
            Message::NotInterested
        };
        proof {
            assert(body(m@) =~= s);
        }
        Ok(m)
    } else if id == 4 {
        if n != 5 {
            return Err(Error::BadFrame);
        }
        let index = read_u32_be(body_bytes, 1);
        proof {
            lemma_be_bytes_of_value(s.subrange(1, 5));
            assert(body(Msg::Have(index)) =~= s);
        }
        Ok(Message::Have(index))
    } else if id == 5 {
        let bits = crate::wire::copy_range(body_bytes, 1, n);
        proof {
            assert(body(Msg::Bitfield(bits@)) =~= s);
        }
        Ok(Message::Bitfield(bits))
    } else if id == 6 || id == 8 {
        if n != 13 {
            return Err(Error::BadFrame);
        }
        let index = read_u32_be(body_bytes, 1);
        let begin = read_u32_be(body_bytes, 5);
        let length = read_u32_be(body_bytes, 9);
        proof {
            lemma_be_bytes_of_value(s.subrange(1, 5));
            lemma_be_bytes_of_value(s.subrange(5, 9));
            lemma_be_bytes_of_value(s.subrange(9, 13));
        }
        if id == 6 {
            proof {
                assert(body(Msg::Request(index, begin, length)) =~= s);
            }
            Ok(Message::Request { index, begin, length })
        } else {
            proof {
                assert(body(Msg::Cancel(index, begin, length)) =~= s);
            }
            Ok(Message::Cancel { index, begin, length })
        }
    } else if id == 7 {
        if n < 9 {
            return Err(Error::BadFrame);
        }
        let index = read_u32_be(body_bytes, 1);
        let begin = read_u32_be(body_bytes, 5);
        let data = crate::wire::copy_range(body_bytes, 9, n);
        proof {
            lemma_be_bytes_of_value(s.subrange(1, 5));
            lemma_be_bytes_of_value(s.subrange(5, 9));
            assert(body(Msg::Piece(index, begin, data@)) =~= s);
        }
        Ok(Message::Piece { index, begin, data })
    } else if id == 9 {
        if n != 3 {
            return Err(Error::BadFrame);
        }
        let port = read_u16_be(body_bytes, 1);
        proof {
            lemma_be_bytes_of_value(s.subrange(1, 3));
            assert(body(Msg::Port(port)) =~= s);
        }
        Ok(Message::Port(port))
    } else if id == 20 {
        if n < 2 {
            return Err(Error::BadFrame);
        }
        let ext = body_bytes[1];
        let payload = crate::wire::copy_range(body_bytes, 2, n);
        proof {
            assert(body(Msg::Extended(ext, payload@)) =~= s);
        }
        Ok(Message::Extended { ext, payload })
    } else {
        Err(Error::UnknownId(id))
    }
}

/// The first byte of a body names its kind, and the kind fixes the length
/// of the payload, or a least length.
proof fn lemma_body_shape()
    ensures
        forall|m: Msg| #[trigger] body(m).len() > 0 ==> known_id(body(m)[0]),
        forall|m: Msg|
            #[trigger] body(m).len() > 0 ==> match body(m)[0] {
                0u8 | 1u8 | 2u8 | 3u8 => body(m).len() == 1,
                4u8 => body(m).len() == 5,
                6u8 | 8u8 => body(m).len() == 13,
                7u8 => body(m).len() >= 9,
                9u8 => body(m).len() == 3,
                20u8 => body(m).len() >= 2,
                _ => true,
            },
{
    assert forall|m: Msg| #[trigger] body(m).len() > 0 implies known_id(body(m)[0]) && match body(m)[0] {
        0u8 | 1u8 | 2u8 | 3u8 => body(m).len() == 1,
        4u8 => body(m).len() == 5,
        6u8 | 8u8 => body(m).len() == 13,
        7u8 => body(m).len() >= 9,
        9u8 => body(m).len() == 3,
        20u8 => body(m).len() >= 2,
        _ => true,
    } by {
        lemma_be_bytes_len(0, 4);
        match m {
            Msg::Have(i) => {
                lemma_be_bytes_len(i as nat, 4);
            },
            Msg::Request(i, b, l) => {
                lemma_be_bytes_len(i as nat, 4);
                lemma_be_bytes_len(b as nat, 4);
                lemma_be_bytes_len(l as nat, 4);
            },
            Msg::Piece(i, b, d) => {
                lemma_be_bytes_len(i as nat, 4);
                lemma_be_bytes_len(b as nat, 4);
            },
            Msg::Cancel(i, b, l) => {
                lemma_be_bytes_len(i as nat, 4);
                lemma_be_bytes_len(b as nat, 4);
                lemma_be_bytes_len(l as nat, 4);
            },
            Msg::Port(p) => {
                lemma_be_bytes_len(p as nat, 2);
            },
            _ => {},
        }
    }
}

/// Reads one framed message. A length above `MAX_FRAME` is refused before
/// the body is read.
pub fn read_message<R: std::io::Read>(reader: &mut R) -> (r: Result<Message, Error>)
    ensures
        r matches Ok(m) ==> body(m@).len() <= MAX_FRAME,
        r matches Err(Error::FrameTooLong(n)) ==> n > MAX_FRAME,
        r matches Err(e) ==> e is Io || e is FrameTooLong || e is UnknownId || e == Error::BadFrame,
{
    let len_bytes = read_exact(reader, 4)?;
    let len = match frame_length(len_bytes.as_slice()) {
        Ok(n) => n,
        Err(e) => {
            return Err(e);
        },
    };
    let body_bytes = read_exact(reader, len as usize)?;
    frame_from(len_bytes.as_slice(), body_bytes.as_slice())
}

/// Writes one framed message.
pub fn write_message<W: std::io::Write>(writer: &mut W, message: &Message) -> (r: Result<(), Error>)
    requires
        body(message@).len() <= u32::MAX,
    ensures
        r matches Err(e) ==> e is Io,
{
    write_all(writer, encode_message(message).as_slice())
}

/// Each message's body starts with its id from the peer wire protocol:
/// choke 0, unchoke 1, interested 2, not interested 3, have 4, bitfield 5,
/// request 6, piece 7, cancel 8, port 9 and extended 20; a keep-alive has
/// no body at all. The numbers that follow the id are big-endian: the piece
/// index of `have`, index, begin and length of `request` and `cancel`,
/// index and begin of `piece`, the port of `port`. On the wire a choke is
/// the five bytes `0 0 0 1 0` and an unchoke `0 0 0 1 1`.
pub proof fn law_message_ids(m: Msg)
    ensures
        m is KeepAlive <==> body(m).len() == 0,
        m is Choke ==> body(m) == seq![0u8],
        m is Unchoke ==> body(m) == seq![1u8],
        m is Interested ==> body(m) == seq![2u8],
        m is NotInterested ==> body(m) == seq![3u8],
        m matches Msg::Have(i) ==> body(m).len() == 5 && body(m)[0] == 4 && be_value(body(m).subrange(1, 5)) == i,
        m matches Msg::Bitfield(b) ==> body(m).len() == b.len() + 1 && body(m)[0] == 5 && body(m).subrange(
            1,
            body(m).len() as int,
        ) == b,
        m matches Msg::Request(i, b, l) ==> body(m).len() == 13 && body(m)[0] == 6 && be_value(
            body(m).subrange(1, 5),
        ) == i && be_value(body(m).subrange(5, 9)) == b && be_value(body(m).subrange(9, 13)) == l,
        m matches Msg::Piece(i, b, d) ==> body(m).len() == d.len() + 9 && body(m)[0] == 7 && be_value(
            body(m).subrange(1, 5),
        ) == i && be_value(body(m).subrange(5, 9)) == b && body(m).subrange(9, body(m).len() as int) == d,
        m matches Msg::Cancel(i, b, l) ==> body(m).len() == 13 && body(m)[0] == 8 && be_value(
            body(m).subrange(1, 5),
        ) == i && be_value(body(m).subrange(5, 9)) == b && be_value(body(m).subrange(9, 13)) == l,
        m matches Msg::Port(p) ==> body(m).len() == 3 && body(m)[0] == 9 && be_value(body(m).subrange(1, 3)) == p,
        m matches Msg::Extended(e, p) ==> body(m).len() == p.len() + 2 && body(m)[0] == 20 && body(m)[1] == e
            && body(m).subrange(2, body(m).len() as int) == p,
        frame(Msg::Choke) == seq![0u8, 0, 0, 1, 0],
        frame(Msg::Unchoke) == seq![0u8, 0, 0, 1, 1],
{
    lemma_pow256_values();
    reveal_with_fuel(be_bytes, 5);
    assert(be32(1) =~= seq![0u8, 0, 0, 1]);
    assert(frame(Msg::Choke) =~= seq![0u8, 0, 0, 1, 0]);
    assert(frame(Msg::Unchoke) =~= seq![0u8, 0, 0, 1, 1]);
    let s = body(m);
    match m {
        Msg::Have(i) => {
            lemma_be_bytes_len(i as nat, 4);
            crate::wire::lemma_be_round_trip(i as nat, 4);
            assert(s.subrange(1, 5) =~= be32(i));
        },
        Msg::Bitfield(b) => {
            assert(s.subrange(1, s.len() as int) =~= b);
        },
        Msg::Request(i, b, l) | Msg::Cancel(i, b, l) => {
            lemma_be_bytes_len(i as nat, 4);
            lemma_be_bytes_len(b as nat, 4);
            lemma_be_bytes_len(l as nat, 4);
            crate::wire::lemma_be_round_trip(i as nat, 4);
            crate::wire::lemma_be_round_trip(b as nat, 4);
            crate::wire::lemma_be_round_trip(l as nat, 4);
            assert(s.subrange(1, 5) =~= be32(i));
            assert(s.subrange(5, 9) =~= be32(b));
            assert(s.subrange(9, 13) =~= be32(l));
        },
        Msg::Piece(i, b, d) => {
            lemma_be_bytes_len(i as nat, 4);
            lemma_be_bytes_len(b as nat, 4);
            crate::wire::lemma_be_round_trip(i as nat, 4);
            crate::wire::lemma_be_round_trip(b as nat, 4);
            assert(s.subrange(1, 5) =~= be32(i));
            assert(s.subrange(5, 9) =~= be32(b));
            assert(s.subrange(9, s.len() as int) =~= d);
        },
        Msg::Port(p) => {
            lemma_be_bytes_len(p as nat, 2);
            crate::wire::lemma_be_round_trip(p as nat, 2);
            assert(s.subrange(1, 3) =~= be_bytes(p as nat, 2));
        },
        Msg::Extended(e, p) => {
            assert(s.subrange(2, s.len() as int) =~= p);
        },
        _ => {},
    }
}

/// Different messages have different bodies, so a body names at most one
/// message: what `parse_frame` returns for the body of `a` is `a`.
pub proof fn law_body_injective(a: Msg, b: Msg)
    requires
        body(a) == body(b),
    ensures
        a == b,
{
    lemma_body_shape();
    lemma_pow256_values();
    let s = body(a);
    lemma_be_bytes_len(0, 4);
    match a {
        Msg::Have(i) => {
            match b {
                Msg::Have(j) => {
                    lemma_be_bytes_len(i as nat, 4);
                    assert(s.subrange(1, 5) == be32(i));
                    assert(body(b).subrange(1, 5) == be32(j));
                    lemma_be_injective(i as nat, j as nat, 4);
                },
                _ => {},
            }
        },
        Msg::Bitfield(x) => {
            match b {
                Msg::Bitfield(y) => {
                    assert(x == s.subrange(1, s.len() as int));
                    assert(y == body(b).subrange(1, s.len() as int));
                },
                _ => {},
            }
        },
        Msg::Request(i, o, l) => {
            match b {
                Msg::Request(i2, o2, l2) => {
                    lemma_be_bytes_len(i as nat, 4);
                    lemma_be_bytes_len(o as nat, 4);
                    lemma_be_bytes_len(l as nat, 4);
                    lemma_be_bytes_len(i2 as nat, 4);
                    lemma_be_bytes_len(o2 as nat, 4);
                    lemma_be_bytes_len(l2 as nat, 4);
                    assert(s.subrange(1, 5) == be32(i) && body(b).subrange(1, 5) == be32(i2));
                    assert(s.subrange(5, 9) == be32(o) && body(b).subrange(5, 9) == be32(o2));
                    assert(s.subrange(9, 13) == be32(l) && body(b).subrange(9, 13) == be32(l2));
                    lemma_be_injective(i as nat, i2 as nat, 4);
                    lemma_be_injective(o as nat, o2 as nat, 4);
                    lemma_be_injective(l as nat, l2 as nat, 4);
                },
                _ => {},
            }
        },
        Msg::Piece(i, o, d) => {
            match b {
                Msg::Piece(i2, o2, d2) => {
                    lemma_be_bytes_len(i as nat, 4);
                    lemma_be_bytes_len(o as nat, 4);
                    lemma_be_bytes_len(i2 as nat, 4);
                    lemma_be_bytes_len(o2 as nat, 4);
                    assert(s.subrange(1, 5) == be32(i) && body(b).subrange(1, 5) == be32(i2));
                    assert(s.subrange(5, 9) == be32(o) && body(b).subrange(5, 9) == be32(o2));
                    lemma_be_injective(i as nat, i2 as nat, 4);
                    lemma_be_injective(o as nat, o2 as nat, 4);
                    assert(d == s.subrange(9, s.len() as int));
                    assert(d2 == body(b).subrange(9, s.len() as int));
                },
                _ => {},
            }
        },
        Msg::Cancel(i, o, l) => {
            match b {
                Msg::Cancel(i2, o2, l2) => {
                    lemma_be_bytes_len(i as nat, 4);
                    lemma_be_bytes_len(o as nat, 4);
                    lemma_be_bytes_len(l as nat, 4);
                    lemma_be_bytes_len(i2 as nat, 4);
                    lemma_be_bytes_len(o2 as nat, 4);
                    lemma_be_bytes_len(l2 as nat, 4);
                    assert(s.subrange(1, 5) == be32(i) && body(b).subrange(1, 5) == be32(i2));
                    assert(s.subrange(5, 9) == be32(o) && body(b).subrange(5, 9) == be32(o2));
                    assert(s.subrange(9, 13) == be32(l) && body(b).subrange(9, 13) == be32(l2));
                    lemma_be_injective(i as nat, i2 as nat, 4);
                    lemma_be_injective(o as nat, o2 as nat, 4);
                    lemma_be_injective(l as nat, l2 as nat, 4);
                },
                _ => {},
            }
        },
        Msg::Port(p) => {
            match b {
                Msg::Port(p2) => {
                    lemma_be_bytes_len(p as nat, 2);
                    assert(s.subrange(1, 3) == be_bytes(p as nat, 2));
                    assert(body(b).subrange(1, 3) == be_bytes(p2 as nat, 2));
                    lemma_be_injective(p as nat, p2 as nat, 2);
                },
                _ => {},
            }
        },
        Msg::Extended(e, x) => {
            match b {
                Msg::Extended(e2, y) => {
                    assert(s[1] == e && body(b)[1] == e2);
                    assert(x == s.subrange(2, s.len() as int));
                    assert(y == body(b).subrange(2, s.len() as int));
                },
                _ => {},
            }
        },
        _ => {},
    }
    if s.len() > 0 {
        assert(body(b)[0] == s[0]);
    }
}

/// Whether the body of `m` fits the four-byte length of a frame.
pub fn fits_frame(m: &Message) -> (r: bool)
    ensures
        r == (body(m@).len() <= u32::MAX),
{
    proof {
        crate::wire::lemma_be_bytes_len(0, 4);
        assert forall|x: u32| #[trigger] be32(x).len() == 4 by {
            crate::wire::lemma_be_bytes_len(x as nat, 4);
        }
        assert forall|p: u16| #[trigger] be_bytes(p as nat, 2).len() == 2 by {
            crate::wire::lemma_be_bytes_len(p as nat, 2);
        }
    }
    match m {
        Message::Bitfield(b) => b.len() as u64 <= 0xFFFF_FFFE,
        Message::Piece { data, .. } => data.len() as u64 <= 0xFFFF_FFF6,
        Message::Extended { payload, .. } => payload.len() as u64 <= 0xFFFF_FFFD,
        _ => true,
    }
}

} // verus!
