//! Fetching a torrent's info dictionary from a peer through the metadata
//! extension, piece by piece, and checking it against the info hash.
use vstd::prelude::*;
use crate::extensions::{
    build_ext_handshake, build_metadata_request, parse_ext_handshake, parse_metadata_message,
    MetaMsg, MetadataMessage, EXT_HANDSHAKE_ID, METADATA_PIECE_SIZE,
};
use crate::metainfo::InfoHash;
use crate::peer::{body, fits_frame, read_message, write_message, Handshake, Message};
use crate::verify::{piece_digest, sha1_digest};

verus! {

/// The id under which we take metadata messages.
pub const LOCAL_UT_METADATA_ID: u8 = 1;

/// How long a fetch from one peer may take, in milliseconds.
pub const FETCH_DEADLINE_MS: u64 = 60_000;

/// The largest info dictionary we accept.
pub const MAX_METADATA_SIZE: u64 = 8388608;

/// How many messages one fetch reads at most: as many as a `u64` counts,
/// so that in practice the deadline ends a fetch.
pub const MAX_MESSAGES: u64 = 18446744073709551615;

#[derive(Debug, Clone, PartialEq, Eq)]
pub enum FetchError {
    /// The connection failed.
    Wire(crate::peer::Error),
    /// The peer's extension handshake did not parse.
    Handshake(crate::extensions::Error),
    /// No extension handshake in time.
    NoHandshake,
    /// The peer does not offer metadata, or offers too much.
    NoMetadata,
    /// A metadata piece reached past the announced size.
    Overflow,
    /// The peer refused a piece.
    Rejected,
    /// The pieces did not all come in time.
    TimedOut,
    /// The metadata does not hash to the info hash.
    HashMismatch,
    /// The peer's handshake does not offer the extension protocol.
    NoExtensions,
}

/// The number of metadata pieces of a dictionary of `size` bytes.
pub open spec fn piece_total(size: nat) -> nat {
    ((size + 16383) / 16384) as nat
}

/// What the fetch does after a message.
#[derive(Debug)]
pub enum FetchStep {
    /// Nothing to do; read on.
    Wait,
    /// Send this message, then read on.
    Send(Message),
    /// The metadata, whole and checked.
    Done(Vec<u8>),
    /// The fetch failed.
    Fail(FetchError),
}

/// `r` sends the peer, under its id `ext`, a request for piece `piece`.
pub open spec fn sends_request(r: FetchStep, ext: u8, piece: u64) -> bool {
    r matches FetchStep::Send(Message::Extended { ext: e, payload }) && e == ext && payload@
        == crate::bencode_spec::enc(crate::extensions::metadata_dict(0, piece, None))
}

/// What the fetch does with the peer's extension handshake `payload`: a
/// handshake that does not parse, or offers no metadata or too much, ends
/// it; else it keeps room for the announced size and asks for piece 0.
pub open spec fn after_handshake(before: MetadataFetch, payload: Seq<u8>, after: MetadataFetch, r: FetchStep) -> bool {
    match crate::extensions::handshake_view(payload) {
        None => r matches FetchStep::Fail(FetchError::Handshake(_)) && after == before,
        Some(h) => match (h.ut_metadata, h.metadata_size) {
            (Some(id), Some(size)) => if size > MAX_METADATA_SIZE {
                r == FetchStep::Fail(FetchError::NoMetadata) && after == before
            } else {
                &&& after.started()
                &&& after.asked() == 0
                &&& after.announced() == size
                &&& after.peer_ext() == id
                &&& after.collected() == Seq::new(size as nat, |i: int| 0u8)
                &&& sends_request(r, id, 0)
            },
            _ => r == FetchStep::Fail(FetchError::NoMetadata) && after == before,
        },
    }
}

/// What the fetch does with a metadata message `payload` once started: a
/// refusal ends it; the piece asked for lands at its offset, unless it
/// reaches past the announced size; after the last piece the whole is
/// checked against the info hash, else the next piece is asked for. Other
/// messages are passed over.
pub open spec fn after_piece(before: MetadataFetch, payload: Seq<u8>, after: MetadataFetch, r: FetchStep) -> bool {
    match crate::extensions::metadata_view(payload) {
        Some(MetaMsg::Reject(_)) => r == FetchStep::Fail(FetchError::Rejected) && after == before,
        Some(MetaMsg::Data(piece, _, data)) => if piece != before.asked() {
            r is Wait && after == before
        } else {
            let start = piece * METADATA_PIECE_SIZE;
            if start > before.announced() || data.len() > before.announced() - start {
                r == FetchStep::Fail(FetchError::Overflow) && after == before
            } else {
                let whole = before.collected().subrange(0, start as int) + data + before.collected().subrange(
                    start + data.len(),
                    before.collected().len() as int,
                );
                if piece + 1 == piece_total(before.announced() as nat) {
                    &&& !after.started()
                    &&& if sha1_digest(whole) == before.target().0@ {
                        r matches FetchStep::Done(m) && m@ == whole
                    } else {
                        r == FetchStep::Fail(FetchError::HashMismatch)
                    }
                } else {
                    &&& after.started()
                    &&& after.asked() == piece + 1
                    &&& after.announced() == before.announced()
                    &&& after.peer_ext() == before.peer_ext()
                    &&& after.collected() == whole
                    &&& sends_request(r, before.peer_ext(), (piece + 1) as u64)
                }
            }
        },
        _ => r is Wait && after == before,
    }
}

/// A fetch under way: first the peer's extension handshake, then the
/// pieces in order.
pub struct MetadataFetch {
    info_hash: InfoHash,
    handshaken: bool,
    their_id: u8,
    size: u64,
    piece: u64,
    count: u64,
    buf: Vec<u8>,
}

impl MetadataFetch {
    /// The info hash the metadata must match.
    pub closed spec fn target(&self) -> InfoHash {
        self.info_hash
    }

    /// Whether the peer's extension handshake arrived.
    pub closed spec fn started(&self) -> bool {
        self.handshaken
    }

    /// The piece asked for last.
    pub closed spec fn asked(&self) -> u64 {
        self.piece
    }

    /// The size the peer announced.
    pub closed spec fn announced(&self) -> u64 {
        self.size
    }

    /// The id under which the peer takes metadata messages.
    pub closed spec fn peer_ext(&self) -> u8 {
        self.their_id
    }

    /// The metadata as far as it has come, zeros where pieces are missing.
    pub closed spec fn collected(&self) -> Seq<u8> {
        self.buf@
    }

    pub closed spec fn wf(&self) -> bool {
        &&& self.handshaken ==> {
            &&& self.size <= MAX_METADATA_SIZE
            &&& self.buf@.len() == self.size
            &&& self.count == piece_total(self.size as nat)
            &&& self.piece < self.count
        }
    }

    /// A fetch of the metadata of `info_hash`, and the message that opens
    /// it: our extension handshake.
    pub fn new(info_hash: InfoHash) -> (r: (MetadataFetch, Message))
        ensures
            r.0.wf(),
            r.0.target() == info_hash,
            !r.0.started(),
            r.1 == (Message::Extended { ext: EXT_HANDSHAKE_ID, payload: r.1->Extended_payload }),
            r.1->Extended_payload@ == crate::bencode_spec::enc(crate::extensions::ext_handshake_value(None)),
    {
        let payload = build_ext_handshake(None);
        (
            MetadataFetch { info_hash, handshaken: false, their_id: 0, size: 0, piece: 0, count: 0, buf: Vec::new() },
            Message::Extended { ext: EXT_HANDSHAKE_ID, payload },
        )
    }

    /// The last piece arrived: the metadata if it hashes to the info hash.
    fn finish(&mut self) -> (r: FetchStep)
        ensures
            final(self).info_hash == old(self).info_hash,
            final(self).handshaken == old(self).handshaken,
            match r {
                FetchStep::Done(m) => sha1_digest(m@) == old(self).info_hash.0@ && m@ == old(self).buf@,
                FetchStep::Fail(e) => e == FetchError::HashMismatch && sha1_digest(old(self).buf@) != old(self).info_hash.0@,
                _ => false,
            },
    {
        let digest = piece_digest(self.buf.as_slice());
        if crate::wire::bytes_eq(&digest, &self.info_hash.0) {
            let mut out: Vec<u8> = Vec::new();
            std::mem::swap(&mut out, &mut self.buf);
            FetchStep::Done(out)
        } else {
            FetchStep::Fail(FetchError::HashMismatch)
        }
    }

    /// Takes a message from the peer.
    pub fn on_message(&mut self, message: Message) -> (r: FetchStep)
        requires
            old(self).wf(),
        ensures
            final(self).wf(),
            final(self).target() == old(self).target(),
            match r {
                FetchStep::Done(m) => sha1_digest(m@) == old(self).target().0@ && m@.len() <= MAX_METADATA_SIZE,
                FetchStep::Send(msg) => final(self).started() && msg is Extended
                    && msg->Extended_payload@ == crate::bencode_spec::enc(
                    crate::extensions::metadata_dict(0, final(self).asked(), None),
                ),
                _ => true,
            },
            !old(self).started() ==> if message is Extended && message->Extended_ext == EXT_HANDSHAKE_ID {
                after_handshake(*old(self), message->Extended_payload@, *final(self), r)
            } else {
                r is Wait && *final(self) == *old(self)
            },
            old(self).started() ==> if message is Extended && message->Extended_ext != EXT_HANDSHAKE_ID {
                after_piece(*old(self), message->Extended_payload@, *final(self), r)
            } else {
                r is Wait && *final(self) == *old(self)
            },
    {
        if !self.handshaken {
            match message {
                Message::Extended { ext, payload } => {
                    if ext != EXT_HANDSHAKE_ID {
                        return FetchStep::Wait;
                    }
                    let hs = match parse_ext_handshake(payload.as_slice()) {
                        Ok(h) => h,
                        Err(e) => {
                            return FetchStep::Fail(FetchError::Handshake(e));
                        },
                    };
                    match (hs.ut_metadata, hs.metadata_size) {
                        (Some(id), Some(size)) => {
                            if size > MAX_METADATA_SIZE {
                                return FetchStep::Fail(FetchError::NoMetadata);
                            }
                            let count = size / METADATA_PIECE_SIZE + if size % METADATA_PIECE_SIZE == 0 {
                                0
                            } else {
                                1
                            };
                            self.their_id = id;
                            self.size = size;
                            self.count = count;
                            self.piece = 0;
                            self.buf = vec![0u8; size as usize];
                            proof {
                                assert(self.buf@ =~= Seq::new(size as nat, |i: int| 0u8));
                            }
                            if count == 0 {
                                return self.finish();
                            }
                            self.handshaken = true;
                            self.request()
                        },
                        _ => FetchStep::Fail(FetchError::NoMetadata),
                    }
                },
                _ => FetchStep::Wait,
            }
        } else {
            match message {
                Message::Extended { ext, payload } => {
                    if ext == EXT_HANDSHAKE_ID {
                        return FetchStep::Wait;
                    }
                    match parse_metadata_message(payload.as_slice()) {
                        Ok(MetadataMessage::Data { piece, data, .. }) => {
                            if piece != self.piece {
                                return FetchStep::Wait;
                            }
                            let start = (piece * METADATA_PIECE_SIZE) as usize;
                            if start > self.buf.len() || data.len() > self.buf.len() - start {
                                return FetchStep::Fail(FetchError::Overflow);
                            }
                            crate::wire::copy_into(&mut self.buf, start, data.as_slice());
                            self.piece = self.piece + 1;
                            if self.piece == self.count {
                                self.handshaken = false;
                                return self.finish();
                            }
                            self.request()
                        },
                        Ok(MetadataMessage::Reject { .. }) => FetchStep::Fail(FetchError::Rejected),
                        _ => FetchStep::Wait,
                    }
                },
                _ => FetchStep::Wait,
            }
        }
    }

    /// The error when the deadline passes: the pieces did not all come if
    /// the peer's extension handshake did, else the handshake did not.
    pub fn on_deadline(&self) -> (e: FetchError)
        ensures
            e == if self.started() {
                FetchError::TimedOut
            } else {
                FetchError::NoHandshake
            },
    {
        if self.handshaken {
            FetchError::TimedOut
        } else {
            FetchError::NoHandshake
        }
    }

    /// The request for the next piece.
    fn request(&self) -> (r: FetchStep)
        requires
            self.wf(),
            self.handshaken,
        ensures
            r is Send,
            r->Send_0 is Extended,
            r->Send_0->Extended_payload@ == crate::bencode_spec::enc(crate::extensions::metadata_dict(0, self.piece, None)),
            sends_request(r, self.their_id, self.piece),
    {
        FetchStep::Send(Message::Extended { ext: self.their_id, payload: build_metadata_request(self.piece) })
    }
}

#[verifier::external_type_specification]
#[verifier::external_body]
pub struct ExInstant(std::time::Instant);

/// Calls `Instant::now` of std. Trusted: nothing is claimed of the moment
/// it reads.
#[verifier::external_body]
fn clock_start() -> std::time::Instant {
    std::time::Instant::now()
}

/// The milliseconds since `start`, by `Instant::elapsed` of std. Trusted:
/// nothing is claimed of the value, which depends on the clock.
#[verifier::external_body]
fn millis_since(start: &std::time::Instant) -> u64 {
    start.elapsed().as_millis() as u64
}

/// Sends `message` on `stream`, if it fits a frame; a message too long for
/// a frame is refused before anything is written.
fn send<S: std::io::Read + std::io::Write>(stream: &mut S, message: &Message) -> (r: Result<(), FetchError>)
    ensures
        body(message@).len() > u32::MAX ==> r == Err::<(), FetchError>(FetchError::Wire(crate::peer::Error::BadFrame)),
        body(message@).len() <= u32::MAX ==> (r matches Err(e) ==> e matches FetchError::Wire(
            crate::peer::Error::Io(_),
        )),
{
    if !fits_frame(message) {
        return Err(FetchError::Wire(crate::peer::Error::BadFrame));
    }
    match write_message(stream, message) {
        Ok(()) => Ok(()),
        Err(e) => Err(FetchError::Wire(e)),
    }
}

/// Whether a peer whose handshake is `theirs` can hand over metadata: it
/// must offer the extension protocol.
pub fn check_extensions(theirs: &Handshake) -> (r: Result<(), FetchError>)
    ensures
        r == if theirs.extensions {
            Ok::<(), FetchError>(())
        } else {
            Err::<(), FetchError>(FetchError::NoExtensions)
        },
{
    if theirs.extensions {
        Ok(())
    } else {
        Err(FetchError::NoExtensions)
    }
}

/// Fetches metadata from a peer on a fresh connection `stream`: exchanges
/// the handshakes, with `ours` naming the torrent, refuses a peer without
/// the extension protocol, then fetches as `fetch_from_stream` does. What
/// comes back always hashes to our info hash.
pub fn fetch_from_connection<S: std::io::Read + std::io::Write>(stream: &mut S, ours: &Handshake) -> (r: Result<
    Vec<u8>,
    FetchError,
>)
    ensures
        r matches Ok(m) ==> sha1_digest(m@) == ours.info_hash.0@ && m@.len() <= MAX_METADATA_SIZE,
{
    let theirs = match crate::peer::exchange_handshake(stream, ours) {
        Ok(h) => h,
        Err(e) => {
            return Err(FetchError::Wire(e));
        },
    };
    match check_extensions(&theirs) {
        Ok(()) => {},
        Err(e) => {
            return Err(e);
        },
    }
    fetch_from_stream(stream, ours.info_hash)
}

/// Fetches the metadata of `info_hash` from a peer on `stream`, after the
/// handshakes: asks for the peer's extension handshake, then for each
/// piece in turn, within `FETCH_DEADLINE_MS`. What comes back always
/// hashes to the info hash.
pub fn fetch_from_stream<S: std::io::Read + std::io::Write>(stream: &mut S, info_hash: InfoHash) -> (r: Result<Vec<u8>, FetchError>)
    ensures
        r matches Ok(m) ==> sha1_digest(m@) == info_hash.0@ && m@.len() <= MAX_METADATA_SIZE,
{
    let (mut fetch, first) = MetadataFetch::new(info_hash);
    send(stream, &first)?;
    let start = clock_start();
    let mut count: u64 = 0;
    while count < MAX_MESSAGES
        invariant
            fetch.wf(),
            fetch.target() == info_hash,
        decreases MAX_MESSAGES - count,
    {
        if millis_since(&start) > FETCH_DEADLINE_MS {
            return Err(fetch.on_deadline());
        }
        let message = match read_message(stream) {
            Ok(m) => m,
            Err(e) => {
                return Err(FetchError::Wire(e));
            },
        };
        match fetch.on_message(message) {
            FetchStep::Wait => {},
            FetchStep::Send(msg) => {
                send(stream, &msg)?;
            },
            FetchStep::Done(m) => {
                return Ok(m);
            },
            FetchStep::Fail(e) => {
                return Err(e);
            },
        }
        count = count + 1;
    }
    Err(FetchError::TimedOut)
}

} // verus!
