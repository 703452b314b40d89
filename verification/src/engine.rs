//! The download engine's decisions: which peers to reach, which pieces to
//! fetch from whom, what to send each peer, and when a piece is done. The
//! program around it does the network and disk work and reports back; each
//! step here takes what happened and says what to do next.
use vstd::prelude::*;
use crate::choke::{select_unchoked, OptimisticRotor, PeerRate};
use crate::metainfo::{InfoHash, Metainfo};
use crate::peer::Message;
use crate::peer_state::{after_message, initial_state, PeerState};
use crate::picker::{counts_positive, PiecePicker};
use crate::pieces::{Availability, Bitfield};
use crate::requests::{piece_blocks, BlockRequest, RequestPipeline};
use crate::storage::piece_size_of;
use crate::tracker::{AnnounceRequest, Event as TrackerEvent};
use crate::tracker_set::AnnounceTimer;
use crate::verify::{sha1_digest, verify_piece};

verus! {

/// How many block requests may wait on one peer.
pub const PIPELINE_DEPTH: usize = 32;

/// How long a block request may wait, in milliseconds.
pub const BLOCK_TIMEOUT_MS: u64 = 30_000;

/// How many announces in a row may leave us without peers.
pub const MAX_EMPTY_ROUNDS: usize = 5;

/// How many times a piece may fail its hash check from one peer.
pub const MAX_VERIFY_FAILURES: u32 = 2;

/// How many peers may fetch one piece at once in endgame.
pub const ENDGAME_DUP: u32 = 2;

/// Upload slots for the best downloaders.
pub const REGULAR_UNCHOKE_SLOTS: usize = 3;

/// How often the upload slots are reconsidered, in milliseconds.
pub const CHOKE_INTERVAL_MS: u64 = 10_000;

/// How often the optimistic slot moves, in milliseconds.
pub const OPTIMISTIC_INTERVAL_MS: u64 = 30_000;

/// How long a peer with a piece to send may send nothing, in milliseconds.
pub const SNUB_TIMEOUT_MS: u64 = 90_000;

/// The largest block we serve.
pub const MAX_SERVED_BLOCK: u32 = 131072;

#[derive(Debug, Clone)]
pub struct EngineConfig {
    pub output_dir: String,
    pub peer_id: [u8; 20],
    pub port: u16,
    pub max_peers: usize,
    /// Peers to try before any tracker answers.
    pub bootstrap_peers: Vec<Endpoint>,
}

/// How many times the final check may find bad pieces and send the
/// download round again before it gives up.
pub const MAX_RECHECKS: u32 = 2;

/// A download needs a tracker: `NoTrackers` when `meta` names none.
pub fn check_trackers(meta: &Metainfo) -> (r: Result<(), Error>)
    ensures
        r == if meta.trackers@.len() == 0 {
            Err::<(), Error>(Error::NoTrackers)
        } else {
            Ok::<(), Error>(())
        },
{
    if meta.trackers.len() == 0 {
        Err(Error::NoTrackers)
    } else {
        Ok(())
    }
}

/// What follows a final check that found `bad` pieces, after `rechecks`
/// earlier rounds of rechecking: the download is done when nothing is
/// bad; it gives up as `Incomplete` when this would be one round too
/// many; otherwise (`None`) it runs again.
pub fn after_final_check(bad: u32, rechecks: u32) -> (r: Option<Result<(), Error>>)
    ensures
        r == if bad == 0 {
            Some(Ok::<(), Error>(()))
        } else if rechecks + 1 > MAX_RECHECKS {
            Some(Err::<(), Error>(Error::Incomplete))
        } else {
            None
        },
{
    if bad == 0 {
        Some(Ok(()))
    } else if rechecks >= MAX_RECHECKS {
        Some(Err(Error::Incomplete))
    } else {
        None
    }
}

/// A peer's network address: the address as a big-endian number, and the
/// port.
#[derive(Debug, Clone, Copy, PartialEq, Eq, Hash, Structural)]
pub enum Endpoint {
    V4(u32, u16),
    V6(u128, u16),
}

#[derive(Debug, Clone, PartialEq, Eq)]
pub enum Event {
    Announced { peers: usize },
    Connected { addr: Endpoint },
    Peers { count: usize },
    PieceDone { index: u32, have: u32, total: u32 },
    Rechecking { bad: u32 },
    Complete,
    /// A tracker at `url` did not answer an announce.
    AnnounceFailed { url: String, reason: String },
    /// The peer at `addr` could not be reached.
    PeerFailed { addr: Endpoint, reason: String },
    /// A saved state was taken up: `have` of `total` pieces checked good,
    /// `bytes` bytes in all.
    Resumed { have: u32, total: u32, bytes: u64 },
}

#[derive(Debug, Clone, PartialEq, Eq)]
pub enum Error {
    NoTrackers,
    NoPeers,
    Io(String),
    Incomplete,
}

/// What the engine asks the program around it to do.
#[derive(Debug, Clone, PartialEq, Eq)]
pub enum Action {
    /// Send `message` to peer `peer`.
    Send { peer: u64, message: Message },
    /// Close the connection to `peer`.
    Close { peer: u64 },
    /// Write verified piece `index` to disk.
    Store { index: u32, data: Vec<u8> },
    /// Read `length` bytes at `begin` of piece `index` and send them to
    /// `peer`.
    Serve { peer: u64, index: u32, begin: u32, length: u32 },
}

/// How an announce round ends for the caller.
#[derive(Debug, Clone, Copy, PartialEq, Eq, Structural)]
pub enum Round {
    /// Go on with the peers we have.
    Proceed,
    /// No peers: wait a moment and announce again.
    Retry,
    /// No peers after too many rounds: give up.
    GiveUp,
}

/// A piece being fetched from one peer.
struct PieceJob {
    index: u32,
    data: Vec<u8>,
    received: u64,
    pending: Vec<(u32, u32)>,
    failures: u32,
}

impl PieceJob {
    spec fn bytes(&self) -> Seq<u8> {
        self.data@
    }

    spec fn got(&self) -> u64 {
        self.received
    }

    /// The blocks still to request, as (offset, length).
    spec fn todo(&self) -> Seq<(u32, u32)> {
        self.pending@
    }

    spec fn failed(&self) -> u32 {
        self.failures
    }

    /// Starts fetching piece `index` of `size` bytes: every block to do.
    fn start(index: u32, size: u64) -> (r: PieceJob)
        requires
            size <= u32::MAX,
        ensures
            r.index == index,
            r.bytes().len() == size,
            r.got() == 0,
            r.todo().len() == crate::requests::block_count(size as nat),
            forall|k: int| 0 <= k < r.todo().len() ==> #[trigger] r.todo()[k] == crate::requests::block_at(size as nat, k as nat),
            r.failed() == 0,
    {
        PieceJob { index, data: vec![0u8; size as usize], received: 0, pending: piece_blocks(size), failures: 0 }
    }

    /// Starts over after a failed hash check, counting the failure.
    fn restart(&mut self)
        requires
            old(self).failed() < u32::MAX,
            old(self).bytes().len() <= u32::MAX,
        ensures
            final(self).index == old(self).index,
            final(self).bytes() == old(self).bytes(),
            final(self).got() == 0,
            final(self).todo().len() == crate::requests::block_count(old(self).bytes().len()),
            forall|k: int| 0 <= k < final(self).todo().len() ==> #[trigger] final(self).todo()[k] == crate::requests::block_at(old(self).bytes().len(), k as nat),
            final(self).failed() == old(self).failed() + 1,
    {
        self.received = 0;
        self.pending = piece_blocks(self.data.len() as u64);
        self.failures = self.failures + 1;
    }

    /// Whether every byte arrived.
    fn done(&self) -> (r: bool)
        ensures
            r == (self.got() == self.bytes().len()),
    {
        self.received == self.data.len() as u64
    }
}

/// One connected peer.
pub struct Peer {
    id: u64,
    state: PeerState,
    theirs: Bitfield,
    theirs_known: bool,
    job: Option<PieceJob>,
    pipeline: RequestPipeline,
    downloaded_from: u64,
    last_useful: u64,
}

impl Peer {
    /// The id of the connection.
    pub closed spec fn ident(&self) -> u64 {
        self.id
    }

    /// The choke and interest flags.
    pub closed spec fn flags(&self) -> PeerState {
        self.state
    }

    /// The pieces the peer has said it has.
    pub closed spec fn has_pieces(&self) -> Seq<bool> {
        self.theirs@
    }

    /// Whether the peer has said which pieces it has.
    pub closed spec fn told(&self) -> bool {
        self.theirs_known
    }

    /// The piece being fetched from the peer, if any.
    pub closed spec fn fetching(&self) -> Option<u32> {
        match self.job {
            Some(j) => Some(j.index),
            None => None,
        }
    }

    /// Bytes of pieces received from the peer.
    pub closed spec fn received_from(&self) -> u64 {
        self.downloaded_from
    }

    /// When the peer last sent a block.
    pub closed spec fn heard_at(&self) -> u64 {
        self.last_useful
    }

    /// The blocks asked of the peer that have not arrived, oldest first.
    pub closed spec fn asked(&self) -> Seq<BlockRequest> {
        self.pipeline.requests().map_values(|e: (BlockRequest, u64)| e.0)
    }

    /// The bytes of the piece being fetched, as far as they came; none when
    /// no piece is being fetched.
    pub closed spec fn piece_bytes(&self) -> Seq<u8> {
        match self.job {
            Some(j) => j.data@,
            None => Seq::empty(),
        }
    }

    /// How many bytes of the piece being fetched arrived.
    pub closed spec fn got(&self) -> u64 {
        match self.job {
            Some(j) => j.received,
            None => 0,
        }
    }

    /// How often the piece being fetched failed its hash check.
    pub closed spec fn failures(&self) -> u32 {
        match self.job {
            Some(j) => j.failures,
            None => 0,
        }
    }

    /// The blocks of the piece being fetched that are still to ask for, as
    /// (offset, length); none when no piece is being fetched.
    pub closed spec fn to_ask(&self) -> Seq<(u32, u32)> {
        match self.job {
            Some(j) => j.pending@,
            None => Seq::empty(),
        }
    }

    /// What a peer keeps true, in a torrent of `n` pieces of
    /// `piece_length` bytes and `total` bytes in all.
    pub closed spec fn wf(&self, n: nat, piece_length: nat, total: nat) -> bool {
        &&& self.theirs@.len() == n
        &&& self.pipeline.wf()
        &&& self.pipeline.limit() == PIPELINE_DEPTH
        &&& self.pipeline.wait() == BLOCK_TIMEOUT_MS
        &&& match self.job {
            Some(j) => {
                &&& j.index < n
                &&& j.data@.len() == piece_size_of(piece_length, total, j.index as nat)
            },
            None => true,
        }
    }
}

/// The download's state.
pub struct Engine {
    hashes: Vec<[u8; 20]>,
    info_hash: InfoHash,
    peer_id: [u8; 20],
    port: u16,
    piece_length: u64,
    total_length: u64,
    max_peers: usize,
    ours: Bitfield,
    availability: Availability,
    picker: PiecePicker,
    peers: Vec<Peer>,
    queue: Vec<Endpoint>,
    known: Vec<Endpoint>,
    connecting: usize,
    downloaded: u64,
    uploaded: u64,
    timer: AnnounceTimer,
    rotor: OptimisticRotor,
    last_choke: Option<u64>,
    empty_rounds: usize,
    next_id: u64,
}

fn contains_endpoint(v: &Vec<Endpoint>, a: Endpoint) -> (r: bool)
    ensures
        r == v@.contains(a),
{
    let mut i: usize = 0;
    while i < v.len()
        invariant
            i <= v@.len(),
            forall|j: int| 0 <= j < i ==> v@[j] != a,
        decreases v.len() - i,
    {
        if v[i] == a {
            proof {
                assert(v@[i as int] == a);
            }
            return true;
        }
        i = i + 1;
    }
    false
}

/// The ids of `peers`, in order.
pub open spec fn ids_of(peers: Seq<Peer>) -> Seq<u64> {
    peers.map_values(|p: Peer| p.ident())
}

/// Peer `p` has a piece to send us and has sent nothing for longer than
/// `SNUB_TIMEOUT_MS` by `now`.
pub open spec fn snubbed(p: Peer, now: u64) -> bool {
    p.fetching() is Some && quiet_too_long(p, now)
}

/// Peer `p` has sent no block for longer than `SNUB_TIMEOUT_MS` by `now`;
/// a clock that went back counts as no time passed.
pub open spec fn quiet_too_long(p: Peer, now: u64) -> bool {
    (if now >= p.heard_at() {
        now - p.heard_at()
    } else {
        0
    }) > SNUB_TIMEOUT_MS
}

/// The message that sets our choke of a peer to `choking`.
pub open spec fn choke_message(choking: bool) -> Message {
    if choking {
        Message::Choke
    } else {
        Message::Unchoke
    }
}

/// `acts` asks to send `m` to peer `x`.
pub open spec fn sends(acts: Seq<Action>, x: u64, m: Message) -> bool {
    acts.contains(Action::Send { peer: x, message: m })
}

/// What one housekeeping turn makes of peer `p` as `q`, at `now`, when the
/// download is `complete` or not: what it has, told, sent and when stay;
/// a piece being fetched stays; a peer that has not said what it has gets
/// none; we become interested when there is a piece to fetch and the peer
/// is not dropped; the other flags stay.
pub open spec fn tended(p: Peer, q: Peer, now: u64, complete: bool) -> bool {
    &&& q.ident() == p.ident()
    &&& q.has_pieces() == p.has_pieces()
    &&& q.told() == p.told()
    &&& q.received_from() == p.received_from()
    &&& q.heard_at() == p.heard_at()
    &&& p.fetching() is Some ==> q.fetching() == p.fetching()
    &&& p.fetching() is None && !p.told() ==> q.fetching() is None
    &&& q.flags() == (PeerState {
        am_interested: p.flags().am_interested || (q.fetching() is Some && !(snubbed(q, now) && !complete)),
        ..p.flags()
    })
}

/// Peer `q` is `p` with only our choke of it possibly changed.
pub open spec fn rechoked(p: Peer, q: Peer) -> bool {
    &&& q.ident() == p.ident()
    &&& q.has_pieces() == p.has_pieces()
    &&& q.told() == p.told()
    &&& q.received_from() == p.received_from()
    &&& q.heard_at() == p.heard_at()
    &&& q.fetching() == p.fetching()
    &&& q.asked() == p.asked()
    &&& q.to_ask() == p.to_ask()
    &&& q.flags() == (PeerState { am_choking: q.flags().am_choking, ..p.flags() })
}

/// `a` changes our choke of a peer whose choke did change from `before`
/// to `after`, to what it is in `after`.
pub open spec fn choke_sent(a: Action, before: Seq<Peer>, after: Seq<Peer>) -> bool {
    a matches Action::Send { peer, message } && ids_of(before).contains(peer) && forall|j: int|
        0 <= j < before.len() && #[trigger] before[j].ident() == peer ==> j < after.len()
            && after[j].flags().am_choking != before[j].flags().am_choking && message == choke_message(
            after[j].flags().am_choking,
        )
}

/// One turn of reconsidering chokes, at `k`, keeps what the turns so far
/// say of the chokes sent.
proof fn lemma_rechoke_step(
    start: Seq<Peer>,
    before: Seq<Peer>,
    after: Seq<Peer>,
    acts0: Seq<Action>,
    acts: Seq<Action>,
    k: int,
    base: int,
)
    requires
        0 <= k < start.len(),
        ids_of(start).no_duplicates(),
        before.len() == start.len(),
        after == before.update(k, after[k]),
        after.len() == start.len(),
        forall|j: int| 0 <= j < start.len() ==> rechoked(start[j], #[trigger] before[j]),
        rechoked(before[k], after[k]),
        before[k] == start[k],
        0 <= base <= acts0.len(),
        forall|i: int| base <= i < acts0.len() ==> choke_sent(#[trigger] acts0[i], start, before),
        forall|j: int|
            0 <= j < start.len() && #[trigger] before[j].flags().am_choking != start[j].flags().am_choking ==> sends(
                acts0,
                start[j].ident(),
                choke_message(before[j].flags().am_choking),
            ),
        forall|j: int| 0 <= j < start.len() && j != k ==> before[j].flags().am_choking == start[j].flags().am_choking
            || j < k,
        forall|j: int| k <= j < start.len() ==> #[trigger] before[j] == start[j],
        acts == if after[k].flags().am_choking != start[k].flags().am_choking {
            acts0.push(Action::Send { peer: start[k].ident(), message: choke_message(after[k].flags().am_choking) })
        } else {
            acts0
        },
    ensures
        forall|j: int| 0 <= j < start.len() ==> rechoked(start[j], #[trigger] after[j]),
        acts.subrange(0, base) == acts0.subrange(0, base),
        forall|i: int| base <= i < acts.len() ==> choke_sent(#[trigger] acts[i], start, after),
        forall|j: int|
            0 <= j < start.len() && #[trigger] after[j].flags().am_choking != start[j].flags().am_choking ==> sends(
                acts,
                start[j].ident(),
                choke_message(after[j].flags().am_choking),
            ),
{
    assert(acts.subrange(0, base) =~= acts0.subrange(0, base));
    assert forall|j: int| 0 <= j < start.len() implies rechoked(start[j], #[trigger] after[j]) by {
        if j == k {
            assert(after[k] == after[j]);
        } else {
            assert(after[j] == before[j]);
        }
    }
    assert forall|i: int| base <= i < acts.len() implies choke_sent(#[trigger] acts[i], start, after) by {
        if i < acts0.len() {
            assert(acts[i] == acts0[i]);
            let a = acts0[i];
            assert(choke_sent(a, start, before));
            if let Action::Send { peer, message } = a {
                assert forall|j: int| 0 <= j < start.len() && #[trigger] start[j].ident() == peer implies j < after.len()
                    && after[j].flags().am_choking != start[j].flags().am_choking && message == choke_message(
                    after[j].flags().am_choking,
                ) by {
                    assert(before[j].flags().am_choking != start[j].flags().am_choking);
                    if j == k {
                        assert(before[k] == start[k]);
                    }
                    assert(after[j] == before[j]);
                }
            }
        } else {
            assert(acts[i] == Action::Send { peer: start[k].ident(), message: choke_message(after[k].flags().am_choking) });
            assert(ids_of(start)[k] == start[k].ident());
            assert forall|j: int| 0 <= j < start.len() && #[trigger] start[j].ident() == start[k].ident() implies j
                < after.len() && after[j].flags().am_choking != start[j].flags().am_choking && acts[i]->Send_message
                == choke_message(after[j].flags().am_choking) by {
                lemma_one_with_id(start, j, k, start[k].ident());
            }
        }
    }
    assert forall|j: int|
        0 <= j < start.len() && #[trigger] after[j].flags().am_choking != start[j].flags().am_choking implies sends(
            acts,
            start[j].ident(),
            choke_message(after[j].flags().am_choking),
        ) by {
        if j == k {
            assert(acts[acts.len() - 1] == Action::Send { peer: start[k].ident(), message: choke_message(after[k].flags().am_choking) });
        } else {
            assert(after[j] == before[j]);
            let w = choose|w: int| 0 <= w < acts0.len() && acts0[w] == Action::Send {
                peer: start[j].ident(),
                message: choke_message(before[j].flags().am_choking),
            };
            assert(acts[w] == acts0[w]);
        }
    }
}

/// What a remaining peer `q` is, after housekeeping, of peer `p` before it,
/// with `acts` the actions asked for: it keeps what it has, told and sent;
/// a piece being fetched stays, and a peer that has not said what it has
/// gets none; we are interested exactly when we were or there is a piece
/// to fetch, and tell it when that is new; its own flags stay; our choke of
/// it changes exactly when `acts` tells it so; and a peer we fetch from
/// that does not choke us has a full pipeline of requests or nothing left
/// to ask for.
pub open spec fn kept(p: Peer, q: Peer, acts: Seq<Action>) -> bool {
    &&& q.has_pieces() == p.has_pieces()
    &&& q.told() == p.told()
    &&& q.received_from() == p.received_from()
    &&& q.heard_at() == p.heard_at()
    &&& p.fetching() is Some ==> q.fetching() == p.fetching()
    &&& p.fetching() is None && !p.told() ==> q.fetching() is None
    &&& q.flags().am_interested == (p.flags().am_interested || q.fetching() is Some)
    &&& q.flags().peer_choking == p.flags().peer_choking
    &&& q.flags().peer_interested == p.flags().peer_interested
    &&& !p.flags().am_interested && q.flags().am_interested ==> sends(acts, p.ident(), Message::Interested)
    &&& q.flags().am_choking != p.flags().am_choking ==> sends(acts, p.ident(), choke_message(q.flags().am_choking))
    &&& q.flags().am_choking == p.flags().am_choking ==> !sends(acts, p.ident(), Message::Choke) && !sends(
        acts,
        p.ident(),
        Message::Unchoke,
    )
    &&& q.fetching() is Some && !q.flags().peer_choking ==> q.asked().len() >= PIPELINE_DEPTH || q.to_ask().len()
        == 0
}

/// A peer `p` that fetched nothing and has said what it has is, as `q`,
/// given what the piece picker chooses among the pieces we lack (`have`),
/// by how many peers have each (`avail`), with the pieces then being
/// fetched by others.
pub open spec fn picked(p: Peer, q: Peer, have: Seq<bool>, avail: Seq<u32>) -> bool {
    p.fetching() is None && p.told() ==> exists|m: Map<u32, u32>|
        #[trigger] crate::picker::pick_choice(have, p.has_pieces(), avail, m, ENDGAME_DUP, q.fetching())
}

/// Some `Store` among `actions` is of piece `index`, with the bytes `bytes`.
pub open spec fn stores_bytes(actions: Seq<Action>, index: u32, bytes: Seq<u8>) -> bool {
    exists|j: int|
        0 <= j < actions.len() && (#[trigger] actions[j] matches Action::Store { index: i, data } && i == index
            && data@ == bytes)
}

/// Every block of a piece of `len` bytes, in order, as (offset, length).
pub open spec fn all_blocks(len: nat) -> Seq<(u32, u32)> {
    Seq::new(crate::requests::block_count(len), |k: int| crate::requests::block_at(len, k as nat))
}

/// The block (`index`, `begin`, `len`) was asked of peer `p`, for the piece
/// it fetches.
pub open spec fn block_asked(p: Peer, index: u32, begin: u32, len: u32) -> bool {
    p.fetching() == Some(index) && exists|i: int|
        0 <= i < p.asked().len() && crate::requests::request_matches(#[trigger] p.asked()[i], index, begin, len)
}

/// The block `data` of piece `index` at `begin` from peer `p` lands in the
/// piece: it was asked for and lies inside the piece.
pub open spec fn block_lands(p: Peer, index: u32, begin: u32, data: Seq<u8>) -> bool {
    block_asked(p, index, begin, data.len() as u32) && begin + data.len() <= p.piece_bytes().len()
}

/// The bytes of the piece fetched from `p` once the block `data` of piece
/// `index` at `begin` arrives: written at its offset when it lands.
pub open spec fn bytes_after(p: Peer, index: u32, begin: u32, data: Seq<u8>) -> Seq<u8> {
    if block_lands(p, index, begin, data) {
        p.piece_bytes().subrange(0, begin as int) + data + p.piece_bytes().subrange(
            begin + data.len(),
            p.piece_bytes().len() as int,
        )
    } else {
        p.piece_bytes()
    }
}

/// How many bytes of the piece fetched from `p` arrived once that block
/// arrives, counting at most `u64::MAX`.
pub open spec fn got_after(p: Peer, index: u32, begin: u32, data: Seq<u8>) -> int {
    if block_lands(p, index, begin, data) {
        if p.got() + data.len() > u64::MAX {
            u64::MAX as int
        } else {
            p.got() + data.len()
        }
    } else {
        p.got() as int
    }
}

/// With that block the piece fetched from `p`, piece `index`, is whole.
pub open spec fn piece_whole(p: Peer, index: u32, begin: u32, data: Seq<u8>) -> bool {
    p.fetching() == Some(index) && got_after(p, index, begin, data) == bytes_after(p, index, begin, data).len()
}

/// What the block `data` of piece `index` at `begin` from peer `id`, at
/// `k` in `e0` as `p`, makes of the engine `e0` as `e1`, with the actions
/// `acts0` and events `ev0` before it as `acts1` and `ev1`. A block of a
/// piece the peer is not fetching changes nothing but the peer's count of
/// bytes and time heard from. A block asked for leaves the asked blocks
/// (the first that matches), and lands at its offset when it lies inside
/// the piece. A piece that is then whole is checked: if it hashes right it
/// is stored, becomes ours, counts as downloaded, every peer hears `Have`
/// and `PieceDone` follows; else the peer starts the piece over with every
/// block to ask for again, or is closed after too many failures.
pub open spec fn piece_outcome(
    e0: Engine,
    e1: Engine,
    p: Peer,
    k: int,
    id: u64,
    index: u32,
    begin: u32,
    data: Seq<u8>,
    acts0: Seq<Action>,
    acts1: Seq<Action>,
    ev0: Seq<Event>,
    ev1: Seq<Event>,
) -> bool {
    &&& p.fetching() == Some(index) && !piece_whole(p, index, begin, data) ==> {
        let q = e1.peer_list()[k];
        &&& e1.peer_list().len() == e0.peer_list().len()
        &&& forall|j: int|
            0 <= j < e0.peer_list().len() && j != k ==> #[trigger] e1.peer_list()[j] == e0.peer_list()[j]
        &&& q.ident() == id
        &&& q.has_pieces() == p.has_pieces()
        &&& q.told() == p.told()
        &&& q.fetching() == p.fetching()
        &&& q.to_ask() == p.to_ask()
        &&& q.failures() == p.failures()
        &&& q.piece_bytes() == bytes_after(p, index, begin, data)
        &&& q.got() == got_after(p, index, begin, data)
        &&& block_asked(p, index, begin, data.len() as u32) ==> exists|w: int|
            0 <= w < p.asked().len() && crate::requests::request_matches(
                #[trigger] p.asked()[w],
                index,
                begin,
                data.len() as u32,
            ) && (forall|v: int|
                0 <= v < w ==> !crate::requests::request_matches(p.asked()[v], index, begin, data.len() as u32))
                && q.asked() == p.asked().remove(w)
        &&& !block_asked(p, index, begin, data.len() as u32) ==> q.asked() == p.asked()
        &&& e1.have() == e0.have()
        &&& e1.avail() == e0.avail()
        &&& acts1 == acts0
        &&& ev1 == ev0
    }
    &&& piece_whole(p, index, begin, data) ==> {
        let bytes = bytes_after(p, index, begin, data);
        &&& sha1_digest(bytes) == e0.hash_of(index as int) ==> {
            &&& e1.have() == e0.have().update(index as int, true)
            &&& e1.down() == (if e0.down() + bytes.len() > u64::MAX {
                u64::MAX as int
            } else {
                e0.down() + bytes.len()
            })
            &&& stores_bytes(acts1, index, bytes)
            &&& forall|j: int|
                0 <= j < e0.peer_list().len() ==> sends(acts1, #[trigger] e0.peer_list()[j].ident(), Message::Have(index))
            &&& ev1 == ev0.push(
                Event::PieceDone {
                    index,
                    have: crate::pieces::count_true(e1.have()) as u32,
                    total: e0.piece_count() as u32,
                },
            )
        }
        &&& sha1_digest(bytes) != e0.hash_of(index as int) ==> {
            &&& e1.have() == e0.have()
            &&& e1.down() == e0.down()
            &&& ev1 == ev0
            &&& p.failures() + 1 >= MAX_VERIFY_FAILURES ==> !ids_of(e1.peer_list()).contains(id) && acts1.contains(
                Action::Close { peer: id },
            )
            &&& p.failures() + 1 < MAX_VERIFY_FAILURES ==> forall|j: int|
                0 <= j < e1.peer_list().len() && #[trigger] e1.peer_list()[j].ident() == id ==> {
                    &&& e1.peer_list()[j].fetching() == Some(index)
                    &&& e1.peer_list()[j].piece_bytes() == bytes
                    &&& e1.peer_list()[j].got() == 0
                    &&& e1.peer_list()[j].failures() == p.failures() + 1
                    &&& e1.peer_list()[j].to_ask() == all_blocks(bytes.len())
                }
        }
    }
    &&& p.fetching() != Some(index) ==> {
        &&& e1.peer_list().len() == e0.peer_list().len()
        &&& forall|j: int|
            0 <= j < e0.peer_list().len() && j != k ==> #[trigger] e1.peer_list()[j] == e0.peer_list()[j]
        &&& e1.peer_list()[k].ident() == id
        &&& e1.peer_list()[k].has_pieces() == p.has_pieces()
        &&& e1.peer_list()[k].told() == p.told()
        &&& e1.peer_list()[k].fetching() == p.fetching()
        &&& e1.peer_list()[k].asked() == p.asked()
        &&& e1.peer_list()[k].to_ask() == p.to_ask()
        &&& e1.have() == e0.have()
        &&& e1.avail() == e0.avail()
        &&& acts1 == acts0
        &&& ev1 == ev0
    }
}

/// A peer `q` that we fetch a piece from and that does not choke us, and
/// that is not dropped as silent, has as many blocks asked of it as the
/// pipeline holds, or none left to ask for.
pub open spec fn filled(q: Peer, now: u64, complete: bool) -> bool {
    q.fetching() is Some && !q.flags().peer_choking && !(snubbed(q, now) && !complete) ==> q.asked().len()
        >= PIPELINE_DEPTH || q.to_ask().len() == 0
}

/// `a` sends `Interested` or a block request.
pub open spec fn tending_kind(a: Action) -> bool {
    a matches Action::Send { message, .. } && (message is Interested || message is Request)
}

/// One peer's turn in housekeeping keeps what the turns so far say.
proof fn lemma_tend_step(
    old_peers: Seq<Peer>,
    before: Seq<Peer>,
    after: Seq<Peer>,
    dead0: Seq<u64>,
    dead1: Seq<u64>,
    acts0: Seq<Action>,
    acts1: Seq<Action>,
    k: int,
    now: u64,
    complete: bool,
)
    requires
        0 <= k < before.len(),
        before.len() == old_peers.len(),
        after.len() == before.len(),
        ids_of(before).no_duplicates(),
        ids_of(after) == ids_of(before),
        forall|j: int| 0 <= j < k ==> tended(old_peers[j], #[trigger] before[j], now, complete),
        forall|j: int| k <= j < before.len() ==> #[trigger] before[j] == old_peers[j],
        forall|j: int| 0 <= j < before.len() && j != k ==> #[trigger] after[j] == before[j],
        tended(before[k], after[k], now, complete),
        forall|j: int|
            0 <= j < k ==> (dead0.contains(#[trigger] before[j].ident()) <==> (snubbed(before[j], now) && !complete)),
        forall|x: u64| #[trigger] dead0.contains(x) ==> ids_of(before).take(k).contains(x),
        dead1 == if snubbed(after[k], now) && !complete {
            dead0.push(before[k].ident())
        } else {
            dead0
        },
        forall|i: int| 0 <= i < acts0.len() ==> tending_kind(#[trigger] acts0[i]),
        forall|j: int|
            0 <= j < k && !old_peers[j].flags().am_interested && #[trigger] before[j].flags().am_interested ==> sends(
                acts0,
                before[j].ident(),
                Message::Interested,
            ),
        acts0.len() <= acts1.len(),
        acts1.subrange(0, acts0.len() as int) == acts0,
        forall|i: int| acts0.len() <= i < acts1.len() ==> tending_action(#[trigger] acts1[i], before[k].ident()),
        !before[k].flags().am_interested && after[k].flags().am_interested ==> sends(
            acts1,
            before[k].ident(),
            Message::Interested,
        ),
    ensures
        forall|j: int| 0 <= j < k + 1 ==> tended(old_peers[j], #[trigger] after[j], now, complete),
        forall|j: int| k + 1 <= j < after.len() ==> #[trigger] after[j] == old_peers[j],
        forall|j: int|
            0 <= j < k + 1 ==> (dead1.contains(#[trigger] after[j].ident()) <==> (snubbed(after[j], now) && !complete)),
        forall|x: u64| #[trigger] dead1.contains(x) ==> ids_of(after).take(k + 1).contains(x),
        forall|i: int| 0 <= i < acts1.len() ==> tending_kind(#[trigger] acts1[i]),
        forall|j: int|
            0 <= j < k + 1 && !old_peers[j].flags().am_interested && #[trigger] after[j].flags().am_interested ==> sends(
                acts1,
                after[j].ident(),
                Message::Interested,
            ),
{
    assert(before[k] == old_peers[k]);
    assert forall|j: int| 0 <= j < k + 1 implies tended(old_peers[j], #[trigger] after[j], now, complete) by {
        if j < k {
            assert(after[j] == before[j]);
        }
    }
    assert forall|j: int| 0 <= j < k + 1 implies (dead1.contains(#[trigger] after[j].ident()) <==> (snubbed(
        after[j],
        now,
    ) && !complete)) by {
        if j < k {
            assert(after[j] == before[j]);
            assert(ids_of(before)[j] == before[j].ident());
            assert(ids_of(before)[k] == before[k].ident());
            if dead1.contains(after[j].ident()) && !dead0.contains(after[j].ident()) {
                let w = choose|w: int| 0 <= w < dead1.len() && dead1[w] == after[j].ident();
                assert(w == dead0.len());
                assert(before[j].ident() == before[k].ident());
            }
            if dead0.contains(after[j].ident()) {
                let w = choose|w: int| 0 <= w < dead0.len() && dead0[w] == after[j].ident();
                assert(dead1[w] == dead0[w]);
            }
        } else {
            assert(after[k].ident() == before[k].ident());
            if dead0.contains(before[k].ident()) {
                assert(ids_of(before).take(k).contains(before[k].ident()));
                let w = choose|w: int| 0 <= w < k && ids_of(before).take(k)[w] == before[k].ident();
                assert(ids_of(before)[w] == ids_of(before)[k]);
            }
            if snubbed(after[k], now) && !complete {
                assert(dead1[dead0.len() as int] == before[k].ident());
            } else if dead1.contains(after[k].ident()) {
                assert(dead1 == dead0);
            }
        }
    }
    assert forall|x: u64| #[trigger] dead1.contains(x) implies ids_of(after).take(k + 1).contains(x) by {
        if dead0.contains(x) {
            let w = choose|w: int| 0 <= w < k && ids_of(before).take(k)[w] == x;
            assert(ids_of(after).take(k + 1)[w] == x);
        } else {
            let w = choose|w: int| 0 <= w < dead1.len() && dead1[w] == x;
            assert(w == dead0.len());
            assert(ids_of(after).take(k + 1)[k] == before[k].ident());
        }
    }
    assert forall|i: int| 0 <= i < acts1.len() implies tending_kind(#[trigger] acts1[i]) by {
        if i < acts0.len() {
            assert(acts1[i] == acts1.subrange(0, acts0.len() as int)[i]);
        } else {
            assert(tending_action(acts1[i], before[k].ident()));
        }
    }
    assert forall|j: int|
        0 <= j < k + 1 && !old_peers[j].flags().am_interested && #[trigger] after[j].flags().am_interested implies sends(
        acts1,
        after[j].ident(),
        Message::Interested,
    ) by {
        if j < k {
            assert(after[j] == before[j]);
            let w = choose|w: int| 0 <= w < acts0.len() && acts0[w] == Action::Send {
                peer: before[j].ident(),
                message: Message::Interested,
            };
            assert(acts1[w] == acts1.subrange(0, acts0.len() as int)[w]);
        }
    }
}

/// One dropped peer keeps what the drops so far say.
proof fn lemma_drop_step(
    mid: Seq<Peer>,
    cur: Seq<Peer>,
    next: Seq<Peer>,
    dead: Seq<u64>,
    d: int,
    acts_mid: Seq<Action>,
    acts0: Seq<Action>,
    acts1: Seq<Action>,
)
    requires
        0 <= d < dead.len(),
        ids_of(cur).no_duplicates(),
        forall|j: int| 0 <= j < cur.len() ==> mid.contains(#[trigger] cur[j]),
        forall|i: int|
            0 <= i < mid.len() ==> (ids_of(cur).contains(#[trigger] mid[i].ident()) <==> !dead.take(d).contains(
                mid[i].ident(),
            )),
        forall|i: int|
            0 <= i < mid.len() && dead.take(d).contains(#[trigger] mid[i].ident()) ==> acts0.contains(
                Action::Close { peer: mid[i].ident() },
            ),
        acts_mid.len() <= acts0.len(),
        acts0.subrange(0, acts_mid.len() as int) == acts_mid,
        forall|i: int| acts_mid.len() <= i < acts0.len() ==> #[trigger] acts0[i] is Close,
        ids_of(cur).contains(dead[d]) ==> next == cur.remove(
            choose|k: int| 0 <= k < cur.len() && cur[k].ident() == dead[d],
        ) && acts1 == acts0.push(Action::Close { peer: dead[d] }),
        !ids_of(cur).contains(dead[d]) ==> next == cur && acts1 == acts0,
        forall|x: u64| #[trigger] ids_of(next).contains(x) <==> (ids_of(cur).contains(x) && x != dead[d]),
    ensures
        forall|j: int| 0 <= j < next.len() ==> mid.contains(#[trigger] next[j]),
        forall|i: int|
            0 <= i < mid.len() ==> (ids_of(next).contains(#[trigger] mid[i].ident()) <==> !dead.take(d + 1).contains(
                mid[i].ident(),
            )),
        forall|i: int|
            0 <= i < mid.len() && dead.take(d + 1).contains(#[trigger] mid[i].ident()) ==> acts1.contains(
                Action::Close { peer: mid[i].ident() },
            ),
        acts_mid.len() <= acts1.len(),
        acts1.subrange(0, acts_mid.len() as int) == acts_mid,
        forall|i: int| acts_mid.len() <= i < acts1.len() ==> #[trigger] acts1[i] is Close,
{
    assert(dead.take(d + 1) =~= dead.take(d).push(dead[d]));
    if ids_of(cur).contains(dead[d]) {
        let k0 = choose|k: int| 0 <= k < cur.len() && cur[k].ident() == dead[d];
        let w = choose|w: int| 0 <= w < ids_of(cur).len() && ids_of(cur)[w] == dead[d];
        assert(cur[w].ident() == dead[d]);
        assert forall|j: int| 0 <= j < next.len() implies mid.contains(#[trigger] next[j]) by {
            let j2 = if j < k0 { j } else { j + 1 };
            assert(next[j] == cur[j2]);
        }
        assert(acts1.subrange(0, acts_mid.len() as int) =~= acts0.subrange(0, acts_mid.len() as int));
        assert forall|i: int| acts_mid.len() <= i < acts1.len() implies #[trigger] acts1[i] is Close by {
            if i < acts0.len() {
                assert(acts1[i] == acts0[i]);
            }
        }
        assert forall|i: int|
            0 <= i < mid.len() && dead.take(d + 1).contains(#[trigger] mid[i].ident()) implies acts1.contains(
            Action::Close { peer: mid[i].ident() },
        ) by {
            if mid[i].ident() == dead[d] {
                assert(acts1[acts0.len() as int] == Action::Close { peer: dead[d] });
            } else {
                assert(dead.take(d).contains(mid[i].ident())) by {
                    let t1 = dead.take(d + 1);
                let v = choose|v: int| 0 <= v < t1.len() && t1[v] == mid[i].ident();
                    assert(dead.take(d)[v] == mid[i].ident());
                }
                let v = choose|v: int| 0 <= v < acts0.len() && acts0[v] == Action::Close { peer: mid[i].ident() };
                assert(acts1[v] == acts0[v]);
            }
        }
    } else {
        assert forall|i: int|
            0 <= i < mid.len() && dead.take(d + 1).contains(#[trigger] mid[i].ident()) implies acts1.contains(
            Action::Close { peer: mid[i].ident() },
        ) by {
            if mid[i].ident() != dead[d] {
                let t1 = dead.take(d + 1);
                let v = choose|v: int| 0 <= v < t1.len() && t1[v] == mid[i].ident();
                assert(dead.take(d)[v] == mid[i].ident());
            } else {
                assert(!ids_of(cur).contains(mid[i].ident()));
            }
        }
    }
    assert forall|i: int| 0 <= i < mid.len() implies (ids_of(next).contains(#[trigger] mid[i].ident()) <==> !dead.take(
        d + 1,
    ).contains(mid[i].ident())) by {
        if dead.take(d).contains(mid[i].ident()) {
            let t0 = dead.take(d);
            let v = choose|v: int| 0 <= v < t0.len() && t0[v] == mid[i].ident();
            assert(dead.take(d + 1)[v] == mid[i].ident());
        }
        if dead.take(d + 1).contains(mid[i].ident()) && mid[i].ident() != dead[d] {
            let t1 = dead.take(d + 1);
                let v = choose|v: int| 0 <= v < t1.len() && t1[v] == mid[i].ident();
            assert(dead.take(d)[v] == mid[i].ident());
        }
        if mid[i].ident() == dead[d] {
            assert(dead.take(d + 1)[d] == dead[d]);
        }
    }
}

/// What the turns, the drops and the choke round together make of every
/// peer.
proof fn lemma_housekeeping_end(
    old_peers: Seq<Peer>,
    mid: Seq<Peer>,
    kept_peers: Seq<Peer>,
    fin: Seq<Peer>,
    dead: Seq<u64>,
    acts_mid: Seq<Action>,
    acts_kept: Seq<Action>,
    acts: Seq<Action>,
    now: u64,
    complete: bool,
    have: Seq<bool>,
    avail: Seq<u32>,
)
    requires
        ids_of(old_peers).no_duplicates(),
        mid.len() == old_peers.len(),
        ids_of(mid) == ids_of(old_peers),
        forall|j: int| 0 <= j < mid.len() ==> tended(old_peers[j], #[trigger] mid[j], now, complete),
        forall|j: int| 0 <= j < mid.len() ==> picked(old_peers[j], #[trigger] mid[j], have, avail),
        forall|j: int| 0 <= j < mid.len() ==> filled(#[trigger] mid[j], now, complete),
        forall|j: int| 0 <= j < mid.len() ==> (dead.contains(#[trigger] mid[j].ident()) <==> (snubbed(mid[j], now) && !complete)),
        forall|i: int| 0 <= i < acts_mid.len() ==> tending_kind(#[trigger] acts_mid[i]),
        forall|j: int|
            0 <= j < mid.len() && !old_peers[j].flags().am_interested && #[trigger] mid[j].flags().am_interested ==> sends(
                acts_mid,
                mid[j].ident(),
                Message::Interested,
            ),
        forall|j: int| 0 <= j < kept_peers.len() ==> mid.contains(#[trigger] kept_peers[j]),
        forall|i: int|
            0 <= i < mid.len() ==> (ids_of(kept_peers).contains(#[trigger] mid[i].ident()) <==> !dead.contains(mid[i].ident())),
        forall|i: int|
            0 <= i < mid.len() && dead.contains(#[trigger] mid[i].ident()) ==> acts_kept.contains(
                Action::Close { peer: mid[i].ident() },
            ),
        acts_mid.len() <= acts_kept.len(),
        acts_kept.subrange(0, acts_mid.len() as int) == acts_mid,
        forall|i: int| acts_mid.len() <= i < acts_kept.len() ==> #[trigger] acts_kept[i] is Close,
        fin.len() == kept_peers.len(),
        forall|j: int| 0 <= j < kept_peers.len() ==> rechoked(kept_peers[j], #[trigger] fin[j]),
        acts_kept.len() <= acts.len(),
        acts.subrange(0, acts_kept.len() as int) == acts_kept,
        forall|i: int| acts_kept.len() <= i < acts.len() ==> choke_sent(#[trigger] acts[i], kept_peers, fin),
        forall|j: int|
            0 <= j < kept_peers.len() && #[trigger] fin[j].flags().am_choking != kept_peers[j].flags().am_choking ==> sends(
                acts,
                kept_peers[j].ident(),
                choke_message(fin[j].flags().am_choking),
            ),
    ensures
        forall|x: u64| #[trigger] ids_of(fin).contains(x) <==> ids_of(kept_peers).contains(x),
        forall|i: int|
            0 <= i < old_peers.len() && !#[trigger] ids_of(fin).contains(old_peers[i].ident()) ==> quiet_too_long(
                old_peers[i],
                now,
            ) && !complete && acts.contains(Action::Close { peer: old_peers[i].ident() }),
        forall|i: int|
            0 <= i < old_peers.len() && #[trigger] old_peers[i].fetching() is Some && quiet_too_long(old_peers[i], now)
                && !complete ==> !ids_of(fin).contains(old_peers[i].ident()),
        forall|i: int, j: int|
            #![trigger old_peers[i], fin[j]]
            0 <= i < old_peers.len() && 0 <= j < fin.len() && fin[j].ident() == old_peers[i].ident() ==> kept(
                old_peers[i],
                fin[j],
                acts,
            ) && picked(old_peers[i], fin[j], have, avail),
{
    assert(ids_of(fin) =~= ids_of(kept_peers)) by {
        assert forall|j: int| 0 <= j < fin.len() implies ids_of(fin)[j] == ids_of(kept_peers)[j] by {
            assert(rechoked(kept_peers[j], fin[j]));
        }
    }
    assert forall|i: int| 0 <= i < old_peers.len() implies ids_of(mid)[i] == mid[i].ident() && mid[i].ident()
        == old_peers[i].ident() by {
        assert(ids_of(mid)[i] == ids_of(old_peers)[i]);
    }
    assert forall|i: int|
        0 <= i < old_peers.len() && !#[trigger] ids_of(fin).contains(old_peers[i].ident()) implies quiet_too_long(
        old_peers[i],
        now,
    ) && !complete && acts.contains(Action::Close { peer: old_peers[i].ident() }) by {
        assert(mid[i].ident() == old_peers[i].ident());
        assert(tended(old_peers[i], mid[i], now, complete));
        assert(dead.contains(mid[i].ident()));
        let v = choose|v: int| 0 <= v < acts_kept.len() && acts_kept[v] == Action::Close { peer: mid[i].ident() };
        assert(acts[v] == acts.subrange(0, acts_kept.len() as int)[v]);
    }
    assert forall|i: int|
        0 <= i < old_peers.len() && #[trigger] old_peers[i].fetching() is Some && quiet_too_long(old_peers[i], now)
            && !complete implies !ids_of(fin).contains(old_peers[i].ident()) by {
        assert(tended(old_peers[i], mid[i], now, complete));
        assert(mid[i].ident() == old_peers[i].ident());
        assert(snubbed(mid[i], now));
    }
    assert forall|i: int, j: int|
        #![trigger old_peers[i], fin[j]]
        0 <= i < old_peers.len() && 0 <= j < fin.len() && fin[j].ident() == old_peers[i].ident() implies kept(
            old_peers[i],
            fin[j],
            acts,
        ) && picked(old_peers[i], fin[j], have, avail) by {
        let x = old_peers[i].ident();
        assert(kept_peers[j] == kept_peers[j]);
        let i2 = choose|i2: int| 0 <= i2 < mid.len() && kept_peers[j] == mid[i2];
        assert(rechoked(kept_peers[j], fin[j]));
        assert(mid[i2].ident() == x);
        assert(mid[i].ident() == x);
        assert(ids_of(mid)[i2] == ids_of(mid)[i]);
        assert(i2 == i);
        let p = old_peers[i];
        let m = mid[i];
        let q = fin[j];
        assert(tended(p, m, now, complete));
        assert(picked(p, m, have, avail));
        assert(filled(m, now, complete));
        assert(ids_of(kept_peers)[j] == x);
        assert(ids_of(kept_peers).contains(m.ident()));
        assert(!dead.contains(m.ident()));
        assert(!(snubbed(m, now) && !complete));
        if !p.flags().am_interested && q.flags().am_interested {
            assert(m.flags().am_interested);
            let v = choose|v: int| 0 <= v < acts_mid.len() && acts_mid[v] == Action::Send {
                peer: m.ident(),
                message: Message::Interested,
            };
            assert(acts_kept[v] == acts_kept.subrange(0, acts_mid.len() as int)[v]);
            assert(acts[v] == acts.subrange(0, acts_kept.len() as int)[v]);
        }
        if q.flags().am_choking == p.flags().am_choking {
            assert forall|w: int| 0 <= w < acts.len() implies acts[w] != (Action::Send {
                peer: x,
                message: Message::Choke,
            }) && acts[w] != (Action::Send { peer: x, message: Message::Unchoke }) by {
                if w < acts_mid.len() {
                    assert(acts[w] == acts.subrange(0, acts_kept.len() as int)[w]);
                    assert(acts_kept[w] == acts_kept.subrange(0, acts_mid.len() as int)[w]);
                    assert(tending_kind(acts_mid[w]));
                } else if w < acts_kept.len() {
                    assert(acts[w] == acts.subrange(0, acts_kept.len() as int)[w]);
                    assert(acts_kept[w] is Close);
                } else {
                    assert(choke_sent(acts[w], kept_peers, fin));
                    if let Action::Send { peer, .. } = acts[w] {
                        if peer == x {
                            assert(kept_peers[j].ident() == peer);
                        }
                    }
                }
            }
        }
    }
}

/// `a` is one of the messages a housekeeping turn sends peer `x`:
/// `Interested` or a block request.
pub open spec fn tending_action(a: Action, x: u64) -> bool {
    a matches Action::Send { peer, message } && peer == x && (message is Interested || message is Request)
}

/// Every piece of `have` is present.
pub open spec fn all_present(have: Seq<bool>) -> bool {
    forall|i: int| 0 <= i < have.len() ==> #[trigger] have[i]
}

/// Every count in `counts` can grow by one.
pub open spec fn room(counts: Seq<u32>) -> bool {
    forall|i: int| 0 <= i < counts.len() ==> #[trigger] counts[i] < u32::MAX
}

/// The counts `counts` once peer `p`, which now says it has `bits`, is
/// counted afresh: what it said before no longer counts, and what it says
/// now counts unless some count is full.
pub open spec fn counts_after_bitfield(counts: Seq<u32>, p: Peer, bits: Seq<bool>) -> Seq<u32> {
    let mid = if p.told() {
        crate::pieces::counts_without(counts, p.has_pieces())
    } else {
        counts
    };
    if room(mid) {
        crate::pieces::counts_with(mid, bits)
    } else {
        mid
    }
}

/// The addresses among `peers` not in `known`, in order, each once.
pub open spec fn newly_learned(known: Seq<Endpoint>, peers: Seq<Endpoint>) -> Seq<Endpoint>
    decreases peers.len(),
{
    if peers.len() == 0 {
        Seq::empty()
    } else {
        let rest = newly_learned(known, peers.drop_last());
        let a = peers.last();
        if known.contains(a) || rest.contains(a) {
            rest
        } else {
            rest.push(a)
        }
    }
}

/// With no id twice, at most one peer has id `id`.
proof fn lemma_one_with_id(peers: Seq<Peer>, i: int, j: int, id: u64)
    requires
        ids_of(peers).no_duplicates(),
        0 <= i < peers.len(),
        0 <= j < peers.len(),
        peers[i].ident() == id,
        peers[j].ident() == id,
    ensures
        i == j,
{
    assert(ids_of(peers)[i] == id);
    assert(ids_of(peers)[j] == id);
}

/// The (offset, length) of each request in `rs`, in order.
pub open spec fn spots(rs: Seq<BlockRequest>) -> Seq<(u32, u32)> {
    rs.map_values(|r: BlockRequest| (r.begin, r.length))
}

/// `bytes` is a well-formed bitfield of `n` pieces: the right length, and no
/// spare bit set.
pub open spec fn bitfield_fits(bytes: Seq<u8>, n: nat) -> bool {
    &&& bytes.len() == crate::pieces::byte_len(n)
    &&& forall|i: int| n <= i < 8 * bytes.len() ==> !#[trigger] crate::pieces::bit_at(bytes, i)
}

/// The piece that action `a` requests of peer `peer`, if it is such a
/// request.
pub open spec fn request_to(a: Action, peer: u64) -> Option<u32> {
    match a {
        Action::Send { peer: p, message: Message::Request { index, .. } } => if p == peer {
            Some(index)
        } else {
            None
        },
        _ => None,
    }
}

/// Every request among `actions` to one of `peers` goes to a peer that we
/// told we are interested, that does not choke us, and that we fetch the
/// requested piece from.
pub open spec fn requests_sound(peers: Seq<Peer>, actions: Seq<Action>) -> bool {
    forall|j: int, k: int|
        #![trigger request_to(actions[j], peers[k].ident())]
        0 <= j < actions.len() && 0 <= k < peers.len() && request_to(actions[j], peers[k].ident()) is Some
            ==> peers[k].flags().am_interested && !peers[k].flags().peer_choking && peers[k].fetching()
            == request_to(actions[j], peers[k].ident())
}

/// Replacing a peer by one that keeps its promises, and adding actions
/// that request only of it what it promises, keeps requests sound.
proof fn lemma_sound_update(peers: Seq<Peer>, acts: Seq<Action>, k: int, p: Peer, more: Seq<Action>)
    requires
        requests_sound(peers, acts),
        0 <= k < peers.len(),
        ids_of(peers).no_duplicates(),
        p.ident() == peers[k].ident(),
        p.flags().peer_choking == peers[k].flags().peer_choking,
        peers[k].flags().am_interested ==> p.flags().am_interested,
        peers[k].fetching() is Some ==> p.fetching() == peers[k].fetching(),
        forall|j: int, x: u64|
            #![trigger request_to(more[j], x)]
            0 <= j < more.len() && request_to(more[j], x) is Some ==> x == p.ident() && p.flags().am_interested
                && !p.flags().peer_choking && p.fetching() == request_to(more[j], x),
    ensures
        requests_sound(peers.update(k, p), acts + more),
{
    let ps = peers.update(k, p);
    let all = acts + more;
    assert forall|j: int, k2: int|
        #![trigger request_to(all[j], ps[k2].ident())]
        0 <= j < all.len() && 0 <= k2 < ps.len() && request_to(all[j], ps[k2].ident()) is Some implies ps[k2].flags().am_interested
            && !ps[k2].flags().peer_choking && ps[k2].fetching() == request_to(all[j], ps[k2].ident()) by {
        if j < acts.len() {
            assert(all[j] == acts[j]);
            assert(request_to(acts[j], peers[k2].ident()) is Some);
            if k2 == k {
            } else {
                assert(ps[k2] == peers[k2]);
            }
        } else {
            assert(all[j] == more[j - acts.len()]);
            let x = ps[k2].ident();
            assert(request_to(more[j - acts.len()], x) is Some);
            if k2 != k {
                assert(ids_of(peers)[k2] == peers[k2].ident());
                assert(ids_of(peers)[k] == peers[k].ident());
            }
        }
    }
}

/// Removing a peer, and adding actions that request nothing, keeps
/// requests sound.
proof fn lemma_sound_remove(peers: Seq<Peer>, acts: Seq<Action>, k: int, more: Seq<Action>)
    requires
        requests_sound(peers, acts),
        0 <= k < peers.len(),
        forall|j: int, x: u64| #![trigger request_to(more[j], x)] 0 <= j < more.len() ==> request_to(more[j], x) is None,
    ensures
        requests_sound(peers.remove(k), acts + more),
{
    let ps = peers.remove(k);
    let all = acts + more;
    assert forall|j: int, k2: int|
        #![trigger request_to(all[j], ps[k2].ident())]
        0 <= j < all.len() && 0 <= k2 < ps.len() && request_to(all[j], ps[k2].ident()) is Some implies ps[k2].flags().am_interested
            && !ps[k2].flags().peer_choking && ps[k2].fetching() == request_to(all[j], ps[k2].ident()) by {
        let k3 = if k2 < k { k2 } else { k2 + 1 };
        assert(ps[k2] == peers[k3]);
        if j < acts.len() {
            assert(all[j] == acts[j]);
            assert(request_to(acts[j], peers[k3].ident()) is Some);
        } else {
            assert(all[j] == more[j - acts.len()]);
            assert(request_to(more[j - acts.len()], ps[k2].ident()) is None);
        }
    }
}

impl Engine {
    /// The number of pieces.
    pub closed spec fn piece_count(&self) -> nat {
        self.hashes@.len()
    }

    /// The pieces we have.
    pub closed spec fn have(&self) -> Seq<bool> {
        self.ours@
    }

    /// Every `Store` among `actions` is of a piece of this torrent whose
    /// bytes hash to that piece's hash.
    pub open spec fn stores_checked(&self, actions: Seq<Action>) -> bool {
        forall|j: int|
            0 <= j < actions.len() ==> match #[trigger] actions[j] {
                Action::Store { index, data } => index < self.piece_count() && sha1_digest(data@) == self.hash_of(
                    index as int,
                ),
                _ => true,
            }
    }

    /// Some `Store` among `actions` is of piece `index`.
    pub open spec fn stores(actions: Seq<Action>, index: int) -> bool {
        exists|j: int| 0 <= j < actions.len() && (#[trigger] actions[j] matches Action::Store { index: i, .. } && i == index)
    }

    /// For each piece being fetched, how many peers fetch it.
    pub closed spec fn fetchers(&self) -> Map<u32, u32> {
        self.picker.active_map()
    }

    /// What is left once peer `p` is gone: counts of pieces with `p`'s
    /// bitfield taken out, if it sent one, and its piece one fetcher fewer.
    pub open spec fn without_peer(&self, p: Peer) -> (Seq<u32>, Map<u32, u32>) {
        (
            if p.told() {
                crate::pieces::counts_without(self.avail(), p.has_pieces())
            } else {
                self.avail()
            },
            match p.fetching() {
                Some(i) => crate::picker::after_abandon(self.fetchers(), i),
                None => self.fetchers(),
            },
        )
    }

    /// How many peers have each piece.
    pub closed spec fn avail(&self) -> Seq<u32> {
        self.availability@
    }

    /// The connected peers, in the order they connected.
    pub closed spec fn peer_list(&self) -> Seq<Peer> {
        self.peers@
    }

    /// Addresses waiting for a connection attempt, oldest first.
    pub closed spec fn waiting(&self) -> Seq<Endpoint> {
        self.queue@
    }

    /// Every address ever learned.
    pub closed spec fn learned(&self) -> Seq<Endpoint> {
        self.known@
    }

    /// Connection attempts under way.
    pub closed spec fn attempts(&self) -> nat {
        self.connecting as nat
    }

    /// The peer limit.
    pub closed spec fn peer_limit(&self) -> nat {
        self.max_peers as nat
    }

    /// Bytes of verified pieces.
    pub closed spec fn down(&self) -> u64 {
        self.downloaded
    }

    /// Bytes served.
    pub closed spec fn up(&self) -> u64 {
        self.uploaded
    }

    /// The announce timer.
    pub closed spec fn announce_timer(&self) -> AnnounceTimer {
        self.timer
    }

    /// Announce rounds in a row that left us without peers.
    pub closed spec fn empty(&self) -> nat {
        self.empty_rounds as nat
    }

    /// The id the next connection attempt gets.
    pub closed spec fn fresh_id(&self) -> u64 {
        self.next_id
    }

    /// What every step keeps true.
    pub closed spec fn wf(&self) -> bool {
        let n = self.hashes@.len();
        &&& n <= u32::MAX
        &&& self.ours@.len() == n
        &&& self.availability@.len() == n
        &&& self.piece_length > 0
        &&& self.piece_length <= u32::MAX
        &&& self.empty_rounds < MAX_EMPTY_ROUNDS
        &&& n * self.piece_length <= u64::MAX
        &&& counts_positive(self.picker.active_map())
        &&& self.picker.cap() == ENDGAME_DUP
        &&& self.rotor.period() == OPTIMISTIC_INTERVAL_MS
        &&& forall|k: int|
            0 <= k < self.peers@.len() ==> #[trigger] self.peers@[k].wf(
                n,
                self.piece_length as nat,
                self.total_length as nat,
            )
        &&& ids_of(self.peers@).no_duplicates()
        &&& forall|k: int| 0 <= k < self.peers@.len() ==> #[trigger] self.peers@[k].ident() < self.next_id
    }

    /// The engine for `meta`, before any announce: no pieces, no peers.
    pub fn new(meta: &Metainfo, config: &EngineConfig) -> (r: Engine)
        requires
            meta.pieces@.len() <= u32::MAX,
            0 < meta.piece_length <= u32::MAX,
            meta.pieces@.len() * meta.piece_length <= u64::MAX,
        ensures
            r.wf(),
            r.piece_count() == meta.pieces@.len(),
            forall|i: int| 0 <= i < r.piece_count() ==> !#[trigger] r.have()[i],
            r.peer_list().len() == 0,
            r.attempts() == 0,
            r.peer_limit() == config.max_peers,
            r.torrent() == meta.info_hash,
            r.our_id() == config.peer_id,
            r.our_port() == config.port,
            r.total() == meta.total_length,
            forall|i: int| 0 <= i < r.piece_count() ==> #[trigger] r.hash_of(i) == meta.pieces@[i]@,
            r.down() == 0,
            r.up() == 0,
            r.empty() == 0,
            r.announce_timer().due_at() is None,
            r.learned() == newly_learned(Seq::<Endpoint>::empty(), config.bootstrap_peers@),
            r.waiting() == newly_learned(Seq::<Endpoint>::empty(), config.bootstrap_peers@),
    {
        let n = meta.pieces.len() as u32;
        let mut hashes: Vec<[u8; 20]> = Vec::new();
        let mut i: usize = 0;
        while i < meta.pieces.len()
            invariant
                i <= meta.pieces@.len(),
                hashes@ == meta.pieces@.take(i as int),
            decreases meta.pieces.len() - i,
        {
            hashes.push(meta.pieces[i]);
            proof {
                assert(meta.pieces@.take(i + 1) =~= meta.pieces@.take(i as int).push(meta.pieces@[i as int]));
            }
            i = i + 1;
        }
        proof {
            assert(meta.pieces@.take(meta.pieces@.len() as int) =~= meta.pieces@);
        }
        let mut r = Engine {
            hashes,
            info_hash: meta.info_hash,
            peer_id: config.peer_id,
            port: config.port,
            piece_length: meta.piece_length,
            total_length: meta.total_length,
            max_peers: config.max_peers,
            ours: Bitfield::new(n),
            availability: Availability::new(n),
            picker: PiecePicker::new(ENDGAME_DUP),
            peers: Vec::new(),
            queue: Vec::new(),
            known: Vec::new(),
            connecting: 0,
            downloaded: 0,
            uploaded: 0,
            timer: AnnounceTimer::new(),
            rotor: OptimisticRotor::new(OPTIMISTIC_INTERVAL_MS),
            last_choke: None,
            empty_rounds: 0,
            next_id: 0,
        };
        proof {
            assert(ids_of(r.peers@) =~= Seq::<u64>::empty());
            assert(r.known@ =~= newly_learned(Seq::<Endpoint>::empty(), config.bootstrap_peers@.take(0)));
            assert(r.queue@ =~= newly_learned(Seq::<Endpoint>::empty(), config.bootstrap_peers@.take(0)));
        }
        let ghost r0 = r;
        let mut i: usize = 0;
        while i < config.bootstrap_peers.len()
            invariant
                r.wf(),
                i <= config.bootstrap_peers@.len(),
                r.learned() == newly_learned(Seq::<Endpoint>::empty(), config.bootstrap_peers@.take(i as int)),
                r.waiting() == newly_learned(Seq::<Endpoint>::empty(), config.bootstrap_peers@.take(i as int)),
                r.peer_list() == r0.peer_list(),
                r.attempts() == r0.attempts(),
                r.announce_timer() == r0.announce_timer(),
                r.empty() == r0.empty(),
                r.have() == r0.have(),
                r.hashes == r0.hashes,
                r.info_hash == r0.info_hash,
                r.peer_id == r0.peer_id,
                r.port == r0.port,
                r.total_length == r0.total_length,
                r.max_peers == r0.max_peers,
                r.downloaded == 0,
                r.uploaded == 0,
            decreases config.bootstrap_peers.len() - i,
        {
            let ghost before = r.learned();
            let a = config.bootstrap_peers[i];
            proof {
                assert(config.bootstrap_peers@.take(i + 1).drop_last() =~= config.bootstrap_peers@.take(i as int));
                assert(Seq::<Endpoint>::empty() + before =~= before);
            }
            r.learn(a);
            proof {
                assert(r.learned() =~= newly_learned(Seq::<Endpoint>::empty(), config.bootstrap_peers@.take(i + 1)));
                assert(r.waiting() =~= newly_learned(Seq::<Endpoint>::empty(), config.bootstrap_peers@.take(i + 1)));
            }
            i = i + 1;
        }
        proof {
            assert(config.bootstrap_peers@.take(i as int) =~= config.bootstrap_peers@);
        }
        r
    }

    /// The size of piece `index`: the piece length, or what is left for
    /// the last piece.
    pub closed spec fn piece_size(&self, index: int) -> nat {
        piece_size_of(self.piece_length as nat, self.total_length as nat, index as nat)
    }

    /// Takes up piece `index` from a saved state, with `data` as read from
    /// disk (`None` when it could not be read): it becomes ours, and its
    /// bytes count as downloaded, exactly when the bytes hash right.
    pub fn restore(&mut self, index: u32, data: Option<&[u8]>) -> (ok: bool)
        requires
            old(self).wf(),
            index < old(self).piece_count(),
        ensures
            final(self).wf(),
            ok == (data matches Some(d) && sha1_digest(d@) == old(self).hash_of(index as int)),
            final(self).have() == if ok {
                old(self).have().update(index as int, true)
            } else {
                old(self).have()
            },
            final(self).down() == if ok && !old(self).have()[index as int] {
                if old(self).down() + old(self).piece_size(index as int) > u64::MAX {
                    u64::MAX as int
                } else {
                    old(self).down() + old(self).piece_size(index as int)
                }
            } else {
                old(self).down() as int
            },
            final(self).peer_list() == old(self).peer_list(),
            final(self).waiting() == old(self).waiting(),
            final(self).learned() == old(self).learned(),
    {
        let ok = match data {
            Some(d) => verify_piece(d, &self.hashes[index as usize]),
            None => false,
        };
        if ok && !self.ours.has(index) {
            let size = self.size_of(index);
            self.ours.set(index);
            self.downloaded = self.downloaded.saturating_add(size);
        }
        ok
    }

    /// The pieces we have.
    pub fn pieces_have(&self) -> (r: &Bitfield)
        ensures
            r@ == self.have(),
    {
        &self.ours
    }

    /// Bytes of verified pieces.
    pub fn downloaded(&self) -> (r: u64)
        ensures
            r == self.down(),
    {
        self.downloaded
    }

    /// The event that reports a saved state taken up: how many pieces are
    /// ours, of how many, and their bytes.
    pub fn resumed_event(&self) -> (e: Event)
        requires
            self.wf(),
        ensures
            e == (Event::Resumed {
                have: crate::pieces::count_true(self.have()) as u32,
                total: self.piece_count() as u32,
                bytes: self.down(),
            }),
    {
        Event::Resumed { have: self.ours.count_set(), total: self.ours.pieces(), bytes: self.downloaded }
    }

    /// Whether every piece is here.
    pub fn is_complete(&self) -> (r: bool)
        ensures
            r == forall|i: int| 0 <= i < self.have().len() ==> #[trigger] self.have()[i],
    {
        let r = self.ours.is_complete();
        proof {
            assert(self.have() == self.ours@);
        }
        r
    }

    /// The number of connected peers.
    pub fn peer_count(&self) -> (r: usize)
        ensures
            r == self.peer_list().len(),
    {
        self.peers.len()
    }

    /// No peer, no attempt under way and no address waiting.
    pub open spec fn starving(&self) -> bool {
        self.peer_list().len() == 0 && self.attempts() == 0 && self.waiting().len() == 0
    }

    fn starved(&self) -> (r: bool)
        ensures
            r == self.starving(),
    {
        self.peers.len() == 0 && self.connecting == 0 && self.queue.len() == 0
    }

    /// Whether to announce at `now`: the timer says so, or we are starving.
    pub fn announce_due(&self, now: u64) -> (r: bool)
        ensures
            r == (match self.announce_timer().due_at() {
                None => true,
                Some(due) => now >= due,
            } || self.starving()),
    {
        self.timer.ready(now) || self.starved()
    }

    /// The event of the next announce: `Started` before anything was
    /// downloaded or learned, none after.
    pub open spec fn next_event(&self) -> TrackerEvent {
        if self.down() == 0 && self.learned().len() == 0 {
            TrackerEvent::Started
        } else {
            TrackerEvent::Regular
        }
    }

    /// The request of an announce with `event`: what we uploaded and
    /// downloaded and what is left.
    pub fn announce_request(&self, event: TrackerEvent) -> (r: AnnounceRequest)
        ensures
            r.info_hash == self.torrent(),
            r.peer_id == self.our_id(),
            r.port == self.our_port(),
            r.uploaded == self.up(),
            r.downloaded == self.down(),
            r.left == if self.total() >= self.down() {
                (self.total() - self.down()) as u64
            } else {
                0
            },
            r.event == event,
    {
        AnnounceRequest {
            info_hash: self.info_hash,
            peer_id: self.peer_id,
            port: self.port,
            uploaded: self.uploaded,
            downloaded: self.downloaded,
            left: self.total_length.saturating_sub(self.downloaded),
            event,
        }
    }

    /// The request of the next regular announce.
    pub fn next_announce(&self) -> (r: AnnounceRequest)
        ensures
            r.event == self.next_event(),
            r.info_hash == self.torrent(),
            r.peer_id == self.our_id(),
            r.port == self.our_port(),
            r.uploaded == self.up(),
            r.downloaded == self.down(),
            r.left == if self.total() >= self.down() {
                (self.total() - self.down()) as u64
            } else {
                0
            },
    {
        let event = if self.downloaded == 0 && self.known.len() == 0 {
            TrackerEvent::Started
        } else {
            TrackerEvent::Regular
        };
        self.announce_request(event)
    }

    pub closed spec fn torrent(&self) -> InfoHash {
        self.info_hash
    }

    /// When the upload slots were last reconsidered.
    pub closed spec fn chokes_at(&self) -> Option<u64> {
        self.last_choke
    }

    /// The peer holding the optimistic upload slot.
    pub closed spec fn optimistic(&self) -> Option<u64> {
        self.rotor.holder()
    }

    /// Whether the upload slots are due to be reconsidered at `now`.
    pub open spec fn chokes_due(&self, now: u64) -> bool {
        match self.chokes_at() {
            None => true,
            Some(at) => (if now >= at {
                now - at
            } else {
                0
            }) >= CHOKE_INTERVAL_MS,
        }
    }

    /// Our peer id.
    pub closed spec fn our_id(&self) -> [u8; 20] {
        self.peer_id
    }

    /// The port we announce.
    pub closed spec fn our_port(&self) -> u16 {
        self.port
    }

    pub closed spec fn total(&self) -> u64 {
        self.total_length
    }

    fn learn(&mut self, addr: Endpoint)
        requires
            old(self).wf(),
        ensures
            final(self).wf(),
            final(self).learned() == if old(self).learned().contains(addr) {
                old(self).learned()
            } else {
                old(self).learned().push(addr)
            },
            final(self).waiting() == if old(self).learned().contains(addr) {
                old(self).waiting()
            } else {
                old(self).waiting().push(addr)
            },
            final(self).peer_list() == old(self).peer_list(),
            final(self).attempts() == old(self).attempts(),
            final(self).announce_timer() == old(self).announce_timer(),
            final(self).empty() == old(self).empty(),
            final(self).have() == old(self).have(),
            final(self).hashes == old(self).hashes,
            final(self).info_hash == old(self).info_hash,
            final(self).peer_id == old(self).peer_id,
            final(self).port == old(self).port,
            final(self).total_length == old(self).total_length,
            final(self).max_peers == old(self).max_peers,
            final(self).downloaded == old(self).downloaded,
            final(self).uploaded == old(self).uploaded,
    {
        if !contains_endpoint(&self.known, addr) {
            self.known.push(addr);
            self.queue.push(addr);
        }
    }

    /// A tracker answered with `interval` seconds and `peers` at `now`:
    /// new addresses join the queue. If we still starve, this round counts
    /// as empty: after too many we give up, else the timer resets and the
    /// caller waits and announces again.
    pub fn on_announced(&mut self, interval: u32, peers: &[Endpoint], now: u64) -> (r: Round)
        requires
            old(self).wf(),
            now + interval * 1000 <= u64::MAX,
        ensures
            final(self).wf(),
            forall|a: Endpoint| #[trigger] final(self).learned().contains(a) <==> (old(self).learned().contains(a) || peers@.contains(a)),
            final(self).learned() == old(self).learned() + newly_learned(old(self).learned(), peers@),
            final(self).waiting() == old(self).waiting() + newly_learned(old(self).learned(), peers@),
            final(self).peer_list() == old(self).peer_list(),
            final(self).attempts() == old(self).attempts(),
            final(self).have() == old(self).have(),
            r == if !final(self).starving() {
                Round::Proceed
            } else if old(self).empty() + 1 >= MAX_EMPTY_ROUNDS {
                Round::GiveUp
            } else {
                Round::Retry
            },
            r == Round::Proceed ==> final(self).empty() == 0 && final(self).announce_timer().due_at() == Some((now + interval * 1000) as u64),
            r == Round::Retry ==> final(self).empty() == old(self).empty() + 1 && final(self).announce_timer().due_at() is None,
    {
        self.timer.after_success(interval, now);
        let mut i: usize = 0;
        while i < peers.len()
            invariant
                self.wf(),
                i <= peers@.len(),
                forall|a: Endpoint| #[trigger] self.learned().contains(a) <==> (old(self).learned().contains(a) || peers@.take(i as int).contains(a)),
                self.learned() == old(self).learned() + newly_learned(old(self).learned(), peers@.take(i as int)),
                self.waiting() == old(self).waiting() + newly_learned(old(self).learned(), peers@.take(i as int)),
                self.peer_list() == old(self).peer_list(),
                self.attempts() == old(self).attempts(),
                self.have() == old(self).have(),
                self.empty() == old(self).empty(),
                self.announce_timer().due_at() == Some((now + interval * 1000) as u64),
                self.announce_timer().failure_count() == 0,
            decreases peers.len() - i,
        {
            let ghost before = self.learned();
            let ghost nl = newly_learned(old(self).learned(), peers@.take(i as int));
            proof {
                assert(peers@.take(i + 1).drop_last() =~= peers@.take(i as int));
                assert(before.contains(peers@[i as int]) <==> (old(self).learned().contains(peers@[i as int]) || nl.contains(
                    peers@[i as int],
                ))) by {
                    let a = peers@[i as int];
                    if nl.contains(a) {
                        let k = choose|k: int| 0 <= k < nl.len() && nl[k] == a;
                        assert(before[old(self).learned().len() + k] == a);
                    }
                    if old(self).learned().contains(a) {
                        let k = choose|k: int| 0 <= k < old(self).learned().len() && old(self).learned()[k] == a;
                        assert(before[k] == a);
                    }
                    if before.contains(a) {
                        let k = choose|k: int| 0 <= k < before.len() && before[k] == a;
                        if k >= old(self).learned().len() {
                            assert(nl[k - old(self).learned().len()] == a);
                        }
                    }
                }
            }
            self.learn(peers[i]);
            proof {
                assert(self.learned() =~= old(self).learned() + newly_learned(old(self).learned(), peers@.take(i + 1)));
                assert(self.waiting() =~= old(self).waiting() + newly_learned(old(self).learned(), peers@.take(i + 1)));
                assert(peers@.take(i + 1) =~= peers@.take(i as int).push(peers@[i as int]));
                assert forall|a: Endpoint| #[trigger] self.learned().contains(a) <==> (old(self).learned().contains(a) || peers@.take(i + 1).contains(a)) by {
                    if peers@.take(i + 1).contains(a) && !peers@.take(i as int).contains(a) {
                        assert(a == peers@[i as int]);
                        if !before.contains(a) {
                            assert(self.learned().last() == a);
                        }
                    }
                    if self.learned().contains(a) && !before.contains(a) {
                        let k = choose|k: int| 0 <= k < self.learned().len() && self.learned()[k] == a;
                        if k < before.len() {
                            assert(before[k] == a);
                        }
                        assert(peers@.take(i + 1)[i as int] == a);
                    }
                    if before.contains(a) {
                        let k = choose|k: int| 0 <= k < before.len() && before[k] == a;
                        assert(self.learned()[k] == a);
                    }
                }
            }
            i = i + 1;
        }
        proof {
            assert(peers@.take(peers@.len() as int) =~= peers@);
            assert forall|a: Endpoint| #[trigger] self.learned().contains(a) <==> (old(self).learned().contains(a) || peers@.contains(a)) by {
                assert(self.learned().contains(a) <==> (old(self).learned().contains(a) || peers@.take(peers@.len() as int).contains(a)));
            }
        }
        let ghost learned = self.learned();
        if self.starved() {
            if self.empty_rounds >= MAX_EMPTY_ROUNDS - 1 {
                return Round::GiveUp;
            }
            self.empty_rounds = self.empty_rounds + 1;
            self.timer = AnnounceTimer::new();
            assert(self.learned() == learned);
            return Round::Retry;
        }
        self.empty_rounds = 0;
        assert(self.learned() == learned);
        Round::Proceed
    }

    /// Every tracker failed at `now`: the timer backs off. If we starve,
    /// the round counts as empty as after an answer without peers.
    pub fn on_announce_failed(&mut self, now: u64) -> (r: Round)
        requires
            old(self).wf(),
            now + crate::tracker_set::backoff_ms(old(self).announce_timer().failure_count() as nat) <= u64::MAX,
        ensures
            final(self).wf(),
            final(self).peer_list() == old(self).peer_list(),
            final(self).waiting() == old(self).waiting(),
            final(self).learned() == old(self).learned(),
            final(self).attempts() == old(self).attempts(),
            final(self).have() == old(self).have(),
            r == if !old(self).starving() {
                Round::Proceed
            } else if old(self).empty() + 1 >= MAX_EMPTY_ROUNDS {
                Round::GiveUp
            } else {
                Round::Retry
            },
            r == Round::Proceed ==> final(self).empty() == old(self).empty() && final(self).announce_timer().due_at() == Some((now + crate::tracker_set::backoff_ms(old(self).announce_timer().failure_count() as nat)) as u64),
            r == Round::Retry ==> final(self).empty() == old(self).empty() + 1 && final(self).announce_timer().due_at() is None,
    {
        self.timer.after_failure(now);
        if self.starved() {
            if self.empty_rounds >= MAX_EMPTY_ROUNDS - 1 {
                return Round::GiveUp;
            }
            self.empty_rounds = self.empty_rounds + 1;
            self.timer = AnnounceTimer::new();
            return Round::Retry;
        }
        Round::Proceed
    }

    /// The next address to try, with the id of its connection: the oldest
    /// waiting one, while attempts and peers stay under the limit.
    pub fn next_connection(&mut self) -> (r: Option<(u64, Endpoint)>)
        requires
            old(self).wf(),
        ensures
            final(self).wf(),
            final(self).peer_list() == old(self).peer_list(),
            final(self).learned() == old(self).learned(),
            final(self).have() == old(self).have(),
            match r {
                Some((id, addr)) => {
                    &&& old(self).attempts() + old(self).peer_list().len() < old(self).peer_limit()
                    &&& old(self).waiting().len() > 0
                    &&& addr == old(self).waiting()[0]
                    &&& final(self).waiting() == old(self).waiting().subrange(1, old(self).waiting().len() as int)
                    &&& final(self).attempts() == old(self).attempts() + 1
                    &&& id == old(self).fresh_id()
                    &&& final(self).fresh_id() == id + 1
                },
                None => {
                    &&& (old(self).attempts() + old(self).peer_list().len() >= old(self).peer_limit()
                        || old(self).waiting().len() == 0 || old(self).fresh_id() == u64::MAX)
                    &&& final(self).waiting() == old(self).waiting()
                    &&& final(self).attempts() == old(self).attempts()
                },
            },
    {
        if self.queue.len() == 0 || self.next_id == u64::MAX {
            return None;
        }
        if self.connecting >= self.max_peers || self.peers.len() >= self.max_peers - self.connecting {
            return None;
        }
        let addr = self.queue.remove(0);
        let id = self.next_id;
        self.next_id = self.next_id + 1;
        self.connecting = self.connecting + 1;
        proof {
            assert(self.queue@ =~= old(self).queue@.subrange(1, old(self).queue@.len() as int));
            assert forall|k: int| 0 <= k < self.peers@.len() implies #[trigger] self.peers@[k].ident() < self.next_id by {
                assert(old(self).peers@[k].ident() < old(self).next_id);
            }
        }
        Some((id, addr))
    }

    /// A connection attempt failed.
    pub fn on_connect_failed(&mut self)
        requires
            old(self).wf(),
        ensures
            final(self).wf(),
            final(self).attempts() == if old(self).attempts() > 0 {
                (old(self).attempts() - 1) as nat
            } else {
                0
            },
            final(self).peer_list() == old(self).peer_list(),
            final(self).waiting() == old(self).waiting(),
    {
        self.connecting = self.connecting.saturating_sub(1);
    }
}


/// Whether every count of `a` can grow by one.
fn room_to_count(a: &Availability, n: u32) -> (r: bool)
    requires
        a@.len() == n,
    ensures
        r == forall|i: int| 0 <= i < a@.len() ==> #[trigger] a@[i] < u32::MAX,
{
    let mut i: u32 = 0;
    while i < n
        invariant
            i <= n,
            n == a@.len(),
            forall|j: int| 0 <= j < i ==> #[trigger] a@[j] < u32::MAX,
        decreases n - i,
    {
        if a.count(i) == u32::MAX {
            proof {
                assert(a@[i as int] == u32::MAX);
            }
            return false;
        }
        i = i + 1;
    }
    true
}

/// What one step asks for: actions for the program around the engine, and
/// events to report.
pub struct Output {
    pub actions: Vec<Action>,
    pub events: Vec<Event>,
}

/// Removing the `k`th peer removes its id.
proof fn lemma_ids_remove(peers: Seq<Peer>, k: int)
    requires
        0 <= k < peers.len(),
        ids_of(peers).no_duplicates(),
    ensures
        ids_of(peers.remove(k)) == ids_of(peers).remove(k),
        ids_of(peers.remove(k)).no_duplicates(),
        forall|x: u64| #[trigger] ids_of(peers.remove(k)).contains(x) ==> ids_of(peers).contains(x) && x != peers[k].ident(),
{
    let a = ids_of(peers);
    let b = ids_of(peers.remove(k));
    assert(b =~= a.remove(k));
    assert forall|i: int, j: int| 0 <= i < j < b.len() implies b[i] != b[j] by {
        let i2 = if i < k { i } else { i + 1 };
        let j2 = if j < k { j } else { j + 1 };
        assert(b[i] == a[i2] && b[j] == a[j2]);
    }
    assert forall|x: u64| #[trigger] b.contains(x) implies a.contains(x) && x != peers[k].ident() by {
        let i = choose|i: int| 0 <= i < b.len() && b[i] == x;
        let i2 = if i < k { i } else { i + 1 };
        assert(a[i2] == x);
        assert(a[k] == peers[k].ident());
    }
}

impl Engine {
    /// Where peer `id` stands in the peer list.
    fn position(&self, id: u64) -> (r: Option<usize>)
        ensures
            match r {
                Some(k) => k < self.peer_list().len() && self.peer_list()[k as int].ident() == id,
                None => !ids_of(self.peer_list()).contains(id),
            },
    {
        let mut k: usize = 0;
        while k < self.peers.len()
            invariant
                k <= self.peers@.len(),
                forall|j: int| 0 <= j < k ==> #[trigger] self.peers@[j].ident() != id,
            decreases self.peers.len() - k,
        {
            if self.peers[k].id == id {
                return Some(k);
            }
            k = k + 1;
        }
        proof {
            if ids_of(self.peers@).contains(id) {
                let j = choose|j: int| 0 <= j < ids_of(self.peers@).len() && ids_of(self.peers@)[j] == id;
                assert(self.peers@[j].ident() == id);
            }
        }
        None
    }

    /// Drops peer `id`: what it had no longer counts, the piece it fetched
    /// is free again, and its connection closes.
    fn remove_peer(&mut self, id: u64, out: &mut Output)
        requires
            old(self).wf(),
        ensures
            final(self).wf(),
            !ids_of(final(self).peer_list()).contains(id),
            forall|x: u64| #[trigger] ids_of(final(self).peer_list()).contains(x) <==> (ids_of(old(self).peer_list()).contains(x) && x != id),
            final(self).have() == old(self).have(),
            final(self).waiting() == old(self).waiting(),
            final(self).learned() == old(self).learned(),
            final(self).attempts() == old(self).attempts(),
            final(self).down() == old(self).down(),
            final(self).fresh_id() == old(self).fresh_id(),
            final(self).hashes@ == old(self).hashes@,
            final(self).last_choke == old(self).last_choke,
            requests_sound(old(self).peers@, old(out).actions@) ==> requests_sound(final(self).peers@, final(out).actions@),
            final(out).events == old(out).events,
            final(out).actions@ == if ids_of(old(self).peer_list()).contains(id) {
                old(out).actions@.push(Action::Close { peer: id })
            } else {
                old(out).actions@
            },
            ids_of(old(self).peer_list()).contains(id) ==> {
                &&& final(self).peer_list() == old(self).peer_list().remove(old(self).index_of(id))
                &&& (final(self).avail(), final(self).fetchers()) == old(self).without_peer(
                    old(self).peer_list()[old(self).index_of(id)],
                )
            },
            !ids_of(old(self).peer_list()).contains(id) ==> final(self).peer_list() == old(self).peer_list()
                && final(self).avail() == old(self).avail() && final(self).fetchers() == old(self).fetchers(),
    {
        match self.position(id) {
            Some(k) => {
                proof {
                    self.lemma_index_of(k as int, id);
                }
                let ghost before = self.peers@;
                let peer = self.peers.remove(k);
                proof {
                    assert(ids_of(before)[k as int] == id);
                    assert(self.peers@ == before.remove(k as int));
                    lemma_ids_remove(before, k as int);
                    assert forall|x: u64| #[trigger] ids_of(self.peers@).contains(x) <==> (ids_of(before).contains(x) && x != id) by {
                        if ids_of(before).contains(x) && x != id {
                            let j = choose|j: int| 0 <= j < ids_of(before).len() && ids_of(before)[j] == x;
                            assert(j != k);
                            let j2 = if j < k { j } else { j - 1 };
                            assert(ids_of(self.peers@)[j2] == x);
                        }
                    }
                    assert forall|j: int| 0 <= j < self.peers@.len() implies #[trigger] self.peers@[j].wf(
                        self.hashes@.len(),
                        self.piece_length as nat,
                        self.total_length as nat,
                    ) && self.peers@[j].ident() < self.next_id by {
                        let j2 = if j < k { j } else { j + 1 };
                        assert(self.peers@[j] == before[j2]);
                    }
                }
                if peer.theirs_known {
                    self.availability.remove_bitfield(&peer.theirs);
                }
                match &peer.job {
                    Some(job) => self.picker.abandon(job.index),
                    None => {},
                }
                let ghost acts0 = out.actions@;
                out.actions.push(Action::Close { peer: id });
                proof {
                    if requests_sound(before, acts0) {
                        let more = seq![Action::Close { peer: id }];
                        assert(out.actions@ =~= acts0 + more);
                        lemma_sound_remove(before, acts0, k as int, more);
                    }
                }
            },
            None => {},
        }
    }

    /// A connection attempt succeeded and gave peer `id`. If we have pieces
    /// already, it learns which.
    pub fn on_connected(&mut self, id: u64, now: u64) -> (r: Output)
        requires
            old(self).wf(),
            id < old(self).fresh_id(),
        ensures
            final(self).wf(),
            final(self).attempts() == if old(self).attempts() > 0 {
                (old(self).attempts() - 1) as nat
            } else {
                0
            },
            ids_of(old(self).peer_list()).contains(id) ==> final(self).peer_list() == old(self).peer_list(),
            !ids_of(old(self).peer_list()).contains(id) ==> {
                &&& final(self).peer_list().len() == old(self).peer_list().len() + 1
                &&& final(self).peer_list().drop_last() == old(self).peer_list()
                &&& final(self).peer_list().last().ident() == id
                &&& final(self).peer_list().last().flags() == initial_state()
                &&& !final(self).peer_list().last().told()
                &&& final(self).peer_list().last().fetching() is None
            },
            final(self).have() == old(self).have(),
            final(self).waiting() == old(self).waiting(),
            r.events@.len() == 0,
            if !ids_of(old(self).peer_list()).contains(id) && exists|i: int| 0 <= i < old(self).have().len() && #[trigger] old(self).have()[i] {
                &&& r.actions@.len() == 1
                &&& r.actions@[0] matches Action::Send { peer, message: Message::Bitfield(b) }
                &&& peer == id
                &&& crate::pieces::packs(b@, old(self).have())
            } else {
                r.actions@.len() == 0
            },
    {
        let mut out = Output { actions: Vec::new(), events: Vec::new() };
        self.connecting = self.connecting.saturating_sub(1);
        match self.position(id) {
            Some(k) => {
                proof {
                    assert(ids_of(self.peers@)[k as int] == id);
                }
                return out;
            },
            None => {},
        }
        let n = self.ours.pieces();
        let peer = Peer {
            id,
            state: PeerState::new(),
            theirs: Bitfield::new(n),
            theirs_known: false,
            job: None,
            pipeline: RequestPipeline::new(PIPELINE_DEPTH, BLOCK_TIMEOUT_MS),
            downloaded_from: 0,
            last_useful: now,
        };
        let have = self.ours.count_set();
        proof {
            crate::pieces::lemma_count_true_zero(self.ours@);
            assert(self.ours@ == old(self).have());
        }
        if have > 0 {
            let bytes = crate::wire::copy_all(self.ours.as_bytes());
            out.actions.push(Action::Send { peer: id, message: Message::Bitfield(bytes) });
            proof {
                let i = choose|i: int| 0 <= i < self.ours@.len() && self.ours@[i];
                assert(old(self).have()[i]);
            }
        } else {
            proof {
                assert forall|i: int| 0 <= i < old(self).have().len() implies !#[trigger] old(self).have()[i] by {
                    assert(!self.ours@[i]);
                }
            }
        }
        let ghost before = self.peers@;
        self.peers.push(peer);
        proof {
            assert(ids_of(self.peers@) =~= ids_of(before).push(id));
            assert forall|k: int| 0 <= k < self.peers@.len() implies #[trigger] self.peers@[k].wf(
                self.hashes@.len(),
                self.piece_length as nat,
                self.total_length as nat,
            ) && self.peers@[k].ident() < self.next_id by {
                if k < before.len() {
                    assert(self.peers@[k] == before[k]);
                }
            }
            assert(self.peers@.drop_last() =~= before);
        }
        out
    }

    /// Peer `id`'s connection ended.
    pub fn on_died(&mut self, id: u64) -> (r: Output)
        requires
            old(self).wf(),
        ensures
            final(self).wf(),
            forall|x: u64| #[trigger] ids_of(final(self).peer_list()).contains(x) <==> (ids_of(old(self).peer_list()).contains(x) && x != id),
            final(self).have() == old(self).have(),
            final(self).waiting() == old(self).waiting(),
            final(self).attempts() == old(self).attempts(),
            r.events@.len() == 0,
            r.actions@ == if ids_of(old(self).peer_list()).contains(id) {
                seq![Action::Close { peer: id }]
            } else {
                Seq::<Action>::empty()
            },
            ids_of(old(self).peer_list()).contains(id) ==> {
                &&& final(self).peer_list() == old(self).peer_list().remove(old(self).index_of(id))
                &&& (final(self).avail(), final(self).fetchers()) == old(self).without_peer(
                    old(self).peer_list()[old(self).index_of(id)],
                )
            },
            !ids_of(old(self).peer_list()).contains(id) ==> final(self).peer_list() == old(self).peer_list()
                && final(self).avail() == old(self).avail() && final(self).fetchers() == old(self).fetchers(),
    {
        let mut out = Output { actions: Vec::new(), events: Vec::new() };
        self.remove_peer(id, &mut out);
        proof {
            assert(Seq::<Action>::empty().push(Action::Close { peer: id }) =~= seq![Action::Close { peer: id }]);
        }
        out
    }

    /// Bytes served to a peer.
    pub fn note_uploaded(&mut self, length: u32)
        requires
            old(self).wf(),
        ensures
            final(self).wf(),
            final(self).up() == if old(self).up() + length <= u64::MAX {
                (old(self).up() + length) as u64
            } else {
                u64::MAX
            },
            final(self).peer_list() == old(self).peer_list(),
            final(self).have() == old(self).have(),
    {
        self.uploaded = self.uploaded.saturating_add(length as u64);
    }
}

impl Engine {
    /// Takes out the peer at `k`, to be put back by `put_peer`.
    fn take_peer(&mut self, k: usize) -> (p: Peer)
        requires
            old(self).wf(),
            k < old(self).peers@.len(),
        ensures
            p == old(self).peers@[k as int],
            final(self).peers@ == old(self).peers@.remove(k as int),
            p.wf(old(self).hashes@.len(), old(self).piece_length as nat, old(self).total_length as nat),
            final(self).hashes@ == old(self).hashes@,
            final(self).piece_length == old(self).piece_length,
            final(self).total_length == old(self).total_length,
            final(self).ours == old(self).ours,
            final(self).availability == old(self).availability,
            final(self).picker == old(self).picker,
            final(self).queue == old(self).queue,
            final(self).known == old(self).known,
            final(self).connecting == old(self).connecting,
            final(self).next_id == old(self).next_id,
            final(self).empty_rounds == old(self).empty_rounds,
            final(self).rotor == old(self).rotor,
            final(self).downloaded == old(self).downloaded,
            final(self).timer == old(self).timer,
            final(self).uploaded == old(self).uploaded,
            final(self).max_peers == old(self).max_peers,
            final(self).last_choke == old(self).last_choke,
    {
        proof {
            assert(old(self).peers@[k as int].wf(self.hashes@.len(), self.piece_length as nat, self.total_length as nat));
        }
        self.peers.remove(k)
    }

    /// Puts a peer taken out at `k` back, with the same id.
    fn put_peer(&mut self, k: usize, p: Peer, Ghost(before): Ghost<Seq<Peer>>)
        requires
            k <= old(self).peers@.len(),
            0 <= k < before.len(),
            old(self).peers@ == before.remove(k as int),
            p.id == before[k as int].id,
            p.wf(old(self).hashes@.len(), old(self).piece_length as nat, old(self).total_length as nat),
            forall|j: int|
                0 <= j < before.len() ==> #[trigger] before[j].wf(
                    old(self).hashes@.len(),
                    old(self).piece_length as nat,
                    old(self).total_length as nat,
                ),
            forall|j: int| 0 <= j < before.len() ==> #[trigger] before[j].ident() < old(self).next_id,
            ids_of(before).no_duplicates(),
            old(self).hashes@.len() <= u32::MAX,
            old(self).ours@.len() == old(self).hashes@.len(),
            old(self).availability@.len() == old(self).hashes@.len(),
            old(self).piece_length > 0,
            old(self).piece_length <= u32::MAX,
            old(self).empty_rounds < MAX_EMPTY_ROUNDS,
            old(self).hashes@.len() * old(self).piece_length <= u64::MAX,
            counts_positive(old(self).picker.active_map()),
            old(self).picker.cap() == ENDGAME_DUP,
            old(self).rotor.period() == OPTIMISTIC_INTERVAL_MS,
        ensures
            final(self).wf(),
            final(self).peers@ == before.update(k as int, p),
            ids_of(final(self).peers@) == ids_of(before),
            final(self).hashes@ == old(self).hashes@,
            final(self).ours == old(self).ours,
            final(self).availability == old(self).availability,
            final(self).picker == old(self).picker,
            final(self).queue == old(self).queue,
            final(self).known == old(self).known,
            final(self).connecting == old(self).connecting,
            final(self).next_id == old(self).next_id,
            final(self).downloaded == old(self).downloaded,
            final(self).piece_length == old(self).piece_length,
            final(self).total_length == old(self).total_length,
            final(self).rotor == old(self).rotor,
            final(self).timer == old(self).timer,
            final(self).empty_rounds == old(self).empty_rounds,
            final(self).uploaded == old(self).uploaded,
            final(self).max_peers == old(self).max_peers,
            final(self).last_choke == old(self).last_choke,
    {
        self.peers.insert(k, p);
        proof {
            assert(self.peers@ =~= before.update(k as int, p));
            self.lemma_replace_peer_at(before, k as int, p);
        }
    }

    /// A message from peer `id` at `now`. Its flags change as the message
    /// says; a bitfield or `Have` records what the peer has; a choke puts
    /// the blocks asked of it back to do; a request we may serve becomes a
    /// `Serve`; a block we asked for lands in its piece, and a piece that
    /// is whole is checked. Only a piece whose bytes hash right is stored,
    /// a piece becomes ours only together with its `Store`, and no piece
    /// that was ours is lost.
    pub fn on_message(&mut self, id: u64, message: Message, now: u64) -> (r: Output)
        requires
            old(self).wf(),
        ensures
            final(self).wf(),
            final(self).waiting() == old(self).waiting(),
            final(self).learned() == old(self).learned(),
            final(self).attempts() == old(self).attempts(),
            forall|x: u64| #[trigger] ids_of(final(self).peer_list()).contains(x) ==> ids_of(old(self).peer_list()).contains(x),
            !ids_of(old(self).peer_list()).contains(id) ==> r.actions@.len() == 0 && r.events@.len() == 0
                && final(self).peer_list() == old(self).peer_list(),
            !(message is Piece) ==> final(self).have() == old(self).have(),
            old(self).stores_checked(r.actions@),
            final(self).piece_count() == old(self).piece_count(),
            forall|i: int| #[trigger] final(self).hash_of(i) == old(self).hash_of(i),
            final(self).have().len() == old(self).have().len(),
            forall|i: int|
                0 <= i < old(self).have().len() && #[trigger] final(self).have()[i] != old(self).have()[i] ==> !old(
                    self,
                ).have()[i] && Self::stores(r.actions@, i),
            message matches Message::Request { index, begin, length } ==> r.events@.len() == 0 && (
            r.actions@ == if exists|k: int|
                0 <= k < old(self).peer_list().len() && old(self).peer_list()[k].ident() == id
                    && #[trigger] old(self).peer_list()[k].flags().peer_interested
                    && !old(self).peer_list()[k].flags().am_choking && index < old(self).have().len()
                    && old(self).have()[index as int] && 0 < length <= MAX_SERVED_BLOCK {
                seq![Action::Serve { peer: id, index, begin, length }]
            } else {
                Seq::<Action>::empty()
            }),
            message is Bitfield && ids_of(old(self).peer_list()).contains(id) ==> if bitfield_fits(
                message->Bitfield_0@,
                old(self).have().len(),
            ) {
                &&& r.actions@.len() == 0
                &&& final(self).avail() == counts_after_bitfield(
                    old(self).avail(),
                    old(self).peer_list()[old(self).index_of(id)],
                    final(self).peer_list()[old(self).index_of(id)].has_pieces(),
                )
                &&& final(self).peer_list()[old(self).index_of(id)].ident() == id
                &&& exists|k: int|
                    0 <= k < final(self).peer_list().len() && #[trigger] final(self).peer_list()[k].ident() == id
                        && final(self).peer_list()[k].told() && crate::pieces::packs(
                        message->Bitfield_0@,
                        final(self).peer_list()[k].has_pieces(),
                    )
            } else {
                &&& !ids_of(final(self).peer_list()).contains(id)
                &&& r.actions@ == seq![Action::Close { peer: id }]
            },
            message matches Message::Have(index) ==> r.actions@.len() == 0 && forall|k: int|
                0 <= k < final(self).peer_list().len() && #[trigger] final(self).peer_list()[k].ident() == id
                    ==> final(self).peer_list()[k].told() && (index < final(self).peer_list()[k].has_pieces().len()
                    ==> final(self).peer_list()[k].has_pieces()[index as int]),
            message matches Message::Have(index) ==> (ids_of(old(self).peer_list()).contains(id)
                ==> final(self).avail() == (if index < old(self).avail().len() && !old(self).peer_list()[old(self).index_of(
                id,
            )].has_pieces()[index as int] && old(self).avail()[index as int] < u32::MAX {
                old(self).avail().update(index as int, (old(self).avail()[index as int] + 1) as u32)
            } else {
                old(self).avail()
            })),
            message is Choke && ids_of(old(self).peer_list()).contains(id) ==> {
                let k = old(self).index_of(id);
                let p = old(self).peer_list()[k];
                let q = final(self).peer_list()[k];
                &&& final(self).peer_list().len() == old(self).peer_list().len()
                &&& q.ident() == id
                &&& forall|j: int|
                    0 <= j < old(self).peer_list().len() && j != k ==> #[trigger] final(self).peer_list()[j]
                        == old(self).peer_list()[j]
                &&& q.fetching() == p.fetching()
                &&& q.has_pieces() == p.has_pieces()
                &&& q.told() == p.told()
                &&& if p.fetching() is Some {
                    &&& q.asked() == Seq::<BlockRequest>::empty()
                    &&& q.to_ask() == p.to_ask() + spots(p.asked())
                } else {
                    &&& q.asked() == p.asked()
                    &&& q.to_ask() == p.to_ask()
                }
            },
            message matches Message::Piece { index, begin, data } ==> (ids_of(old(self).peer_list()).contains(id)
                ==> piece_outcome(
                *old(self),
                *final(self),
                old(self).peer_list()[old(self).index_of(id)],
                old(self).index_of(id),
                id,
                index,
                begin,
                data@,
                Seq::<Action>::empty(),
                r.actions@,
                Seq::<Event>::empty(),
                r.events@,
            )),
            !(message is Piece) && !(message is Have) && !(message is Bitfield) ==> final(self).avail() == old(
                self,
            ).avail(),
            !(message is Piece) ==> forall|k: int|
                0 <= k < final(self).peer_list().len() && #[trigger] final(self).peer_list()[k].ident() == id
                    ==> final(self).peer_list()[k].flags() == after_message(
                    old(self).peer_list()[old(self).index_of(id)].flags(),
                    message,
                ),
    {
        let mut out = Output { actions: Vec::new(), events: Vec::new() };
        let k = match self.position(id) {
            Some(k) => k,
            None => {
                proof {
                    assert forall|j: int| 0 <= j < self.peers@.len() implies #[trigger] self.peers@[j].ident() != id by {
                        assert(ids_of(self.peers@)[j] == self.peers@[j].ident());
                    }
                }
                return out;
            },
        };
        proof {
            self.lemma_index_of(k as int, id);
        }
        let ghost before = self.peers@;
        let mut peer = self.take_peer(k);
        peer.state.on_message(&message);
        self.put_peer(k, peer, Ghost(before));
        let ghost mid = self.peers@;
        proof {
            self.lemma_index_of(k as int, id);
            assert(ids_of(self.peers@)[k as int] == id);
            assert(mid[k as int].flags() == after_message(old(self).peer_list()[old(self).index_of(id)].flags(), message));
        }
        match message {
            Message::Bitfield(bytes) => self.peer_bitfield(k, id, bytes, &mut out),
            Message::Have(index) => {
                self.peer_have(k, id, index);
                proof {
                    self.lemma_index_of(k as int, id);
                }
            },
            Message::Choke => {
                self.peer_choked(k, id);
                proof {
                    self.lemma_index_of(k as int, id);
                }
            },
            Message::Request { index, begin, length } => {
                proof {
                    assert(self.peers@[k as int].state == old(self).peers@[k as int].state);
                }
                if self.peers[k].state.may_upload() && self.ours.has(index) && length <= MAX_SERVED_BLOCK
                    && length > 0 {
                    out.actions.push(Action::Serve { peer: id, index, begin, length });
                }
                proof {
                    assert(self.ours@ == old(self).have());
                    if out.actions@.len() == 0 {
                        assert forall|j: int|
                            0 <= j < old(self).peer_list().len() && old(self).peer_list()[j].ident() == id implies !(
                                #[trigger] old(self).peer_list()[j].flags().peer_interested
                                && !old(self).peer_list()[j].flags().am_choking && index < old(self).have().len()
                                && old(self).have()[index as int] && 0 < length <= MAX_SERVED_BLOCK) by {
                            assert(ids_of(before)[j] == id);
                            assert(ids_of(before)[k as int] == id);
                        }
                    } else {
                        assert(old(self).peer_list()[k as int].ident() == id);
                        assert(out.actions@ =~= seq![Action::Serve { peer: id, index, begin, length }]);
                    }
                }
            },
            Message::Piece { index, begin, data } => {
                let ghost d = data@;
                let ghost mid_e = *self;
                let ghost acts0 = out.actions@;
                let ghost ev0 = out.events@;
                self.peer_piece(k, id, index, begin, data, now, &mut out);
                proof {
                    assert(acts0 =~= Seq::<Action>::empty());
                    assert(ev0 =~= Seq::<Event>::empty());
                    let p = old(self).peers@[k as int];
                    let pm = mid_e.peers@[k as int];
                    assert(pm.fetching() == p.fetching() && pm.asked() == p.asked() && pm.piece_bytes() == p.piece_bytes()
                        && pm.got() == p.got() && pm.failures() == p.failures() && pm.to_ask() == p.to_ask()
                        && pm.has_pieces() == p.has_pieces() && pm.told() == p.told());
                    assert forall|j: int| 0 <= j < old(self).peers@.len() && j != k implies #[trigger] mid_e.peers@[j]
                        == old(self).peers@[j] by {
                        assert(mid_e.peers@[j] == before[j]);
                    }
                    assert forall|j: int| 0 <= j < old(self).peers@.len() implies #[trigger] mid_e.peers@[j].ident()
                        == old(self).peers@[j].ident() by {
                        if j != k {
                            assert(mid_e.peers@[j] == before[j]);
                        }
                    }
                    if piece_whole(p, index, begin, d) && sha1_digest(bytes_after(p, index, begin, d)) == old(self).hash_of(
                        index as int,
                    ) {
                        assert forall|j: int| 0 <= j < old(self).peers@.len() implies sends(
                            out.actions@,
                            #[trigger] old(self).peers@[j].ident(),
                            Message::Have(index),
                        ) by {
                            assert(mid_e.peers@[j].ident() == old(self).peers@[j].ident());
                        }
                    }
                    assert(piece_outcome(
                        *old(self),
                        *self,
                        p,
                        k as int,
                        id,
                        index,
                        begin,
                        d,
                        acts0,
                        out.actions@,
                        ev0,
                        out.events@,
                    ));
                }
            },
            _ => {},
        }
        out
    }

    /// The position of peer `id`, when it is connected.
    pub closed spec fn index_of(&self, id: u64) -> int {
        choose|k: int| 0 <= k < self.peers@.len() && self.peers@[k].ident() == id
    }

    proof fn lemma_index_of(&self, k: int, id: u64)
        requires
            ids_of(self.peers@).no_duplicates(),
            0 <= k < self.peers@.len(),
            self.peers@[k].ident() == id,
        ensures
            self.index_of(id) == k,
            forall|j: int| 0 <= j < self.peers@.len() && #[trigger] self.peers@[j].ident() == id ==> j == k,
    {
        assert forall|j: int| 0 <= j < self.peers@.len() && #[trigger] self.peers@[j].ident() == id implies j == k by {
            assert(ids_of(self.peers@)[j] == id);
            assert(ids_of(self.peers@)[k] == id);
        }
    }

    /// Peer `id`, at `k`, says which pieces it has. A bitfield of the wrong
    /// shape ends the connection.
    fn peer_bitfield(&mut self, k: usize, id: u64, bytes: Vec<u8>, out: &mut Output)
        requires
            old(self).wf(),
            k < old(self).peers@.len(),
            old(self).peers@[k as int].ident() == id,
            old(self).stores_checked(old(out).actions@),
        ensures
            final(self).wf(),
            final(self).hashes@ == old(self).hashes@,
            old(self).stores_checked(final(out).actions@),
            final(self).have() == old(self).have(),
            final(self).waiting() == old(self).waiting(),
            final(self).learned() == old(self).learned(),
            final(self).attempts() == old(self).attempts(),
            forall|x: u64| #[trigger] ids_of(final(self).peer_list()).contains(x) ==> ids_of(old(self).peer_list()).contains(x),
            forall|j: int|
                0 <= j < final(self).peer_list().len() && #[trigger] final(self).peer_list()[j].ident() == id
                    ==> final(self).peer_list()[j].flags() == old(self).peer_list()[k as int].flags(),
            final(out).events == old(out).events,
            bitfield_fits(bytes@, old(self).have().len()) ==> {
                &&& final(self).avail() == counts_after_bitfield(
                    old(self).avail(),
                    old(self).peers@[k as int],
                    final(self).peer_list()[k as int].has_pieces(),
                )
                &&& final(out).actions@ == old(out).actions@
                &&& final(self).peer_list().len() == old(self).peer_list().len()
                &&& final(self).peer_list()[k as int].ident() == id
                &&& final(self).peer_list()[k as int].told()
                &&& crate::pieces::packs(bytes@, final(self).peer_list()[k as int].has_pieces())
            },
            !bitfield_fits(bytes@, old(self).have().len()) ==> {
                &&& !ids_of(final(self).peer_list()).contains(id)
                &&& final(out).actions@ == old(out).actions@.push(Action::Close { peer: id })
            },
    {
        let n = self.ours.pieces();
        let ghost before = self.peers@;
        let mut peer = self.take_peer(k);
        match Bitfield::from_bytes(bytes.as_slice(), n) {
            Ok(bits) => {
                if peer.theirs_known {
                    self.availability.remove_bitfield(&peer.theirs);
                }
                peer.theirs = bits;
                peer.theirs_known = true;
                if room_to_count(&self.availability, n) {
                    self.availability.add_bitfield(&peer.theirs);
                }
                self.put_peer(k, peer, Ghost(before));
                proof {
                    self.lemma_index_of(k as int, id);
                }
            },
            Err(_) => {
                self.put_peer(k, peer, Ghost(before));
                proof {
                    assert(ids_of(self.peers@)[k as int] == id);
                }
                self.remove_peer(id, out);
                proof {
                    assert forall|j: int| 0 <= j < self.peers@.len() implies #[trigger] self.peers@[j].ident() != id by {
                        assert(ids_of(self.peers@)[j] == self.peers@[j].ident());
                    }
                }
            },
        }
    }

    /// Peer `id`, at `k`, has piece `index`.
    fn peer_have(&mut self, k: usize, id: u64, index: u32)
        requires
            old(self).wf(),
            k < old(self).peers@.len(),
            old(self).peers@[k as int].ident() == id,
        ensures
            final(self).wf(),
            final(self).hashes@ == old(self).hashes@,
            final(self).peers@.len() == old(self).peers@.len(),
            ids_of(final(self).peers@) == ids_of(old(self).peers@),
            final(self).peers@[k as int].told(),
            index < final(self).peers@[k as int].has_pieces().len() ==> final(self).peers@[k as int].has_pieces()[index as int],
            final(self).peers@[k as int].flags() == old(self).peers@[k as int].flags(),
            forall|j: int| 0 <= j < old(self).peers@.len() && j != k ==> #[trigger] final(self).peers@[j] == old(self).peers@[j],
            final(self).avail() == if index < old(self).avail().len() && !old(self).peers@[k as int].has_pieces()[index as int]
                && old(self).avail()[index as int] < u32::MAX {
                old(self).avail().update(index as int, (old(self).avail()[index as int] + 1) as u32)
            } else {
                old(self).avail()
            },
            final(self).have() == old(self).have(),
            final(self).waiting() == old(self).waiting(),
            final(self).learned() == old(self).learned(),
            final(self).attempts() == old(self).attempts(),
    {
        let ghost before = self.peers@;
        let mut peer = self.take_peer(k);
        if !peer.theirs.has(index) {
            peer.theirs.set(index);
            if self.availability.count(index) < u32::MAX {
                self.availability.add_have(index);
            }
        }
        peer.theirs_known = true;
        proof {
            assert(index < peer.theirs@.len() ==> peer.theirs@[index as int]);
        }
        self.put_peer(k, peer, Ghost(before));
    }

    /// Peer `id`, at `k`, choked us: what we asked of it is to do again.
    fn peer_choked(&mut self, k: usize, id: u64)
        requires
            old(self).wf(),
            k < old(self).peers@.len(),
            old(self).peers@[k as int].ident() == id,
        ensures
            final(self).wf(),
            final(self).hashes@ == old(self).hashes@,
            final(self).peers@.len() == old(self).peers@.len(),
            ids_of(final(self).peers@) == ids_of(old(self).peers@),
            final(self).peers@[k as int].flags() == old(self).peers@[k as int].flags(),
            forall|j: int| 0 <= j < old(self).peers@.len() && j != k ==> #[trigger] final(self).peers@[j] == old(self).peers@[j],
            final(self).peers@[k as int].fetching() == old(self).peers@[k as int].fetching(),
            final(self).peers@[k as int].has_pieces() == old(self).peers@[k as int].has_pieces(),
            final(self).peers@[k as int].told() == old(self).peers@[k as int].told(),
            final(self).peers@[k as int].received_from() == old(self).peers@[k as int].received_from(),
            old(self).peers@[k as int].fetching() is Some ==> {
                &&& final(self).peers@[k as int].asked() == Seq::<BlockRequest>::empty()
                &&& final(self).peers@[k as int].to_ask() == old(self).peers@[k as int].to_ask() + spots(
                    old(self).peers@[k as int].asked(),
                )
            },
            old(self).peers@[k as int].fetching() is None ==> final(self).peers@[k as int] == old(self).peers@[k as int],
            final(self).avail() == old(self).avail(),
            final(self).have() == old(self).have(),
            final(self).waiting() == old(self).waiting(),
            final(self).learned() == old(self).learned(),
            final(self).attempts() == old(self).attempts(),
    {
        let n = self.ours.pieces();
        let ghost before = self.peers@;
        let mut peer = self.take_peer(k);
        let ghost p0 = peer;
        match peer.job {
            Some(mut job) => {
                let blocks = peer.pipeline.drain();
                let ghost todo0 = job.pending@;
                let ghost idx = job.index;
                proof {
                    assert(blocks@ =~= p0.asked());
                }
                let mut b: usize = 0;
                while b < blocks.len()
                    invariant
                        b <= blocks@.len(),
                        job.index < n,
                        job.data@.len() == piece_size_of(
                            self.piece_length as nat,
                            self.total_length as nat,
                            job.index as nat,
                        ),
                        job.pending@ == todo0 + spots(blocks@.take(b as int)),
                        job.index == idx,
                    decreases blocks.len() - b,
                {
                    proof {
                        assert(spots(blocks@.take(b + 1)) =~= spots(blocks@.take(b as int)).push(
                            (blocks@[b as int].begin, blocks@[b as int].length),
                        ));
                    }
                    job.pending.push((blocks[b].begin, blocks[b].length));
                    b = b + 1;
                }
                proof {
                    assert(blocks@.take(b as int) =~= blocks@);
                }
                peer.job = Some(job);
                proof {
                    assert(peer.asked() =~= Seq::<BlockRequest>::empty());
                }
            },
            None => {},
        }
        self.put_peer(k, peer, Ghost(before));
    }

    /// A block of piece `index` at `begin` from peer `id`, at `k`, at
    /// `now`: if we asked for it, it lands in the piece; a whole piece is
    /// checked.
    fn peer_piece(&mut self, k: usize, id: u64, index: u32, begin: u32, data: Vec<u8>, now: u64, out: &mut Output)
        requires
            old(self).wf(),
            k < old(self).peers@.len(),
            old(self).peers@[k as int].ident() == id,
            old(self).stores_checked(old(out).actions@),
        ensures
            final(self).wf(),
            final(self).hashes@ == old(self).hashes@,
            old(self).stores_checked(final(out).actions@),
            final(self).have().len() == old(self).have().len(),
            forall|i: int|
                0 <= i < old(self).have().len() && #[trigger] final(self).have()[i] != old(self).have()[i] ==> !old(
                    self,
                ).have()[i] && Self::stores(final(out).actions@, i),
            final(self).waiting() == old(self).waiting(),
            final(self).learned() == old(self).learned(),
            final(self).attempts() == old(self).attempts(),
            forall|x: u64| #[trigger] ids_of(final(self).peer_list()).contains(x) ==> ids_of(old(self).peer_list()).contains(x),
            forall|j: int|
                0 <= j < final(self).peers@.len() && #[trigger] final(self).peers@[j].ident() == id ==> {
                    &&& final(self).peers@[j].received_from() == (if old(self).peers@[k as int].received_from() + data@.len()
                        > u64::MAX {
                        u64::MAX as int
                    } else {
                        old(self).peers@[k as int].received_from() + data@.len()
                    })
                    &&& final(self).peers@[j].heard_at() == now
                    &&& final(self).peers@[j].flags() == old(self).peers@[k as int].flags()
                },
            old(self).peers@[k as int].fetching() == Some(index) && !piece_whole(old(self).peers@[k as int], index, begin, data@)
                ==> {
                let p = old(self).peers@[k as int];
                let q = final(self).peers@[k as int];
                &&& final(self).peers@.len() == old(self).peers@.len()
                &&& forall|j: int|
                    0 <= j < old(self).peers@.len() && j != k ==> #[trigger] final(self).peers@[j] == old(self).peers@[j]
                &&& q.ident() == id
                &&& q.has_pieces() == p.has_pieces()
                &&& q.told() == p.told()
                &&& q.fetching() == p.fetching()
                &&& q.to_ask() == p.to_ask()
                &&& q.failures() == p.failures()
                &&& q.piece_bytes() == bytes_after(p, index, begin, data@)
                &&& q.got() == got_after(p, index, begin, data@)
                &&& block_asked(p, index, begin, data@.len() as u32) ==> exists|w: int|
                    0 <= w < p.asked().len() && crate::requests::request_matches(
                        #[trigger] p.asked()[w],
                        index,
                        begin,
                        data@.len() as u32,
                    ) && (forall|v: int|
                        0 <= v < w ==> !crate::requests::request_matches(p.asked()[v], index, begin, data@.len() as u32))
                        && q.asked() == p.asked().remove(w)
                &&& !block_asked(p, index, begin, data@.len() as u32) ==> q.asked() == p.asked()
                &&& final(self).have() == old(self).have()
                &&& final(self).avail() == old(self).avail()
                &&& final(out).actions@ == old(out).actions@
                &&& final(out).events@ == old(out).events@
            },
            piece_whole(old(self).peers@[k as int], index, begin, data@) ==> {
                let p = old(self).peers@[k as int];
                let bytes = bytes_after(p, index, begin, data@);
                &&& sha1_digest(bytes) == old(self).hash_of(index as int) ==> {
                    &&& final(self).have() == old(self).have().update(index as int, true)
                    &&& final(self).down() == (if old(self).down() + bytes.len() > u64::MAX {
                        u64::MAX as int
                    } else {
                        old(self).down() + bytes.len()
                    })
                    &&& stores_bytes(final(out).actions@, index, bytes)
                    &&& forall|j: int|
                        0 <= j < old(self).peers@.len() ==> sends(
                            final(out).actions@,
                            #[trigger] old(self).peers@[j].ident(),
                            Message::Have(index),
                        )
                    &&& final(out).events@ == old(out).events@.push(
                        Event::PieceDone {
                            index,
                            have: crate::pieces::count_true(final(self).have()) as u32,
                            total: old(self).piece_count() as u32,
                        },
                    )
                }
                &&& sha1_digest(bytes) != old(self).hash_of(index as int) ==> {
                    &&& final(self).have() == old(self).have()
                    &&& final(self).down() == old(self).down()
                    &&& final(out).events == old(out).events
                    &&& p.failures() + 1 >= MAX_VERIFY_FAILURES ==> !ids_of(final(self).peers@).contains(id)
                        && final(out).actions@.contains(Action::Close { peer: id })
                    &&& p.failures() + 1 < MAX_VERIFY_FAILURES ==> forall|j: int|
                        0 <= j < final(self).peers@.len() && #[trigger] final(self).peers@[j].ident() == id ==> {
                            &&& final(self).peers@[j].fetching() == Some(index)
                            &&& final(self).peers@[j].piece_bytes() == bytes
                            &&& final(self).peers@[j].got() == 0
                            &&& final(self).peers@[j].failures() == p.failures() + 1
                            &&& final(self).peers@[j].to_ask() == all_blocks(bytes.len())
                        }
                }
            },
            old(self).peers@[k as int].fetching() != Some(index) ==> {
                &&& final(self).peers@.len() == old(self).peers@.len()
                &&& forall|j: int|
                    0 <= j < old(self).peers@.len() && j != k ==> #[trigger] final(self).peers@[j] == old(self).peers@[j]
                &&& final(self).peers@[k as int].ident() == id
                &&& final(self).peers@[k as int].has_pieces() == old(self).peers@[k as int].has_pieces()
                &&& final(self).peers@[k as int].told() == old(self).peers@[k as int].told()
                &&& final(self).peers@[k as int].fetching() == old(self).peers@[k as int].fetching()
                &&& final(self).peers@[k as int].asked() == old(self).peers@[k as int].asked()
                &&& final(self).peers@[k as int].to_ask() == old(self).peers@[k as int].to_ask()
                &&& final(self).have() == old(self).have()
                &&& final(self).avail() == old(self).avail()
                &&& final(out).actions@ == old(out).actions@
                &&& final(out).events@ == old(out).events@
            },
    {
        let ghost before = self.peers@;
        let ghost p = old(self).peers@[k as int];
        let mut peer = self.take_peer(k);
        peer.downloaded_from = peer.downloaded_from.saturating_add(data.len() as u64);
        peer.last_useful = now;
        let mut finished: Option<PieceJob> = None;
        match peer.job {
            Some(mut job) => {
                let ghost reqs0 = peer.pipeline.requests();
                proof {
                    assert(p.asked() == reqs0.map_values(|e: (BlockRequest, u64)| e.0));
                }
                if job.index == index && peer.pipeline.complete(index, begin, data.len() as u32).is_some() {
                    proof {
                        let w = choose|w: int|
                            0 <= w < reqs0.len() && crate::requests::request_matches(
                                #[trigger] reqs0[w].0,
                                index,
                                begin,
                                data@.len() as u32,
                            ) && (forall|v: int|
                                0 <= v < w ==> !crate::requests::request_matches(reqs0[v].0, index, begin, data@.len() as u32))
                                && peer.pipeline.requests() == reqs0.remove(w);
                        assert(p.asked()[w] == reqs0[w].0);
                        assert(block_asked(p, index, begin, data@.len() as u32));
                        assert(peer.asked() =~= p.asked().remove(w));
                        assert forall|v: int| 0 <= v < w implies !crate::requests::request_matches(p.asked()[v], index, begin, data@.len() as u32) by {
                            assert(p.asked()[v] == reqs0[v].0);
                        }
                    }
                    let start = begin as usize;
                    if start <= job.data.len() && data.len() <= job.data.len() - start {
                        let ghost len0 = job.data@.len();
                        crate::wire::copy_into(&mut job.data, start, data.as_slice());
                        assert(job.data@.len() == len0);
                        job.received = job.received.saturating_add(data.len() as u64);
                    }
                } else {
                    proof {
                        if job.index == index {
                            assert forall|i: int| 0 <= i < p.asked().len() implies !crate::requests::request_matches(
                                #[trigger] p.asked()[i],
                                index,
                                begin,
                                data@.len() as u32,
                            ) by {
                                assert(p.asked()[i] == reqs0[i].0);
                            }
                        }
                        assert(peer.asked() =~= p.asked());
                    }
                }
                proof {
                    assert(job.data@.len() == piece_size_of(self.piece_length as nat, self.total_length as nat, job.index as nat));
                    assert(job.data@ == bytes_after(p, index, begin, data@));
                    assert(job.received == got_after(p, index, begin, data@));
                }
                if job.index == index && job.done() {
                    finished = Some(job);
                    peer.job = None;
                } else {
                    peer.job = Some(job);
                }
            },
            None => {},
        }
        self.put_peer(k, peer, Ghost(before));
        proof {
            self.lemma_index_of(k as int, id);
        }
        let ghost mid = self.peers@;
        proof {
            assert(mid[k as int] == peer);
        }
        match finished {
            Some(job) => {
                proof {
                    assert(ids_of(mid)[k as int] == id);
                    assert forall|j: int| 0 <= j < mid.len() implies #[trigger] mid[j].ident() == old(self).peers@[j].ident() by {
                        if j != k {
                            assert(mid[j] == before[j]);
                        }
                    }
                }
                let ghost jd = job.data@;
                self.finish_piece(id, job, out);
                proof {
                    if sha1_digest(jd) == old(self).hashes@[index as int]@ {
                        assert forall|j: int| 0 <= j < old(self).peers@.len() implies sends(
                            out.actions@,
                            #[trigger] old(self).peers@[j].ident(),
                            Message::Have(index),
                        ) by {
                            assert(mid[j].ident() == old(self).peers@[j].ident());
                        }
                    }
                    assert forall|j: int| 0 <= j < self.peers@.len() && #[trigger] self.peers@[j].ident() == id implies
                        self.peers@[j].received_from() == peer.downloaded_from && self.peers@[j].heard_at() == now
                        && self.peers@[j].flags() == peer.state by {
                        assert(mid[k as int].ident() == id);
                        assert(self.peers@[j].received_from() == mid[k as int].received_from());
                    }
                }
            },
            None => {
                proof {
                    assert forall|j: int| 0 <= j < self.peers@.len() && #[trigger] self.peers@[j].ident() == id implies j
                        == k by {
                        lemma_one_with_id(self.peers@, j, k as int, id);
                    }
                }
            },
        }
    }

    /// Piece `job` arrived whole from peer `id`. If it hashes right it is
    /// stored and becomes ours, every peer hears of it, and others fetching
    /// it stop; else the peer tries again, or is dropped after too many
    /// failures.
    fn finish_piece(&mut self, id: u64, job: PieceJob, out: &mut Output)
        requires
            old(self).wf(),
            job.index < old(self).piece_count(),
            job.data@.len() == piece_size_of(old(self).piece_length as nat, old(self).total_length as nat, job.index as nat),
            old(self).stores_checked(old(out).actions@),
        ensures
            final(self).wf(),
            final(self).hashes@ == old(self).hashes@,
            old(self).stores_checked(final(out).actions@),
            sha1_digest(job.data@) == old(self).hashes@[job.index as int]@ ==> Self::stores(final(out).actions@, job.index as int),
            final(self).waiting() == old(self).waiting(),
            final(self).learned() == old(self).learned(),
            final(self).attempts() == old(self).attempts(),
            forall|x: u64| #[trigger] ids_of(final(self).peer_list()).contains(x) ==> ids_of(old(self).peer_list()).contains(x),
            final(self).have() == if sha1_digest(job.data@) == old(self).hashes@[job.index as int]@ {
                old(self).have().update(job.index as int, true)
            } else {
                old(self).have()
            },
            forall|j: int, i: int|
                #![trigger final(self).peers@[j], old(self).peers@[i]]
                0 <= j < final(self).peers@.len() && 0 <= i < old(self).peers@.len() && final(self).peers@[j].ident()
                    == id && old(self).peers@[i].ident() == id ==> final(self).peers@[j].received_from() == old(
                    self,
                ).peers@[i].received_from() && final(self).peers@[j].heard_at() == old(self).peers@[i].heard_at()
                    && final(self).peers@[j].flags() == old(self).peers@[i].flags(),
            sha1_digest(job.data@) == old(self).hashes@[job.index as int]@ ==> {
                &&& final(self).down() == (if old(self).down() + job.data@.len() > u64::MAX {
                    u64::MAX as int
                } else {
                    old(self).down() + job.data@.len()
                })
                &&& stores_bytes(final(out).actions@, job.index, job.data@)
                &&& forall|j: int|
                    0 <= j < old(self).peers@.len() ==> sends(
                        final(out).actions@,
                        #[trigger] old(self).peers@[j].ident(),
                        Message::Have(job.index),
                    )
                &&& final(out).events@ == old(out).events@.push(
                    Event::PieceDone {
                        index: job.index,
                        have: crate::pieces::count_true(final(self).have()) as u32,
                        total: old(self).piece_count() as u32,
                    },
                )
            },
            sha1_digest(job.data@) != old(self).hashes@[job.index as int]@ ==> {
                &&& final(out).events == old(out).events
                &&& final(self).down() == old(self).down()
                &&& job.failures + 1 >= MAX_VERIFY_FAILURES ==> !ids_of(final(self).peers@).contains(id)
                    && (ids_of(old(self).peers@).contains(id) ==> final(out).actions@.contains(Action::Close { peer: id }))
                &&& job.failures + 1 < MAX_VERIFY_FAILURES ==> forall|j: int|
                    0 <= j < final(self).peers@.len() && #[trigger] final(self).peers@[j].ident() == id ==> {
                        &&& final(self).peers@[j].fetching() == Some(job.index)
                        &&& final(self).peers@[j].piece_bytes() == job.data@
                        &&& final(self).peers@[j].got() == 0
                        &&& final(self).peers@[j].failures() == job.failures + 1
                        &&& final(self).peers@[j].to_ask() == all_blocks(job.data@.len())
                    }
            },
    {
        let index = job.index;
        if verify_piece(job.data.as_slice(), &self.hashes[index as usize]) {
            let size = job.data.len() as u64;
            self.ours.set(index);
            self.downloaded = self.downloaded.saturating_add(size);
            self.picker.complete(index);
            let ghost stored = job.data@;
            let ghost pos = out.actions@.len() as int;
            out.actions.push(Action::Store { index, data: job.data });
            let ghost dl = self.downloaded;
            proof {
                assert(out.actions@[pos] matches Action::Store { index: i, data } && i == index && data@ == stored);
            }
            let mut k: usize = 0;
            while k < self.peers.len()
                invariant
                    self.wf(),
                    self.hashes@ == old(self).hashes@,
                    old(self).stores_checked(out.actions@),
                    0 <= pos < out.actions@.len(),
                    out.actions@[pos] matches Action::Store { index: i, data } && i == index && data@ == stored,
                    index < old(self).piece_count(),
                    k <= self.peers@.len(),
                    out.events == old(out).events,
                    self.downloaded == dl,
                    forall|j: int| 0 <= j < k ==> sends(out.actions@, #[trigger] old(self).peers@[j].ident(), Message::Have(index)),
                    self.peers@.len() == old(self).peers@.len(),
                    ids_of(self.peers@) == ids_of(old(self).peers@),
                    self.waiting() == old(self).waiting(),
                    self.learned() == old(self).learned(),
                    self.attempts() == old(self).attempts(),
                    self.have() == old(self).have().update(index as int, true),
                    forall|j: int|
                        0 <= j < self.peers@.len() ==> #[trigger] self.peers@[j].received_from() == old(
                            self,
                        ).peers@[j].received_from() && self.peers@[j].heard_at() == old(self).peers@[j].heard_at()
                            && self.peers@[j].flags() == old(self).peers@[j].flags(),
                decreases self.peers.len() - k,
            {
                let ghost before = self.peers@;
                proof {
                    assert(before[k as int].wf(self.hashes@.len(), self.piece_length as nat, self.total_length as nat));
                }
                let mut other = self.peers.remove(k);
                let ghost acts0 = out.actions@;
                out.actions.push(Action::Send { peer: other.id, message: Message::Have(index) });
                let ghost acts_k = out.actions@;
                if other.id != id {
                    let same = match &other.job {
                        Some(j) => j.index == index,
                        None => false,
                    };
                    if same {
                        let blocks = other.pipeline.drain();
                        let mut b: usize = 0;
                        while b < blocks.len()
                            invariant
                                b <= blocks@.len(),
                                old(self).stores_checked(out.actions@),
                                0 <= pos < out.actions@.len(),
                                out.actions@[pos] matches Action::Store { index: i, data } && i == index && data@ == stored,
                                acts_k.len() <= out.actions@.len(),
                                out.actions@.subrange(0, acts_k.len() as int) == acts_k,
                                out.events == old(out).events,
                            decreases blocks.len() - b,
                        {
                            out.actions.push(
                                Action::Send {
                                    peer: other.id,
                                    message: Message::Cancel {
                                        index: blocks[b].piece,
                                        begin: blocks[b].begin,
                                        length: blocks[b].length,
                                    },
                                },
                            );
                            proof {
                                assert(out.actions@.subrange(0, acts_k.len() as int) =~= acts_k);
                            }
                            b = b + 1;
                        }
                        other.job = None;
                    }
                }
                self.peers.insert(k, other);
                proof {
                    assert(acts_k.len() <= out.actions@.len() && out.actions@.subrange(0, acts_k.len() as int) == acts_k);
                    assert(ids_of(before)[k as int] == ids_of(old(self).peers@)[k as int]);
                    assert forall|j: int| 0 <= j < k + 1 implies sends(
                        out.actions@,
                        #[trigger] old(self).peers@[j].ident(),
                        Message::Have(index),
                    ) by {
                        if j < k {
                            let w = choose|w: int| 0 <= w < acts0.len() && acts0[w] == Action::Send {
                                peer: old(self).peers@[j].ident(),
                                message: Message::Have(index),
                            };
                            assert(out.actions@[w] == out.actions@.subrange(0, acts_k.len() as int)[w]);
                        } else {
                            assert(out.actions@[acts0.len() as int] == out.actions@.subrange(0, acts_k.len() as int)[acts0.len() as int]);
                        }
                    }
                    assert(self.peers@ == before.update(k as int, other));
                    assert(other.downloaded_from == before[k as int].downloaded_from);
                    assert(other.last_useful == before[k as int].last_useful);
                    assert(other.state == before[k as int].state);
                    assert forall|j: int| 0 <= j < self.peers@.len() implies self.peers@[j].received_from()
                        == old(self).peers@[j].received_from() && self.peers@[j].heard_at() == old(self).peers@[j].heard_at()
                        && self.peers@[j].flags() == old(self).peers@[j].flags() by {
                        assert(before[j].received_from() == old(self).peers@[j].received_from());
                        if j != k {
                            assert(self.peers@[j] == before[j]);
                        } else {
                            assert(self.peers@[j] == other);
                        }
                    }
                    self.lemma_replace_peer_at(before, k as int, other);
                    let n = self.hashes@.len();
                    assert(n <= u32::MAX);
                    assert(self.ours@.len() == n);
                    assert(self.availability@.len() == n);
                    assert(self.empty_rounds < MAX_EMPTY_ROUNDS);
                    assert(counts_positive(self.picker.active_map()));
                    assert(ids_of(self.peers@).no_duplicates());
                    assert(self.piece_length > 0);
                    assert(self.picker.cap() == ENDGAME_DUP);
                    assert(self.rotor.period() == OPTIMISTIC_INTERVAL_MS);
                    assert(n * self.piece_length <= u64::MAX);
                    assert(forall|j: int|
                        0 <= j < self.peers@.len() ==> #[trigger] self.peers@[j].wf(
                            n,
                            self.piece_length as nat,
                            self.total_length as nat,
                        ));
                    assert(self.wf());
                }
                k = k + 1;
            }
            proof {
                assert forall|j: int, i: int|
                    #![trigger self.peers@[j], old(self).peers@[i]]
                    0 <= j < self.peers@.len() && 0 <= i < old(self).peers@.len() && self.peers@[j].ident() == id
                        && old(self).peers@[i].ident() == id implies self.peers@[j].received_from() == old(
                        self,
                    ).peers@[i].received_from() && self.peers@[j].heard_at() == old(self).peers@[i].heard_at()
                        && self.peers@[j].flags() == old(self).peers@[i].flags() by {
                    assert(ids_of(self.peers@)[j] == id);
                    lemma_one_with_id(old(self).peers@, i, j, id);
                }
            }
            let have = self.ours.count_set();
            out.events.push(Event::PieceDone { index, have, total: self.ours.pieces() });
        } else if job.failures >= MAX_VERIFY_FAILURES - 1 {
            self.picker.abandon(index);
            let ghost acts0 = out.actions@;
            self.remove_peer(id, out);
            proof {
                assert forall|j: int| 0 <= j < self.peers@.len() implies #[trigger] self.peers@[j].ident() != id by {
                    assert(ids_of(self.peers@)[j] == self.peers@[j].ident());
                }
                if ids_of(old(self).peers@).contains(id) {
                    assert(out.actions@[acts0.len() as int] == Action::Close { peer: id });
                }
            }
        } else {
            let mut job = job;
            job.restart();
            match self.position(id) {
                Some(k) => {
                    let ghost before = self.peers@;
                    proof {
                        assert(before[k as int].wf(self.hashes@.len(), self.piece_length as nat, self.total_length as nat));
                    }
                    let mut peer = self.peers.remove(k);
                    let old_job = peer.job;
                    peer.job = Some(job);
                    match old_job {
                        Some(j) => self.picker.abandon(j.index),
                        None => {},
                    }
                    self.peers.insert(k, peer);
                    proof {
                        assert(self.peers@ == before.update(k as int, peer));
                        self.lemma_replace_peer_at(before, k as int, peer);
                        assert(peer.to_ask() =~= all_blocks(peer.piece_bytes().len()));
                        assert forall|j: int| 0 <= j < self.peers@.len() && #[trigger] self.peers@[j].ident() == id implies j
                            == k by {
                            lemma_one_with_id(self.peers@, j, k as int, id);
                        }
                        assert forall|j: int, i: int|
                            #![trigger self.peers@[j], old(self).peers@[i]]
                            0 <= j < self.peers@.len() && 0 <= i < old(self).peers@.len() && self.peers@[j].ident()
                                == id && old(self).peers@[i].ident() == id implies self.peers@[j].received_from()
                                == old(self).peers@[i].received_from() && self.peers@[j].heard_at() == old(
                                self,
                            ).peers@[i].heard_at() && self.peers@[j].flags() == old(self).peers@[i].flags() by {
                            assert(ids_of(self.peers@)[j] == id);
                            assert(ids_of(old(self).peers@)[j] == id);
                            lemma_one_with_id(old(self).peers@, i, j, id);
                        }
                    }
                },
                None => {
                    self.picker.abandon(index);
                    proof {
                        assert forall|j: int| 0 <= j < self.peers@.len() implies #[trigger] self.peers@[j].ident() != id by {
                            assert(ids_of(self.peers@)[j] == self.peers@[j].ident());
                        }
                        assert forall|j: int, i: int|
                            #![trigger self.peers@[j], old(self).peers@[i]]
                            0 <= j < self.peers@.len() && 0 <= i < old(self).peers@.len() && self.peers@[j].ident()
                                == id && old(self).peers@[i].ident() == id implies self.peers@[j].received_from()
                                == old(self).peers@[i].received_from() && self.peers@[j].heard_at() == old(
                                self,
                            ).peers@[i].heard_at() && self.peers@[j].flags() == old(self).peers@[i].flags() by {
                            lemma_one_with_id(old(self).peers@, i, j, id);
                        }
                    }
                },
            }
        }
    }

    /// Putting back a peer with the same id at its place keeps what every
    /// peer keeps.
    proof fn lemma_replace_peer_at(&self, before: Seq<Peer>, k: int, p: Peer)
        requires
            0 <= k < before.len(),
            self.peers@ == before.update(k, p),
            p.id == before[k].id,
            p.wf(self.hashes@.len(), self.piece_length as nat, self.total_length as nat),
            forall|j: int|
                0 <= j < before.len() ==> #[trigger] before[j].wf(
                    self.hashes@.len(),
                    self.piece_length as nat,
                    self.total_length as nat,
                ) && before[j].ident() < self.next_id,
        ensures
            ids_of(self.peers@) == ids_of(before),
            forall|j: int|
                0 <= j < self.peers@.len() ==> #[trigger] self.peers@[j].wf(
                    self.hashes@.len(),
                    self.piece_length as nat,
                    self.total_length as nat,
                ),
            forall|j: int| 0 <= j < self.peers@.len() ==> #[trigger] self.peers@[j].ident() < self.next_id,
    {
        assert(ids_of(self.peers@) =~= ids_of(before));
        assert forall|j: int| 0 <= j < self.peers@.len() implies #[trigger] self.peers@[j].wf(
            self.hashes@.len(),
            self.piece_length as nat,
            self.total_length as nat,
        ) && self.peers@[j].ident() < self.next_id by {
            if j != k {
                assert(self.peers@[j] == before[j]);
            } else {
                assert(before[k].wf(self.hashes@.len(), self.piece_length as nat, self.total_length as nat));
                assert(before[k].ident() < self.next_id);
            }
        }
        assert forall|j: int| 0 <= j < self.peers@.len() implies #[trigger] self.peers@[j].ident() < self.next_id by {
            assert(self.peers@[j].wf(self.hashes@.len(), self.piece_length as nat, self.total_length as nat));
        }
    }
}

/// The ids of the peers in `peers` that are interested and that we choke,
/// in order.
pub open spec fn choke_candidates(peers: Seq<Peer>) -> Seq<u64>
    decreases peers.len(),
{
    if peers.len() == 0 {
        Seq::empty()
    } else {
        let rest = choke_candidates(peers.drop_last());
        let p = peers.last();
        if p.flags().peer_interested && p.flags().am_choking {
            rest.push(p.ident())
        } else {
            rest
        }
    }
}

/// How each peer ranks for upload slots.
pub open spec fn rates_of(peers: Seq<Peer>) -> Seq<PeerRate> {
    peers.map_values(
        |p: Peer| PeerRate { id: p.ident(), downloaded_from: p.received_from(), interested: p.flags().peer_interested },
    )
}

impl Engine {
    /// The size of piece `index`.
    fn size_of(&self, index: u32) -> (r: u64)
        requires
            index < self.hashes@.len(),
            self.hashes@.len() * self.piece_length <= u64::MAX,
        ensures
            r == piece_size_of(self.piece_length as nat, self.total_length as nat, index as nat),
            r <= self.piece_length,
    {
        proof {
            assert(index * self.piece_length <= self.hashes@.len() * self.piece_length) by (nonlinear_arith)
                requires
                    index < self.hashes@.len(),
            ;
        }
        let start = index as u64 * self.piece_length;
        let left = self.total_length.saturating_sub(start);
        if self.piece_length < left {
            self.piece_length
        } else {
            left
        }
    }

    /// One peer's turn in housekeeping: overdue requests go back to do, an
    /// idle peer gets a piece to fetch, a peer that sends nothing for too
    /// long is marked dead, and requests go out while there is room.
    fn tend_peer(&mut self, k: usize, now: u64, out: &mut Output, dead: &mut Vec<u64>)
        requires
            old(self).wf(),
            k < old(self).peers@.len(),
            requests_sound(old(self).peers@, old(out).actions@),
        ensures
            requests_sound(final(self).peers@, final(out).actions@),
            final(self).wf(),
            final(self).peers@.len() == old(self).peers@.len(),
            ids_of(final(self).peers@) == ids_of(old(self).peers@),
            final(self).have() == old(self).have(),
            final(self).waiting() == old(self).waiting(),
            final(self).learned() == old(self).learned(),
            final(self).attempts() == old(self).attempts(),
            final(out).events == old(out).events,
            final(self).last_choke == old(self).last_choke,
            final(self).avail() == old(self).avail(),
            forall|j: int| 0 <= j < old(self).peers@.len() && j != k ==> #[trigger] final(self).peers@[j] == old(self).peers@[j],
            final(self).peers@[k as int].has_pieces() == old(self).peers@[k as int].has_pieces(),
            final(self).peers@[k as int].told() == old(self).peers@[k as int].told(),
            final(self).peers@[k as int].received_from() == old(self).peers@[k as int].received_from(),
            final(self).peers@[k as int].heard_at() == old(self).peers@[k as int].heard_at(),
            old(self).peers@[k as int].fetching() is Some ==> final(self).peers@[k as int].fetching() == old(self).peers@[k as int].fetching(),
            old(self).peers@[k as int].fetching() is None && !old(self).peers@[k as int].told() ==> final(self).peers@[k as int].fetching() is None,
            old(self).peers@[k as int].fetching() is None && old(self).peers@[k as int].told() ==> crate::picker::pick_choice(
                old(self).have(),
                old(self).peers@[k as int].has_pieces(),
                old(self).avail(),
                old(self).picker.active_map(),
                old(self).picker.cap(),
                final(self).peers@[k as int].fetching(),
            ),
            final(dead)@ == if snubbed(final(self).peers@[k as int], now) && !all_present(old(self).have()) {
                old(dead)@.push(old(self).peers@[k as int].ident())
            } else {
                old(dead)@
            },
            final(self).peers@[k as int].flags() == (PeerState {
                am_interested: old(self).peers@[k as int].flags().am_interested || (final(self).peers@[k as int].fetching() is Some
                    && !(snubbed(final(self).peers@[k as int], now) && !all_present(old(self).have()))),
                ..old(self).peers@[k as int].flags()
            }),
            tended(old(self).peers@[k as int], final(self).peers@[k as int], now, all_present(old(self).have())),
            picked(old(self).peers@[k as int], final(self).peers@[k as int], old(self).have(), old(self).avail()),
            filled(final(self).peers@[k as int], now, all_present(old(self).have())),
            old(out).actions@.len() <= final(out).actions@.len(),
            final(out).actions@.subrange(0, old(out).actions@.len() as int) == old(out).actions@,
            forall|i: int|
                old(out).actions@.len() <= i < final(out).actions@.len() ==> tending_action(
                    #[trigger] final(out).actions@[i],
                    old(self).peers@[k as int].ident(),
                ),
            !old(self).peers@[k as int].flags().am_interested && final(self).peers@[k as int].flags().am_interested ==> sends(
                final(out).actions@,
                old(self).peers@[k as int].ident(),
                Message::Interested,
            ),
    {
        let n = self.ours.pieces();
        let ghost before = self.peers@;
        let ghost acts0 = out.actions@;
        let mut peer = self.take_peer(k);
        let ghost p0 = peer;
        let id = peer.id;
        match peer.job {
            Some(mut job) => {
                let late = peer.pipeline.expired(now);
                let ghost idx = job.index;
                let mut b: usize = 0;
                while b < late.len()
                    invariant
                        b <= late@.len(),
                        job.index == idx,
                        job.index < n,
                        job.data@.len() == piece_size_of(
                            self.piece_length as nat,
                            self.total_length as nat,
                            job.index as nat,
                        ),
                    decreases late.len() - b,
                {
                    job.pending.push((late[b].begin, late[b].length));
                    b = b + 1;
                }
                peer.job = Some(job);
            },
            None => {},
        }
        if peer.job.is_none() && peer.theirs_known {
            match self.picker.pick(&self.ours, &peer.theirs, &self.availability) {
                Some(index) => {
                    let size = self.size_of(index);
                    peer.job = Some(PieceJob::start(index, size));
                },
                None => {},
            }
        }
        let quiet = now.saturating_sub(peer.last_useful);
        if peer.job.is_some() && quiet > SNUB_TIMEOUT_MS && !self.ours.is_complete() {
            dead.push(id);
            self.put_peer(k, peer, Ghost(before));
            proof {
                assert(out.actions@ =~= acts0 + Seq::<Action>::empty());
                lemma_sound_update(before, acts0, k as int, peer, Seq::<Action>::empty());
                if old(self).peers@[k as int].fetching() is None && old(self).peers@[k as int].told() {
                    assert(crate::picker::pick_choice(
                        old(self).have(),
                        old(self).peers@[k as int].has_pieces(),
                        old(self).avail(),
                        old(self).picker.active_map(),
                        ENDGAME_DUP,
                        self.peers@[k as int].fetching(),
                    ));
                }
            }
            return;
        }
        let ghost n0 = acts0.len();
        match peer.job {
            Some(mut job) => {
                let ghost pushed = !peer.state.am_interested;
                if !peer.state.am_interested {
                    out.actions.push(Action::Send { peer: id, message: Message::Interested });
                    peer.state.set_interested(true);
                }
                proof {
                    assert forall|j: int, x: u64| #![trigger request_to(out.actions@[j], x)] n0 <= j < out.actions@.len() implies request_to(out.actions@[j], x) is None by {}
                    assert forall|i: int| n0 <= i < out.actions@.len() implies tending_action(#[trigger] out.actions@[i], id) by {}
                }
                let ghost idx2 = job.index;
                let ghost p1 = peer;
                if peer.state.can_request() {
                    while peer.pipeline.has_slot() && job.pending.len() > 0
                        invariant
                            job.index == idx2,
                            pushed ==> n0 < out.actions@.len() && out.actions@[n0 as int] == (Action::Send {
                                peer: id,
                                message: Message::Interested,
                            }),
                            forall|i: int| n0 <= i < out.actions@.len() ==> tending_action(#[trigger] out.actions@[i], id),
                            peer.state == p1.state,
                            peer.theirs == p1.theirs,
                            peer.theirs_known == p1.theirs_known,
                            peer.downloaded_from == p1.downloaded_from,
                            peer.last_useful == p1.last_useful,
                            n0 <= out.actions@.len(),
                            out.actions@.subrange(0, n0 as int) == acts0,
                            peer.state.am_interested && !peer.state.peer_choking,
                            forall|j: int, x: u64|
                                #![trigger request_to(out.actions@[j], x)]
                                n0 <= j < out.actions@.len() && request_to(out.actions@[j], x) is Some ==> x == id
                                    && request_to(out.actions@[j], x) == Some(job.index),
                            peer.id == id,
                            peer.theirs@.len() == n,
                            peer.pipeline.wf(),
                            peer.pipeline.limit() == PIPELINE_DEPTH,
                            peer.pipeline.wait() == BLOCK_TIMEOUT_MS,
                            job.index < n,
                            job.data@.len() == piece_size_of(
                                self.piece_length as nat,
                                self.total_length as nat,
                                job.index as nat,
                            ),
                            out.events == old(out).events,
                        decreases job.pending@.len(),
                    {
                        let (begin, length) = job.pending.remove(0);
                        let block = BlockRequest { piece: job.index, begin, length };
                        if peer.pipeline.issue(block, now) {
                            out.actions.push(
                                Action::Send { peer: id, message: Message::Request { index: job.index, begin, length } },
                            );
                        }
                    }
                }
                proof {
                    if peer.state.am_interested && !peer.state.peer_choking {
                        assert(peer.pipeline.requests().len() >= PIPELINE_DEPTH || job.pending@.len() == 0);
                    }
                }
                proof {
                    assert forall|j: int, x: u64|
                        #![trigger request_to(out.actions@[j], x)]
                        n0 <= j < out.actions@.len() && request_to(out.actions@[j], x) is Some implies x == id
                            && peer.state.am_interested && !peer.state.peer_choking && request_to(out.actions@[j], x)
                            == Some(job.index) by {}
                }
                peer.job = Some(job);
            },
            None => {},
        }
        proof {
            if !p0.state.am_interested && peer.state.am_interested {
                assert(out.actions@[n0 as int] == (Action::Send { peer: id, message: Message::Interested }));
            }
        }
        self.put_peer(k, peer, Ghost(before));
        proof {
            let more = out.actions@.subrange(n0 as int, out.actions@.len() as int);
            assert(out.actions@ =~= acts0 + more);
            assert forall|j: int, x: u64|
                #![trigger request_to(more[j], x)]
                0 <= j < more.len() && request_to(more[j], x) is Some implies x == peer.ident() && peer.flags().am_interested
                    && !peer.flags().peer_choking && peer.fetching() == request_to(more[j], x) by {
                assert(more[j] == out.actions@[n0 + j]);
            }
            lemma_sound_update(before, acts0, k as int, peer, more);
            if old(self).peers@[k as int].fetching() is None && old(self).peers@[k as int].told() {
                assert(crate::picker::pick_choice(
                    old(self).have(),
                    old(self).peers@[k as int].has_pieces(),
                    old(self).avail(),
                    old(self).picker.active_map(),
                    ENDGAME_DUP,
                    self.peers@[k as int].fetching(),
                ));
            }
        }
    }

    /// The periodic step at `now`: every peer is tended, dead peers are
    /// dropped, and every `CHOKE_INTERVAL_MS` the upload slots are
    /// reconsidered. A peer with a piece to send that sent nothing for too
    /// long, while pieces are missing, is closed and dropped; no other is.
    /// Every remaining peer keeps what it has, told and sent; a piece being
    /// fetched stays; we are interested in it exactly when we were or it
    /// has a piece for us to fetch, and say so when that is new; our choke
    /// of it changes only with a `Choke` or `Unchoke` sent; one that has
    /// said what it has and fetched nothing gets what the piece picker
    /// chooses; one we fetch from that does not choke us has its pipeline
    /// filled or nothing left to ask for. A block is requested only of a
    /// peer that we told we are interested, that does not choke us, and that
    /// we fetch the block's piece from.
    pub fn housekeeping(&mut self, now: u64) -> (r: Output)
        requires
            old(self).wf(),
        ensures
            final(self).wf(),
            final(self).have() == old(self).have(),
            final(self).waiting() == old(self).waiting(),
            final(self).learned() == old(self).learned(),
            final(self).attempts() == old(self).attempts(),
            forall|x: u64| #[trigger] ids_of(final(self).peer_list()).contains(x) ==> ids_of(old(self).peer_list()).contains(x),
            r.events@.len() == 0,
            old(self).chokes_due(now) ==> final(self).chokes_at() == Some(now) && forall|k: int|
                0 <= k < final(self).peer_list().len() ==> #[trigger] final(self).peer_list()[k].flags().am_choking
                    == !crate::choke::unchoked(
                    rates_of(final(self).peer_list()),
                    REGULAR_UNCHOKE_SLOTS as nat,
                    final(self).optimistic(),
                    final(self).peer_list()[k].ident(),
                ),
            !old(self).chokes_due(now) ==> final(self).chokes_at() == old(self).chokes_at(),
            requests_sound(final(self).peer_list(), r.actions@),
            forall|i: int|
                0 <= i < old(self).peer_list().len() && !#[trigger] ids_of(final(self).peer_list()).contains(
                    old(self).peer_list()[i].ident(),
                ) ==> quiet_too_long(old(self).peer_list()[i], now) && !all_present(old(self).have())
                    && r.actions@.contains(Action::Close { peer: old(self).peer_list()[i].ident() }),
            forall|i: int|
                0 <= i < old(self).peer_list().len() && #[trigger] old(self).peer_list()[i].fetching() is Some
                    && quiet_too_long(old(self).peer_list()[i], now) && !all_present(old(self).have())
                    ==> !ids_of(final(self).peer_list()).contains(old(self).peer_list()[i].ident()),
            forall|i: int, j: int|
                #![trigger old(self).peer_list()[i], final(self).peer_list()[j]]
                0 <= i < old(self).peer_list().len() && 0 <= j < final(self).peer_list().len()
                    && final(self).peer_list()[j].ident() == old(self).peer_list()[i].ident() ==> kept(
                    old(self).peer_list()[i],
                    final(self).peer_list()[j],
                    r.actions@,
                ) && picked(old(self).peer_list()[i], final(self).peer_list()[j], old(self).have(), old(self).avail()),
    {
        let mut out = Output { actions: Vec::new(), events: Vec::new() };
        let mut dead: Vec<u64> = Vec::new();
        let ghost complete = all_present(self.have());
        let mut k: usize = 0;
        while k < self.peers.len()
            invariant
                self.wf(),
                k <= self.peers@.len(),
                ids_of(self.peers@) == ids_of(old(self).peers@),
                self.have() == old(self).have(),
                complete == all_present(old(self).have()),
                self.waiting() == old(self).waiting(),
                self.learned() == old(self).learned(),
                self.attempts() == old(self).attempts(),
                out.events@.len() == 0,
                self.last_choke == old(self).last_choke,
                requests_sound(self.peers@, out.actions@),
                self.peers@.len() == old(self).peers@.len(),
                forall|j: int| 0 <= j < k ==> tended(old(self).peers@[j], #[trigger] self.peers@[j], now, complete),
                forall|j: int| 0 <= j < k ==> picked(old(self).peers@[j], #[trigger] self.peers@[j], old(self).have(), old(self).avail()),
                forall|j: int| 0 <= j < k ==> filled(#[trigger] self.peers@[j], now, complete),
                self.avail() == old(self).avail(),
                forall|j: int| k <= j < self.peers@.len() ==> #[trigger] self.peers@[j] == old(self).peers@[j],
                forall|j: int|
                    0 <= j < k ==> (dead@.contains(#[trigger] self.peers@[j].ident()) <==> (snubbed(self.peers@[j], now)
                        && !complete)),
                forall|x: u64| #[trigger] dead@.contains(x) ==> ids_of(self.peers@).take(k as int).contains(x),
                forall|i: int| 0 <= i < out.actions@.len() ==> tending_kind(#[trigger] out.actions@[i]),
                forall|j: int|
                    0 <= j < k && !old(self).peers@[j].flags().am_interested && #[trigger] self.peers@[j].flags().am_interested
                        ==> sends(out.actions@, self.peers@[j].ident(), Message::Interested),
            decreases self.peers.len() - k,
        {
            let ghost dead0 = dead@;
            let ghost acts0 = out.actions@;
            let ghost before = self.peers@;
            self.tend_peer(k, now, &mut out, &mut dead);
            proof {
                assert(before[k as int] == old(self).peers@[k as int]);
                assert forall|j: int| 0 <= j < k + 1 implies picked(old(self).peers@[j], #[trigger] self.peers@[j], old(self).have(), old(self).avail()) by {
                    if j < k {
                        assert(self.peers@[j] == before[j]);
                    }
                }
                assert forall|j: int| 0 <= j < k + 1 implies filled(#[trigger] self.peers@[j], now, complete) by {
                    if j < k {
                        assert(self.peers@[j] == before[j]);
                    }
                }
                lemma_tend_step(old(self).peers@, before, self.peers@, dead0, dead@, acts0, out.actions@, k as int, now, complete);
            }
            k = k + 1;
        }
        let ghost mid = self.peers@;
        let ghost acts_mid = out.actions@;
        proof {
            assert(ids_of(mid).take(k as int) =~= ids_of(mid));
            assert forall|j: int| 0 <= j < mid.len() implies mid.contains(#[trigger] mid[j]) by {
                assert(mid[j] == mid[j]);
            }
            assert forall|i: int| 0 <= i < mid.len() implies (ids_of(mid).contains(#[trigger] mid[i].ident()) <==> !dead@.take(
                0,
            ).contains(mid[i].ident())) by {
                assert(ids_of(mid)[i] == mid[i].ident());
            }
            assert(out.actions@.subrange(0, acts_mid.len() as int) =~= acts_mid);
        }
        let mut d: usize = 0;
        while d < dead.len()
            invariant
                self.wf(),
                d <= dead@.len(),
                forall|x: u64| #[trigger] ids_of(self.peers@).contains(x) ==> ids_of(old(self).peers@).contains(x),
                self.have() == old(self).have(),
                self.waiting() == old(self).waiting(),
                self.learned() == old(self).learned(),
                self.attempts() == old(self).attempts(),
                out.events@.len() == 0,
                self.last_choke == old(self).last_choke,
                requests_sound(self.peers@, out.actions@),
                forall|j: int| 0 <= j < self.peers@.len() ==> mid.contains(#[trigger] self.peers@[j]),
                forall|i: int|
                    0 <= i < mid.len() ==> (ids_of(self.peers@).contains(#[trigger] mid[i].ident()) <==> !dead@.take(
                        d as int,
                    ).contains(mid[i].ident())),
                forall|i: int|
                    0 <= i < mid.len() && dead@.take(d as int).contains(#[trigger] mid[i].ident()) ==> out.actions@.contains(
                        Action::Close { peer: mid[i].ident() },
                    ),
                acts_mid.len() <= out.actions@.len(),
                out.actions@.subrange(0, acts_mid.len() as int) == acts_mid,
                forall|i: int| acts_mid.len() <= i < out.actions@.len() ==> #[trigger] out.actions@[i] is Close,
            decreases dead.len() - d,
        {
            let ghost cur = self.peers@;
            let ghost acts0 = out.actions@;
            self.remove_peer(dead[d], &mut out);
            proof {
                lemma_drop_step(mid, cur, self.peers@, dead@, d as int, acts_mid, acts0, out.actions@);
            }
            d = d + 1;
        }
        let ghost kept_peers = self.peers@;
        let ghost acts_kept = out.actions@;
        let due = match self.last_choke {
            None => true,
            Some(at) => now.saturating_sub(at) >= CHOKE_INTERVAL_MS,
        };
        if due {
            self.last_choke = Some(now);
            let ghost pre = self.peers@;
            self.rebalance_chokes(now, &mut out);
            proof {
                assert forall|k: int| 0 <= k < self.peers@.len() implies #[trigger] self.peers@[k].ident() == pre[k].ident() by {
                    assert(ids_of(self.peers@)[k] == ids_of(pre)[k]);
                }
            }
        } else {
            proof {
                assert forall|j: int| 0 <= j < self.peers@.len() implies rechoked(kept_peers[j], #[trigger] self.peers@[j]) by {}
                assert(out.actions@.subrange(0, acts_kept.len() as int) =~= acts_kept);
            }
        }
        proof {
            assert(dead@.take(d as int) =~= dead@);
            lemma_housekeeping_end(old(self).peers@, mid, kept_peers, self.peers@, dead@, acts_mid, acts_kept, out.actions@, now, complete, old(self).have(), old(self).avail());
        }
        out
    }

    /// The ids of the interested peers we choke.
    fn choked_candidates(&self) -> (r: Vec<u64>)
        ensures
            r@ == choke_candidates(self.peers@),
            forall|x: u64| #[trigger] r@.contains(x) ==> ids_of(self.peers@).contains(x),
    {
        let mut c: Vec<u64> = Vec::new();
        let mut k: usize = 0;
        while k < self.peers.len()
            invariant
                k <= self.peers@.len(),
                c@ == choke_candidates(self.peers@.take(k as int)),
                forall|x: u64| #[trigger] c@.contains(x) ==> ids_of(self.peers@).contains(x),
            decreases self.peers.len() - k,
        {
            proof {
                assert(self.peers@.take(k + 1).drop_last() =~= self.peers@.take(k as int));
            }
            let st = self.peers[k].state;
            if st.peer_interested && st.am_choking {
                let ghost c0 = c@;
                c.push(self.peers[k].id);
                proof {
                    assert(ids_of(self.peers@)[k as int] == self.peers@[k as int].ident());
                    assert forall|x: u64| #[trigger] c@.contains(x) implies ids_of(self.peers@).contains(x) by {
                        if x != self.peers@[k as int].ident() {
                            let j = choose|j: int| 0 <= j < c@.len() && c@[j] == x;
                            assert(c0[j] == x);
                            assert(c0.contains(x));
                        }
                    }
                }
            }
            k = k + 1;
        }
        proof {
            assert(self.peers@.take(k as int) =~= self.peers@);
        }
        c
    }

    /// Reconsiders the upload slots at `now`: the optimistic slot may move
    /// on, and every peer is unchoked exactly when it earns a slot.
    fn rebalance_chokes(&mut self, now: u64, out: &mut Output)
        requires
            old(self).wf(),
        ensures
            final(self).wf(),
            final(self).peers@.len() == old(self).peers@.len(),
            ids_of(final(self).peers@) == ids_of(old(self).peers@),
            forall|k: int|
                0 <= k < final(self).peers@.len() ==> #[trigger] final(self).peers@[k].flags().am_choking == !crate::choke::unchoked(
                    rates_of(old(self).peers@),
                    REGULAR_UNCHOKE_SLOTS as nat,
                    final(self).rotor.holder(),
                    old(self).peers@[k].ident(),
                ),
            final(self).have() == old(self).have(),
            final(self).waiting() == old(self).waiting(),
            final(self).learned() == old(self).learned(),
            final(self).attempts() == old(self).attempts(),
            final(out).events == old(out).events,
            rates_of(final(self).peers@) == rates_of(old(self).peers@),
            final(self).last_choke == old(self).last_choke,
            requests_sound(old(self).peers@, old(out).actions@) ==> requests_sound(final(self).peers@, final(out).actions@),
            forall|j: int| 0 <= j < old(self).peers@.len() ==> rechoked(old(self).peers@[j], #[trigger] final(self).peers@[j]),
            old(out).actions@.len() <= final(out).actions@.len(),
            final(out).actions@.subrange(0, old(out).actions@.len() as int) == old(out).actions@,
            forall|i: int|
                old(out).actions@.len() <= i < final(out).actions@.len() ==> choke_sent(
                    #[trigger] final(out).actions@[i],
                    old(self).peers@,
                    final(self).peers@,
                ),
            forall|j: int|
                0 <= j < old(self).peers@.len() && #[trigger] final(self).peers@[j].flags().am_choking != old(self).peers@[j].flags().am_choking
                    ==> sends(
                    final(out).actions@,
                    old(self).peers@[j].ident(),
                    choke_message(final(self).peers@[j].flags().am_choking),
                ),
    {
        let candidates = self.choked_candidates();
        let optimistic = self.rotor.maybe_rotate(candidates.as_slice(), now);
        let mut rates: Vec<PeerRate> = Vec::new();
        let mut k: usize = 0;
        while k < self.peers.len()
            invariant
                k <= self.peers@.len(),
                rates@ == rates_of(self.peers@).take(k as int),
            decreases self.peers.len() - k,
        {
            let p = &self.peers[k];
            rates.push(PeerRate { id: p.id, downloaded_from: p.downloaded_from, interested: p.state.peer_interested });
            proof {
                assert(rates_of(self.peers@).take(k + 1) =~= rates_of(self.peers@).take(k as int).push(rates_of(self.peers@)[k as int]));
            }
            k = k + 1;
        }
        proof {
            assert(rates_of(self.peers@).take(self.peers@.len() as int) =~= rates_of(self.peers@));
        }
        let unchoked = select_unchoked(rates.as_slice(), REGULAR_UNCHOKE_SLOTS, optimistic);
        let ghost start = self.peers@;
        let mut k: usize = 0;
        while k < self.peers.len()
            invariant
                self.wf(),
                k <= self.peers@.len(),
                self.peers@.len() == start.len(),
                ids_of(self.peers@) == ids_of(start),
                start == old(self).peers@,
                optimistic == self.rotor.holder(),
                forall|x: u64| #[trigger] unchoked@.contains(x) <==> crate::choke::unchoked(rates_of(start), REGULAR_UNCHOKE_SLOTS as nat, optimistic, x),
                forall|j: int| k <= j < self.peers@.len() ==> #[trigger] self.peers@[j] == start[j],
                forall|j: int|
                    0 <= j < k ==> #[trigger] rates_of(self.peers@)[j] == rates_of(start)[j],
                self.last_choke == old(self).last_choke,
                requests_sound(old(self).peers@, old(out).actions@) ==> requests_sound(self.peers@, out.actions@),
                forall|j: int|
                    0 <= j < k ==> #[trigger] self.peers@[j].flags().am_choking == !crate::choke::unchoked(
                        rates_of(start),
                        REGULAR_UNCHOKE_SLOTS as nat,
                        optimistic,
                        start[j].ident(),
                    ),
                self.have() == old(self).have(),
                self.waiting() == old(self).waiting(),
                self.learned() == old(self).learned(),
                self.attempts() == old(self).attempts(),
                out.events == old(out).events,
                forall|j: int| 0 <= j < start.len() ==> rechoked(start[j], #[trigger] self.peers@[j]),
                old(out).actions@.len() <= out.actions@.len(),
                out.actions@.subrange(0, old(out).actions@.len() as int) == old(out).actions@,
                forall|i: int|
                    old(out).actions@.len() <= i < out.actions@.len() ==> choke_sent(
                        #[trigger] out.actions@[i],
                        start,
                        self.peers@,
                    ),
                forall|j: int|
                    0 <= j < start.len() && #[trigger] self.peers@[j].flags().am_choking != start[j].flags().am_choking ==> sends(
                        out.actions@,
                        start[j].ident(),
                        choke_message(self.peers@[j].flags().am_choking),
                    ),
            decreases self.peers.len() - k,
        {
            let ghost before = self.peers@;
            let ghost acts0 = out.actions@;
            let mut peer = self.take_peer(k);
            let should = unchoked.contains(&peer.id);
            if should && peer.state.am_choking {
                out.actions.push(Action::Send { peer: peer.id, message: Message::Unchoke });
                peer.state.set_choking(false);
            } else if !should && !peer.state.am_choking {
                out.actions.push(Action::Send { peer: peer.id, message: Message::Choke });
                peer.state.set_choking(true);
            }
            self.put_peer(k, peer, Ghost(before));
            proof {
                lemma_rechoke_step(start, before, self.peers@, acts0, out.actions@, k as int, old(out).actions@.len() as int);
                if requests_sound(old(self).peers@, old(out).actions@) {
                    let more = out.actions@.subrange(acts0.len() as int, out.actions@.len() as int);
                    assert(out.actions@ =~= acts0 + more);
                    assert forall|j: int, x: u64| #![trigger request_to(more[j], x)] 0 <= j < more.len() implies request_to(more[j], x) is None by {
                        assert(more[j] == out.actions@[acts0.len() + j]);
                    }
                    lemma_sound_update(before, acts0, k as int, peer, more);
                }
                assert(before[k as int] == start[k as int]);
                assert forall|j: int| 0 <= j < k + 1 implies #[trigger] self.peers@[j].flags().am_choking == !crate::choke::unchoked(
                    rates_of(start),
                    REGULAR_UNCHOKE_SLOTS as nat,
                    optimistic,
                    start[j].ident(),
                ) by {
                    if j < k {
                        assert(self.peers@[j] == before[j]);
                    }
                }
                assert forall|j: int| 0 <= j < k + 1 implies #[trigger] rates_of(self.peers@)[j] == rates_of(start)[j] by {
                    if j < k {
                        assert(self.peers@[j] == before[j]);
                        assert(rates_of(before)[j] == rates_of(start)[j]);
                    } else {
                        assert(self.peers@[j].ident() == start[j].ident());
                        assert(self.peers@[j].received_from() == start[j].received_from());
                        assert(self.peers@[j].flags().peer_interested == start[j].flags().peer_interested);
                    }
                }
            }
            k = k + 1;
        }
        proof {
            assert(rates_of(self.peers@) =~= rates_of(start));
        }
    }

    /// The result of re-reading piece `index` at the end: `data` as read,
    /// or `None` when it could not be read. A piece that does not hash
    /// right is ours no more, and its bytes no longer count as downloaded.
    pub fn recheck(&mut self, index: u32, data: Option<&[u8]>) -> (ok: bool)
        requires
            old(self).wf(),
            index < old(self).piece_count(),
        ensures
            final(self).wf(),
            ok == (data matches Some(d) && sha1_digest(d@) == old(self).hash_of(index as int)),
            final(self).have() == if ok {
                old(self).have()
            } else {
                old(self).have().update(index as int, false)
            },
            final(self).peer_list() == old(self).peer_list(),
    {
        let ok = match data {
            Some(d) => verify_piece(d, &self.hashes[index as usize]),
            None => false,
        };
        if !ok {
            let size = self.size_of(index);
            self.ours.clear(index);
            self.downloaded = self.downloaded.saturating_sub(size);
        }
        ok
    }

    /// The expected hash of piece `index`.
    pub closed spec fn hash_of(&self, index: int) -> Seq<u8> {
        self.hashes@[index]@
    }
}

} // verus!
