//! Splitting pieces into blocks, and the blocks requested from one peer that
//! have not arrived yet.
use vstd::prelude::*;

verus! {

/// The size of a requested block, the last block of a piece aside.
pub const BLOCK_SIZE: u32 = 16384;

#[derive(Debug, Clone, Copy, PartialEq, Eq, Structural)]
pub struct BlockRequest {
    pub piece: u32,
    pub begin: u32,
    pub length: u32,
}

/// The number of blocks in a piece of `len` bytes.
pub open spec fn block_count(len: nat) -> nat {
    ((len + 16383) / 16384) as nat
}

/// Block `k` of a piece of `len` bytes, as (offset, length).
pub open spec fn block_at(len: nat, k: nat) -> (u32, u32) {
    let begin = k * BLOCK_SIZE;
    let rest = len - begin;
    ((begin as u32), (if rest < BLOCK_SIZE {
        rest
    } else {
        BLOCK_SIZE as int
    }) as u32)
}

/// The blocks of a piece of `len` bytes cover it without gap or overlap:
/// block `k` starts at `k * BLOCK_SIZE` and is not empty, each block ends
/// where the next starts, and the last ends at `len`.
pub proof fn law_blocks_cover(len: nat)
    requires
        len <= u32::MAX,
    ensures
        forall|k: nat|
            k < block_count(len) ==> (#[trigger] block_at(len, k)).0 == k * BLOCK_SIZE && block_at(len, k).1 > 0
                && block_at(len, k).1 <= BLOCK_SIZE && block_at(len, k).0 + block_at(len, k).1 <= len,
        forall|k: nat|
            k + 1 < block_count(len) ==> (#[trigger] block_at(len, k)).0 + block_at(len, k).1 == block_at(
                len,
                k + 1,
            ).0,
        block_count(len) > 0 ==> block_at(len, (block_count(len) - 1) as nat).0 + block_at(
            len,
            (block_count(len) - 1) as nat,
        ).1 == len,
        len == 0 ==> block_count(len) == 0,
{
    assert forall|k: nat|
        k < block_count(len) implies (#[trigger] block_at(len, k)).0 == k * BLOCK_SIZE && block_at(len, k).1 > 0
            && block_at(len, k).1 <= BLOCK_SIZE && block_at(len, k).0 + block_at(len, k).1 <= len by {
        lemma_block_start(len, k);
    }
    assert forall|k: nat|
        k + 1 < block_count(len) implies (#[trigger] block_at(len, k)).0 + block_at(len, k).1 == block_at(len, k + 1).0 by {
        lemma_block_start(len, k);
        lemma_block_start(len, k + 1);
    }
    if block_count(len) > 0 {
        let k = (block_count(len) - 1) as nat;
        lemma_block_start(len, k);
        assert(len <= k * 16384 + 16384) by (nonlinear_arith)
            requires
                k + 1 == (len + 16383) / 16384,
        ;
    }
}

/// Block `k` of a piece of `len` bytes starts inside it.
proof fn lemma_block_start(len: nat, k: nat)
    requires
        k < block_count(len),
        len <= u32::MAX,
    ensures
        k * 16384 < len,
        k * 16384 <= u32::MAX,
{
    assert(k * 16384 < len) by (nonlinear_arith)
        requires
            k < (len + 16383) / 16384,
    ;
}

/// The blocks that cover a piece of `piece_length` bytes, in order: full
/// blocks, then the remainder.
pub fn piece_blocks(piece_length: u64) -> (out: Vec<(u32, u32)>)
    requires
        piece_length <= u32::MAX,
    ensures
        out@.len() == block_count(piece_length as nat),
        forall|k: int| 0 <= k < out@.len() ==> #[trigger] out@[k] == block_at(piece_length as nat, k as nat),
{
    let mut out: Vec<(u32, u32)> = Vec::new();
    let mut begin: u64 = 0;
    let ghost l = piece_length as nat;
    while begin < piece_length
        invariant
            piece_length <= u32::MAX,
            begin < piece_length ==> begin == out@.len() * BLOCK_SIZE,
            begin <= piece_length,
            begin < piece_length ==> out@.len() < block_count(l),
            begin >= piece_length ==> out@.len() == block_count(l),
            l == piece_length,
            forall|k: int| 0 <= k < out@.len() ==> #[trigger] out@[k] == block_at(l, k as nat),
        decreases piece_length - begin,
    {
        let length: u64 = if piece_length - begin < BLOCK_SIZE as u64 {
            piece_length - begin
        } else {
            BLOCK_SIZE as u64
        };
        let ghost k = out@.len();
        out.push((begin as u32, length as u32));
        begin = begin + length;
        proof {
            assert(out@[k as int] == block_at(l, k));
            let n = out@.len();
            if begin < piece_length {
                assert(n < block_count(l)) by (nonlinear_arith)
                    requires
                        n * 16384 < l,
                ;
            } else {
                assert(n == block_count(l)) by (nonlinear_arith)
                    requires
                        (n - 1) * 16384 < l,
                        l <= n * 16384,
                        n >= 1,
                ;
            }
        }
    }
    out
}

/// The requests in `s` that were issued at least `timeout` before `now`.
pub open spec fn timed_out(s: Seq<(BlockRequest, u64)>, now: u64, timeout: u64) -> Seq<BlockRequest>
    decreases s.len(),
{
    if s.len() == 0 {
        Seq::empty()
    } else {
        let rest = timed_out(s.drop_last(), now, timeout);
        if expired_at(s.last().1, now, timeout) {
            rest.push(s.last().0)
        } else {
            rest
        }
    }
}

/// The requests in `s` that are still within their time.
pub open spec fn still_waiting(s: Seq<(BlockRequest, u64)>, now: u64, timeout: u64) -> Seq<(BlockRequest, u64)>
    decreases s.len(),
{
    if s.len() == 0 {
        Seq::empty()
    } else {
        let rest = still_waiting(s.drop_last(), now, timeout);
        if expired_at(s.last().1, now, timeout) {
            rest
        } else {
            rest.push(s.last())
        }
    }
}

/// A request issued at `issued` has waited `timeout` by `now`; a clock that
/// went back counts as no time passed.
pub open spec fn expired_at(issued: u64, now: u64, timeout: u64) -> bool {
    (if now >= issued {
        now - issued
    } else {
        0
    }) >= timeout
}

/// A request with the given piece, offset and length is in `s`.
pub open spec fn request_matches(r: BlockRequest, piece: u32, begin: u32, length: u32) -> bool {
    r.piece == piece && r.begin == begin && r.length == length
}

/// No request occurs twice.
pub open spec fn distinct_requests(s: Seq<(BlockRequest, u64)>) -> bool {
    forall|i: int, j: int| 0 <= i < j < s.len() ==> #[trigger] s[i].0 != #[trigger] s[j].0
}

/// The blocks requested from one peer, each with the time it was asked for,
/// in the order they were asked for.
#[derive(Debug)]
pub struct RequestPipeline {
    capacity: usize,
    timeout: u64,
    in_flight: Vec<(BlockRequest, u64)>,
}

impl RequestPipeline {
    pub closed spec fn requests(self) -> Seq<(BlockRequest, u64)> {
        self.in_flight@
    }

    pub closed spec fn limit(self) -> usize {
        self.capacity
    }

    pub closed spec fn wait(self) -> u64 {
        self.timeout
    }

    /// What every operation keeps: at most `limit()` requests, none twice.
    pub open spec fn wf(self) -> bool {
        self.requests().len() <= self.limit() && distinct_requests(self.requests())
    }

    /// An empty pipeline holding up to `capacity` requests, each given
    /// `timeout` milliseconds.
    pub fn new(capacity: usize, timeout: u64) -> (p: RequestPipeline)
        ensures
            p.requests() == Seq::<(BlockRequest, u64)>::empty(),
            p.limit() == capacity,
            p.wait() == timeout,
            p.wf(),
    {
        RequestPipeline { capacity, timeout, in_flight: Vec::new() }
    }

    /// Whether another request fits.
    pub fn has_slot(&self) -> (r: bool)
        ensures
            r == (self.requests().len() < self.limit()),
    {
        self.in_flight.len() < self.capacity
    }

    /// How many requests are waiting.
    pub fn in_flight(&self) -> (n: usize)
        ensures
            n == self.requests().len(),
    {
        self.in_flight.len()
    }

    /// Whether `request` is waiting.
    pub fn contains(&self, request: &BlockRequest) -> (r: bool)
        ensures
            r == exists|i: int| 0 <= i < self.requests().len() && #[trigger] self.requests()[i].0 == *request,
    {
        let mut i: usize = 0;
        while i < self.in_flight.len()
            invariant
                i <= self.in_flight@.len(),
                forall|j: int| 0 <= j < i ==> #[trigger] self.in_flight@[j].0 != *request,
            decreases self.in_flight.len() - i,
        {
            if self.in_flight[i].0 == *request {
                proof {
                    assert(self.requests()[i as int].0 == *request);
                }
                return true;
            }
            i = i + 1;
        }
        false
    }

    /// Records `request`, asked for at `now`, unless the pipeline is full or
    /// already holds it; says whether it did.
    pub fn issue(&mut self, request: BlockRequest, now: u64) -> (r: bool)
        ensures
            r == (old(self).requests().len() < old(self).limit() && !exists|i: int|
                0 <= i < old(self).requests().len() && #[trigger] old(self).requests()[i].0
                    == request),
            final(self).requests() == if r {
                old(self).requests().push((request, now))
            } else {
                old(self).requests()
            },
            final(self).limit() == old(self).limit(),
            final(self).wait() == old(self).wait(),
            old(self).wf() ==> final(self).wf(),
    {
        if !self.has_slot() || self.contains(&request) {
            return false;
        }
        self.in_flight.push((request, now));
        true
    }

    /// A block arrived: removes the first request for it and returns it.
    pub fn complete(&mut self, piece: u32, begin: u32, length: u32) -> (r: Option<BlockRequest>)
        ensures
            match r {
                Some(req) => exists|p: int|
                    0 <= p < old(self).requests().len() && request_matches(
                        #[trigger] old(self).requests()[p].0,
                        piece,
                        begin,
                        length,
                    ) && (forall|j: int|
                        0 <= j < p ==> !request_matches(old(self).requests()[j].0, piece, begin, length))
                        && req == old(self).requests()[p].0 && final(self).requests()
                        == old(self).requests().remove(p),
                None => (forall|j: int|
                    0 <= j < old(self).requests().len() ==> !request_matches(
                        #[trigger] old(self).requests()[j].0,
                        piece,
                        begin,
                        length,
                    )) && final(self).requests() == old(self).requests(),
            },
            final(self).limit() == old(self).limit(),
            final(self).wait() == old(self).wait(),
            old(self).wf() ==> final(self).wf(),
    {
        let mut i: usize = 0;
        while i < self.in_flight.len()
            invariant
                i <= self.in_flight@.len(),
                self.in_flight@ == old(self).in_flight@,
                self.capacity == old(self).capacity,
                self.timeout == old(self).timeout,
                forall|j: int|
                    0 <= j < i ==> !request_matches(#[trigger] self.in_flight@[j].0, piece, begin, length),
            decreases self.in_flight.len() - i,
        {
            let r = self.in_flight[i].0;
            if r.piece == piece && r.begin == begin && r.length == length {
                let ghost before = self.in_flight@;
                let (req, _) = self.in_flight.remove(i);
                proof {
                    assert(request_matches(before[i as int].0, piece, begin, length));
                    if old(self).wf() {
                        assert forall|a: int, b: int| 0 <= a < b < self.in_flight@.len() implies #[trigger] self.in_flight@[a].0
                            != #[trigger] self.in_flight@[b].0 by {
                            let a2 = if a < i { a } else { a + 1 };
                            let b2 = if b < i { b } else { b + 1 };
                            assert(self.in_flight@[a] == before[a2]);
                            assert(self.in_flight@[b] == before[b2]);
                        }
                    }
                }
                return Some(req);
            }
            i = i + 1;
        }
        None
    }

    /// Removes and returns the requests that have waited `wait()` by `now`,
    /// in the order they were asked for.
    pub fn expired(&mut self, now: u64) -> (r: Vec<BlockRequest>)
        ensures
            r@ == timed_out(old(self).requests(), now, old(self).wait()),
            final(self).requests() == still_waiting(old(self).requests(), now, old(self).wait()),
            final(self).limit() == old(self).limit(),
            final(self).wait() == old(self).wait(),
            old(self).wf() ==> final(self).wf(),
    {
        let ghost s = self.in_flight@;
        let timeout = self.timeout;
        let mut dead: Vec<BlockRequest> = Vec::new();
        let mut alive: Vec<(BlockRequest, u64)> = Vec::new();
        let mut i: usize = 0;
        while i < self.in_flight.len()
            invariant
                s == self.in_flight@,
                timeout == self.timeout,
                i <= s.len(),
                dead@ == timed_out(s.take(i as int), now, timeout),
                alive@ == still_waiting(s.take(i as int), now, timeout),
            decreases self.in_flight.len() - i,
        {
            let (req, issued) = self.in_flight[i];
            proof {
                assert(s.take(i + 1).drop_last() =~= s.take(i as int));
            }
            let waited: u64 = if now >= issued {
                now - issued
            } else {
                0
            };
            if waited >= timeout {
                dead.push(req);
            } else {
                alive.push((req, issued));
            }
            i = i + 1;
        }
        proof {
            assert(s.take(s.len() as int) =~= s);
            if old(self).wf() {
                lemma_still_waiting_distinct(s, now, timeout);
                lemma_still_waiting_len(s, now, timeout);
            }
        }
        self.in_flight = alive;
        dead
    }

    /// Removes and returns every waiting request, in the order they were
    /// asked for.
    pub fn drain(&mut self) -> (r: Vec<BlockRequest>)
        ensures
            r@.len() == old(self).requests().len(),
            forall|i: int| 0 <= i < r@.len() ==> #[trigger] r@[i] == old(self).requests()[i].0,
            final(self).requests() == Seq::<(BlockRequest, u64)>::empty(),
            final(self).limit() == old(self).limit(),
            final(self).wait() == old(self).wait(),
            final(self).wf(),
    {
        let mut out: Vec<BlockRequest> = Vec::new();
        let mut i: usize = 0;
        while i < self.in_flight.len()
            invariant
                i <= self.in_flight@.len(),
                self.in_flight@ == old(self).in_flight@,
                out@.len() == i,
                forall|j: int| 0 <= j < i ==> #[trigger] out@[j] == self.in_flight@[j].0,
            decreases self.in_flight.len() - i,
        {
            out.push(self.in_flight[i].0);
            i = i + 1;
        }
        self.in_flight = Vec::new();
        out
    }
}

/// What is still waiting was waiting before.
proof fn lemma_still_waiting_from(s: Seq<(BlockRequest, u64)>, now: u64, timeout: u64)
    ensures
        forall|j: int|
            0 <= j < still_waiting(s, now, timeout).len() ==> exists|k: int|
                0 <= k < s.len() && #[trigger] still_waiting(s, now, timeout)[j] == s[k],
    decreases s.len(),
{
    if s.len() > 0 {
        let p = s.drop_last();
        lemma_still_waiting_from(p, now, timeout);
        let w = still_waiting(s, now, timeout);
        let wp = still_waiting(p, now, timeout);
        assert forall|j: int| 0 <= j < w.len() implies exists|k: int| 0 <= k < s.len() && #[trigger] w[j] == s[k] by {
            if j < wp.len() {
                assert(w[j] == wp[j]);
                let k = choose|k: int| 0 <= k < p.len() && #[trigger] wp[j] == p[k];
                assert(p[k] == s[k]);
            } else {
                assert(w[j] == s[s.len() - 1]);
            }
        }
    }
}

proof fn lemma_still_waiting_distinct(s: Seq<(BlockRequest, u64)>, now: u64, timeout: u64)
    requires
        distinct_requests(s),
    ensures
        distinct_requests(still_waiting(s, now, timeout)),
    decreases s.len(),
{
    if s.len() > 0 {
        let p = s.drop_last();
        assert(distinct_requests(p)) by {
            assert forall|i: int, j: int| 0 <= i < j < p.len() implies #[trigger] p[i].0 != #[trigger] p[j].0 by {
                assert(p[i] == s[i] && p[j] == s[j]);
            }
        }
        lemma_still_waiting_distinct(p, now, timeout);
        lemma_still_waiting_from(p, now, timeout);
        let w = still_waiting(s, now, timeout);
        let wp = still_waiting(p, now, timeout);
        if !expired_at(s.last().1, now, timeout) {
            assert forall|i: int, j: int| 0 <= i < j < w.len() implies #[trigger] w[i].0 != #[trigger] w[j].0 by {
                if j == wp.len() {
                    assert(w[i] == wp[i]);
                    let k = choose|k: int| 0 <= k < p.len() && #[trigger] wp[i] == p[k];
                    assert(p[k] == s[k]);
                    assert(w[j] == s[s.len() - 1]);
                } else {
                    assert(w[i] == wp[i] && w[j] == wp[j]);
                }
            }
        }
    }
}

proof fn lemma_still_waiting_len(s: Seq<(BlockRequest, u64)>, now: u64, timeout: u64)
    ensures
        still_waiting(s, now, timeout).len() <= s.len(),
    decreases s.len(),
{
    if s.len() > 0 {
        lemma_still_waiting_len(s.drop_last(), now, timeout);
    }
}

} // verus!
