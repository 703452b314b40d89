//! Which peers we upload to: the best downloaders among the interested,
//! plus one optimistic slot that rotates over time.
use vstd::prelude::*;
use std::collections::HashSet;

verus! {

#[derive(Debug, Clone, Copy, PartialEq, Eq, Structural)]
pub struct PeerRate {
    pub id: u64,
    pub downloaded_from: u64,
    pub interested: bool,
}

/// `q` ranks above `p`: more downloaded from it, then the lower id.
pub open spec fn ranks_above(q: PeerRate, p: PeerRate) -> bool {
    q.downloaded_from > p.downloaded_from || (q.downloaded_from == p.downloaded_from && q.id < p.id)
}

/// How many interested peers rank above `p`.
pub open spec fn above_count(peers: Seq<PeerRate>, p: PeerRate) -> nat
    decreases peers.len(),
{
    if peers.len() == 0 {
        0
    } else {
        above_count(peers.drop_last(), p) + if peers.last().interested && ranks_above(
            peers.last(),
            p,
        ) {
            1nat
        } else {
            0nat
        }
    }
}

/// Peer `id` gets an upload slot: it is an interested peer with fewer than
/// `slots` interested peers ranking above it, or it is the optimistic
/// choice and still among the peers.
pub open spec fn unchoked(peers: Seq<PeerRate>, slots: nat, optimistic: Option<u64>, id: u64) -> bool {
    ||| exists|i: int|
        0 <= i < peers.len() && #[trigger] peers[i].id == id && peers[i].interested && above_count(
            peers,
            peers[i],
        ) < slots
    ||| (optimistic == Some(id) && exists|i: int| 0 <= i < peers.len() && #[trigger] peers[i].id == id)
}

/// The regular slots go to the top of the ranking: an interested peer
/// with a regular slot ranks above every interested peer without one, and
/// an interested peer that ranks above one with a regular slot has one too.
pub proof fn law_unchoked_are_top(peers: Seq<PeerRate>, slots: nat, i: int, j: int)
    requires
        0 <= i < peers.len(),
        0 <= j < peers.len(),
        peers[i].interested,
        peers[j].interested,
    ensures
        above_count(peers, peers[i]) < slots && above_count(peers, peers[j]) >= slots ==> ranks_above(
            peers[i],
            peers[j],
        ),
        above_count(peers, peers[i]) < slots && ranks_above(peers[j], peers[i]) ==> above_count(peers, peers[j])
            < slots,
{
    if ranks_above(peers[j], peers[i]) {
        lemma_above_mono(peers, peers[j], peers[i], j);
    }
}

/// The peers that `unchoked` gives a slot.
pub open spec fn unchoked_set(peers: Seq<PeerRate>, slots: nat, optimistic: Option<u64>) -> Set<u64> {
    Set::new(|id: u64| unchoked(peers, slots, optimistic, id))
}

/// A peer that ranks above `b` is counted above `b` whenever `a` is, and
/// `a` itself when it is interested.
proof fn lemma_above_mono(peers: Seq<PeerRate>, a: PeerRate, b: PeerRate, i: int)
    requires
        ranks_above(a, b),
        0 <= i < peers.len(),
        peers[i] == a,
        a.interested,
    ensures
        above_count(peers, b) >= above_count(peers, a) + 1,
    decreases peers.len(),
{
    let last = peers.last();
    if i < peers.len() - 1 {
        lemma_above_mono(peers.drop_last(), a, b, i);
        assert(peers.drop_last()[i] == peers[i]);
    } else {
        lemma_above_weak(peers.drop_last(), a, b);
    }
}

proof fn lemma_above_weak(peers: Seq<PeerRate>, a: PeerRate, b: PeerRate)
    requires
        ranks_above(a, b),
    ensures
        above_count(peers, b) >= above_count(peers, a),
    decreases peers.len(),
{
    if peers.len() > 0 {
        lemma_above_weak(peers.drop_last(), a, b);
    }
}

/// At most `slots` peers win a regular slot and one more the optimistic
/// slot, when no two peers share an id.
pub proof fn law_unchoked_bounded(peers: Seq<PeerRate>, slots: nat, optimistic: Option<u64>)
    requires
        forall|i: int, j: int| 0 <= i < j < peers.len() ==> #[trigger] peers[i].id != #[trigger] peers[j].id,
    ensures
        unchoked_set(peers, slots, optimistic).finite(),
        unchoked_set(peers, slots, optimistic).len() <= slots + 1,
{
    let w = Set::new(|i: int| 0 <= i < peers.len() && peers[i].interested && above_count(peers, peers[i]) < slots);
    let range = vstd::set_lib::set_int_range(0, peers.len() as int);
    vstd::set_lib::lemma_int_range(0, peers.len() as int);
    assert(w.subset_of(range));
    vstd::set_lib::lemma_len_subset(w, range);
    let f = |i: int| above_count(peers, peers[i]) as int;
    let counts = w.map(f);
    let low = vstd::set_lib::set_int_range(0, slots as int);
    vstd::set_lib::lemma_int_range(0, slots as int);
    assert(counts.subset_of(low));
    vstd::set_lib::lemma_map_size_bound(w, counts, f);
    vstd::set_lib::lemma_len_subset(counts, low);
    assert(vstd::relations::injective_on(f, w)) by {
        assert forall|x1: int, x2: int| w.contains(x1) && w.contains(x2) && #[trigger] f(x1) == #[trigger] f(x2) implies x1 == x2 by {
            if x1 != x2 {
                let (lo, hi) = if x1 < x2 { (x1, x2) } else { (x2, x1) };
                assert(peers[lo].id != peers[hi].id);
                if ranks_above(peers[x1], peers[x2]) {
                    lemma_above_mono(peers, peers[x1], peers[x2], x1);
                } else {
                    assert(ranks_above(peers[x2], peers[x1]));
                    lemma_above_mono(peers, peers[x2], peers[x1], x2);
                }
            }
        }
    }
    vstd::set_lib::lemma_map_size(w, counts, f);
    let g = |i: int| peers[i].id;
    let winners = w.map(g);
    vstd::set_lib::lemma_map_size_bound(w, winners, g);
    let extra = match optimistic {
        Some(o) => Set::<u64>::empty().insert(o),
        None => Set::<u64>::empty(),
    };
    assert(extra.finite() && extra.len() <= 1);
    vstd::set_lib::lemma_len_union(winners, extra);
    let u = unchoked_set(peers, slots, optimistic);
    assert(u.subset_of(winners.union(extra))) by {
        assert forall|id: u64| u.contains(id) implies winners.union(extra).contains(id) by {
            if exists|i: int|
                0 <= i < peers.len() && #[trigger] peers[i].id == id && peers[i].interested && above_count(peers, peers[i])
                    < slots {
                let i = choose|i: int|
                    0 <= i < peers.len() && #[trigger] peers[i].id == id && peers[i].interested && above_count(
                        peers,
                        peers[i],
                    ) < slots;
                assert(w.contains(i));
                assert(winners.contains(g(i)));
            }
        }
    }
    vstd::set_lib::lemma_len_subset(u, winners.union(extra));
}

/// The peers to unchoke: the `regular_slots` best downloaders among the
/// interested peers, and the optimistic peer if it is still present.
pub fn select_unchoked(peers: &[PeerRate], regular_slots: usize, optimistic: Option<u64>) -> (out:
    HashSet<u64>)
    ensures
        forall|id: u64| #[trigger] out@.contains(id) <==> unchoked(peers@, regular_slots as nat, optimistic, id),
        out@ == unchoked_set(peers@, regular_slots as nat, optimistic),
{
    let ids = unchoked_ids(peers, regular_slots, optimistic);
    let mut out: HashSet<u64> = HashSet::new();
    let mut i: usize = 0;
    while i < ids.len()
        invariant
            i <= ids@.len(),
            forall|x: u64| #[trigger] out@.contains(x) <==> ids@.take(i as int).contains(x),
        decreases ids.len() - i,
    {
        let ghost before = out@;
        out.insert(ids[i]);
        proof {
            let t1 = ids@.take(i + 1);
            let t0 = ids@.take(i as int);
            assert(ids@.take(i + 1) =~= ids@.take(i as int).push(ids@[i as int]));
            assert forall|x: u64| #[trigger] out@.contains(x) <==> ids@.take(i + 1).contains(x) by {
                if x == ids@[i as int] {
                    assert(ids@.take(i + 1)[i as int] == x);
                } else {
                    if t1.contains(x) {
                        let w = choose|w: int| 0 <= w < t1.len() && t1[w] == x;
                        assert(t0[w] == x);
                    }
                    if t0.contains(x) {
                        let w = choose|w: int| 0 <= w < t0.len() && t0[w] == x;
                        assert(t1[w] == x);
                    }
                }
            }
        }
        i = i + 1;
    }
    proof {
        assert(ids@.take(ids@.len() as int) =~= ids@);
        assert(out@ =~= unchoked_set(peers@, regular_slots as nat, optimistic));
    }
    out
}

/// The ids of the peers to unchoke, each once.
fn unchoked_ids(peers: &[PeerRate], regular_slots: usize, optimistic: Option<u64>) -> (out: Vec<u64>)
    ensures
        forall|id: u64| out@.contains(id) <==> unchoked(peers@, regular_slots as nat, optimistic, id),
        out@.no_duplicates(),
{
    let mut out: Vec<u64> = Vec::new();
    let mut i: usize = 0;
    while i < peers.len()
        invariant
            i <= peers@.len(),
            out@.no_duplicates(),
            forall|id: u64|
                out@.contains(id) <==> exists|j: int|
                    0 <= j < i && #[trigger] peers@[j].id == id && peers@[j].interested && above_count(
                        peers@,
                        peers@[j],
                    ) < regular_slots,
        decreases peers.len() - i,
    {
        let p = peers[i];
        let ghost before = out@;
        let mut pushed = false;
        if p.interested {
            let above = count_above(peers, &p);
            if above < regular_slots as u64 && !contains_id(&out, p.id) {
                out.push(p.id);
                pushed = true;
            }
        }
        proof {
            if pushed {
                assert(out@ == before.push(p.id));
                assert(out@[before.len() as int] == p.id);
                assert forall|a: int, b: int| 0 <= a < b < out@.len() implies out@[a] != out@[b] by {
                    if b == before.len() {
                        assert(out@[a] == before[a]);
                        assert(before.contains(before[a]));
                    }
                }
            } else {
                assert(out@ == before);
            }
            assert forall|id: u64|
                out@.contains(id) <==> exists|j: int|
                    0 <= j < i + 1 && #[trigger] peers@[j].id == id && peers@[j].interested
                        && above_count(peers@, peers@[j]) < regular_slots by {
                if out@.contains(id) {
                    if before.contains(id) {
                        let j = choose|j: int|
                            0 <= j < i && #[trigger] peers@[j].id == id && peers@[j].interested
                                && above_count(peers@, peers@[j]) < regular_slots;
                        assert(0 <= j < i + 1);
                    } else {
                        let x = choose|x: int| 0 <= x < out@.len() && out@[x] == id;
                        assert(pushed);
                        assert(x == before.len());
                        assert(peers@[i as int].id == id);
                    }
                }
                if exists|j: int|
                    0 <= j < i + 1 && #[trigger] peers@[j].id == id && peers@[j].interested
                        && above_count(peers@, peers@[j]) < regular_slots {
                    let j = choose|j: int|
                        0 <= j < i + 1 && #[trigger] peers@[j].id == id && peers@[j].interested
                            && above_count(peers@, peers@[j]) < regular_slots;
                    if j < i {
                        assert(before.contains(id));
                        let x = choose|x: int| 0 <= x < before.len() && before[x] == id;
                        assert(out@[x] == id);
                    } else if pushed {
                        assert(out@[before.len() as int] == id);
                    } else {
                        assert(before.contains(id));
                    }
                }
            }
        }
        i = i + 1;
    }
    let ghost regular = out@;
    let ghost mut added = false;
    if let Some(id) = optimistic {
        if contains_peer(peers, id) && !contains_id(&out, id) {
            out.push(id);
            proof {
                added = true;
            }
            proof {
                assert(out@[regular.len() as int] == id);
                assert forall|a: int, b: int| 0 <= a < b < out@.len() implies out@[a] != out@[b] by {
                    if b == regular.len() {
                        assert(out@[a] == regular[a]);
                        assert(regular.contains(regular[a]));
                    }
                }
                assert forall|x: u64| out@.contains(x) <==> (regular.contains(x) || x == id) by {
                    if out@.contains(x) && x != id {
                        let k = choose|k: int| 0 <= k < out@.len() && out@[k] == x;
                        assert(out@[k] == regular[k]);
                    }
                    if regular.contains(x) {
                        let k = choose|k: int| 0 <= k < regular.len() && regular[k] == x;
                        assert(out@[k] == x);
                    }
                }
            }
        }
    }
    proof {
        if !added {
            assert(out@ == regular);
        }
        assert forall|x: u64| out@.contains(x) <==> unchoked(peers@, regular_slots as nat, optimistic, x) by {
            if added {
                assert(out@.contains(x) <==> (regular.contains(x) || Some(x) == optimistic));
            }
        }
    }
    out
}

/// How many interested peers rank above `p`.
fn count_above(peers: &[PeerRate], p: &PeerRate) -> (n: u64)
    ensures
        n == above_count(peers@, *p),
{
    let mut n: u64 = 0;
    let mut i: usize = 0;
    while i < peers.len()
        invariant
            i <= peers@.len(),
            n == above_count(peers@.take(i as int), *p),
            n <= i,
        decreases peers.len() - i,
    {
        proof {
            assert(peers@.take(i + 1).drop_last() =~= peers@.take(i as int));
        }
        let q = peers[i];
        if q.interested && (q.downloaded_from > p.downloaded_from || (q.downloaded_from
            == p.downloaded_from && q.id < p.id)) {
            n = n + 1;
        }
        i = i + 1;
    }
    proof {
        assert(peers@.take(peers@.len() as int) =~= peers@);
    }
    n
}

fn contains_id(ids: &Vec<u64>, id: u64) -> (r: bool)
    ensures
        r == ids@.contains(id),
{
    let mut i: usize = 0;
    while i < ids.len()
        invariant
            i <= ids@.len(),
            forall|j: int| 0 <= j < i ==> ids@[j] != id,
        decreases ids.len() - i,
    {
        if ids[i] == id {
            return true;
        }
        i = i + 1;
    }
    false
}

fn contains_peer(peers: &[PeerRate], id: u64) -> (r: bool)
    ensures
        r == exists|i: int| 0 <= i < peers@.len() && #[trigger] peers@[i].id == id,
{
    let mut i: usize = 0;
    while i < peers.len()
        invariant
            i <= peers@.len(),
            forall|j: int| 0 <= j < i ==> #[trigger] peers@[j].id != id,
        decreases peers.len() - i,
    {
        if peers[i].id == id {
            return true;
        }
        i = i + 1;
    }
    false
}

/// The first position of `x` in `s`, if any.
pub open spec fn first_pos(s: Seq<u64>, x: u64) -> Option<int>
    decreases s.len(),
{
    if s.len() == 0 {
        None
    } else if s[0] == x {
        Some(0)
    } else {
        match first_pos(s.subrange(1, s.len() as int), x) {
            Some(p) => Some(p + 1),
            None => None,
        }
    }
}

/// The candidate after `current` in round-robin order: the one following
/// its first position, wrapping around; the first candidate when there is
/// no current one or it is not among them.
pub open spec fn next_candidate(candidates: Seq<u64>, current: Option<u64>) -> u64 {
    match current {
        Some(id) => match first_pos(candidates, id) {
            Some(p) => candidates[(p + 1) % (candidates.len() as int)],
            None => candidates[0],
        },
        None => candidates[0],
    }
}

/// The holder after `n` rotations that start from `current`.
pub open spec fn after_rotations(candidates: Seq<u64>, current: u64, n: nat) -> u64
    decreases n,
{
    if n == 0 {
        current
    } else {
        next_candidate(candidates, Some(after_rotations(candidates, current, (n - 1) as nat)))
    }
}

/// The optimistic slot goes round the candidates in order: among distinct
/// candidates, the one after position `p` is the one at `p + 1`, and the
/// first comes after the last; so `k` rotations from position `p` reach
/// position `(p + k) % len`, and every candidate holds the slot within
/// `len` rotations of any other.
pub proof fn law_rotation_round_robin(candidates: Seq<u64>, p: int, k: nat)
    requires
        0 <= p < candidates.len(),
        forall|i: int, j: int| 0 <= i < j < candidates.len() ==> candidates[i] != candidates[j],
    ensures
        p + 1 < candidates.len() ==> next_candidate(candidates, Some(candidates[p])) == candidates[p + 1],
        p + 1 == candidates.len() ==> next_candidate(candidates, Some(candidates[p])) == candidates[0],
        after_rotations(candidates, candidates[p], k) == candidates[(p + k) % (candidates.len() as int)],
        forall|q: int| 0 <= q < candidates.len() ==> #[trigger] after_rotations(
            candidates,
            candidates[p],
            ((q - p + candidates.len()) % (candidates.len() as int)) as nat,
        ) == candidates[q],
{
    let len = candidates.len() as int;
    lemma_next_after(candidates, p);
    if p + 1 < len {
        vstd::arithmetic::div_mod::lemma_small_mod((p + 1) as nat, len as nat);
    } else {
        vstd::arithmetic::div_mod::lemma_mod_self_0(len);
    }
    lemma_rotations_at(candidates, p, k);
    assert forall|q: int| 0 <= q < candidates.len() implies #[trigger] after_rotations(
        candidates,
        candidates[p],
        ((q - p + candidates.len()) % (candidates.len() as int)) as nat,
    ) == candidates[q] by {
        vstd::arithmetic::div_mod::lemma_mod_pos_bound(q - p + len, len);
        let kk = ((q - p + len) % len) as nat;
        lemma_rotations_at(candidates, p, kk);
        vstd::arithmetic::div_mod::lemma_add_mod_noop_right(p, q - p + len, len);
        vstd::arithmetic::div_mod::lemma_mod_add_multiples_vanish(q, len);
        vstd::arithmetic::div_mod::lemma_small_mod(q as nat, len as nat);
        assert(p + kk == p + (q - p + len) % len);
        assert((len + q) == (p + (q - p + len)));
    }
}

proof fn lemma_rotations_at(candidates: Seq<u64>, p: int, k: nat)
    requires
        0 <= p < candidates.len(),
        forall|i: int, j: int| 0 <= i < j < candidates.len() ==> candidates[i] != candidates[j],
    ensures
        after_rotations(candidates, candidates[p], k) == candidates[(p + k) % (candidates.len() as int)],
    decreases k,
{
    let len = candidates.len() as int;
    if k == 0 {
        vstd::arithmetic::div_mod::lemma_small_mod(p as nat, len as nat);
    } else {
        lemma_rotations_at(candidates, p, (k - 1) as nat);
        vstd::arithmetic::div_mod::lemma_mod_pos_bound(p + k - 1, len);
        let r = (p + k - 1) % len;
        lemma_next_after(candidates, r);
        vstd::arithmetic::div_mod::lemma_add_mod_noop_right(1, p + k - 1, len);
        assert(1 + (p + k - 1) == p + k);
        assert(r + 1 == 1 + r);
    }
}

proof fn lemma_next_after(candidates: Seq<u64>, p: int)
    requires
        0 <= p < candidates.len(),
        forall|i: int, j: int| 0 <= i < j < candidates.len() ==> candidates[i] != candidates[j],
    ensures
        next_candidate(candidates, Some(candidates[p])) == candidates[(p + 1) % (candidates.len() as int)],
{
    lemma_first_pos(candidates, candidates[p], p);
}

/// Time from `at` to `now`; none when the clock went back.
pub open spec fn elapsed(at: u64, now: u64) -> nat {
    if now >= at {
        (now - at) as nat
    } else {
        0
    }
}

/// The peer that gets the optimistic slot, changed every `interval`
/// milliseconds, or sooner when it leaves the candidates.
#[derive(Debug, Clone, Copy, PartialEq, Eq)]
pub struct OptimisticRotor {
    current: Option<u64>,
    rotated_at: Option<u64>,
    interval: u64,
}

impl OptimisticRotor {
    pub closed spec fn holder(self) -> Option<u64> {
        self.current
    }

    pub closed spec fn last_rotation(self) -> Option<u64> {
        self.rotated_at
    }

    pub closed spec fn period(self) -> u64 {
        self.interval
    }

    /// The slot is due for a change at `now`.
    pub open spec fn due(self, now: u64) -> bool {
        match self.last_rotation() {
            None => true,
            Some(at) => elapsed(at, now) >= self.period(),
        }
    }

    /// The holder is no longer among `candidates`.
    pub open spec fn holder_gone(self, candidates: Seq<u64>) -> bool {
        match self.holder() {
            Some(id) => !candidates.contains(id),
            None => true,
        }
    }

    /// Nobody holds the slot yet.
    pub fn new(interval: u64) -> (r: OptimisticRotor)
        ensures
            r.holder() is None,
            r.last_rotation() is None,
            r.period() == interval,
    {
        OptimisticRotor { current: None, rotated_at: None, interval }
    }

    /// Who holds the slot.
    pub fn current(&self) -> (r: Option<u64>)
        ensures
            r == self.holder(),
    {
        self.current
    }

    /// Keeps the holder while it is a candidate and its time is not up;
    /// otherwise passes the slot on to the next candidate, or empties it
    /// when there is none. Returns the holder.
    pub fn maybe_rotate(&mut self, candidates: &[u64], now: u64) -> (r: Option<u64>)
        ensures
            final(self).period() == old(self).period(),
            r == final(self).holder(),
            if !old(self).due(now) && !old(self).holder_gone(candidates@) {
                *final(self) == *old(self)
            } else if candidates@.len() == 0 {
                final(self).holder() is None && final(self).last_rotation() == old(
                    self,
                ).last_rotation()
            } else {
                final(self).holder() == Some(next_candidate(candidates@, old(self).holder()))
                    && final(self).last_rotation() == Some(now)
            },
    {
        let due = match self.rotated_at {
            None => true,
            Some(at) => {
                let waited: u64 = if now >= at {
                    now - at
                } else {
                    0
                };
                waited >= self.interval
            },
        };
        let current_gone = match self.current {
            Some(id) => !contains_id_slice(candidates, id),
            None => true,
        };
        if !due && !current_gone {
            return self.current;
        }
        if candidates.len() == 0 {
            self.current = None;
            return None;
        }
        let next = match self.current {
            Some(id) => match position_of(candidates, id) {
                Some(i) => candidates[(i + 1) % candidates.len()],
                None => candidates[0],
            },
            None => candidates[0],
        };
        self.current = Some(next);
        self.rotated_at = Some(now);
        self.current
    }
}

fn contains_id_slice(ids: &[u64], id: u64) -> (r: bool)
    ensures
        r == ids@.contains(id),
{
    let mut i: usize = 0;
    while i < ids.len()
        invariant
            i <= ids@.len(),
            forall|j: int| 0 <= j < i ==> ids@[j] != id,
        decreases ids.len() - i,
    {
        if ids[i] == id {
            proof {
                assert(ids@[i as int] == id);
            }
            return true;
        }
        i = i + 1;
    }
    false
}

proof fn lemma_first_pos(s: Seq<u64>, x: u64, i: int)
    requires
        0 <= i <= s.len(),
        forall|j: int| 0 <= j < i ==> s[j] != x,
    ensures
        i < s.len() && s[i] == x ==> first_pos(s, x) == Some(i),
        i == s.len() ==> first_pos(s, x) is None,
    decreases i,
{
    if i > 0 {
        let t = s.subrange(1, s.len() as int);
        assert forall|j: int| 0 <= j < i - 1 implies t[j] != x by {
            assert(t[j] == s[j + 1]);
        }
        lemma_first_pos(t, x, i - 1);
        if i < s.len() {
            assert(t[i - 1] == s[i]);
        }
    }
}

fn position_of(ids: &[u64], id: u64) -> (r: Option<usize>)
    ensures
        match r {
            Some(i) => first_pos(ids@, id) == Some(i as int) && i < ids@.len(),
            None => first_pos(ids@, id) is None,
        },
{
    let mut i: usize = 0;
    while i < ids.len()
        invariant
            i <= ids@.len(),
            forall|j: int| 0 <= j < i ==> ids@[j] != id,
        decreases ids.len() - i,
    {
        if ids[i] == id {
            proof {
                lemma_first_pos(ids@, id, i as int);
            }
            return Some(i);
        }
        i = i + 1;
    }
    proof {
        lemma_first_pos(ids@, id, i as int);
    }
    None
}

} // verus!
