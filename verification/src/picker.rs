//! Rarest-first piece selection, with a bounded number of duplicate requests
//! once every missing piece is being fetched (endgame).
use vstd::prelude::*;
use crate::pieces::{count_of, Availability, Bitfield};
use std::collections::HashMap;

verus! {

/// Piece `i` is one we lack and the peer has.
pub open spec fn candidate(ours: Seq<bool>, theirs: Seq<bool>, i: int) -> bool {
    &&& 0 <= i < ours.len()
    &&& !ours[i]
    &&& i < theirs.len()
    &&& theirs[i]
}

/// How many peers are fetching piece `i` now.
pub open spec fn active_of(active: Map<u32, u32>, i: int) -> nat {
    if 0 <= i <= u32::MAX && active.contains_key(i as u32) {
        active[i as u32] as nat
    } else {
        0
    }
}

/// A candidate nobody is fetching yet.
pub open spec fn fresh(ours: Seq<bool>, theirs: Seq<bool>, active: Map<u32, u32>, i: int) -> bool {
    candidate(ours, theirs, i) && active_of(active, i) == 0
}

/// A candidate already being fetched that may be fetched once more in
/// endgame.
pub open spec fn duplicable(
    ours: Seq<bool>,
    theirs: Seq<bool>,
    active: Map<u32, u32>,
    cap: u32,
    i: int,
) -> bool {
    candidate(ours, theirs, i) && 1 <= active_of(active, i) < cap
}

/// Among fresh pieces, `i` comes before `j`: rarer, then lower index.
pub open spec fn rarer(avail: Seq<u32>, i: int, j: int) -> bool {
    count_of(avail, i) < count_of(avail, j) || (count_of(avail, i) == count_of(avail, j) && i < j)
}

/// In endgame, `i` comes before `j`: fewer fetchers, then rarer, then
/// lower index.
pub open spec fn less_busy(active: Map<u32, u32>, avail: Seq<u32>, i: int, j: int) -> bool {
    active_of(active, i) < active_of(active, j) || (active_of(active, i) == active_of(active, j)
        && rarer(avail, i, j))
}

/// What `pick` chooses: the rarest fresh piece if there is one, otherwise
/// the least busy piece that may be duplicated, otherwise nothing.
pub open spec fn pick_choice(
    ours: Seq<bool>,
    theirs: Seq<bool>,
    avail: Seq<u32>,
    active: Map<u32, u32>,
    cap: u32,
    c: Option<u32>,
) -> bool {
    if exists|i: int| fresh(ours, theirs, active, i) {
        &&& c is Some
        &&& fresh(ours, theirs, active, c->0 as int)
        &&& forall|j: int| #[trigger]
            fresh(ours, theirs, active, j) && j != c->0 ==> rarer(avail, c->0 as int, j)
    } else if exists|i: int| duplicable(ours, theirs, active, cap, i) {
        &&& c is Some
        &&& duplicable(ours, theirs, active, cap, c->0 as int)
        &&& forall|j: int| #[trigger]
            duplicable(ours, theirs, active, cap, j) && j != c->0 ==> less_busy(
                active,
                avail,
                c->0 as int,
                j,
            )
    } else {
        c is None
    }
}

/// Rarest first: a piece that is picked is one we lack and the peer has;
/// while some such piece is fetched by nobody, the pick is fetched by
/// nobody and no such piece is held by fewer peers, ties going to the lower
/// index; a pick already being fetched has the fewest fetchers, below the
/// endgame cap; and nothing is picked only when no piece qualifies. There is one
/// right pick for each state.
pub proof fn law_rarest_first(
    ours: Seq<bool>,
    theirs: Seq<bool>,
    avail: Seq<u32>,
    active: Map<u32, u32>,
    cap: u32,
    c: Option<u32>,
    d: Option<u32>,
)
    requires
        pick_choice(ours, theirs, avail, active, cap, c),
    ensures
        c matches Some(x) ==> (x as int) < ours.len() && !ours[x as int] && (x as int) < theirs.len()
            && theirs[x as int],
        c matches Some(x) ==> forall|j: int|
            0 <= j < ours.len() && !ours[j] && j < theirs.len() && theirs[j] && active_of(active, j) == 0
                ==> active_of(active, x as int) == 0 && count_of(avail, x as int) <= count_of(avail, j) && (
            count_of(avail, x as int) == count_of(avail, j) ==> x <= j),
        c matches Some(x) ==> (active_of(active, x as int) >= 1 ==> active_of(active, x as int) < cap && forall|j: int|
            0 <= j < ours.len() && !ours[j] && j < theirs.len() && theirs[j] && active_of(active, j) < cap
                ==> #[trigger] active_of(active, x as int) <= active_of(active, j)),
        c is None <==> forall|j: int|
            0 <= j < ours.len() && !ours[j] && j < theirs.len() && theirs[j] ==> #[trigger] active_of(active, j)
                >= cap && active_of(active, j) >= 1,
        pick_choice(ours, theirs, avail, active, cap, d) ==> c == d,
{
    if exists|i: int| fresh(ours, theirs, active, i) {
        let x = c->0;
        assert forall|j: int|
            0 <= j < ours.len() && !ours[j] && j < theirs.len() && theirs[j] && active_of(active, j) == 0
                implies active_of(active, x as int) == 0 && count_of(avail, x as int) <= count_of(avail, j) && (
            count_of(avail, x as int) == count_of(avail, j) ==> x <= j) by {
            assert(fresh(ours, theirs, active, j));
        }
        let w = choose|i: int| fresh(ours, theirs, active, i);
        assert(fresh(ours, theirs, active, w));
        if pick_choice(ours, theirs, avail, active, cap, d) {
            let y = d->0;
            if x != y {
                assert(rarer(avail, x as int, y as int));
                assert(rarer(avail, y as int, x as int));
            }
        }
    } else if exists|i: int| duplicable(ours, theirs, active, cap, i) {
        let x = c->0;
        assert forall|j: int|
            0 <= j < ours.len() && !ours[j] && j < theirs.len() && theirs[j] && active_of(active, j) < cap
                implies #[trigger] active_of(active, x as int) <= active_of(active, j) by {
            if j != x {
                assert(!fresh(ours, theirs, active, j));
                assert(duplicable(ours, theirs, active, cap, j));
            }
        }
        let w = choose|i: int| duplicable(ours, theirs, active, cap, i);
        assert(duplicable(ours, theirs, active, cap, w));
        if pick_choice(ours, theirs, avail, active, cap, d) {
            let y = d->0;
            if x != y {
                assert(less_busy(active, avail, x as int, y as int));
                assert(less_busy(active, avail, y as int, x as int));
            }
        }
    } else {
        assert forall|j: int|
            0 <= j < ours.len() && !ours[j] && j < theirs.len() && theirs[j] implies #[trigger] active_of(active, j)
                >= cap && active_of(active, j) >= 1 by {
            assert(!fresh(ours, theirs, active, j));
            assert(!duplicable(ours, theirs, active, cap, j));
        }
    }
}

/// No piece has more than `cap` fetchers.
pub open spec fn counts_within(active: Map<u32, u32>, cap: u32) -> bool {
    forall|k: u32| #[trigger] active.contains_key(k) ==> active[k] <= cap
}

/// Every piece in the map has at least one fetcher.
/// The fetchers per piece once one fetcher of `piece` gives up: its count
/// drops by one, and a piece with none left is no longer fetched.
pub open spec fn after_abandon(active: Map<u32, u32>, piece: u32) -> Map<u32, u32> {
    if active.contains_key(piece) {
        if active[piece] <= 1 {
            active.remove(piece)
        } else {
            active.insert(piece, (active[piece] - 1) as u32)
        }
    } else {
        active
    }
}

pub open spec fn counts_positive(active: Map<u32, u32>) -> bool {
    forall|k: u32| #[trigger] active.contains_key(k) ==> active[k] >= 1
}

#[derive(Debug)]
pub struct PiecePicker {
    active: HashMap<u32, u32>,
    endgame_cap: u32,
}

impl Clone for PiecePicker {
    fn clone(&self) -> (r: Self)
        ensures
            r.active_map() == self.active_map(),
            r.cap() == self.cap(),
    {
        proof {
            use_type_invariant(self);
        }
        PiecePicker { active: self.active.clone(), endgame_cap: self.endgame_cap }
    }
}

impl PiecePicker {
    /// Every piece being fetched has at least one fetcher.
    #[verifier::type_invariant]
    spec fn fetchers_counted(self) -> bool {
        counts_positive(self.active@)
    }

    /// How many peers fetch each piece being fetched.
    pub closed spec fn active_map(self) -> Map<u32, u32> {
        self.active@
    }

    /// How many peers may fetch one piece at once in endgame.
    pub closed spec fn cap(self) -> u32 {
        self.endgame_cap
    }

    /// Nothing is being fetched yet.
    pub fn new(endgame_cap: u32) -> (p: PiecePicker)
        ensures
            p.active_map() == Map::<u32, u32>::empty(),
            p.cap() == endgame_cap,
            counts_positive(p.active_map()),
    {
        PiecePicker { active: HashMap::new(), endgame_cap }
    }

    /// How many peers are fetching `piece`.
    pub fn active_count(&self, piece: u32) -> (n: u32)
        ensures
            n == active_of(self.active_map(), piece as int),
    {
        match self.active.get(&piece) {
            Some(n) => *n,
            None => 0,
        }
    }

    /// Chooses a piece to fetch from a peer that has `theirs`, and counts
    /// one more fetcher for it.
    pub fn pick(&mut self, ours: &Bitfield, theirs: &Bitfield, availability: &Availability) -> (r:
        Option<u32>)
        ensures
            pick_choice(ours@, theirs@, availability@, old(self).active_map(), old(self).cap(), r),
            final(self).cap() == old(self).cap(),
            final(self).active_map() == match r {
                Some(c) => old(self).active_map().insert(
                    c,
                    (active_of(old(self).active_map(), c as int) + 1) as u32,
                ),
                None => old(self).active_map(),
            },
            counts_positive(final(self).active_map()),
            old(self).cap() >= 1 && counts_within(old(self).active_map(), old(self).cap()) ==> counts_within(
                final(self).active_map(),
                final(self).cap(),
            ),
    {
        proof {
            use_type_invariant(&*self);
        }
        let ghost o = ours@;
        let ghost t = theirs@;
        let ghost av = availability@;
        let ghost act = self.active@;
        let cap = self.endgame_cap;
        let n = ours.pieces();
        let mut best_fresh: Option<u32> = None;
        let mut best_busy: Option<u32> = None;
        let mut i: u32 = 0;
        while i < n
            invariant
                n == o.len(),
                i <= n,
                o == ours@,
                t == theirs@,
                av == availability@,
                act == self.active@,
                cap == self.endgame_cap,
                match best_fresh {
                    Some(c) => c < i && fresh(o, t, act, c as int) && forall|j: int|
                        #[trigger] fresh(o, t, act, j) && j < i && j != c ==> rarer(av, c as int, j),
                    None => forall|j: int| #[trigger] fresh(o, t, act, j) ==> j >= i,
                },
                match best_busy {
                    Some(c) => c < i && duplicable(o, t, act, cap, c as int) && forall|j: int|
                        #[trigger] duplicable(o, t, act, cap, j) && j < i && j != c ==> less_busy(
                            act,
                            av,
                            c as int,
                            j,
                        ),
                    None => forall|j: int| #[trigger] duplicable(o, t, act, cap, j) ==> j >= i,
                },
            decreases n - i,
        {
            if !ours.has(i) && theirs.has(i) {
                let busy = self.active_count(i);
                let rare = availability.count(i);
                if busy == 0 {
                    let better = match best_fresh {
                        None => true,
                        Some(c) => rare < availability.count(c),
                    };
                    if better {
                        best_fresh = Some(i);
                    }
                } else if busy < cap {
                    let better = match best_busy {
                        None => true,
                        Some(c) => {
                            let cb = self.active_count(c);
                            busy < cb || (busy == cb && rare < availability.count(c))
                        },
                    };
                    if better {
                        best_busy = Some(i);
                    }
                }
            }
            i = i + 1;
        }
        let chosen = match best_fresh {
            Some(c) => c,
            None => match best_busy {
                Some(c) => c,
                None => {
                    return None;
                },
            },
        };
        let now = self.active_count(chosen);
        let mut active: HashMap<u32, u32> = HashMap::new();
        std::mem::swap(&mut active, &mut self.active);
        active.insert(chosen, now + 1);
        self.active = active;
        Some(chosen)
    }

    /// `piece` arrived: nobody fetches it any more.
    pub fn complete(&mut self, piece: u32)
        ensures
            final(self).active_map() == old(self).active_map().remove(piece),
            final(self).cap() == old(self).cap(),
            counts_positive(final(self).active_map()),
            counts_within(old(self).active_map(), old(self).cap()) ==> counts_within(
                final(self).active_map(),
                final(self).cap(),
            ),
    {
        proof {
            use_type_invariant(&*self);
        }
        let mut active: HashMap<u32, u32> = HashMap::new();
        std::mem::swap(&mut active, &mut self.active);
        active.remove(&piece);
        self.active = active;
    }

    /// One fetcher of `piece` gave up.
    pub fn abandon(&mut self, piece: u32)
        ensures
            final(self).active_map() == after_abandon(old(self).active_map(), piece),
            final(self).cap() == old(self).cap(),
            counts_positive(final(self).active_map()),
            counts_within(old(self).active_map(), old(self).cap()) ==> counts_within(
                final(self).active_map(),
                final(self).cap(),
            ),
    {
        proof {
            use_type_invariant(&*self);
        }
        let current = match self.active.get(&piece) {
            Some(n) => *n,
            None => {
                return;
            },
        };
        if current <= 1 {
            let mut active: HashMap<u32, u32> = HashMap::new();
            std::mem::swap(&mut active, &mut self.active);
            active.remove(&piece);
            self.active = active;
        } else {
            let mut active: HashMap<u32, u32> = HashMap::new();
            std::mem::swap(&mut active, &mut self.active);
            active.insert(piece, current - 1);
            self.active = active;
        }
    }

    /// Whether every piece we lack is being fetched.
    pub fn in_endgame(&self, ours: &Bitfield) -> (r: bool)
        ensures
            r == forall|i: int|
                0 <= i < ours@.len() && !ours@[i] ==> #[trigger] self.active_map().contains_key(
                    i as u32,
                ),
            r == forall|i: int| 0 <= i < ours@.len() && !ours@[i] ==> #[trigger] active_of(self.active_map(), i) >= 1,
    {
        proof {
            use_type_invariant(self);
        }
        let n = ours.pieces();
        let mut i: u32 = 0;
        while i < n
            invariant
                n == ours@.len(),
                i <= n,
                forall|j: int|
                    0 <= j < i && !ours@[j] ==> #[trigger] self.active_map().contains_key(j as u32),
                counts_positive(self.active_map()),
            decreases n - i,
        {
            if !ours.has(i) && !self.active.contains_key(&i) {
                proof {
                    assert(!self.active_map().contains_key((i as int) as u32));
                    assert(active_of(self.active_map(), i as int) == 0);
                }
                return false;
            }
            i = i + 1;
        }
        proof {
            assert forall|j: int| 0 <= j < ours@.len() && !ours@[j] implies #[trigger] active_of(self.active_map(), j) >= 1 by {
                assert(self.active_map().contains_key(j as u32));
            }
        }
        true
    }
}

} // verus!
