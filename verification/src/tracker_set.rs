//! Tiers of trackers tried in order, and the timer that spaces announces.
use vstd::prelude::*;
use crate::tracker::{AnnounceRequest, AnnounceResponse, Error};

verus! {

/// Tiers of tracker URLs. An announce tries the tiers in order and the URLs
/// of a tier in order; the first URL that answers moves to the front of its
/// tier.
#[derive(Debug, Clone, PartialEq, Eq)]
pub struct TrackerSet {
    tiers: Vec<Vec<String>>,
}

/// `tier` with its `i`th URL moved to the front.
pub open spec fn promote(tier: Seq<String>, i: int) -> Seq<String> {
    seq![tier[i]] + tier.remove(i)
}

/// Moving the URL that answered to the front of its tier loses no URL and
/// adds none: the tier keeps its length and holds the same URLs, each as
/// often as before, with that URL first.
pub proof fn law_promote_keeps_urls(tier: Seq<String>, i: int)
    requires
        0 <= i < tier.len(),
    ensures
        promote(tier, i).len() == tier.len(),
        promote(tier, i)[0] == tier[i],
        promote(tier, i).to_multiset() == tier.to_multiset(),
{
    broadcast use vstd::multiset::group_multiset_axioms;
    let rest = tier.remove(i);
    assert(promote(tier, i) =~= rest.insert(0, tier[i]));
    vstd::seq_lib::to_multiset_remove(tier, i);
    vstd::seq_lib::to_multiset_insert(rest, 0, tier[i]);
    tier.to_multiset_ensures();
    assert(tier.to_multiset().count(tier[i]) > 0);
    assert(promote(tier, i).to_multiset() =~= tier.to_multiset());
}

/// The URL at `(t, i)` comes before the one at `(t2, i2)` in announce order.
pub open spec fn earlier(t: int, i: int, t2: int, i2: int) -> bool {
    t < t2 || (t == t2 && i < i2)
}

/// A position of a URL in `tiers`.
pub open spec fn position(tiers: Seq<Seq<String>>, t: int, i: int) -> bool {
    0 <= t < tiers.len() && 0 <= i < tiers[t].len()
}

/// `out` is an answer that `f` can give for `url`.
pub open spec fn answers<F: FnMut(&str, &AnnounceRequest) -> Result<AnnounceResponse, Error>>(
    f: F,
    url: String,
    req: AnnounceRequest,
    out: Result<AnnounceResponse, Error>,
) -> bool {
    exists|u: &str| u@ == url@ && #[trigger] call_ensures(f, (u, &req), out)
}

/// `f` can refuse `url`.
pub open spec fn refuses<F: FnMut(&str, &AnnounceRequest) -> Result<AnnounceResponse, Error>>(
    f: F,
    url: String,
    req: AnnounceRequest,
) -> bool {
    exists|e: Error| #[trigger] answers(f, url, req, Err(e))
}

impl TrackerSet {
    /// The tiers, each a sequence of URLs.
    pub closed spec fn model(&self) -> Seq<Seq<String>> {
        self.tiers@.map_values(|t: Vec<String>| t@)
    }

    pub fn new(tiers: Vec<Vec<String>>) -> (r: Self)
        ensures
            r.model() == tiers@.map_values(|t: Vec<String>| t@),
    {
        TrackerSet { tiers }
    }

    pub fn tiers(&self) -> (r: &[Vec<String>])
        ensures
            r@.map_values(|t: Vec<String>| t@) == self.model(),
    {
        self.tiers.as_slice()
    }

    /// Announces to the first URL, in tier order, that answers. That URL
    /// moves to the front of its tier and its answer is returned; every URL
    /// before it was refused. When all refuse, the tiers stay as they are
    /// and the last refusal is returned, or `UnsupportedUrl` when there is
    /// no URL at all.
    pub fn announce<F>(&mut self, request: &AnnounceRequest, announcer: &mut F) -> (r: Result<AnnounceResponse, Error>) where
        F: FnMut(&str, &AnnounceRequest) -> Result<AnnounceResponse, Error>,

        requires
            forall|u: &str, q: &AnnounceRequest| #[trigger] call_requires(*old(announcer), (u, q)),
        ensures
            match r {
                Ok(resp) => exists|t: int, i: int|
                    #![trigger old(self).model()[t][i]]
                    position(old(self).model(), t, i) && final(self).model() == old(self).model().update(
                        t,
                        promote(old(self).model()[t], i),
                    ) && answers(*old(announcer), old(self).model()[t][i], *request, Ok(resp))
                        && forall|t2: int, i2: int|
                        position(old(self).model(), t2, i2) && earlier(t2, i2, t, i) ==> #[trigger] refuses(
                            *old(announcer),
                            old(self).model()[t2][i2],
                            *request,
                        ),
                Err(e) => final(self).model() == old(self).model() && (forall|t2: int, i2: int|
                    position(old(self).model(), t2, i2) ==> #[trigger] refuses(
                        *old(announcer),
                        old(self).model()[t2][i2],
                        *request,
                    )) && ((forall|t2: int| 0 <= t2 < old(self).model().len() ==> #[trigger] old(
                    self,
                ).model()[t2].len() == 0) ==> e is UnsupportedUrl),
            },
    {
        let ghost f0 = *announcer;
        let ghost m0 = self.model();
        let mut last = Error::UnsupportedUrl("no trackers".to_owned());
        let mut t: usize = 0;
        while t < self.tiers.len()
            invariant
                self.model() == m0,
                m0 == old(self).model(),
                f0 == *announcer,
                f0 == *old(announcer),
                t <= m0.len(),
                forall|u: &str, q: &AnnounceRequest| #[trigger] call_requires(f0, (u, q)),
                forall|t2: int, i2: int|
                    position(m0, t2, i2) && t2 < t ==> #[trigger] refuses(f0, m0[t2][i2], *request),
                (forall|t2: int| 0 <= t2 < t ==> #[trigger] m0[t2].len() == 0) ==> last is UnsupportedUrl,
            decreases m0.len() - t,
        {
            let mut i: usize = 0;
            let ghost before_all_empty = forall|t2: int| 0 <= t2 < t ==> #[trigger] m0[t2].len() == 0;
            while i < self.tiers[t].len()
                invariant
                    self.model() == m0,
                    m0 == old(self).model(),
                    f0 == *announcer,
                    f0 == *old(announcer),
                    t < m0.len(),
                    i <= m0[t as int].len(),
                    forall|u: &str, q: &AnnounceRequest| #[trigger] call_requires(f0, (u, q)),
                    forall|t2: int, i2: int|
                        position(m0, t2, i2) && earlier(t2, i2, t as int, i as int) ==> #[trigger] refuses(
                            f0,
                            m0[t2][i2],
                            *request,
                        ),
                    before_all_empty == forall|t2: int| 0 <= t2 < t ==> #[trigger] m0[t2].len() == 0,
                    (before_all_empty && i == 0) ==> last is UnsupportedUrl,
                decreases m0[t as int].len() - i,
            {
                proof {
                    assert(self.tiers@[t as int]@ == m0[t as int]);
                }
                let url: &str = self.tiers[t][i].as_str();
                let res = announcer(url, request);
                proof {
                    assert(call_ensures(f0, (url, request), res));
                    assert(answers(f0, m0[t as int][i as int], *request, res));
                }
                match res {
                    Ok(resp) => {
                        let tier = &mut self.tiers[t];
                        let moved = tier.remove(i);
                        tier.insert(0, moved);
                        proof {
                            let p = promote(m0[t as int], i as int);
                            assert(self.tiers@[t as int]@ =~= p);
                            assert(self.model() =~= m0.update(t as int, p));
                            assert(position(m0, t as int, i as int) && self.model() == m0.update(
                                t as int,
                                promote(m0[t as int], i as int),
                            ) && answers(f0, m0[t as int][i as int], *request, Ok(resp)));
                        }
                        return Ok(resp);
                    },
                    Err(e) => {
                        proof {
                            assert(refuses(f0, m0[t as int][i as int], *request));
                        }
                        last = e;
                    },
                }
                i = i + 1;
            }
            t = t + 1;
        }
        Err(last)
    }
}

// ---------------------------------------------------------------------
// The announce timer

/// The wait after the first failure, in milliseconds.
pub const BASE_BACKOFF_MS: u64 = 15_000;

/// The longest wait after failures, in milliseconds.
pub const MAX_BACKOFF_MS: u64 = 900_000;

/// When the next announce is due, in milliseconds on a monotonic clock, and
/// how many announces in a row have failed.
#[derive(Debug, Clone, Copy, PartialEq, Eq, Structural)]
pub struct AnnounceTimer {
    due: Option<u64>,
    failures: u32,
}

/// The wait after `failures` failures in a row: 15 seconds, doubled for
/// each earlier failure, at most 900 seconds.
pub open spec fn backoff_ms(failures: nat) -> nat
    decreases failures,
{
    if failures == 0 {
        BASE_BACKOFF_MS as nat
    } else {
        let prev = backoff_ms((failures - 1) as nat);
        if 2 * prev > MAX_BACKOFF_MS {
            MAX_BACKOFF_MS as nat
        } else {
            2 * prev
        }
    }
}

/// However many announces failed in a row, the wait before the next is at
/// least 15 seconds and at most 900 seconds.
pub proof fn law_backoff_bounded(failures: nat)
    ensures
        BASE_BACKOFF_MS <= backoff_ms(failures) <= MAX_BACKOFF_MS,
    decreases failures,
{
    if failures > 0 {
        law_backoff_bounded((failures - 1) as nat);
    }
}

/// The wait after `failures` failures in a row is 15 seconds times two to
/// the number of earlier failures, at most 900 seconds.
pub proof fn law_backoff_closed_form(failures: nat)
    ensures
        backoff_ms(failures) == if BASE_BACKOFF_MS * vstd::arithmetic::power2::pow2(failures) > MAX_BACKOFF_MS {
            MAX_BACKOFF_MS as int
        } else {
            BASE_BACKOFF_MS * vstd::arithmetic::power2::pow2(failures)
        },
    decreases failures,
{
    if failures == 0 {
        vstd::arithmetic::power::lemma_pow0(2);
    } else {
        let f = (failures - 1) as nat;
        law_backoff_closed_form(f);
        vstd::arithmetic::power2::lemma_pow2_unfold(failures);
        let p = vstd::arithmetic::power2::pow2(f);
        assert(BASE_BACKOFF_MS * (2 * p) == 2 * (BASE_BACKOFF_MS * p)) by (nonlinear_arith);
    }
}

impl AnnounceTimer {
    /// When the next announce is due; `None` before the first.
    pub closed spec fn due_at(&self) -> Option<u64> {
        self.due
    }

    /// How many announces in a row have failed.
    pub closed spec fn failure_count(&self) -> u32 {
        self.failures
    }

    pub fn new() -> (r: Self)
        ensures
            r.due_at() is None,
            r.failure_count() == 0,
    {
        AnnounceTimer { due: None, failures: 0 }
    }

    /// Whether an announce is due at `now`.
    pub fn ready(&self, now: u64) -> (r: bool)
        ensures
            r == match self.due_at() {
                None => true,
                Some(due) => now >= due,
            },
    {
        match self.due {
            None => true,
            Some(due) => now >= due,
        }
    }

    /// After an answer with `interval_secs`: the next announce is due that
    /// many seconds from `now`, and the failures are forgotten.
    pub fn after_success(&mut self, interval_secs: u32, now: u64)
        requires
            now + interval_secs * 1000 <= u64::MAX,
        ensures
            final(self).failure_count() == 0,
            final(self).due_at() == Some((now + interval_secs * 1000) as u64),
    {
        self.failures = 0;
        self.due = Some(now + interval_secs as u64 * 1000);
    }

    /// After a failure: the next announce waits the backoff for the failures
    /// so far, and one more failure is counted (up to `u32::MAX`).
    pub fn after_failure(&mut self, now: u64)
        requires
            now + backoff_ms(old(self).failure_count() as nat) <= u64::MAX,
        ensures
            final(self).failure_count() == if old(self).failure_count() == u32::MAX {
                u32::MAX
            } else {
                (old(self).failure_count() + 1) as u32
            },
            final(self).due_at() == Some((now + backoff_ms(old(self).failure_count() as nat)) as u64),
    {
        let mut wait: u64 = BASE_BACKOFF_MS;
        let mut k: u32 = 0;
        while k < self.failures && wait < MAX_BACKOFF_MS
            invariant
                k <= self.failures,
                wait == backoff_ms(k as nat),
            decreases self.failures - k,
        {
            proof {
                law_backoff_bounded(k as nat);
            }
            wait = if 2 * wait > MAX_BACKOFF_MS {
                MAX_BACKOFF_MS
            } else {
                2 * wait
            };
            k = k + 1;
        }
        proof {
            law_backoff_bounded(k as nat);
            if k < self.failures {
                lemma_backoff_settles(k as nat, self.failures as nat);
            }
        }
        self.failures = self.failures.saturating_add(1);
        self.due = Some(now + wait);
    }
}

proof fn lemma_backoff_settles(k: nat, f: nat)
    requires
        k <= f,
        backoff_ms(k) == MAX_BACKOFF_MS,
    ensures
        backoff_ms(f) == MAX_BACKOFF_MS,
    decreases f - k,
{
    if k < f {
        lemma_backoff_settles(k, (f - 1) as nat);
    }
}

impl Default for AnnounceTimer {
    fn default() -> (r: Self)
        ensures
            r.due_at() is None,
            r.failure_count() == 0,
    {
        Self::new()
    }
}

} // verus!
