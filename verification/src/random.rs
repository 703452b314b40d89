//! Unpredictable values for ids and transaction numbers: a counter hashed
//! with a seed by std's randomly keyed hasher.
use vstd::prelude::*;
use std::collections::hash_map::{DefaultHasher, RandomState};
use std::hash::{BuildHasher, Hasher};
use crate::verify::{piece_digest, sha1_digest};
use crate::wire::be_bytes;

verus! {

#[verifier::external_type_specification]
#[verifier::external_body]
pub struct ExSystemTime(std::time::SystemTime);

/// Calls `RandomState::new` of std. Trusted: nothing is claimed of the
/// keys it draws.
#[verifier::external_body]
pub(crate) fn new_random_state() -> RandomState {
    RandomState::new()
}

/// Calls `BuildHasher::build_hasher` of std on `state`. Trusted: nothing is
/// claimed of the hasher, whose keys come from `state`.
#[verifier::external_body]
pub(crate) fn build_hasher(state: &RandomState) -> DefaultHasher {
    state.build_hasher()
}

/// Calls `Hasher::write_u64` of std. Trusted: nothing is claimed of what
/// the hasher holds afterwards.
#[verifier::external_body]
pub(crate) fn hash_u64(hasher: &mut DefaultHasher, value: u64) {
    hasher.write_u64(value)
}

/// Calls `Hasher::write_u8` of std. Trusted: nothing is claimed of what the
/// hasher holds afterwards.
#[verifier::external_body]
pub(crate) fn hash_u8(hasher: &mut DefaultHasher, value: u8) {
    hasher.write_u8(value)
}

/// Calls `SystemTime::now` of std. Trusted: nothing is claimed of the time.
#[verifier::external_body]
fn system_now() -> std::time::SystemTime {
    std::time::SystemTime::now()
}

/// The nanoseconds from the Unix epoch to `t`, by `SystemTime::duration_since`
/// of std; 0 for a time before the epoch. Trusted: nothing is claimed of
/// the value.
#[verifier::external_body]
fn nanos_since_epoch(t: &std::time::SystemTime) -> u64 {
    t.duration_since(std::time::UNIX_EPOCH).map(|d| d.as_nanos() as u64).unwrap_or(0)
}

/// A source of values: a seed and a counter, hashed together with keys
/// that std draws at random.
pub struct Source {
    state: RandomState,
    seed: u64,
    counter: u64,
}

/// The length of the `k`th 20-byte chunk of `n` bytes.
pub open spec fn chunk_len(n: nat, k: nat) -> nat {
    if n >= 20 * k + 20 {
        20
    } else {
        (n - 20 * k) as nat
    }
}

/// The number of 20-byte chunks that cover `n` bytes.
pub open spec fn chunk_count(n: nat) -> nat {
    ((n + 19) / 20) as nat
}

/// `out` is the digests of `values`, cut to fill it chunk by chunk.
pub open spec fn filled(out: Seq<u8>, values: Seq<u64>) -> bool {
    &&& values.len() == chunk_count(out.len())
    &&& forall|k: int|
        0 <= k < values.len() ==> #[trigger] out.subrange(20 * k, 20 * k + chunk_len(out.len(), k as nat))
            == sha1_digest(be_bytes(values[k] as nat, 8)).subrange(0, chunk_len(out.len(), k as nat) as int)
}

impl Source {
    /// How many values have been drawn, modulo 2^64.
    pub closed spec fn draws(&self) -> u64 {
        self.counter
    }

    /// The seed.
    pub closed spec fn seed_of(&self) -> u64 {
        self.seed
    }

    /// A new source, seeded from the clock.
    pub fn new() -> (r: Source)
        ensures
            r.draws() == 0,
    {
        let state = new_random_state();
        let mut hasher = build_hasher(&state);
        let now = system_now();
        hash_u64(&mut hasher, nanos_since_epoch(&now));
        let seed = hasher.finish();
        Source { state, seed, counter: 0 }
    }

    /// The next value: the seed and the count of draws, hashed.
    pub fn next_u64(&mut self) -> (r: u64)
        ensures
            final(self).draws() == (if old(self).draws() == u64::MAX {
                0
            } else {
                old(self).draws() + 1
            }),
            final(self).seed_of() == old(self).seed_of(),
    {
        let counter = self.counter.wrapping_add(1);
        self.counter = counter;
        let mut hasher = build_hasher(&self.state);
        hash_u64(&mut hasher, self.seed);
        hash_u64(&mut hasher, counter);
        hasher.finish()
    }

    /// Fills `out`, 20 bytes at a time, with the SHA-1 digests of new
    /// values.
    pub fn fill(&mut self, out: &mut [u8])
        ensures
            final(out)@.len() == old(out)@.len(),
            exists|values: Seq<u64>| filled(final(out)@, values),
            final(self).seed_of() == old(self).seed_of(),
    {
        let n = out.len();
        let ghost mut values: Seq<u64> = Seq::empty();
        let mut start: usize = 0;
        let mut k: usize = 0;
        while start < n
            invariant
                n == out@.len(),
                start <= n,
                start < n ==> start == 20 * k,
                start == n ==> k == chunk_count(n as nat),
                k <= chunk_count(n as nat),
                values.len() == k,
                out@.len() == old(out)@.len(),
                self.seed_of() == old(self).seed_of(),
                forall|j: int|
                    0 <= j < k ==> #[trigger] out@.subrange(20 * j, 20 * j + chunk_len(n as nat, j as nat))
                        == sha1_digest(be_bytes(values[j] as nat, 8)).subrange(0, chunk_len(n as nat, j as nat) as int),
            decreases n - start,
        {
            let v = self.next_u64();
            let mut bytes: Vec<u8> = Vec::new();
            crate::wire::push_be(&mut bytes, v, 8);
            let digest = piece_digest(bytes.as_slice());
            let len: usize = if n - start >= 20 {
                20
            } else {
                n - start
            };
            let ghost before = out@;
            let mut i: usize = 0;
            while i < len
                invariant
                    i <= len,
                    len <= 20,
                    start + len <= n,
                    n == out@.len(),
                    digest@.len() == 20,
                    forall|m: int| 0 <= m < start ==> #[trigger] out@[m] == before[m],
                    forall|m: int| 0 <= m < i ==> #[trigger] out@[start + m] == digest@[m],
                decreases len - i,
            {
                out[start + i] = digest[i];
                i = i + 1;
            }
            proof {
                values = values.push(v);
                assert(len == chunk_len(n as nat, k as nat));
                assert forall|m: int| 0 <= m < len implies #[trigger] out@.subrange(start as int, start + len)[m] == digest@.subrange(0, len as int)[m] by {
                    assert(out@[start + m] == digest@[m]);
                }
                assert(out@.subrange(start as int, start + len) =~= digest@.subrange(0, len as int));
                let kk = k as int;
                let nn = n as int;
                if len == 20 {
                    if start + len == n {
                        assert(kk + 1 == (nn + 19) / 20) by (nonlinear_arith)
                            requires
                                20 * kk + 20 == nn,
                        ;
                    } else {
                        assert(kk + 1 <= (nn + 19) / 20) by (nonlinear_arith)
                            requires
                                20 * kk + 20 < nn,
                        ;
                    }
                } else {
                    assert(kk + 1 == (nn + 19) / 20) by (nonlinear_arith)
                        requires
                            20 * kk < nn,
                            nn < 20 * kk + 20,
                    ;
                }
                assert forall|j: int|
                    0 <= j < k + 1 implies #[trigger] out@.subrange(20 * j, 20 * j + chunk_len(n as nat, j as nat))
                        == sha1_digest(be_bytes(values[j] as nat, 8)).subrange(0, chunk_len(n as nat, j as nat) as int) by {
                    if j < k {
                        assert(20 * j + 20 <= start);
                        assert(out@.subrange(20 * j, 20 * j + chunk_len(n as nat, j as nat)) =~= before.subrange(
                            20 * j,
                            20 * j + chunk_len(n as nat, j as nat),
                        ));
                    }
                }
            }
            start = start + len;
            k = k + 1;
        }
        proof {
            assert(filled(out@, values));
        }
    }
}

impl Default for Source {
    fn default() -> (r: Self)
        ensures
            r.draws() == 0,
    {
        Self::new()
    }
}

} // verus!
