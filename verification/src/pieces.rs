//! Which pieces a peer has, packed one bit per piece as the wire carries it,
//! and how many peers have each piece.
use vstd::prelude::*;

verus! {

/// Bit `i` of a packed bitfield: the high bit of the first byte is piece 0.
pub open spec fn bit_at(bytes: Seq<u8>, i: int) -> bool {
    bytes[i / 8] & (0x80u8 >> ((i % 8) as u8)) != 0
}

/// The number of bytes that hold `pieces` bits.
pub open spec fn byte_len(pieces: nat) -> nat {
    (pieces + 7) / 8
}

/// `bytes` is the packed form of `bits`: the right length, one bit per
/// piece, and the spare bits of the last byte clear.
pub open spec fn packs(bytes: Seq<u8>, bits: Seq<bool>) -> bool {
    &&& bytes.len() == byte_len(bits.len())
    &&& forall|i: int| 0 <= i < bits.len() ==> #[trigger] bit_at(bytes, i) == bits[i]
    &&& forall|i: int| bits.len() <= i < 8 * bytes.len() ==> !#[trigger] bit_at(bytes, i)
}

/// A bitfield survives its bytes: the bytes that pack `bits` have the
/// length and clear spare bits that `from_bytes` asks of them, and every
/// bitfield of that many pieces that they pack is `bits` itself.
pub proof fn law_packing_round_trip(bytes: Seq<u8>, bits: Seq<bool>)
    requires
        packs(bytes, bits),
    ensures
        bytes.len() == byte_len(bits.len()),
        forall|i: int| bits.len() <= i < 8 * bytes.len() ==> !#[trigger] bit_at(bytes, i),
        forall|other: Seq<bool>| #[trigger] packs(bytes, other) && other.len() == bits.len() ==> other == bits,
        forall|other: Seq<u8>| #[trigger] packs(other, bits) ==> other == bytes,
{
    assert forall|other: Seq<u8>| #[trigger] packs(other, bits) implies other == bytes by {
        assert forall|j: int| 0 <= j < bytes.len() implies other[j] == bytes[j] by {
            assert forall|k: int| 0 <= k < 8 implies #[trigger] bit_of(other[j], k) == bit_of(bytes[j], k) by {
                let i = 8 * j + k;
                assert(i / 8 == j && i % 8 == k);
                assert(bit_at(other, i) == bit_at(bytes, i));
            }
            lemma_byte_from_bits(other[j], bytes[j]);
        }
        assert(other =~= bytes);
    }
    assert forall|other: Seq<bool>| #[trigger] packs(bytes, other) && other.len() == bits.len() implies other
        == bits by {
        assert forall|i: int| 0 <= i < bits.len() implies other[i] == bits[i] by {
            assert(bit_at(bytes, i) == other[i]);
            assert(bit_at(bytes, i) == bits[i]);
        }
        assert(other =~= bits);
    }
}

/// The pieces below `n` that `bits` lacks, in increasing order.
pub open spec fn missing_below(bits: Seq<bool>, n: int) -> Seq<u32>
    decreases n,
{
    if n <= 0 {
        Seq::empty()
    } else if !bits[n - 1] {
        missing_below(bits, n - 1).push((n - 1) as u32)
    } else {
        missing_below(bits, n - 1)
    }
}

/// Bit `k` of byte `a`, the high bit first.
pub open spec fn bit_of(a: u8, k: int) -> bool {
    a & (0x80u8 >> (k as u8)) != 0
}

/// A byte is its eight bits.
proof fn lemma_byte_from_bits(a: u8, b: u8)
    requires
        forall|k: int| 0 <= k < 8 ==> #[trigger] bit_of(a, k) == bit_of(b, k),
    ensures
        a == b,
{
    assert(bit_of(a, 0) == bit_of(b, 0));
    assert(bit_of(a, 1) == bit_of(b, 1));
    assert(bit_of(a, 2) == bit_of(b, 2));
    assert(bit_of(a, 3) == bit_of(b, 3));
    assert(bit_of(a, 4) == bit_of(b, 4));
    assert(bit_of(a, 5) == bit_of(b, 5));
    assert(bit_of(a, 6) == bit_of(b, 6));
    assert(bit_of(a, 7) == bit_of(b, 7));
    assert(a == b) by (bit_vector)
        requires
            (a & (0x80u8 >> 0u8) != 0) == (b & (0x80u8 >> 0u8) != 0),
            (a & (0x80u8 >> 1u8) != 0) == (b & (0x80u8 >> 1u8) != 0),
            (a & (0x80u8 >> 2u8) != 0) == (b & (0x80u8 >> 2u8) != 0),
            (a & (0x80u8 >> 3u8) != 0) == (b & (0x80u8 >> 3u8) != 0),
            (a & (0x80u8 >> 4u8) != 0) == (b & (0x80u8 >> 4u8) != 0),
            (a & (0x80u8 >> 5u8) != 0) == (b & (0x80u8 >> 5u8) != 0),
            (a & (0x80u8 >> 6u8) != 0) == (b & (0x80u8 >> 6u8) != 0),
            (a & (0x80u8 >> 7u8) != 0) == (b & (0x80u8 >> 7u8) != 0),
    ;
}

/// The number of `true` entries.
pub open spec fn count_true(s: Seq<bool>) -> nat
    decreases s.len(),
{
    if s.len() == 0 {
        0
    } else {
        count_true(s.drop_last()) + if s.last() {
            1nat
        } else {
            0nat
        }
    }
}

/// No `true` entry counts zero.
pub proof fn lemma_count_true_zero(s: Seq<bool>)
    ensures
        count_true(s) == 0 <==> forall|i: int| 0 <= i < s.len() ==> !#[trigger] s[i],
    decreases s.len(),
{
    if s.len() > 0 {
        let p = s.drop_last();
        lemma_count_true_zero(p);
        if forall|i: int| 0 <= i < s.len() ==> !#[trigger] s[i] {
            assert forall|i: int| 0 <= i < p.len() implies !#[trigger] p[i] by {
                assert(p[i] == s[i]);
            }
            assert(!s[s.len() - 1]);
        }
        if count_true(s) == 0 {
            assert forall|i: int| 0 <= i < s.len() implies !#[trigger] s[i] by {
                if i < p.len() {
                    assert(p[i] == s[i]);
                }
            }
        }
    }
}

pub proof fn lemma_count_true_bound(s: Seq<bool>)
    ensures
        count_true(s) <= s.len(),
        count_true(s) == s.len() <==> forall|i: int| 0 <= i < s.len() ==> #[trigger] s[i],
    decreases s.len(),
{
    if s.len() > 0 {
        let p = s.drop_last();
        lemma_count_true_bound(p);
        if count_true(s) == s.len() {
            assert forall|i: int| 0 <= i < s.len() implies #[trigger] s[i] by {
                if i < p.len() {
                    assert(p[i] == s[i]);
                }
            }
        }
        if forall|i: int| 0 <= i < s.len() ==> #[trigger] s[i] {
            assert forall|i: int| 0 <= i < p.len() implies #[trigger] p[i] by {
                assert(p[i] == s[i]);
            }
            assert(s[s.len() - 1]);
        }
    }
}

#[derive(Debug, Clone, Copy, PartialEq, Eq)]
pub enum BitfieldError {
    WrongLength,
    SpareBitsSet,
}

/// One bit per piece: set where the piece is present.
#[derive(Debug, PartialEq, Eq)]
pub struct Bitfield {
    bits: Vec<u8>,
    pieces: u32,
}

impl Bitfield {
    #[verifier::type_invariant]
    closed spec fn packed(self) -> bool {
        &&& self.bits@.len() == byte_len(self.pieces as nat)
        &&& forall|i: int| self.pieces <= i < 8 * self.bits@.len() ==> !#[trigger] bit_at(self.bits@, i)
    }

    /// The pieces, each `true` where present.
    pub closed spec fn bools(self) -> Seq<bool> {
        Seq::new(self.pieces as nat, |i: int| bit_at(self.bits@, i))
    }
}

impl View for Bitfield {
    type V = Seq<bool>;

    open spec fn view(&self) -> Seq<bool> {
        self.bools()
    }
}

/// Bit `i % 8` of a byte, counted from the high bit.
proof fn lemma_mask_bits(b: u8, s: u8, t: u8)
    requires
        s < 8,
        t < 8,
    ensures
        (b | (0x80u8 >> s)) & (0x80u8 >> s) != 0,
        s != t ==> ((b | (0x80u8 >> s)) & (0x80u8 >> t) != 0 <==> b & (0x80u8 >> t) != 0),
        (b & !(0x80u8 >> s)) & (0x80u8 >> s) == 0,
        s != t ==> ((b & !(0x80u8 >> s)) & (0x80u8 >> t) != 0 <==> b & (0x80u8 >> t) != 0),
{
    assert((b | (0x80u8 >> s)) & (0x80u8 >> s) != 0) by (bit_vector)
        requires
            s < 8,
    ;
    assert(s != t ==> ((b | (0x80u8 >> s)) & (0x80u8 >> t) != 0 <==> b & (0x80u8 >> t) != 0))
        by (bit_vector)
        requires
            s < 8,
            t < 8,
    ;
    assert((b & !(0x80u8 >> s)) & (0x80u8 >> s) == 0) by (bit_vector)
        requires
            s < 8,
    ;
    assert(s != t ==> ((b & !(0x80u8 >> s)) & (0x80u8 >> t) != 0 <==> b & (0x80u8 >> t) != 0))
        by (bit_vector)
        requires
            s < 8,
            t < 8,
    ;
}

proof fn lemma_zero_byte(s: u8)
    requires
        s < 8,
    ensures
        0u8 & (0x80u8 >> s) == 0,
{
    assert(0u8 & (0x80u8 >> s) == 0) by (bit_vector);
}

/// The spare bits of the last byte are clear exactly when the byte has no
/// bit below its `8 - spare` high bits.
proof fn lemma_spare_mask(b: u8, spare: u8, t: u8)
    requires
        0 < spare < 8,
        t < 8,
    ensures
        b & (((1u16 << spare) - 1) as u8) == 0 && 8 - spare <= t ==> b & (0x80u8 >> t) == 0,
        b & (((1u16 << spare) - 1) as u8) != 0 ==> exists|t2: u8|
            8 - spare <= t2 < 8 && #[trigger] (b & (0x80u8 >> t2)) != 0,
{
    assert(b & (((1u16 << spare) - 1) as u8) == 0 && 8 - spare <= t ==> b & (0x80u8 >> t) == 0)
        by (bit_vector)
        requires
            0 < spare < 8,
            t < 8,
    ;
    if b & (((1u16 << spare) - 1) as u8) != 0 {
        assert(b & (((1u16 << spare) - 1) as u8) != 0 ==> (b & (0x80u8 >> 7u8)) != 0 || (b & (
        0x80u8 >> 6u8)) != 0 && 8 - spare <= 6 || (b & (0x80u8 >> 5u8)) != 0 && 8 - spare <= 5
            || (b & (0x80u8 >> 4u8)) != 0 && 8 - spare <= 4 || (b & (0x80u8 >> 3u8)) != 0 && 8
            - spare <= 3 || (b & (0x80u8 >> 2u8)) != 0 && 8 - spare <= 2 || (b & (0x80u8 >> 1u8))
            != 0 && 8 - spare <= 1) by (bit_vector)
            requires
                0 < spare < 8,
        ;
        if (b & (0x80u8 >> 7u8)) != 0 {
            assert(b & (0x80u8 >> 7u8) != 0);
        } else if (b & (0x80u8 >> 6u8)) != 0 {
            assert(b & (0x80u8 >> 6u8) != 0);
        } else if (b & (0x80u8 >> 5u8)) != 0 {
            assert(b & (0x80u8 >> 5u8) != 0);
        } else if (b & (0x80u8 >> 4u8)) != 0 {
            assert(b & (0x80u8 >> 4u8) != 0);
        } else if (b & (0x80u8 >> 3u8)) != 0 {
            assert(b & (0x80u8 >> 3u8) != 0);
        } else if (b & (0x80u8 >> 2u8)) != 0 {
            assert(b & (0x80u8 >> 2u8) != 0);
        } else {
            assert(b & (0x80u8 >> 1u8) != 0);
        }
    }
}

/// The spare bits of a packed bitfield are the low `(8 - pieces % 8) % 8`
/// bits of its last byte: some bit at or past `pieces` is set exactly when
/// that byte, masked with them, is not zero.
pub proof fn law_spare_bits_mask(bytes: Seq<u8>, pieces: nat)
    requires
        bytes.len() == byte_len(pieces),
        bytes.len() > 0,
    ensures
        ({
            let spare = ((8 - pieces % 8) % 8) as u8;
            (exists|i: int| pieces <= i < 8 * bytes.len() && #[trigger] bit_at(bytes, i)) <==> (spare > 0
                && bytes.last() & (((1u16 << spare) - 1) as u8) != 0)
        }),
{
    let n = bytes.len() as int;
    let spare = ((8 - pieces % 8) % 8) as u8;
    let last = bytes.last();
    if spare > 0 {
        assert(pieces == 8 * (n - 1) + (8 - spare));
        if last & (((1u16 << spare) - 1) as u8) != 0 {
            lemma_spare_mask(last, spare, 0);
            let t2 = choose|t2: u8| 8 - spare <= t2 < 8 && #[trigger] (last & (0x80u8 >> t2)) != 0;
            let i = 8 * (n - 1) + t2;
            assert(i / 8 == n - 1 && i % 8 == t2) by (nonlinear_arith)
                requires
                    i == 8 * (n - 1) + t2,
                    t2 < 8,
            ;
            assert(bit_at(bytes, i));
        } else {
            assert forall|i: int| pieces <= i < 8 * n implies !#[trigger] bit_at(bytes, i) by {
                let t = (i % 8) as u8;
                assert(i / 8 == n - 1);
                lemma_spare_mask(last, spare, t);
            }
        }
    } else {
        assert(pieces % 8 == 0);
        assert(8 * n == pieces);
    }
}

impl Bitfield {
    proof fn lemma_view(self)
        requires
            self.packed(),
        ensures
            packs(self.bits@, self@),
            self@.len() == self.pieces,
    {
    }

    /// A bitfield of `pieces` pieces, none present.
    pub fn new(pieces: u32) -> (b: Bitfield)
        ensures
            b@.len() == pieces,
            forall|i: int| 0 <= i < pieces ==> !#[trigger] b@[i],
    {
        let n: usize = (pieces / 8 + if pieces % 8 == 0 {
            0
        } else {
            1
        }) as usize;
        let mut bits: Vec<u8> = Vec::new();
        let mut k: usize = 0;
        while k < n
            invariant
                k <= n,
                bits@.len() == k,
                forall|j: int| 0 <= j < k ==> bits@[j] == 0,
            decreases n - k,
        {
            bits.push(0u8);
            k = k + 1;
        }
        proof {
            assert(n == byte_len(pieces as nat));
            assert forall|i: int| 0 <= i < 8 * bits@.len() implies !#[trigger] bit_at(bits@, i) by {
                assert(bits@[i / 8] == 0);
                lemma_zero_byte((i % 8) as u8);
            }
        }
        Bitfield { bits, pieces }
    }

    /// Takes a bitfield as a peer sent it: it must have exactly the bytes
    /// that `pieces` bits take, and the spare bits of its last byte clear.
    pub fn from_bytes(bytes: &[u8], pieces: u32) -> (r: Result<Bitfield, BitfieldError>)
        ensures
            match r {
                Ok(b) => packs(bytes@, b@) && b@.len() == pieces,
                Err(BitfieldError::WrongLength) => bytes@.len() != byte_len(pieces as nat),
                Err(BitfieldError::SpareBitsSet) => bytes@.len() == byte_len(pieces as nat) && exists|i: int|
                    pieces <= i < 8 * bytes@.len() && #[trigger] bit_at(bytes@, i),
            },
    {
        let n: usize = (pieces / 8 + if pieces % 8 == 0 {
            0
        } else {
            1
        }) as usize;
        proof {
            assert(n == byte_len(pieces as nat));
        }
        if bytes.len() != n {
            return Err(BitfieldError::WrongLength);
        }
        let spare: u32 = (8 - (pieces % 8)) % 8;
        if spare > 0 {
            let last = bytes[bytes.len() - 1];
            proof {
                let sp = spare as u16;
                assert(1u16 << sp >= 1) by (bit_vector)
                    requires
                        sp < 8,
                ;
            }
            let mask: u8 = ((1u16 << spare as u16) - 1) as u8;
            if last & mask != 0 {
                proof {
                    lemma_spare_mask(last, spare as u8, 0);
                    let t2 = choose|t2: u8| 8 - spare <= t2 < 8 && #[trigger] (last & (0x80u8 >> t2)) != 0;
                    let i = 8 * (n - 1) + t2;
                    assert(i / 8 == n - 1 && i % 8 == t2) by (nonlinear_arith)
                        requires
                            i == 8 * (n - 1) + t2,
                            t2 < 8,
                    ;
                    assert(bit_at(bytes@, i));
                }
                return Err(BitfieldError::SpareBitsSet);
            }
            proof {
                assert forall|i: int| pieces <= i < 8 * bytes@.len() implies !#[trigger] bit_at(bytes@, i) by {
                    let t = (i % 8) as u8;
                    assert(i / 8 == n - 1);
                    lemma_spare_mask(last, spare as u8, t);
                }
            }
        } else {
            proof {
                assert(pieces % 8 == 0);
                assert(8 * bytes@.len() == pieces);
            }
        }
        let b = Bitfield { bits: crate::wire::copy_all(bytes), pieces };
        proof {
            b.lemma_view();
        }
        Ok(b)
    }

    /// The number of pieces.
    pub fn pieces(&self) -> (n: u32)
        ensures
            n == self@.len(),
    {
        self.pieces
    }

    /// The packed form, as it goes on the wire.
    pub fn as_bytes(&self) -> (r: &[u8])
        ensures
            packs(r@, self@),
    {
        proof {
            use_type_invariant(self);
        }
        self.bits.as_slice()
    }

    /// Whether piece `index` is present; `false` past the end.
    pub fn has(&self, index: u32) -> (r: bool)
        ensures
            r == (index < self@.len() && self@[index as int]),
    {
        proof {
            use_type_invariant(self);
        }
        if index >= self.pieces {
            return false;
        }
        proof {
            assert(index / 8 < self.bits@.len()) by (nonlinear_arith)
                requires
                    index < self.pieces,
                    self.bits@.len() == (self.pieces + 7) / 8,
            ;
        }
        self.bits[(index / 8) as usize] & (0x80u8 >> ((index % 8) as u8)) != 0
    }

    /// Marks piece `index` present; nothing happens past the end.
    pub fn set(&mut self, index: u32)
        ensures
            final(self)@ == if index < old(self)@.len() {
                old(self)@.update(index as int, true)
            } else {
                old(self)@
            },
    {
        proof {
            use_type_invariant(&*self);
        }
        if index < self.pieces {
            let ghost old_bits = self.bits@;
            let k = (index / 8) as usize;
            let s = (index % 8) as u8;
            proof {
                assert(k < self.bits@.len()) by (nonlinear_arith)
                    requires
                        k == index / 8,
                        index < self.pieces,
                        self.bits@.len() == (self.pieces + 7) / 8,
                ;
            }
            let mut whole = Bitfield { bits: Vec::new(), pieces: 0 };
            std::mem::swap(&mut whole, self);
            let Bitfield { mut bits, pieces } = whole;
            let b = bits[k];
            bits.set(k, b | (0x80u8 >> s));
            proof {
                assert forall|i: int| 0 <= i < 8 * bits@.len() && i != index implies #[trigger] bit_at(bits@, i)
                    == bit_at(old_bits, i) by {
                    if i / 8 == k {
                        lemma_mask_bits(b, s, (i % 8) as u8);
                    }
                }
                lemma_mask_bits(b, s, s);
            }
            *self = Bitfield { bits, pieces };
            proof {
                assert(self@ =~= old(self)@.update(index as int, true));
            }
        }
    }

    /// Marks piece `index` missing; nothing happens past the end.
    pub fn clear(&mut self, index: u32)
        ensures
            final(self)@ == if index < old(self)@.len() {
                old(self)@.update(index as int, false)
            } else {
                old(self)@
            },
    {
        proof {
            use_type_invariant(&*self);
        }
        if index < self.pieces {
            let ghost old_bits = self.bits@;
            let k = (index / 8) as usize;
            let s = (index % 8) as u8;
            proof {
                assert(k < self.bits@.len()) by (nonlinear_arith)
                    requires
                        k == index / 8,
                        index < self.pieces,
                        self.bits@.len() == (self.pieces + 7) / 8,
                ;
            }
            let mut whole = Bitfield { bits: Vec::new(), pieces: 0 };
            std::mem::swap(&mut whole, self);
            let Bitfield { mut bits, pieces } = whole;
            let b = bits[k];
            bits.set(k, b & !(0x80u8 >> s));
            proof {
                assert forall|i: int| 0 <= i < 8 * bits@.len() && i != index implies #[trigger] bit_at(bits@, i)
                    == bit_at(old_bits, i) by {
                    if i / 8 == k {
                        lemma_mask_bits(b, s, (i % 8) as u8);
                    }
                }
                lemma_mask_bits(b, s, s);
            }
            *self = Bitfield { bits, pieces };
            proof {
                assert(self@ =~= old(self)@.update(index as int, false));
            }
        }
    }

    /// How many pieces are present.
    pub fn count_set(&self) -> (n: u32)
        ensures
            n == count_true(self@),
    {
        let mut n: u32 = 0;
        let mut i: u32 = 0;
        while i < self.pieces
            invariant
                i <= self@.len(),
                n == count_true(self@.take(i as int)),
                self@.len() == self.pieces,
            decreases self.pieces - i,
        {
            proof {
                assert(self@.take(i + 1).drop_last() =~= self@.take(i as int));
                lemma_count_true_bound(self@.take(i as int));
            }
            if self.has(i) {
                n = n + 1;
            }
            i = i + 1;
        }
        proof {
            assert(self@.take(i as int) =~= self@);
        }
        n
    }

    /// Whether every piece is present.
    pub fn is_complete(&self) -> (r: bool)
        ensures
            r == forall|i: int| 0 <= i < self@.len() ==> #[trigger] self@[i],
    {
        proof {
            lemma_count_true_bound(self@);
        }
        self.count_set() == self.pieces
    }

    /// The missing pieces, in increasing order.
    pub fn missing(&self) -> (r: Vec<u32>)
        ensures
            forall|k: u32| r@.contains(k) <==> k < self@.len() && !self@[k as int],
            forall|a: int, b: int| 0 <= a < b < r@.len() ==> r@[a] < r@[b],
            r@ == missing_below(self@, self@.len() as int),
    {
        let mut out: Vec<u32> = Vec::new();
        let mut i: u32 = 0;
        while i < self.pieces
            invariant
                out@ == missing_below(self@, i as int),
                i <= self@.len(),
                self@.len() == self.pieces,
                forall|k: u32| out@.contains(k) <==> k < i && !self@[k as int],
                forall|a: int, b: int| 0 <= a < b < out@.len() ==> out@[a] < out@[b],
                forall|a: int| 0 <= a < out@.len() ==> out@[a] < i,
            decreases self.pieces - i,
        {
            if !self.has(i) {
                let ghost before = out@;
                out.push(i);
                proof {
                    assert forall|k: u32| out@.contains(k) <==> k < i + 1 && !self@[k as int] by {
                        if out@.contains(k) {
                            let a = choose|a: int| 0 <= a < out@.len() && out@[a] == k;
                            if a < before.len() {
                                assert(before.contains(k));
                            }
                        }
                        if k < i + 1 && !self@[k as int] {
                            if k < i {
                                assert(before.contains(k));
                                let a = choose|a: int| 0 <= a < before.len() && before[a] == k;
                                assert(out@[a] == k);
                            } else {
                                assert(out@[before.len() as int] == k);
                            }
                        }
                    }
                }
            } else {
                proof {
                    assert forall|k: u32| out@.contains(k) <==> k < i + 1 && !self@[k as int] by {
                        if out@.contains(k) {
                            let a = choose|a: int| 0 <= a < out@.len() && out@[a] == k;
                            assert(out@[a] < i);
                        }
                    }
                }
            }
            i = i + 1;
        }
        out
    }
}

impl Clone for Bitfield {
    fn clone(&self) -> (r: Self)
        ensures
            r@ == self@,
    {
        proof {
            use_type_invariant(self);
        }
        Bitfield { bits: crate::wire::copy_all(self.bits.as_slice()), pieces: self.pieces }
    }
}

/// For each piece, how many peers have it.
#[derive(Debug, Clone, PartialEq, Eq)]
pub struct Availability {
    counts: Vec<u32>,
}

impl View for Availability {
    type V = Seq<u32>;

    closed spec fn view(&self) -> Seq<u32> {
        self.counts@
    }
}

/// The count for `index`, zero past the end.
pub open spec fn count_of(counts: Seq<u32>, index: int) -> nat {
    if 0 <= index < counts.len() {
        counts[index] as nat
    } else {
        0
    }
}

/// `counts` once a peer that has `bits` joins: each piece it has counts once
/// more.
pub open spec fn counts_with(counts: Seq<u32>, bits: Seq<bool>) -> Seq<u32> {
    Seq::new(
        counts.len(),
        |i: int|
            if i < bits.len() && bits[i] {
                (counts[i] + 1) as u32
            } else {
                counts[i]
            },
    )
}

/// `counts` once a peer that has `bits` leaves: each piece it has counts once
/// less, never below zero.
pub open spec fn counts_without(counts: Seq<u32>, bits: Seq<bool>) -> Seq<u32> {
    Seq::new(
        counts.len(),
        |i: int|
            if i < bits.len() && bits[i] && counts[i] > 0 {
                (counts[i] - 1) as u32
            } else {
                counts[i]
            },
    )
}

impl Availability {
    /// No piece seen yet.
    pub fn new(pieces: u32) -> (a: Availability)
        ensures
            a@.len() == pieces,
            forall|i: int| 0 <= i < pieces ==> #[trigger] a@[i] == 0,
    {
        let mut counts: Vec<u32> = Vec::new();
        let mut k: u32 = 0;
        while k < pieces
            invariant
                k <= pieces,
                counts@.len() == k,
                forall|j: int| 0 <= j < k ==> counts@[j] == 0,
            decreases pieces - k,
        {
            counts.push(0);
            k = k + 1;
        }
        Availability { counts }
    }

    /// How many peers have piece `index`; zero past the end.
    pub fn count(&self, index: u32) -> (n: u32)
        ensures
            n == count_of(self@, index as int),
    {
        if (index as usize) < self.counts.len() {
            self.counts[index as usize]
        } else {
            0
        }
    }

    /// One more peer has piece `index`; nothing happens past the end.
    pub fn add_have(&mut self, index: u32)
        requires
            count_of(old(self)@, index as int) < u32::MAX,
        ensures
            final(self)@ == if index < old(self)@.len() {
                old(self)@.update(index as int, (old(self)@[index as int] + 1) as u32)
            } else {
                old(self)@
            },
    {
        if (index as usize) < self.counts.len() {
            let c = self.counts[index as usize];
            self.counts.set(index as usize, c + 1);
        }
    }

    /// A peer with `bitfield` joined: each piece it has counts once more.
    pub fn add_bitfield(&mut self, bitfield: &Bitfield)
        requires
            forall|i: int| 0 <= i < old(self)@.len() ==> #[trigger] old(self)@[i] < u32::MAX,
        ensures
            final(self)@ == counts_with(old(self)@, bitfield@),
            final(self)@.len() == old(self)@.len(),
            forall|i: int|
                0 <= i < old(self)@.len() ==> #[trigger] final(self)@[i] == old(self)@[i] + if i
                    < bitfield@.len() && bitfield@[i] {
                    1int
                } else {
                    0int
                },
    {
        let n = bitfield.pieces();
        let mut index: u32 = 0;
        while index < n
            invariant
                n == bitfield@.len(),
                index <= n,
                self@.len() == old(self)@.len(),
                forall|i: int| 0 <= i < old(self)@.len() ==> #[trigger] old(self)@[i] < u32::MAX,
                forall|i: int|
                    0 <= i < old(self)@.len() ==> #[trigger] self@[i] == old(self)@[i] + if i
                        < index && bitfield@[i] {
                        1int
                    } else {
                        0int
                    },
            decreases n - index,
        {
            if bitfield.has(index) {
                proof {
                    if index < self@.len() {
                        assert(self@[index as int] == old(self)@[index as int]);
                    }
                }
                self.add_have(index);
            }
            index = index + 1;
        }
    }

    /// A peer with `bitfield` left: each piece it has counts once less,
    /// never below zero.
    pub fn remove_bitfield(&mut self, bitfield: &Bitfield)
        ensures
            final(self)@ == counts_without(old(self)@, bitfield@),
            final(self)@.len() == old(self)@.len(),
            forall|i: int|
                0 <= i < old(self)@.len() ==> #[trigger] final(self)@[i] == if i < bitfield@.len()
                    && bitfield@[i] && old(self)@[i] > 0 {
                    (old(self)@[i] - 1) as u32
                } else {
                    old(self)@[i]
                },
    {
        let n = bitfield.pieces();
        let mut index: u32 = 0;
        while index < n
            invariant
                n == bitfield@.len(),
                index <= n,
                self@.len() == old(self)@.len(),
                forall|i: int|
                    0 <= i < old(self)@.len() ==> #[trigger] self@[i] == if i < index
                        && bitfield@[i] && old(self)@[i] > 0 {
                        (old(self)@[i] - 1) as u32
                    } else {
                        old(self)@[i]
                    },
            decreases n - index,
        {
            if bitfield.has(index) && (index as usize) < self.counts.len() {
                let c = self.counts[index as usize];
                if c > 0 {
                    self.counts.set(index as usize, c - 1);
                }
            }
            index = index + 1;
        }
    }
}

} // verus!
