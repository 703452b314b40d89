//! Magnet links: the info hash, a display name and trackers, each a
//! percent-encoded query parameter.
use vstd::prelude::*;
use vstd::utf8::{decode_utf8, encode_utf8, valid_utf8};
use crate::metainfo::{spells_hex, InfoHash};
use crate::text::{hex_digit_value, hex_value, string_from_utf8};
use crate::wire::{be_bytes, find_from, index_of, pow256, starts_with};

verus! {

#[derive(Debug, Clone, PartialEq, Eq)]
pub struct Magnet {
    pub info_hash: InfoHash,
    pub display_name: Option<String>,
    pub trackers: Vec<String>,
}

#[derive(Debug, Clone, Copy, PartialEq, Eq)]
pub enum Error {
    NotMagnet,
    MissingTopic,
    UnsupportedTopic,
    BadHash,
    BadEncoding,
}

// ---------------------------------------------------------------------
// Percent-decoding

/// The bytes that percent-encoded `s` stands for: `%` and two hexadecimal
/// digits give one byte, `+` gives a space, anything else stands for itself.
pub open spec fn percent_decoded(s: Seq<u8>) -> Option<Seq<u8>>
    decreases s.len(),
{
    if s.len() == 0 {
        Some(Seq::empty())
    } else if s[0] == 37 {
        if s.len() >= 3 && hex_value(s[1]) is Some && hex_value(s[2]) is Some {
            match percent_decoded(s.subrange(3, s.len() as int)) {
                Some(r) => Some(seq![(hex_value(s[1])->0 * 16 + hex_value(s[2])->0) as u8] + r),
                None => None,
            }
        } else {
            None
        }
    } else {
        match percent_decoded(s.subrange(1, s.len() as int)) {
            Some(r) => Some(seq![if s[0] == 43 { 32u8 } else { s[0] }] + r),
            None => None,
        }
    }
}

/// The text that percent-encoded `s` stands for, when it is valid UTF-8.
pub open spec fn percent_text(s: Seq<u8>) -> Option<Seq<u8>> {
    match percent_decoded(s) {
        Some(b) => if valid_utf8(b) {
            Some(b)
        } else {
            None
        },
        None => None,
    }
}

/// Decodes percent-encoding; the result must be UTF-8.
fn percent_decode(raw: &[u8]) -> (r: Result<String, Error>)
    ensures
        match r {
            Ok(s) => percent_text(raw@) is Some && s@ == decode_utf8(percent_text(raw@)->0),
            Err(e) => e == Error::BadEncoding && percent_text(raw@) is None,
        },
{
    let mut out: Vec<u8> = Vec::new();
    let mut i: usize = 0;
    proof {
        assert(raw@.subrange(0, raw@.len() as int) =~= raw@);
        match percent_decoded(raw@) {
            Some(r) => {
                assert(out@ + r =~= r);
            },
            None => {},
        }
    }
    while i < raw.len()
        invariant
            i <= raw@.len(),
            percent_decoded(raw@) == match percent_decoded(raw@.subrange(i as int, raw@.len() as int)) {
                Some(r) => Some(out@ + r),
                None => None,
            },
        decreases raw.len() - i,
    {
        let ghost rest = raw@.subrange(i as int, raw@.len() as int);
        let b = raw[i];
        if b == 37u8 {
            if raw.len() - i < 3 {
                proof {
                    assert(rest.len() < 3);
                }
                return Err(Error::BadEncoding);
            }
            let hi = match hex_digit_value(raw[i + 1]) {
                Some(v) => v,
                None => {
                    proof {
                        assert(rest[1] == raw@[i + 1]);
                    }
                    return Err(Error::BadEncoding);
                },
            };
            let lo = match hex_digit_value(raw[i + 2]) {
                Some(v) => v,
                None => {
                    proof {
                        assert(rest[2] == raw@[i + 2]);
                    }
                    return Err(Error::BadEncoding);
                },
            };
            proof {
                assert(rest[1] == raw@[i + 1] && rest[2] == raw@[i + 2]);
                assert(rest.subrange(3, rest.len() as int) =~= raw@.subrange(i + 3, raw@.len() as int));
                match percent_decoded(raw@.subrange(i + 3, raw@.len() as int)) {
                    Some(r) => {
                        assert(out@.push((hi * 16 + lo) as u8) + r =~= out@ + (seq![(hi * 16 + lo) as u8] + r));
                    },
                    None => {},
                }
            }
            out.push(hi * 16 + lo);
            i = i + 3;
        } else {
            let c = if b == 43u8 {
                32u8
            } else {
                b
            };
            proof {
                assert(rest.subrange(1, rest.len() as int) =~= raw@.subrange(i + 1, raw@.len() as int));
                match percent_decoded(raw@.subrange(i + 1, raw@.len() as int)) {
                    Some(r) => {
                        assert(out@.push(c) + r =~= out@ + (seq![c] + r));
                    },
                    None => {},
                }
            }
            out.push(c);
            i = i + 1;
        }
    }
    proof {
        assert(raw@.subrange(i as int, raw@.len() as int) =~= Seq::<u8>::empty());
        assert(out@ + Seq::<u8>::empty() =~= out@);
    }
    let ghost decoded = out@;
    match string_from_utf8(out) {
        Some(s) => Ok(s),
        None => Err(Error::BadEncoding),
    }
}

// ---------------------------------------------------------------------
// Base32

/// The value of a base32 digit: `A`-`Z` either case, then `2`-`7`.
pub open spec fn b32_value(c: u8) -> Option<nat> {
    if 65 <= c <= 90 {
        Some((c - 65) as nat)
    } else if 97 <= c <= 122 {
        Some((c - 97) as nat)
    } else if 50 <= c <= 55 {
        Some((c - 50 + 26) as nat)
    } else {
        None
    }
}

pub open spec fn all_b32(s: Seq<u8>) -> bool {
    forall|i: int| 0 <= i < s.len() ==> #[trigger] b32_value(s[i]) is Some
}

/// The number that base32 digits spell, five bits each.
pub open spec fn b32_number(s: Seq<u8>) -> nat
    decreases s.len(),
{
    if s.len() == 0 {
        0
    } else {
        b32_number(s.drop_last()) * 32 + b32_value(s.last())->0
    }
}

pub open spec fn pow32(n: nat) -> nat
    decreases n,
{
    if n == 0 {
        1
    } else {
        32 * pow32((n - 1) as nat)
    }
}

/// The 20 bytes that 32 base32 digits spell.
pub open spec fn base32_bytes(text: Seq<u8>) -> Option<Seq<u8>> {
    if text.len() == 32 && all_b32(text) {
        Some(be_bytes(b32_number(text), 20))
    } else {
        None
    }
}

proof fn lemma_b32_concat(x: Seq<u8>, y: Seq<u8>)
    requires
        all_b32(y),
    ensures
        b32_number(x + y) == b32_number(x) * pow32(y.len()) + b32_number(y),
    decreases y.len(),
{
    if y.len() > 0 {
        let yp = y.drop_last();
        assert((x + y).drop_last() =~= x + yp);
        assert((x + y).last() == y.last());
        assert(all_b32(yp)) by {
            assert forall|i: int| 0 <= i < yp.len() implies #[trigger] b32_value(yp[i]) is Some by {
                assert(yp[i] == y[i]);
            }
        }
        lemma_b32_concat(x, yp);
        assert(b32_value(y.last()) is Some) by {
            assert(b32_value(y[y.len() - 1]) is Some);
        }
        let a = b32_number(x);
        let p = pow32(yp.len());
        let c = b32_number(yp);
        let v = b32_value(y.last())->0;
        assert(b32_number(x + y) == b32_number(x + yp) * 32 + v);
        assert(b32_number(y) == c * 32 + v);
        assert(pow32(y.len()) == 32 * p);
        assert((a * p + c) * 32 + v == a * (32 * p) + (c * 32 + v)) by (nonlinear_arith);
        assert(b32_number(x + yp) == a * p + c);
    } else {
        assert(x + y =~= x);
        assert(pow32(0) == 1);
        assert(b32_number(x) * 1 == b32_number(x));
    }
}

proof fn lemma_b32_bound(s: Seq<u8>)
    requires
        all_b32(s),
    ensures
        b32_number(s) < pow32(s.len()),
    decreases s.len(),
{
    if s.len() > 0 {
        assert(all_b32(s.drop_last())) by {
            assert forall|i: int| 0 <= i < s.len() - 1 implies #[trigger] b32_value(s.drop_last()[i]) is Some by {
                assert(s.drop_last()[i] == s[i]);
            }
        }
        assert(b32_value(s[s.len() - 1]) is Some);
        lemma_b32_bound(s.drop_last());
        let a = b32_number(s.drop_last());
        let p = pow32((s.len() - 1) as nat);
        let v = b32_value(s.last())->0;
        assert(a * 32 + v < 32 * p) by (nonlinear_arith)
            requires
                a < p,
                v < 32,
        ;
    }
}

/// Writing `a` and then `b` in fixed widths is writing `a * 256^m + b`.
proof fn lemma_be_split(a: nat, b: nat, n: nat, m: nat)
    requires
        b < pow256(m),
    ensures
        be_bytes(a * pow256(m) + b, n + m) == be_bytes(a, n) + be_bytes(b, m),
    decreases m,
{
    if m == 0 {
        assert(be_bytes(b, 0) =~= Seq::<u8>::empty());
        assert(be_bytes(a, n) + Seq::<u8>::empty() =~= be_bytes(a, n));
    } else {
        let p = pow256((m - 1) as nat);
        let x = a * pow256(m) + b;
        assert(pow256(m) == 256 * p);
        assert(x / 256 == a * p + b / 256 && x % 256 == b % 256 && b / 256 < p) by (nonlinear_arith)
            requires
                x == a * (256 * p) + b,
                b < 256 * p,
        ;
        lemma_be_split(a, b / 256, n, (m - 1) as nat);
        assert(be_bytes(x, n + m) == be_bytes(x / 256, (n + m - 1) as nat).push((x % 256) as u8));
        assert(be_bytes(b, m) == be_bytes(b / 256, (m - 1) as nat).push((b % 256) as u8));
        assert(be_bytes(x, n + m) =~= be_bytes(a, n) + be_bytes(b, m));
    }
}

proof fn lemma_pow_values()
    ensures
        pow32(8) == 0x100_0000_0000,
        pow256(5) == 0x100_0000_0000,
{
    reveal_with_fuel(pow32, 9);
    reveal_with_fuel(pow256, 6);
}

fn b32_digit(c: u8) -> (r: Option<u64>)
    ensures
        match r {
            Some(v) => b32_value(c) == Some(v as nat),
            None => b32_value(c) is None,
        },
{
    if 65u8 <= c && c <= 90u8 {
        Some((c - 65) as u64)
    } else if 97u8 <= c && c <= 122u8 {
        Some((c - 97) as u64)
    } else if 50u8 <= c && c <= 55u8 {
        Some((c - 50 + 26) as u64)
    } else {
        None
    }
}

/// Decodes 32 base32 digits into 20 bytes.
fn base32_decode(text: &[u8]) -> (r: Option<[u8; 20]>)
    ensures
        match r {
            Some(h) => base32_bytes(text@) == Some(h@),
            None => base32_bytes(text@) is None,
        },
{
    if text.len() != 32 {
        return None;
    }
    let ghost t = text@;
    let mut out: Vec<u8> = Vec::new();
    let mut g: usize = 0;
    while g < 4
        invariant
            g <= 4,
            t == text@,
            t.len() == 32,
            all_b32(t.subrange(0, 8 * g as int)),
            out@ == be_bytes(b32_number(t.subrange(0, 8 * g as int)), 5 * g as nat),
        decreases 4 - g,
    {
        let mut v: u64 = 0;
        let mut j: usize = 0;
        let ghost start = 8 * g as int;
        while j < 8
            invariant
                j <= 8,
                g < 4,
                t == text@,
                t.len() == 32,
                start == 8 * g,
                all_b32(t.subrange(start, start + j)),
                v == b32_number(t.subrange(start, start + j)),
                v < pow32(j as nat),
            decreases 8 - j,
        {
            let c = text[8 * g + j];
            let d = match b32_digit(c) {
                Some(d) => d,
                None => {
                    proof {
                        assert(!all_b32(t)) by {
                            assert(b32_value(t[start + j]) is None);
                        }
                    }
                    return None;
                },
            };
            proof {
                let s = t.subrange(start, start + j + 1);
                assert(s.drop_last() =~= t.subrange(start, start + j));
                assert(s.last() == c);
                assert(all_b32(s)) by {
                    assert forall|i: int| 0 <= i < s.len() implies #[trigger] b32_value(s[i]) is Some by {
                        if i < j {
                            assert(s[i] == t.subrange(start, start + j)[i]);
                        }
                    }
                }
                lemma_b32_bound(s);
                lemma_pow_values();
                reveal_with_fuel(pow32, 9);
            }
            v = v * 32 + d;
            j = j + 1;
        }
        proof {
            let prev = t.subrange(0, 8 * g as int);
            let grp = t.subrange(start, start + 8);
            assert(t.subrange(0, 8 * (g + 1) as int) =~= prev + grp);
            lemma_b32_concat(prev, grp);
            lemma_pow_values();
            lemma_be_split(b32_number(prev), v as nat, 5 * g as nat, 5);
            assert(all_b32(prev + grp)) by {
                assert forall|i: int| 0 <= i < (prev + grp).len() implies #[trigger] b32_value((prev + grp)[i]) is Some by {
                    if i < prev.len() {
                        assert((prev + grp)[i] == prev[i]);
                    } else {
                        assert((prev + grp)[i] == grp[i - prev.len()]);
                    }
                }
            }
        }
        crate::wire::push_be(&mut out, v, 5);
        g = g + 1;
    }
    proof {
        assert(t.subrange(0, 32) =~= t);
        crate::wire::lemma_be_bytes_len(b32_number(t), 20);
    }
    let mut hash = [0u8; 20];
    let mut k: usize = 0;
    while k < 20
        invariant
            k <= 20,
            out@.len() == 20,
            hash@.len() == 20,
            forall|i: int| 0 <= i < k ==> hash@[i] == out@[i],
        decreases 20 - k,
    {
        hash[k] = out[k];
        k = k + 1;
    }
    proof {
        assert(hash@ =~= out@);
    }
    Some(hash)
}

// ---------------------------------------------------------------------
// The info hash

/// The info hash that a `urn:btih:` topic spells: forty hexadecimal digits
/// or thirty-two base32 digits.
pub open spec fn btih_hash(text: Seq<u8>) -> Option<Seq<u8>> {
    if text.len() == 40 {
        if exists|b: Seq<u8>| spells_hex(text, b) {
            Some(choose|b: Seq<u8>| spells_hex(text, b))
        } else {
            None
        }
    } else if text.len() == 32 {
        base32_bytes(text)
    } else {
        None
    }
}

proof fn lemma_spells_hex_unique(text: Seq<u8>, a: Seq<u8>, b: Seq<u8>)
    requires
        spells_hex(text, a),
        spells_hex(text, b),
    ensures
        a == b,
{
    assert forall|i: int| 0 <= i < 20 implies a[i] == b[i] by {
        assert(hex_value(text[2 * i]) is Some);
    }
    assert(a =~= b);
}

// ---------------------------------------------------------------------
// The query

/// `s` cut at every `c`.
pub open spec fn split_on(s: Seq<u8>, c: u8) -> Seq<Seq<u8>>
    decreases s.len(),
{
    match index_of(s, c) {
        Some(i) => if i < s.len() {
            seq![s.subrange(0, i as int)] + split_on(s.subrange(i + 1int, s.len() as int), c)
        } else {
            seq![s]
        },
        None => seq![s],
    }
}

pub open spec fn magnet_prefix() -> Seq<u8> {
    seq![109u8, 97, 103, 110, 101, 116, 58, 63]
}

pub open spec fn urn_btih() -> Seq<u8> {
    seq![117u8, 114, 110, 58, 98, 116, 105, 104, 58]
}

pub open spec fn urn() -> Seq<u8> {
    seq![117u8, 114, 110, 58]
}

/// What the parameters read so far give.
pub struct MagnetParts {
    pub hash: Option<Seq<u8>>,
    pub name: Option<Seq<u8>>,
    pub trackers: Seq<Seq<u8>>,
}

pub open spec fn starts(s: Seq<u8>, p: Seq<u8>) -> bool {
    p.len() <= s.len() && s.subrange(0, p.len() as int) == p
}

/// One `key=value` parameter: `xt` sets the info hash from a `urn:btih:`
/// topic and refuses other `urn:` topics, `dn` the display name, and `tr`
/// adds a tracker; parameters without `=` and other keys are skipped. Values
/// are percent-decoded first.
pub open spec fn apply_param(st: MagnetParts, pair: Seq<u8>) -> Result<MagnetParts, Error> {
    match index_of(pair, 61) {
        None => Ok(st),
        Some(i) => {
            let key = pair.subrange(0, i as int);
            let raw = pair.subrange(i + 1int, pair.len() as int);
            if key == seq![120u8, 116] {
                match percent_text(raw) {
                    None => Err(Error::BadEncoding),
                    Some(v) => if starts(v, urn_btih()) {
                        match btih_hash(v.subrange(9, v.len() as int)) {
                            Some(h) => Ok(MagnetParts { hash: Some(h), ..st }),
                            None => Err(Error::BadHash),
                        }
                    } else if starts(v, urn()) {
                        Err(Error::UnsupportedTopic)
                    } else {
                        Ok(st)
                    },
                }
            } else if key == seq![100u8, 110] {
                match percent_text(raw) {
                    None => Err(Error::BadEncoding),
                    Some(v) => Ok(MagnetParts { name: Some(v), ..st }),
                }
            } else if key == seq![116u8, 114] {
                match percent_text(raw) {
                    None => Err(Error::BadEncoding),
                    Some(v) => Ok(MagnetParts { trackers: st.trackers.push(v), ..st }),
                }
            } else {
                Ok(st)
            }
        },
    }
}

/// The parameters applied in order; the first error stops.
pub open spec fn apply_params(st: MagnetParts, pairs: Seq<Seq<u8>>) -> Result<MagnetParts, Error>
    decreases pairs.len(),
{
    if pairs.len() == 0 {
        Ok(st)
    } else {
        match apply_param(st, pairs[0]) {
            Ok(st2) => apply_params(st2, pairs.subrange(1, pairs.len() as int)),
            Err(e) => Err(e),
        }
    }
}

/// What parsing the bytes of a magnet link gives.
pub open spec fn magnet_parts(s: Seq<u8>) -> Result<MagnetParts, Error> {
    if !starts(s, magnet_prefix()) {
        Err(Error::NotMagnet)
    } else {
        match apply_params(
            MagnetParts { hash: None, name: None, trackers: Seq::empty() },
            split_on(s.subrange(8, s.len() as int), 38),
        ) {
            Ok(st) => if st.hash is Some {
                Ok(st)
            } else {
                Err(Error::MissingTopic)
            },
            Err(e) => Err(e),
        }
    }
}

/// `m` holds what `parts` says, each text decoded from its UTF-8 bytes.
pub open spec fn magnet_matches(m: Magnet, parts: MagnetParts) -> bool {
    &&& parts.hash == Some(m.info_hash.0@)
    &&& match parts.name {
        Some(n) => m.display_name matches Some(d) && d@ == decode_utf8(n),
        None => m.display_name is None,
    }
    &&& m.trackers@.len() == parts.trackers.len()
    &&& forall|i: int| 0 <= i < m.trackers@.len() ==> #[trigger] m.trackers@[i]@ == decode_utf8(parts.trackers[i])
}

fn bytes_match(a: &[u8], b0: u8, b1: u8) -> (r: bool)
    ensures
        r == (a@ == seq![b0, b1]),
{
    let r = a.len() == 2 && a[0] == b0 && a[1] == b1;
    proof {
        if a@.len() == 2 {
            if a@[0] == b0 && a@[1] == b1 {
                assert(a@ =~= seq![b0, b1]);
            }
        }
    }
    r
}

/// What one parameter sets.
enum Param {
    Topic(InfoHash),
    Name(String),
    Tracker(String),
    Skip,
}

/// The value of a `key=value` parameter, percent-decoded.
pub open spec fn param_text(pair: Seq<u8>) -> Option<Seq<u8>> {
    match index_of(pair, 61) {
        Some(i) => percent_text(pair.subrange(i + 1int, pair.len() as int)),
        None => None,
    }
}

pub proof fn lemma_index_of_bound(s: Seq<u8>, c: u8)
    ensures
        index_of(s, c) matches Some(i) ==> i < s.len() && s[i as int] == c,
    decreases s.len(),
{
    if s.len() > 0 && s[0] != c {
        lemma_index_of_bound(s.subrange(1, s.len() as int), c);
    }
}

/// Reads one parameter.
fn read_param(pair: &[u8]) -> (r: Result<Param, Error>)
    ensures
        match r {
            Ok(Param::Topic(h)) => forall|st: MagnetParts| #[trigger] apply_param(st, pair@) == Ok::<MagnetParts, Error>(MagnetParts { hash: Some(h.0@), ..st }),
            Ok(Param::Name(n)) => param_text(pair@) is Some && n@ == decode_utf8(param_text(pair@)->0)
                && forall|st: MagnetParts| #[trigger] apply_param(st, pair@) == Ok::<MagnetParts, Error>(MagnetParts { name: param_text(pair@), ..st }),
            Ok(Param::Tracker(t)) => param_text(pair@) is Some && t@ == decode_utf8(param_text(pair@)->0)
                && forall|st: MagnetParts| #[trigger] apply_param(st, pair@) == Ok::<MagnetParts, Error>(MagnetParts { trackers: st.trackers.push(param_text(pair@)->0), ..st }),
            Ok(Param::Skip) => forall|st: MagnetParts| #[trigger] apply_param(st, pair@) == Ok::<MagnetParts, Error>(st),
            Err(e) => forall|st: MagnetParts| #[trigger] apply_param(st, pair@) == Err::<MagnetParts, Error>(e),
        },
{
    let e = match find_from(pair, 0, 61u8) {
        Some(k) => k,
        None => {
            proof {
                assert(pair@.subrange(0, pair@.len() as int) =~= pair@);
            }
            return Ok(Param::Skip);
        },
    };
    proof {
        assert(pair@.subrange(0, pair@.len() as int) =~= pair@);
        assert(e < pair@.len());
        assert(e < pair.len());
    }
    let key = crate::wire::copy_range(pair, 0, e);
    let raw = crate::wire::copy_range(pair, e + 1, pair.len());
    if bytes_match(key.as_slice(), 120u8, 116u8) {
        let value = percent_decode(raw.as_slice())?;
        let vb = value.as_str().as_bytes();
        proof {
            vstd::utf8::decode_utf8_encode_utf8(percent_text(raw@)->0);
            assert(vb@ == percent_text(raw@)->0);
        }
        let btih: [u8; 9] = [117, 114, 110, 58, 98, 116, 105, 104, 58];
        let urn_prefix: [u8; 4] = [117, 114, 110, 58];
        proof {
            assert(btih@ =~= urn_btih());
            assert(urn_prefix@ =~= urn());
        }
        if starts_with(vb, &btih) {
            let rest_text = crate::wire::copy_range(vb, 9, vb.len());
            match decode_btih(rest_text.as_slice()) {
                Some(h) => Ok(Param::Topic(h)),
                None => Err(Error::BadHash),
            }
        } else if starts_with(vb, &urn_prefix) {
            Err(Error::UnsupportedTopic)
        } else {
            Ok(Param::Skip)
        }
    } else if bytes_match(key.as_slice(), 100u8, 110u8) {
        let value = percent_decode(raw.as_slice())?;
        Ok(Param::Name(value))
    } else if bytes_match(key.as_slice(), 116u8, 114u8) {
        let value = percent_decode(raw.as_slice())?;
        Ok(Param::Tracker(value))
    } else {
        Ok(Param::Skip)
    }
}

/// Reads a magnet link: `magnet:?` and then `&`-separated parameters.
pub fn parse(input: &str) -> (r: Result<Magnet, Error>)
    ensures
        match r {
            Ok(m) => magnet_parts(encode_utf8(input@)) matches Ok(parts) && magnet_matches(m, parts),
            Err(e) => magnet_parts(encode_utf8(input@)) == Err::<MagnetParts, Error>(e),
        },
{
    let s = input.as_bytes();
    let prefix: [u8; 8] = [109, 97, 103, 110, 101, 116, 58, 63];
    proof {
        assert(prefix@ =~= magnet_prefix());
    }
    if !starts_with(s, &prefix) {
        return Err(Error::NotMagnet);
    }
    let ghost q = s@.subrange(8, s@.len() as int);
    let ghost init = MagnetParts { hash: None, name: None, trackers: Seq::empty() };
    let mut info_hash: Option<InfoHash> = None;
    let mut display_name: Option<String> = None;
    let mut trackers: Vec<String> = Vec::new();
    let ghost mut st = init;
    let mut pos: usize = 8;
    proof {
        assert(s@.subrange(pos as int, s@.len() as int) =~= q);
    }
    loop
        invariant_except_break
            8 <= pos <= s@.len(),
            apply_params(init, split_on(q, 38)) == apply_params(st, split_on(s@.subrange(pos as int, s@.len() as int), 38)),
        invariant
            s@ == encode_utf8(input@),
            starts(s@, magnet_prefix()),
            q == s@.subrange(8, s@.len() as int),
            init == (MagnetParts { hash: None, name: None, trackers: Seq::empty() }),
            match st.hash {
                Some(h) => info_hash matches Some(ih) && ih.0@ == h,
                None => info_hash is None,
            },
            match st.name {
                Some(n) => display_name matches Some(d) && d@ == decode_utf8(n),
                None => display_name is None,
            },
            trackers@.len() == st.trackers.len(),
            forall|i: int| 0 <= i < trackers@.len() ==> #[trigger] trackers@[i]@ == decode_utf8(st.trackers[i]),
        ensures
            apply_params(init, split_on(q, 38)) == Ok::<MagnetParts, Error>(st),
        decreases s@.len() - pos,
    {
        let ghost rest = s@.subrange(pos as int, s@.len() as int);
        let end = match find_from(s, pos, 38u8) {
            Some(k) => k,
            None => s.len(),
        };
        let pair = crate::wire::copy_range(s, pos, end);
        proof {
            lemma_index_of_bound(rest, 38);
            if end < s@.len() {
                assert(rest.subrange(0, end - pos) =~= pair@);
                assert(rest.subrange(end - pos + 1, rest.len() as int) =~= s@.subrange(end + 1, s@.len() as int));
                assert(split_on(rest, 38) == seq![pair@] + split_on(s@.subrange(end + 1, s@.len() as int), 38));
            } else {
                assert(pair@ =~= rest);
                assert(split_on(rest, 38) == seq![rest]);
            }
            let ps = split_on(rest, 38);
            assert(ps[0] == pair@);
            assert(ps.subrange(1, ps.len() as int) =~= if end < s@.len() {
                split_on(s@.subrange(end + 1, s@.len() as int), 38)
            } else {
                Seq::<Seq<u8>>::empty()
            });
        }
        match read_param(pair.as_slice()) {
            Err(e) => {
                return Err(e);
            },
            Ok(Param::Topic(h)) => {
                info_hash = Some(h);
                proof {
                    st = MagnetParts { hash: Some(h.0@), ..st };
                }
            },
            Ok(Param::Name(n)) => {
                display_name = Some(n);
                proof {
                    st = MagnetParts { name: param_text(pair@), ..st };
                }
            },
            Ok(Param::Tracker(t)) => {
                trackers.push(t);
                proof {
                    st = MagnetParts { trackers: st.trackers.push(param_text(pair@)->0), ..st };
                }
            },
            Ok(Param::Skip) => {},
        }
        if end >= s.len() {
            proof {
                assert(apply_params(st, Seq::<Seq<u8>>::empty()) == Ok::<MagnetParts, Error>(st));
            }
            break;
        }
        pos = end + 1;
    }
    match info_hash {
        Some(h) => Ok(Magnet { info_hash: h, display_name, trackers }),
        None => Err(Error::MissingTopic),
    }
}

/// Decodes the info hash of a `urn:btih:` topic.
fn decode_btih(text: &[u8]) -> (r: Option<InfoHash>)
    ensures
        match r {
            Some(h) => btih_hash(text@) == Some(h.0@),
            None => btih_hash(text@) is None,
        },
{
    if text.len() == 40 {
        match hex_hash(text) {
            Some(h) => Some(h),
            None => None,
        }
    } else if text.len() == 32 {
        match base32_decode(text) {
            Some(h) => Some(InfoHash(h)),
            None => None,
        }
    } else {
        None
    }
}

/// Forty hexadecimal digits as an info hash.
fn hex_hash(text: &[u8]) -> (r: Option<InfoHash>)
    requires
        text@.len() == 40,
    ensures
        match r {
            Some(h) => btih_hash(text@) == Some(h.0@),
            None => btih_hash(text@) is None,
        },
{
    let ghost t = text@;
    let mut out = [0u8; 20];
    let mut i: usize = 0;
    while i < 20
        invariant
            i <= 20,
            text@ == t,
            t.len() == 40,
            out@.len() == 20,
            forall|k: int|
                0 <= k < i ==> #[trigger] hex_value(t[2 * k]) is Some && hex_value(t[2 * k + 1]) is Some
                    && out@[k] == hex_value(t[2 * k])->0 * 16 + hex_value(t[2 * k + 1])->0,
        decreases 20 - i,
    {
        let hi = match hex_digit_value(text[2 * i]) {
            Some(v) => v,
            None => {
                proof {
                    assert forall|b: Seq<u8>| !spells_hex(t, b) by {
                        if spells_hex(t, b) {
                            assert(hex_value(t[2 * (i as int)]) is Some);
                        }
                    }
                }
                return None;
            },
        };
        let lo = match hex_digit_value(text[2 * i + 1]) {
            Some(v) => v,
            None => {
                proof {
                    assert forall|b: Seq<u8>| !spells_hex(t, b) by {
                        if spells_hex(t, b) {
                            assert(hex_value(t[2 * (i as int)]) is Some);
                            assert(hex_value(t[2 * (i as int) + 1]) is Some);
                        }
                    }
                }
                return None;
            },
        };
        out[i] = hi * 16 + lo;
        i = i + 1;
    }
    proof {
        assert(spells_hex(t, out@));
        let b = choose|b: Seq<u8>| spells_hex(t, b);
        lemma_spells_hex_unique(t, b, out@);
    }
    Some(InfoHash(out))
}

} // verus!
