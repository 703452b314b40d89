//! The extension protocol's handshake and the metadata exchange messages,
//! each a bencoded dictionary at the start of an extended message's payload.
use vstd::prelude::*;
use crate::bencode::{decode, encode, Dict, Value};
use crate::bencode_spec::{
    abs, canonical, digit_seq, enc_bytes, enc_dict, enc_list, fits, int_text, law_encoding_decodes,
    lemma_digit_seq, prefix_at, all_digits, decodes_to, dict1, dict2, dict3, digits_value, dict_at, enc, int_at, is_digit, keys_increase,
    law_decoding_unique, lemma_digits_value_grows, lemma_lookup_small, lemma_digits_value_push, lemma_lex_first_byte,
    lemma_lex_prefix, lemma_lookup_extensional, lookup, Bencode,
};
use crate::keys::{
    metadata_size_bytes, metadata_size_key, m_bytes, m_key, msg_type_bytes, msg_type_key,
    piece_bytes, piece_key, total_size_bytes, total_size_key, ut_metadata_bytes, ut_metadata_key,
};
use crate::wire::{copy_range, push_all};

verus! {

/// The extended-message id of the extension handshake.
pub const EXT_HANDSHAKE_ID: u8 = 0;

/// The size of each metadata piece but the last.
pub const METADATA_PIECE_SIZE: u64 = 16384;

#[derive(Debug, Clone, Copy, PartialEq, Eq)]
pub struct ExtHandshake {
    pub ut_metadata: Option<u8>,
    pub metadata_size: Option<u64>,
}

#[derive(Debug, Clone, Copy, PartialEq, Eq)]
pub enum Error {
    NotADict,
    BadPayload,
}

#[derive(Debug, Clone, PartialEq, Eq)]
pub enum MetadataMessage {
    Request { piece: u64 },
    Data { piece: u64, total_size: Option<u64>, data: Vec<u8> },
    Reject { piece: u64 },
}

/// A metadata message as a mathematical value.
pub enum MetaMsg {
    Request(u64),
    Data(u64, Option<u64>, Seq<u8>),
    Reject(u64),
}

impl View for MetadataMessage {
    type V = MetaMsg;

    open spec fn view(&self) -> MetaMsg {
        match *self {
            MetadataMessage::Request { piece } => MetaMsg::Request(piece),
            MetadataMessage::Data { piece, total_size, data } => MetaMsg::Data(piece, total_size, data@),
            MetadataMessage::Reject { piece } => MetaMsg::Reject(piece),
        }
    }
}

// ---------------------------------------------------------------------
// Finding the end of the leading dictionary

/// How far after `from` the first `c` stands, if any.
pub open spec fn offset_of(s: Seq<u8>, from: int, c: u8) -> Option<nat>
    decreases s.len() - from,
{
    if from < 0 || from >= s.len() {
        None
    } else if s[from] == c {
        Some(0)
    } else {
        match offset_of(s, from + 1, c) {
            Some(o) => Some(o + 1),
            None => None,
        }
    }
}

/// Where the bencoded tokens from `i` on, nested `depth` deep, close the
/// outermost container: a token scan that reads integers up to their `e`
/// and strings by their length, without checking anything else.
pub open spec fn scan_end(s: Seq<u8>, i: int, depth: nat) -> Option<nat>
    decreases s.len() - i,
{
    if i < 0 || i >= s.len() {
        None
    } else {
        let c = s[i];
        if c == 100 || c == 108 {
            scan_end(s, i + 1, depth + 1)
        } else if c == 105 {
            match offset_of(s, i, 101) {
                Some(o) => if i + o + 1 <= s.len() {
                    scan_end(s, i + o + 1, depth)
                } else {
                    None
                },
                None => None,
            }
        } else if is_digit(c) {
            match offset_of(s, i, 58) {
                Some(o) => {
                    let digits = s.subrange(i, i + o);
                    let next = i + o + 1 + digits_value(digits);
                    if all_digits(digits) && digits_value(digits) <= usize::MAX && next <= s.len() {
                        scan_end(s, next, depth)
                    } else {
                        None
                    }
                },
                None => None,
            }
        } else if c == 101 {
            if depth == 0 {
                None
            } else if depth == 1 {
                Some((i + 1) as nat)
            } else {
                scan_end(s, i + 1, (depth - 1) as nat)
            }
        } else {
            None
        }
    }
}

/// The length of the dictionary that `s` starts with, by the token scan.
pub open spec fn dict_end(s: Seq<u8>) -> Option<nat> {
    if s.len() > 0 && s[0] == 100 {
        scan_end(s, 0, 0)
    } else {
        None
    }
}

proof fn lemma_offset_of(s: Seq<u8>, from: int, c: u8, k: int)
    requires
        0 <= from <= k <= s.len(),
        forall|j: int| from <= j < k ==> s[j] != c,
    ensures
        k < s.len() && s[k] == c ==> offset_of(s, from, c) == Some((k - from) as nat),
        k == s.len() ==> offset_of(s, from, c) is None,
    decreases k - from,
{
    if from < k {
        lemma_offset_of(s, from + 1, c, k);
    }
}

/// What stands at `i` as `a + b` stands there as `a`, then `b`.
proof fn lemma_prefix_parts(a: Seq<u8>, b: Seq<u8>, s: Seq<u8>, i: int)
    requires
        0 <= i,
        prefix_at(a + b, s, i),
    ensures
        prefix_at(a, s, i),
        prefix_at(b, s, i + a.len()),
{
    let ab = a + b;
    assert forall|j: int| 0 <= j < a.len() implies s.subrange(i, i + a.len())[j] == a[j] by {
        assert(s.subrange(i, i + ab.len())[j] == ab[j]);
    }
    assert(s.subrange(i, i + a.len()) =~= a);
    assert forall|j: int| 0 <= j < b.len() implies s.subrange(i + a.len(), i + a.len() + b.len())[j] == b[j] by {
        assert(s.subrange(i, i + ab.len())[a.len() + j] == ab[a.len() + j]);
    }
    assert(s.subrange(i + a.len(), i + a.len() + b.len()) =~= b);
}

/// The token scan steps over an encoded byte string at `i` and goes on
/// after it at the same depth.
proof fn lemma_scan_bytes(x: Seq<u8>, s: Seq<u8>, i: int, depth: nat)
    requires
        0 <= i,
        prefix_at(enc_bytes(x), s, i),
        s.len() <= usize::MAX,
    ensures
        scan_end(s, i, depth) == scan_end(s, i + enc_bytes(x).len(), depth),
{
    let d = digit_seq(x.len());
    lemma_digit_seq(x.len());
    let e = enc_bytes(x);
    assert(e == d + seq![58u8] + x);
    assert forall|j: int| 0 <= j < d.len() implies s[i + j] == d[j] by {
        assert(s.subrange(i, i + e.len())[j] == e[j]);
    }
    assert(s[i + d.len()] == 58u8) by {
        assert(s.subrange(i, i + e.len())[d.len() as int] == e[d.len() as int]);
    }
    assert(is_digit(d[0]));
    assert(s[i] == d[0]);
    assert forall|j: int| i <= j < i + d.len() implies s[j] != 58u8 by {
        assert(s[j] == d[j - i]);
        assert(is_digit(d[j - i]));
    }
    lemma_offset_of(s, i, 58u8, i + d.len());
    assert(s.subrange(i, i + d.len()) =~= d);
}

/// The token scan steps over the encoding of a valid value at `i`: at a
/// positive depth it goes on after it, and a container met at depth 0 is
/// the end of the scan.
proof fn lemma_scan_value(b: Bencode, s: Seq<u8>, i: int, depth: nat)
    requires
        0 <= i,
        prefix_at(enc(b), s, i),
        s.len() <= usize::MAX,
    ensures
        depth >= 1 ==> scan_end(s, i, depth) == scan_end(s, i + enc(b).len(), depth),
        depth == 0 && (b is List || b is Dict) ==> scan_end(s, i, 0) == Some((i + enc(b).len()) as nat),
    decreases b,
{
    let e = enc(b);
    assert forall|j: int| 0 <= j < e.len() implies #[trigger] s[i + j] == e[j] by {
        assert(s.subrange(i, i + e.len())[j] == e[j]);
    }
    match b {
        Bencode::Bytes(x) => {
            lemma_scan_bytes(x, s, i, depth);
        },
        Bencode::Int(n) => {
            let t = int_text(n);
            lemma_digit_seq(abs(n));
            assert(e == seq![105u8] + t + seq![101u8]);
            assert(s[i + 0] == e[0]);
            assert(s[i] == 105u8);
            assert forall|j: int| i <= j < i + 1 + t.len() implies s[j] != 101u8 by {
                assert(s[i + (j - i)] == e[j - i]);
                if j > i {
                    assert(e[j - i] == t[j - i - 1]);
                    if n < 0 {
                        if j - i - 1 > 0 {
                            assert(t[j - i - 1] == digit_seq(abs(n))[j - i - 2]);
                            assert(is_digit(digit_seq(abs(n))[j - i - 2]));
                        }
                    } else {
                        assert(is_digit(digit_seq(abs(n))[j - i - 1]));
                    }
                }
            }
            assert(s[i + 1 + t.len()] == 101u8) by {
                assert(s[i + (1 + t.len())] == e[1 + t.len() as int]);
            }
            lemma_offset_of(s, i, 101u8, i + 1 + t.len());
        },
        Bencode::List(items) => {
            assert(e == seq![108u8] + enc_list(items) + seq![101u8]);
            assert(s[i + 0] == e[0]);
            assert(s[i] == 108u8);
            let l = enc_list(items);
            assert(prefix_at(l, s, i + 1)) by {
                assert forall|j: int| 0 <= j < l.len() implies s.subrange(i + 1, i + 1 + l.len())[j] == l[j] by {
                    assert(s[i + (1 + j)] == e[1 + j]);
                }
                assert(s.subrange(i + 1, i + 1 + l.len()) =~= l);
            }
            lemma_scan_list(items, s, i + 1, depth + 1);
            assert(s[i + (1 + l.len())] == e[1 + l.len() as int]);
        },
        Bencode::Dict(entries) => {
            assert(e == seq![100u8] + enc_dict(entries) + seq![101u8]);
            assert(s[i + 0] == e[0]);
            assert(s[i] == 100u8);
            let l = enc_dict(entries);
            assert(prefix_at(l, s, i + 1)) by {
                assert forall|j: int| 0 <= j < l.len() implies s.subrange(i + 1, i + 1 + l.len())[j] == l[j] by {
                    assert(s[i + (1 + j)] == e[1 + j]);
                }
                assert(s.subrange(i + 1, i + 1 + l.len()) =~= l);
            }
            lemma_scan_entries(entries, s, i + 1, depth + 1);
            assert(s[i + (1 + l.len())] == e[1 + l.len() as int]);
        },
    }
}

proof fn lemma_scan_list(items: Seq<Bencode>, s: Seq<u8>, i: int, depth: nat)
    requires
        0 <= i,
        depth >= 1,
        prefix_at(enc_list(items), s, i),
        s.len() <= usize::MAX,
    ensures
        scan_end(s, i, depth) == scan_end(s, i + enc_list(items).len(), depth),
    decreases items,
{
    if items.len() > 0 {
        let head = enc(items[0]);
        let rest = items.subrange(1, items.len() as int);
        let l = enc_list(items);
        assert(l == head + enc_list(rest));
        lemma_prefix_parts(head, enc_list(rest), s, i);
        lemma_scan_value(items[0], s, i, depth);
        lemma_scan_list(rest, s, i + head.len(), depth);
    }
}

proof fn lemma_scan_entries(entries: Seq<(Seq<u8>, Bencode)>, s: Seq<u8>, i: int, depth: nat)
    requires
        0 <= i,
        depth >= 1,
        prefix_at(enc_dict(entries), s, i),
        s.len() <= usize::MAX,
    ensures
        scan_end(s, i, depth) == scan_end(s, i + enc_dict(entries).len(), depth),
    decreases entries,
{
    if entries.len() > 0 {
        let key = enc_bytes(entries[0].0);
        let value = enc(entries[0].1);
        let rest = entries.subrange(1, entries.len() as int);
        let l = enc_dict(entries);
        assert(l == key + value + enc_dict(rest));
        lemma_prefix_parts(key + value, enc_dict(rest), s, i);
        lemma_prefix_parts(key, value, s, i);
        lemma_scan_bytes(entries[0].0, s, i, depth);
        assert(decreases_to!(entries => entries[0]));
        lemma_scan_value(entries[0].1, s, i + key.len(), depth);
        lemma_scan_entries(rest, s, i + key.len() + value.len(), depth);
    }
}

/// A valid dictionary's encoding, with anything after it, starts with that
/// dictionary: the scan finds its end where the encoding ends.
pub proof fn law_encoded_dict_leads(d: Seq<(Seq<u8>, Bencode)>, rest: Seq<u8>)
    requires
        canonical(Bencode::Dict(d)),
        fits(Bencode::Dict(d), 0),
        enc(Bencode::Dict(d)).len() + rest.len() <= usize::MAX,
    ensures
        prefix_dict(enc(Bencode::Dict(d)) + rest, d, enc(Bencode::Dict(d)).len()),
{
    let e = enc(Bencode::Dict(d));
    let s = e + rest;
    assert(s.subrange(0, e.len() as int) =~= e);
    assert(prefix_at(e, s, 0));
    lemma_scan_value(Bencode::Dict(d), s, 0, 0);
    assert(s[0] == e[0]);
    law_encoding_decodes(Bencode::Dict(d));
}

/// Our extension handshake reads back as what it says: metadata under id
/// 1, and the metadata size when we gave one.
pub proof fn law_handshake_round_trip(metadata_size: Option<u64>)
    requires
        metadata_size matches Some(n) ==> 0 < n <= i64::MAX,
        enc(ext_handshake_value(metadata_size)).len() <= usize::MAX,
    ensures
        handshake_view(enc(ext_handshake_value(metadata_size))) == Some(
            ExtHandshake { ut_metadata: Some(1u8), metadata_size },
        ),
{
    let v = ext_handshake_value(metadata_size);
    let top = v->Dict_0;
    let m = dict1(ut_metadata_key(), Bencode::Int(1));
    lemma_key_order();
    lemma_lookup_small(ut_metadata_key(), Bencode::Int(1), m_key(), Bencode::Int(0), m_key(), Bencode::Int(0));
    let n: int = match metadata_size {
        Some(x) => (x as i64) as int,
        None => 0,
    };
    if let Some(x) = metadata_size {
        assert((x as i64) as int == x as int) by (bit_vector)
            requires
                x <= 0x7fff_ffff_ffff_ffffu64,
        ;
    }
    lemma_lookup_small(m_key(), Bencode::Dict(m), metadata_size_key(), Bencode::Int(n), m_key(), Bencode::Int(0));
    assert(canonical(v)) by {
        reveal_with_fuel(canonical, 3);
    }
    assert(fits(v, 0)) by {
        reveal_with_fuel(fits, 3);
    }
    let e = enc(v);
    assert(e + Seq::<u8>::empty() =~= e);
    crate::bencode_spec::lemma_enc_shape(v);
    law_encoded_dict_leads(top, Seq::empty());
    lemma_views_at(e, top, e.len());
}

proof fn lemma_message_reads_back(t: int, piece: u64, total: Option<u64>, rest: Seq<u8>)
    requires
        0 <= t <= 2,
        (piece as i64) as int == piece as int,
        total matches Some(x) ==> (x as i64) as int == x as int,
        enc(metadata_dict(t, piece, total)).len() + rest.len() <= usize::MAX,
    ensures
        metadata_view(enc(metadata_dict(t, piece, total)) + rest) == meta_msg_of(
            metadata_dict(t, piece, total)->Dict_0,
            rest,
        ),
{
    lemma_key_order();
    let p = Bencode::Int(piece as int);
    let ts = Bencode::Int(match total { Some(x) => x as int, None => 0 });
    lemma_lookup_small(msg_type_key(), Bencode::Int(t), piece_key(), p, total_size_key(), ts);
    let v = metadata_dict(t, piece, total);
    assert(canonical(v)) by {
        reveal_with_fuel(canonical, 2);
    }
    assert(fits(v, 0)) by {
        reveal_with_fuel(fits, 2);
    }
    law_encoded_dict_leads(v->Dict_0, rest);
    let e = enc(v) + rest;
    lemma_views_at(e, v->Dict_0, enc(v).len());
    assert(e.subrange(enc(v).len() as int, e.len() as int) =~= rest);
}

/// A metadata message we build reads back as what it says: a request or a
/// refusal of its piece, and a data message with its piece, total size and
/// the bytes after the dictionary.
pub proof fn law_metadata_round_trip(piece: u64, total_size: u64, data: Seq<u8>)
    requires
        piece <= i64::MAX,
        0 < total_size <= i64::MAX,
        enc(metadata_dict(1, piece, Some(total_size))).len() + data.len() <= usize::MAX,
        enc(metadata_dict(0, piece, None)).len() <= usize::MAX,
        enc(metadata_dict(2, piece, None)).len() <= usize::MAX,
    ensures
        metadata_view(enc(metadata_dict(0, piece, None))) == Some(MetaMsg::Request(piece)),
        metadata_view(enc(metadata_dict(1, piece, Some(total_size))) + data) == Some(
            MetaMsg::Data(piece, Some(total_size), data),
        ),
        metadata_view(enc(metadata_dict(2, piece, None))) == Some(MetaMsg::Reject(piece)),
{
    lemma_key_order();
    assert((piece as i64) as int == piece as int) by (bit_vector)
        requires
            piece <= 0x7fff_ffff_ffff_ffffu64,
    ;
    assert((total_size as i64) as int == total_size as int) by (bit_vector)
        requires
            total_size <= 0x7fff_ffff_ffff_ffffu64,
    ;
    let p = Bencode::Int(piece as int);
    let ts = Bencode::Int(total_size as int);
    lemma_lookup_small(msg_type_key(), Bencode::Int(0), piece_key(), p, total_size_key(), ts);
    lemma_lookup_small(msg_type_key(), Bencode::Int(1), piece_key(), p, total_size_key(), ts);
    lemma_lookup_small(msg_type_key(), Bencode::Int(2), piece_key(), p, total_size_key(), ts);
    lemma_message_reads_back(0, piece, None, Seq::empty());
    lemma_message_reads_back(1, piece, Some(total_size), data);
    lemma_message_reads_back(2, piece, None, Seq::empty());
    assert(enc(metadata_dict(0, piece, None)) + Seq::<u8>::empty() =~= enc(metadata_dict(0, piece, None)));
    assert(enc(metadata_dict(2, piece, None)) + Seq::<u8>::empty() =~= enc(metadata_dict(2, piece, None)));
}

/// The position of the first `c` at or after `from`.
fn find_byte(s: &[u8], from: usize, c: u8) -> (r: Option<usize>)
    requires
        from <= s@.len(),
    ensures
        match r {
            Some(k) => offset_of(s@, from as int, c) == Some((k - from) as nat) && from <= k < s@.len(),
            None => offset_of(s@, from as int, c) is None,
        },
{
    let mut k = from;
    while k < s.len()
        invariant
            from <= k <= s@.len(),
            forall|j: int| from <= j < k ==> s@[j] != c,
        decreases s.len() - k,
    {
        if s[k] == c {
            proof {
                lemma_offset_of(s@, from as int, c, k as int);
            }
            return Some(k);
        }
        k = k + 1;
    }
    proof {
        lemma_offset_of(s@, from as int, c, k as int);
    }
    None
}

/// The decimal number in `s[start..end]`, when it is all digits and fits a
/// `usize`.
fn parse_length(s: &[u8], start: usize, end: usize) -> (r: Option<usize>)
    requires
        start <= end <= s@.len(),
    ensures
        match r {
            Some(n) => all_digits(s@.subrange(start as int, end as int)) && n == digits_value(
                s@.subrange(start as int, end as int),
            ),
            None => !(all_digits(s@.subrange(start as int, end as int)) && digits_value(
                s@.subrange(start as int, end as int),
            ) <= usize::MAX),
        },
{
    let mut value: u128 = 0;
    let mut i = start;
    while i < end
        invariant
            start <= i <= end <= s@.len(),
            all_digits(s@.subrange(start as int, i as int)),
            value == digits_value(s@.subrange(start as int, i as int)),
            value <= usize::MAX,
        decreases end - i,
    {
        let c = s[i];
        let ghost prefix = s@.subrange(start as int, i as int);
        if c < 48 || c > 57 {
            proof {
                assert(s@.subrange(start as int, end as int)[i - start] == c);
            }
            return None;
        }
        proof {
            assert(s@.subrange(start as int, i + 1) =~= prefix.push(c));
            lemma_digits_value_push(prefix, c);
        }
        value = value * 10 + (c - 48) as u128;
        i = i + 1;
        if value > usize::MAX as u128 {
            proof {
                let whole = s@.subrange(start as int, end as int);
                if all_digits(whole) {
                    lemma_digits_value_grows(whole, i - start);
                    assert(whole.subrange(0, i - start) =~= s@.subrange(start as int, i as int));
                }
            }
            return None;
        }
    }
    Some(value as usize)
}

/// Where the dictionary that `payload` starts with ends, by a token scan
/// that trusts lengths and skips integers; `None` when the payload does not
/// start with a dictionary or the scan runs out.
fn find_dict_end(payload: &[u8]) -> (r: Option<usize>)
    ensures
        match r {
            Some(n) => dict_end(payload@) == Some(n as nat),
            None => dict_end(payload@) is None,
        },
{
    let ghost s = payload@;
    if payload.len() == 0 || payload[0] != 100u8 {
        return None;
    }
    let mut depth: usize = 0;
    let mut i: usize = 0;
    while i < payload.len()
        invariant
            s == payload@,
            i <= s.len(),
            depth <= i,
            scan_end(s, i as int, depth as nat) == dict_end(s),
        decreases payload.len() - i,
    {
        let c = payload[i];
        if c == 100u8 || c == 108u8 {
            depth = depth + 1;
            i = i + 1;
        } else if c == 105u8 {
            match find_byte(payload, i, 101u8) {
                Some(k) => {
                    i = k + 1;
                },
                None => {
                    return None;
                },
            }
        } else if 48u8 <= c && c <= 57u8 {
            let colon = match find_byte(payload, i, 58u8) {
                Some(k) => k,
                None => {
                    return None;
                },
            };
            let len = match parse_length(payload, i, colon) {
                Some(n) => n,
                None => {
                    return None;
                },
            };
            if len > payload.len() - colon - 1 {
                return None;
            }
            i = colon + 1 + len;
        } else if c == 101u8 {
            if depth == 0 {
                return None;
            }
            depth = depth - 1;
            i = i + 1;
            if depth == 0 {
                return Some(i);
            }
        } else {
            return None;
        }
    }
    None
}

/// What the dictionary at the start of a payload is, and how long it is:
/// the token scan must find its end, and the bytes up to there must decode
/// to a dictionary.
pub open spec fn prefix_dict(s: Seq<u8>, d: Seq<(Seq<u8>, Bencode)>, n: nat) -> bool {
    dict_end(s) == Some(n) && n <= s.len() && decodes_to(s.subrange(0, n as int), Bencode::Dict(d))
}

/// The dictionary that `payload` starts with, and its length.
fn decode_prefix_dict_with_len(payload: &[u8]) -> (r: Result<(Dict, usize), Error>)
    ensures
        match r {
            Ok((d, n)) => prefix_dict(payload@, d@, n as nat),
            Err(Error::NotADict) => exists|n: nat, b: Bencode|
                dict_end(payload@) == Some(n) && n <= payload@.len() && decodes_to(
                    payload@.subrange(0, n as int),
                    b,
                ) && !(b is Dict),
            Err(Error::BadPayload) => match dict_end(payload@) {
                Some(n) => n <= payload@.len() ==> forall|b: Bencode|
                    !decodes_to(payload@.subrange(0, n as int), b),
                None => true,
            },
        },
        r is Err ==> forall|d: Seq<(Seq<u8>, Bencode)>, n: nat| !prefix_dict(payload@, d, n),
{
    let consumed = match find_dict_end(payload) {
        Some(n) => n,
        None => {
            return Err(Error::BadPayload);
        },
    };
    if consumed > payload.len() {
        proof {
            assert forall|d: Seq<(Seq<u8>, Bencode)>, n: nat| !prefix_dict(payload@, d, n) by {}
        }
        return Err(Error::BadPayload);
    }
    let head = copy_range(payload, 0, consumed);
    match decode(head.as_slice()) {
        Ok(Value::Dict(d)) => Ok((d, consumed)),
        Ok(other) => {
            proof {
                assert forall|d: Seq<(Seq<u8>, Bencode)>, n: nat| !prefix_dict(payload@, d, n) by {
                    if prefix_dict(payload@, d, n) {
                        law_decoding_unique(head@, other@, Bencode::Dict(d));
                    }
                }
            }
            Err(Error::NotADict)
        },
        Err(_) => Err(Error::BadPayload),
    }
}

// ---------------------------------------------------------------------
// The extension handshake

/// The metadata extension id a handshake advertises: an integer from 1 to
/// 255 under `m` / `ut_metadata`.
pub open spec fn ut_metadata_of(top: Seq<(Seq<u8>, Bencode)>) -> Option<u8> {
    match dict_at(top, m_key()) {
        Some(m) => match int_at(m, ut_metadata_key()) {
            Some(n) => if 0 < n <= 255 {
                Some(n as u8)
            } else {
                None
            },
            None => None,
        },
        None => None,
    }
}

/// The metadata size a handshake advertises: a positive integer under
/// `metadata_size`.
pub open spec fn metadata_size_of(top: Seq<(Seq<u8>, Bencode)>) -> Option<u64> {
    match int_at(top, metadata_size_key()) {
        Some(n) => if 0 < n <= u64::MAX {
            Some(n as u64)
        } else {
            None
        },
        None => None,
    }
}

/// The handshake we send: `m` maps `ut_metadata` to 1, and the metadata size
/// is given when we know it.
pub open spec fn ext_handshake_value(metadata_size: Option<u64>) -> Bencode {
    let m = Bencode::Dict(dict1(ut_metadata_key(), Bencode::Int(1)));
    match metadata_size {
        Some(size) => Bencode::Dict(
            dict2(m_key(), m, metadata_size_key(), Bencode::Int((size as i64) as int)),
        ),
        None => Bencode::Dict(dict1(m_key(), m)),
    }
}

proof fn lemma_key_order()
    ensures
        crate::bencode_spec::lex_lt(m_key(), metadata_size_key()),
        crate::bencode_spec::lex_lt(msg_type_key(), piece_key()),
        crate::bencode_spec::lex_lt(piece_key(), total_size_key()),
{
    assert(metadata_size_key().subrange(0, 1) =~= m_key());
    lemma_lex_prefix(m_key(), metadata_size_key());
    lemma_lex_first_byte(msg_type_key(), piece_key());
    lemma_lex_first_byte(piece_key(), total_size_key());
}

pub fn build_ext_handshake(metadata_size: Option<u64>) -> (out: Vec<u8>)
    ensures
        out@ == enc(ext_handshake_value(metadata_size)),
{
    let mut m = Dict::new();
    m.insert(ut_metadata_bytes(), Value::Int(1));
    let mut top = Dict::new();
    let ghost gm = m@;
    top.insert(m_bytes(), Value::Dict(m));
    if let Some(size) = metadata_size {
        top.insert(metadata_size_bytes(), Value::Int(size as i64));
    }
    proof {
        lemma_key_order();
        let want_m = dict1(ut_metadata_key(), Bencode::Int(1));
        lemma_lookup_small(ut_metadata_key(), Bencode::Int(1), m_key(), Bencode::Int(0), m_key(), Bencode::Int(0));
        lemma_lookup_small(m_key(), Bencode::Dict(want_m), metadata_size_key(), Bencode::Int((metadata_size->0 as i64) as int), m_key(), Bencode::Int(0));
        lemma_lookup_extensional(gm, want_m);
        let want = ext_handshake_value(metadata_size)->Dict_0;
        lemma_lookup_extensional(top@, want);
    }
    encode(&Value::Dict(top))
}

/// Reads the extension handshake at the start of `payload`.
pub fn parse_ext_handshake(payload: &[u8]) -> (r: Result<ExtHandshake, Error>)
    ensures
        match r {
            Ok(h) => exists|top: Seq<(Seq<u8>, Bencode)>, n: nat|
                prefix_dict(payload@, top, n) && h.ut_metadata == ut_metadata_of(top)
                    && h.metadata_size == metadata_size_of(top),
            Err(_) => forall|top: Seq<(Seq<u8>, Bencode)>, n: nat| !prefix_dict(payload@, top, n),
        },
        match r {
            Ok(h) => handshake_view(payload@) == Some(h),
            Err(_) => handshake_view(payload@) is None,
        },
{
    let (top, consumed) = decode_prefix_dict_with_len(payload)?;
    proof {
        lemma_views_at(payload@, top@, consumed as nat);
    }
    let ut_metadata = match top.get_dict(m_bytes().as_slice()) {
        Some(m) => match m.get_int(ut_metadata_bytes().as_slice()) {
            Some(n) => if n > 0 && n <= 255 {
                Some(n as u8)
            } else {
                None
            },
            None => None,
        },
        None => None,
    };
    let metadata_size = match top.get_int(metadata_size_bytes().as_slice()) {
        Some(n) => if n > 0 {
            Some(n as u64)
        } else {
            None
        },
        None => None,
    };
    Ok(ExtHandshake { ut_metadata, metadata_size })
}

// ---------------------------------------------------------------------
// Metadata messages

/// The dictionary of a metadata message: its type and piece, and the total
/// size for data messages.
pub open spec fn metadata_dict(msg_type: int, piece: u64, total_size: Option<u64>) -> Bencode {
    match total_size {
        Some(t) => Bencode::Dict(
            dict3(
                msg_type_key(),
                Bencode::Int(msg_type),
                piece_key(),
                Bencode::Int((piece as i64) as int),
                total_size_key(),
                Bencode::Int((t as i64) as int),
            ),
        ),
        None => Bencode::Dict(
            dict2(msg_type_key(), Bencode::Int(msg_type), piece_key(), Bencode::Int((piece as i64) as int)),
        ),
    }
}

fn encode_metadata_dict(msg_type: i64, piece: u64, total_size: Option<u64>) -> (out: Vec<u8>)
    ensures
        out@ == enc(metadata_dict(msg_type as int, piece, total_size)),
{
    let mut top = Dict::new();
    top.insert(msg_type_bytes(), Value::Int(msg_type));
    top.insert(piece_bytes(), Value::Int(piece as i64));
    if let Some(t) = total_size {
        top.insert(total_size_bytes(), Value::Int(t as i64));
    }
    proof {
        lemma_key_order();
        crate::bencode_spec::lemma_lex_transitive(msg_type_key(), piece_key(), total_size_key());
        let want = metadata_dict(msg_type as int, piece, total_size)->Dict_0;
        lemma_lookup_small(
            msg_type_key(),
            Bencode::Int(msg_type as int),
            piece_key(),
            Bencode::Int((piece as i64) as int),
            total_size_key(),
            Bencode::Int((total_size->0 as i64) as int),
        );
        lemma_lookup_extensional(top@, want);
    }
    encode(&Value::Dict(top))
}

/// A request for metadata piece `piece`.
pub fn build_metadata_request(piece: u64) -> (out: Vec<u8>)
    ensures
        out@ == enc(metadata_dict(0, piece, None)),
{
    encode_metadata_dict(0, piece, None)
}

/// Metadata piece `piece` of `total_size` bytes in all: the dictionary,
/// then the piece's bytes.
pub fn build_metadata_data(piece: u64, total_size: u64, data: &[u8]) -> (out: Vec<u8>)
    ensures
        out@ == enc(metadata_dict(1, piece, Some(total_size))) + data@,
{
    let mut out = encode_metadata_dict(1, piece, Some(total_size));
    push_all(&mut out, data);
    out
}

/// A refusal to send metadata piece `piece`.
pub fn build_metadata_reject(piece: u64) -> (out: Vec<u8>)
    ensures
        out@ == enc(metadata_dict(2, piece, None)),
{
    encode_metadata_dict(2, piece, None)
}

/// The handshake that `payload` starts with; `None` when it does not start
/// with a valid dictionary.
pub open spec fn handshake_view(payload: Seq<u8>) -> Option<ExtHandshake> {
    if exists|top: Seq<(Seq<u8>, Bencode)>, n: nat| prefix_dict(payload, top, n) {
        let (top, n) = choose|top: Seq<(Seq<u8>, Bencode)>, n: nat| prefix_dict(payload, top, n);
        Some(ExtHandshake { ut_metadata: ut_metadata_of(top), metadata_size: metadata_size_of(top) })
    } else {
        None
    }
}

/// The total size a data message gives: a positive integer under
/// `total_size`.
pub open spec fn total_size_of(top: Seq<(Seq<u8>, Bencode)>) -> Option<u64> {
    match int_at(top, total_size_key()) {
        Some(n) => if n > 0 {
            Some(n as u64)
        } else {
            None
        },
        None => None,
    }
}

/// The metadata message of the leading dictionary `top` and the `rest` of
/// the payload: its type and piece must be there, the piece not negative.
pub open spec fn meta_msg_of(top: Seq<(Seq<u8>, Bencode)>, rest: Seq<u8>) -> Option<MetaMsg> {
    match (int_at(top, msg_type_key()), int_at(top, piece_key())) {
        (Some(t), Some(p)) => if p < 0 {
            None
        } else if t == 0 {
            Some(MetaMsg::Request(p as u64))
        } else if t == 1 {
            Some(MetaMsg::Data(p as u64, total_size_of(top), rest))
        } else if t == 2 {
            Some(MetaMsg::Reject(p as u64))
        } else {
            None
        },
        _ => None,
    }
}

/// The metadata message that `payload` holds, if any.
pub open spec fn metadata_view(payload: Seq<u8>) -> Option<MetaMsg> {
    if exists|top: Seq<(Seq<u8>, Bencode)>, n: nat| prefix_dict(payload, top, n) {
        let (top, n) = choose|top: Seq<(Seq<u8>, Bencode)>, n: nat| prefix_dict(payload, top, n);
        meta_msg_of(top, payload.subrange(n as int, payload.len() as int))
    } else {
        None
    }
}

proof fn lemma_views_at(s: Seq<u8>, top: Seq<(Seq<u8>, Bencode)>, n: nat)
    requires
        prefix_dict(s, top, n),
    ensures
        handshake_view(s) == Some(ExtHandshake { ut_metadata: ut_metadata_of(top), metadata_size: metadata_size_of(top) }),
        metadata_view(s) == meta_msg_of(top, s.subrange(n as int, s.len() as int)),
{
    lemma_prefix_dict_unique(s, top, n);
    let (t2, n2) = choose|t: Seq<(Seq<u8>, Bencode)>, m: nat| prefix_dict(s, t, m);
    assert(prefix_dict(s, t2, n2));
}

/// What a metadata message says, read from its leading dictionary `top` and
/// the `rest` of the payload after it.
pub open spec fn metadata_message_from(
    top: Seq<(Seq<u8>, Bencode)>,
    rest: Seq<u8>,
    m: MetadataMessage,
) -> bool {
    match (int_at(top, msg_type_key()), int_at(top, piece_key())) {
        (Some(t), Some(p)) => p >= 0 && match m {
            MetadataMessage::Request { piece } => t == 0 && piece == p,
            MetadataMessage::Data { piece, total_size, data } => t == 1 && piece == p && data@
                == rest && total_size == match int_at(top, total_size_key()) {
                Some(n) => if n > 0 {
                    Some(n as u64)
                } else {
                    None
                },
                None => None,
            },
            MetadataMessage::Reject { piece } => t == 2 && piece == p,
        },
        _ => false,
    }
}

/// Reads a metadata message: a dictionary with its type and piece, and for
/// data messages the piece's bytes after the dictionary.
pub fn parse_metadata_message(payload: &[u8]) -> (r: Result<MetadataMessage, Error>)
    ensures
        match r {
            Ok(m) => exists|top: Seq<(Seq<u8>, Bencode)>, n: nat|
                prefix_dict(payload@, top, n) && metadata_message_from(
                    top,
                    payload@.subrange(n as int, payload@.len() as int),
                    m,
                ),
            Err(Error::BadPayload) => forall|top: Seq<(Seq<u8>, Bencode)>, n: nat, m: MetadataMessage|
                prefix_dict(payload@, top, n) ==> !metadata_message_from(
                    top,
                    payload@.subrange(n as int, payload@.len() as int),
                    m,
                ),
            Err(Error::NotADict) => forall|top: Seq<(Seq<u8>, Bencode)>, n: nat|
                !prefix_dict(payload@, top, n),
        },
        r matches Err(Error::NotADict) ==> payload@.len() > 0 && payload@[0] == 100 && exists|n: nat, b: Bencode|
            dict_end(payload@) == Some(n) && n <= payload@.len() && decodes_to(payload@.subrange(0, n as int), b) && !(b is Dict),
        match r {
            Ok(m) => metadata_view(payload@) == Some(m@),
            Err(_) => metadata_view(payload@) is None,
        },
{
    let (top, consumed) = decode_prefix_dict_with_len(payload)?;
    proof {
        lemma_prefix_dict_unique(payload@, top@, consumed as nat);
        lemma_views_at(payload@, top@, consumed as nat);
    }
    let msg_type = match top.get_int(msg_type_bytes().as_slice()) {
        Some(n) => n,
        None => {
            return Err(Error::BadPayload);
        },
    };
    let piece = match top.get_int(piece_bytes().as_slice()) {
        Some(n) => if n >= 0 {
            n as u64
        } else {
            return Err(Error::BadPayload);
        },
        None => {
            return Err(Error::BadPayload);
        },
    };
    if msg_type == 0 {
        Ok(MetadataMessage::Request { piece })
    } else if msg_type == 1 {
        let total_size = match top.get_int(total_size_bytes().as_slice()) {
            Some(n) => if n > 0 {
                Some(n as u64)
            } else {
                None
            },
            None => None,
        };
        Ok(MetadataMessage::Data { piece, total_size, data: copy_range(payload, consumed, payload.len()) })
    } else if msg_type == 2 {
        Ok(MetadataMessage::Reject { piece })
    } else {
        Err(Error::BadPayload)
    }
}

/// A payload starts with at most one dictionary.
proof fn lemma_prefix_dict_unique(s: Seq<u8>, d: Seq<(Seq<u8>, Bencode)>, n: nat)
    requires
        prefix_dict(s, d, n),
    ensures
        forall|d2: Seq<(Seq<u8>, Bencode)>, n2: nat| #[trigger] prefix_dict(s, d2, n2) ==> d2 == d && n2 == n,
{
    assert forall|d2: Seq<(Seq<u8>, Bencode)>, n2: nat| #[trigger] prefix_dict(s, d2, n2) implies d2 == d && n2 == n by {
        law_decoding_unique(s.subrange(0, n as int), Bencode::Dict(d), Bencode::Dict(d2));
    }
}

} // verus!
