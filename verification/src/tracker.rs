//! HTTP trackers: the announce URL, and the bencoded response with its peer
//! list.
use vstd::prelude::*;
use vstd::utf8::{decode_utf8, encode_utf8, valid_utf8};
use crate::bencode::{decode, items_model, Dict, Value};
use crate::bencode_spec::{bytes_at, decodes_to, digit_seq, int_at, lookup, Bencode};
use crate::keys::{
    ev_completed_bytes, ev_completed_key, ev_started_bytes, ev_started_key, ev_stopped_bytes,
    ev_stopped_key, failure_reason_bytes, failure_reason_key, http_scheme_bytes, http_scheme_key,
    interval_bytes, interval_key, ip_bytes, ip_key, peers6_bytes, peers6_key, peers_bytes, peers_key, port_bytes, port_key,
    q_downloaded_bytes, q_downloaded_key, q_info_hash_bytes, q_info_hash_key, q_left_bytes, q_left_key,
    q_peer_id_bytes, q_peer_id_key, q_port_bytes, q_port_key, q_tail_bytes, q_tail_key,
    q_uploaded_bytes, q_uploaded_key,
};
use crate::metainfo::InfoHash;
use crate::text::{lemma_ascii_cut, lemma_ascii_valid, lossy_string, lossy_text, string_from_utf8};
use crate::wire::{be_value, push_all, push_decimal, read_u16_be};

verus! {

#[derive(Debug, Clone, Copy, PartialEq, Eq, Structural)]
pub enum Event {
    /// A regular announce, with no event.
    Regular,
    Started,
    Stopped,
    Completed,
}

#[derive(Debug, Clone, Copy, PartialEq, Eq)]
pub struct AnnounceRequest {
    pub info_hash: InfoHash,
    pub peer_id: [u8; 20],
    pub port: u16,
    pub uploaded: u64,
    pub downloaded: u64,
    pub left: u64,
    pub event: Event,
}

/// A peer's address as a tracker gives it: four or sixteen address bytes
/// and a port, or the text of an address and a port.
#[derive(Debug, Clone, PartialEq, Eq, Hash)]
pub enum PeerAddr {
    Ipv4([u8; 4], u16),
    Ipv6([u8; 16], u16),
    Host(String, u16),
}

#[derive(Debug, Clone, PartialEq, Eq)]
pub struct AnnounceResponse {
    pub interval: u32,
    pub peers: Vec<PeerAddr>,
}

#[derive(Debug, Clone, PartialEq, Eq)]
pub enum Error {
    UnsupportedUrl(String),
    Io(String),
    HttpStatus(u16),
    BadResponse,
    Failure(String),
}

// ---------------------------------------------------------------------
// The announce URL

/// Bytes that a URL carries as they are.
pub open spec fn unreserved(b: u8) -> bool {
    (65 <= b <= 90) || (97 <= b <= 122) || (48 <= b <= 57) || b == 45 || b == 95 || b == 46 || b == 126
}

/// An uppercase hexadecimal digit.
pub open spec fn upper_hex(v: nat) -> u8 {
    if v < 10 {
        (48 + v) as u8
    } else {
        (55 + v) as u8
    }
}

/// `bs` percent-encoded: unreserved bytes as they are, others as `%XX`.
pub open spec fn escaped(bs: Seq<u8>) -> Seq<u8>
    decreases bs.len(),
{
    if bs.len() == 0 {
        Seq::empty()
    } else {
        escaped(bs.drop_last()) + if unreserved(bs.last()) {
            seq![bs.last()]
        } else {
            seq![37u8, upper_hex((bs.last() / 16) as nat), upper_hex((bs.last() % 16) as nat)]
        }
    }
}

/// All bytes below 128.
pub open spec fn ascii(s: Seq<u8>) -> bool {
    forall|i: int| 0 <= i < s.len() ==> #[trigger] s[i] < 128
}

proof fn lemma_ascii_concat(a: Seq<u8>, b: Seq<u8>)
    requires
        ascii(a),
        ascii(b),
    ensures
        ascii(a + b),
{
    assert forall|i: int| 0 <= i < (a + b).len() implies #[trigger] (a + b)[i] < 128 by {
        if i < a.len() {
            assert((a + b)[i] == a[i]);
        } else {
            assert((a + b)[i] == b[i - a.len()]);
        }
    }
}

fn upper_hex_of(v: u8) -> (c: u8)
    requires
        v < 16,
    ensures
        c == upper_hex(v as nat),
{
    if v < 10 {
        48 + v
    } else {
        55 + v
    }
}

fn escape_into(out: &mut Vec<u8>, bytes: &[u8])
    ensures
        final(out)@ == old(out)@ + escaped(bytes@),
        ascii(escaped(bytes@)),
{
    let ghost start = out@;
    let mut i: usize = 0;
    proof {
        assert(bytes@.take(0) =~= Seq::<u8>::empty());
        assert(start + escaped(Seq::<u8>::empty()) =~= start);
    }
    while i < bytes.len()
        invariant
            i <= bytes@.len(),
            out@ == start + escaped(bytes@.take(i as int)),
            ascii(escaped(bytes@.take(i as int))),
        decreases bytes.len() - i,
    {
        let b = bytes[i];
        let ghost prev = escaped(bytes@.take(i as int));
        proof {
            assert(bytes@.take(i + 1).drop_last() =~= bytes@.take(i as int));
            assert(bytes@.take(i + 1).last() == b);
        }
        if (65u8 <= b && b <= 90u8) || (97u8 <= b && b <= 122u8) || (48u8 <= b && b <= 57u8) || b == 45u8
            || b == 95u8 || b == 46u8 || b == 126u8 {
            out.push(b);
            proof {
                lemma_ascii_concat(prev, seq![b]);
                assert(out@ =~= start + (prev + seq![b]));
            }
        } else {
            out.push(37u8);
            out.push(upper_hex_of(b / 16));
            out.push(upper_hex_of(b % 16));
            proof {
                let tail = seq![37u8, upper_hex((b / 16) as nat), upper_hex((b % 16) as nat)];
                lemma_ascii_concat(prev, tail);
                assert(out@ =~= start + (prev + tail));
            }
        }
        i = i + 1;
    }
    proof {
        assert(bytes@.take(bytes@.len() as int) =~= bytes@);
    }
}

/// Percent-encodes bytes for a URL query.
pub fn escape_bytes(bytes: &[u8]) -> (r: String)
    ensures
        r@ == decode_utf8(escaped(bytes@)),
{
    let mut out: Vec<u8> = Vec::new();
    escape_into(&mut out, bytes);
    proof {
        assert(out@ =~= escaped(bytes@));
        lemma_ascii_valid(out@);
    }
    match string_from_utf8(out) {
        Some(s) => s,
        None => String::new(),
    }
}

/// The query suffix for an event.
pub open spec fn event_suffix(e: Event) -> Seq<u8> {
    match e {
        Event::Regular => Seq::empty(),
        Event::Started => ev_started_key(),
        Event::Stopped => ev_stopped_key(),
        Event::Completed => ev_completed_key(),
    }
}

/// The query of an announce, after the separator.
pub open spec fn announce_query(req: AnnounceRequest) -> Seq<u8> {
    q_info_hash_key() + escaped(req.info_hash.0@) + q_peer_id_key() + escaped(req.peer_id@) + q_port_key()
        + digit_seq(req.port as nat) + q_uploaded_key() + digit_seq(req.uploaded as nat)
        + q_downloaded_key() + digit_seq(req.downloaded as nat) + q_left_key() + digit_seq(
        req.left as nat,
    ) + q_tail_key() + event_suffix(req.event)
}

/// The announce URL: the base, `?` or `&` as the base already has a query
/// or not, and the query.
pub open spec fn announce_url_bytes(base: Seq<u8>, req: AnnounceRequest) -> Seq<u8> {
    base + seq![if base.contains(63u8) { 38u8 } else { 63u8 }] + announce_query(req)
}

/// An announce names its event in the last bytes of its URL: a completed
/// download ends it with `&event=completed`, a start with `&event=started`,
/// a stop with `&event=stopped`, and a regular announce with the
/// `&compact=1&numwant=50` that every query carries; so the suffixes of
/// different events differ.
pub proof fn law_announce_names_its_event(base: Seq<u8>, req: AnnounceRequest)
    ensures
        ({
            let u = announce_url_bytes(base, req);
            let n = u.len() as int;
            &&& req.event is Completed ==> n >= 16 && u.subrange(n - 16, n) == seq![
                38u8, 101, 118, 101, 110, 116, 61, 99, 111, 109, 112, 108, 101, 116, 101, 100,
            ]
            &&& req.event is Started ==> n >= 14 && u.subrange(n - 14, n) == seq![
                38u8, 101, 118, 101, 110, 116, 61, 115, 116, 97, 114, 116, 101, 100,
            ]
            &&& req.event is Stopped ==> n >= 14 && u.subrange(n - 14, n) == seq![
                38u8, 101, 118, 101, 110, 116, 61, 115, 116, 111, 112, 112, 101, 100,
            ]
            &&& req.event is Regular ==> n >= 21 && u.subrange(n - 21, n) == seq![
                38u8, 99, 111, 109, 112, 97, 99, 116, 61, 49, 38, 110, 117, 109, 119, 97, 110, 116, 61, 53, 48,
            ]
        }),
        forall|a: Event, b: Event| a != b ==> #[trigger] event_suffix(a) != #[trigger] event_suffix(b),
{
    let u = announce_url_bytes(base, req);
    let q = announce_query(req);
    let sfx = event_suffix(req.event);
    let head = base + seq![if base.contains(63u8) { 38u8 } else { 63u8 }];
    assert(u == head + q);
    let tail = q_tail_key() + sfx;
    assert(q.len() >= tail.len());
    assert(q.subrange(q.len() - tail.len(), q.len() as int) =~= tail);
    assert(u.subrange(u.len() - tail.len(), u.len() as int) =~= tail) by {
        assert forall|i: int| 0 <= i < tail.len() implies u[u.len() - tail.len() + i] == tail[i] by {
            assert(u[u.len() - tail.len() + i] == q[q.len() - tail.len() + i]);
        }
    }
    let n = u.len() as int;
    let k = sfx.len() as int;
    let t = if k == 0 { 21int } else { k };
    assert(u.subrange(n - t, n) =~= tail.subrange(tail.len() - t, tail.len() as int));
    assert forall|a: Event, b: Event| a != b implies #[trigger] event_suffix(a) != #[trigger] event_suffix(b) by {
        if event_suffix(a) == event_suffix(b) {
            assert(event_suffix(a).len() == event_suffix(b).len());
            if event_suffix(a).len() == 14 {
                assert(event_suffix(a)[9] == event_suffix(b)[9]);
            }
        }
    }
}

proof fn lemma_digits_ascii(n: nat)
    ensures
        ascii(digit_seq(n)),
{
    crate::bencode_spec::lemma_digit_seq(n);
    assert forall|i: int| 0 <= i < digit_seq(n).len() implies #[trigger] digit_seq(n)[i] < 128 by {
        assert(crate::bencode_spec::is_digit(digit_seq(n)[i]));
    }
}

fn push_word(out: &mut Vec<u8>, word: Vec<u8>)
    ensures
        final(out)@ == old(out)@ + word@,
{
    push_all(out, word.as_slice());
}

/// A URL with no space and no control byte, which could end the request
/// line or start another header.
pub open spec fn url_clean(b: Seq<u8>) -> bool {
    forall|i: int| 0 <= i < b.len() ==> 32 < #[trigger] b[i] && b[i] != 127
}

/// Whether `base` is an HTTP URL that an announce can extend.
pub open spec fn announceable(base: Seq<u8>) -> bool {
    crate::magnet::starts(base, http_scheme_key()) && url_clean(base)
}

fn is_clean(b: &[u8]) -> (r: bool)
    ensures
        r == url_clean(b@),
{
    let mut i: usize = 0;
    while i < b.len()
        invariant
            i <= b@.len(),
            forall|k: int| 0 <= k < i ==> 32 < #[trigger] b@[k] && b@[k] != 127,
        decreases b.len() - i,
    {
        if b[i] <= 32u8 || b[i] == 127u8 {
            return false;
        }
        i = i + 1;
    }
    true
}

/// Where an HTTP announce goes: the authority of the URL (host and port as
/// written), the path with its query, and the host and port to connect to.
#[derive(Debug, Clone, PartialEq, Eq)]
pub struct HttpTarget {
    pub authority: String,
    pub path: String,
    pub host: String,
    pub port: u16,
}

/// The parts of an `http://` URL: the authority up to the first `/`; the
/// path from there, or `/`; and the authority split at its last `:` into a
/// host (without the brackets of an IPv6 address) and a decimal port up to
/// 65535, or the whole authority and port 80 when it holds no `:`.
pub open spec fn http_split(url: Seq<u8>) -> Option<(Seq<u8>, Seq<u8>, Seq<u8>, u16)> {
    if !crate::magnet::starts(url, http_scheme_key()) {
        None
    } else {
        let rest = url.subrange(7, url.len() as int);
        let auth = match crate::wire::index_of(rest, 47) {
            Some(i) => rest.subrange(0, i as int),
            None => rest,
        };
        let path = match crate::wire::index_of(rest, 47) {
            Some(i) => rest.subrange(i as int, rest.len() as int),
            None => seq![47u8],
        };
        match crate::tracker_udp::last_index_of(auth, 58) {
            Some(k) => match crate::number::decimal_value(auth.subrange(k + 1int, auth.len() as int)) {
                Some(v) => if v <= 65535 {
                    Some((auth, path, crate::tracker_udp::unbracket(auth.subrange(0, k as int)), v as u16))
                } else {
                    None
                },
                None => None,
            },
            None => Some((auth, path, auth, 80u16)),
        }
    }
}

/// Splits the announce URL `url` into where the request goes; `None` when
/// it is no `http://` URL or its port is no number up to 65535.
pub fn http_target(url: &str) -> (r: Option<HttpTarget>)
    ensures
        match r {
            Some(t) => http_split(encode_utf8(url@)) matches Some((a, p, h, port)) && t.authority@ == decode_utf8(a)
                && t.path@ == decode_utf8(p) && t.host@ == decode_utf8(h) && t.port == port,
            None => http_split(encode_utf8(url@)) is None,
        },
{
    let b = url.as_bytes();
    let ghost bs = b@;
    let scheme = http_scheme_bytes();
    if !crate::wire::starts_with(b, scheme.as_slice()) {
        return None;
    }
    proof {
        vstd::utf8::encode_utf8_valid_utf8(url@);
        assert(bs.subrange(0, 7) == http_scheme_key());
        assert forall|j: int| 0 <= j < 7 implies #[trigger] bs[j] < 128 by {
            assert(bs[j] == bs.subrange(0, 7)[j]);
        }
        crate::text::lemma_drop_ascii(bs, 7);
    }
    let ghost rest = bs.subrange(7, bs.len() as int);
    let slash = crate::wire::find_from(b, 7, 47u8);
    let end = match slash {
        Some(k) => k,
        None => b.len(),
    };
    proof {
        crate::magnet::lemma_index_of_bound(rest, 47u8);
        assert(bs.subrange(7, bs.len() as int) =~= rest);
    }
    let auth = crate::wire::copy_range(b, 7, end);
    let path_bytes = match slash {
        Some(k) => crate::wire::copy_range(b, k, b.len()),
        None => vec![47u8],
    };
    proof {
        if end < b.len() {
            assert(rest[end - 7] == 47u8);
            lemma_ascii_cut(rest, 0, end - 7);
            assert(auth@ =~= rest.subrange(0, end - 7));
            lemma_ascii_cut(rest, end - 7, rest.len() as int);
            assert(path_bytes@ =~= rest.subrange(end - 7, rest.len() as int));
        } else {
            assert(auth@ =~= rest);
            assert forall|j: int| 0 <= j < path_bytes@.len() implies #[trigger] path_bytes@[j] < 128 by {}
            lemma_ascii_valid(path_bytes@);
            assert(path_bytes@ =~= seq![47u8]);
        }
    }
    let (host_bytes, port) = match crate::tracker_udp::rfind(auth.as_slice(), 58u8) {
        Some(colon) => {
            let port_text = crate::wire::copy_range(auth.as_slice(), colon + 1, auth.len());
            let port = match crate::number::parse_u16(port_text.as_slice()) {
                Some(p) => p,
                None => {
                    return None;
                },
            };
            let (lo, hi) = if colon >= 2 && auth[0] == 91u8 && auth[colon - 1] == 93u8 {
                (1, colon - 1)
            } else {
                (0, colon)
            };
            let host_bytes = crate::wire::copy_range(auth.as_slice(), lo, hi);
            proof {
                crate::tracker_udp::lemma_last_index_of(auth@, 58u8);
                let h = auth@.subrange(0, colon as int);
                assert(host_bytes@ =~= crate::tracker_udp::unbracket(h));
                assert(auth@[colon as int] == 58u8);
                if lo == 1 {
                    assert(auth@[0] == 91u8);
                    assert forall|j: int| 0 <= j < 1 implies #[trigger] auth@[j] < 128 by {}
                    crate::text::lemma_drop_ascii(auth@, 1);
                    let u = auth@.subrange(1, auth@.len() as int);
                    assert(u[hi - 1] == auth@[hi as int]);
                    lemma_ascii_cut(u, 0, hi - 1);
                    assert(u.subrange(0, hi - 1) =~= host_bytes@);
                } else {
                    lemma_ascii_cut(auth@, 0, hi as int);
                    assert(auth@.subrange(0, hi as int) =~= host_bytes@);
                }
                assert(port_text@ =~= auth@.subrange(colon + 1, auth@.len() as int));
            }
            (host_bytes, port)
        },
        None => {
            proof {
                crate::tracker_udp::lemma_last_index_of(auth@, 58u8);
                assert(auth@.subrange(0, auth@.len() as int) =~= auth@);
            }
            (crate::wire::copy_range(auth.as_slice(), 0, auth.len()), 80u16)
        },
    };
    proof {
        assert(valid_utf8(auth@));
        assert(valid_utf8(path_bytes@));
        assert(valid_utf8(host_bytes@));
        assert(http_split(bs) == Some((auth@, path_bytes@, host_bytes@, port)));
    }
    let authority = match string_from_utf8(auth) {
        Some(x) => x,
        None => {
            return None;
        },
    };
    let path = match string_from_utf8(path_bytes) {
        Some(x) => x,
        None => {
            return None;
        },
    };
    let host = match string_from_utf8(host_bytes) {
        Some(x) => x,
        None => {
            return None;
        },
    };
    Some(HttpTarget { authority, path, host, port })
}

/// The URL of an announce to an HTTP tracker at `base`.
pub fn build_announce_url(base: &str, req: &AnnounceRequest) -> (r: Result<String, Error>)
    ensures
        match r {
            Ok(url) => announceable(encode_utf8(base@)) && url@ == decode_utf8(
                announce_url_bytes(encode_utf8(base@), *req),
            ),
            Err(Error::UnsupportedUrl(s)) => !announceable(encode_utf8(base@)) && s@ == base@,
            Err(_) => false,
        },
{
    let b = base.as_bytes();
    let scheme = http_scheme_bytes();
    if !crate::wire::starts_with(b, scheme.as_slice()) || !is_clean(b) {
        return Err(Error::UnsupportedUrl(base.to_owned()));
    }
    let has_query = crate::wire::find_from(b, 0, 63u8).is_some();
    proof {
        assert(b@.subrange(0, b@.len() as int) =~= b@);
        lemma_index_of_contains(b@, 63u8);
    }
    let mut q: Vec<u8> = Vec::new();
    push_word(&mut q, q_info_hash_bytes());
    escape_into(&mut q, &req.info_hash.0);
    push_word(&mut q, q_peer_id_bytes());
    escape_into(&mut q, &req.peer_id);
    push_word(&mut q, q_port_bytes());
    push_decimal(&mut q, req.port as u64);
    push_word(&mut q, q_uploaded_bytes());
    push_decimal(&mut q, req.uploaded);
    push_word(&mut q, q_downloaded_bytes());
    push_decimal(&mut q, req.downloaded);
    push_word(&mut q, q_left_bytes());
    push_decimal(&mut q, req.left);
    push_word(&mut q, q_tail_bytes());
    match req.event {
        Event::Regular => {},
        Event::Started => push_word(&mut q, ev_started_bytes()),
        Event::Stopped => push_word(&mut q, ev_stopped_bytes()),
        Event::Completed => push_word(&mut q, ev_completed_bytes()),
    }
    proof {
        assert(q@ =~= announce_query(*req));
        lemma_digits_ascii(req.port as nat);
        lemma_digits_ascii(req.uploaded as nat);
        lemma_digits_ascii(req.downloaded as nat);
        lemma_digits_ascii(req.left as nat);
        assert(ascii(q_info_hash_key()));
        assert(ascii(q_peer_id_key()));
        assert(ascii(q_port_key()));
        assert(ascii(q_uploaded_key()));
        assert(ascii(q_downloaded_key()));
        assert(ascii(q_left_key()));
        assert(ascii(q_tail_key()));
        assert(ascii(event_suffix(req.event)));
        lemma_ascii_concat_all(*req);
    }
    let mut out: Vec<u8> = Vec::new();
    push_all(&mut out, b);
    out.push(if has_query {
        38u8
    } else {
        63u8
    });
    push_all(&mut out, q.as_slice());
    proof {
        let sep = seq![if b@.contains(63u8) { 38u8 } else { 63u8 }];
        assert(out@ =~= b@ + sep + q@);
        vstd::utf8::encode_utf8_valid_utf8(base@);
        lemma_ascii_concat(sep, q@);
        lemma_ascii_valid(sep + q@);
        vstd::utf8::valid_utf8_concat(b@, sep + q@);
        assert(b@ + (sep + q@) =~= out@);
    }
    match string_from_utf8(out) {
        Some(s) => Ok(s),
        None => Err(Error::BadResponse),
    }
}

proof fn lemma_index_of_contains(s: Seq<u8>, c: u8)
    ensures
        crate::wire::index_of(s, c) is Some <==> s.contains(c),
    decreases s.len(),
{
    if s.len() > 0 {
        let t = s.subrange(1, s.len() as int);
        lemma_index_of_contains(t, c);
        if s.contains(c) && s[0] != c {
            let i = choose|i: int| 0 <= i < s.len() && s[i] == c;
            assert(t[i - 1] == c);
        }
        if t.contains(c) {
            let i = choose|i: int| 0 <= i < t.len() && t[i] == c;
            assert(s[i + 1] == c);
        }
    }
}

proof fn lemma_ascii_concat_all(req: AnnounceRequest)
    requires
        ascii(q_info_hash_key()),
        ascii(q_peer_id_key()),
        ascii(q_port_key()),
        ascii(q_uploaded_key()),
        ascii(q_downloaded_key()),
        ascii(q_left_key()),
        ascii(q_tail_key()),
        ascii(event_suffix(req.event)),
        ascii(escaped(req.info_hash.0@)),
        ascii(escaped(req.peer_id@)),
        ascii(digit_seq(req.port as nat)),
        ascii(digit_seq(req.uploaded as nat)),
        ascii(digit_seq(req.downloaded as nat)),
        ascii(digit_seq(req.left as nat)),
    ensures
        ascii(announce_query(req)),
{
    let s1 = q_info_hash_key() + escaped(req.info_hash.0@);
    lemma_ascii_concat(q_info_hash_key(), escaped(req.info_hash.0@));
    let s2 = s1 + q_peer_id_key();
    lemma_ascii_concat(s1, q_peer_id_key());
    let s3 = s2 + escaped(req.peer_id@);
    lemma_ascii_concat(s2, escaped(req.peer_id@));
    let s4 = s3 + q_port_key();
    lemma_ascii_concat(s3, q_port_key());
    let s5 = s4 + digit_seq(req.port as nat);
    lemma_ascii_concat(s4, digit_seq(req.port as nat));
    let s6 = s5 + q_uploaded_key();
    lemma_ascii_concat(s5, q_uploaded_key());
    let s7 = s6 + digit_seq(req.uploaded as nat);
    lemma_ascii_concat(s6, digit_seq(req.uploaded as nat));
    let s8 = s7 + q_downloaded_key();
    lemma_ascii_concat(s7, q_downloaded_key());
    let s9 = s8 + digit_seq(req.downloaded as nat);
    lemma_ascii_concat(s8, digit_seq(req.downloaded as nat));
    let s10 = s9 + q_left_key();
    lemma_ascii_concat(s9, q_left_key());
    let s11 = s10 + digit_seq(req.left as nat);
    lemma_ascii_concat(s10, digit_seq(req.left as nat));
    let s12 = s11 + q_tail_key();
    lemma_ascii_concat(s11, q_tail_key());
    lemma_ascii_concat(s12, event_suffix(req.event));
}

// ---------------------------------------------------------------------
// The response

/// A peer as a tracker response gives it.
pub enum PeerView {
    Ipv4(Seq<u8>, u16),
    Ipv6(Seq<u8>, u16),
    Host(Seq<u8>, u16),
}

/// The length of one entry of a compact peer list: an IPv4 address and a
/// port, or an IPv6 address and a port.
pub open spec fn entry_len(wide: bool) -> int {
    if wide {
        18
    } else {
        6
    }
}

/// The peers of a compact list, address and port each, leaving out port 0.
pub open spec fn compact_peers(raw: Seq<u8>, wide: bool) -> Seq<PeerView>
    decreases raw.len(),
{
    let n = entry_len(wide);
    if raw.len() < n {
        Seq::empty()
    } else {
        let head = raw.subrange(0, n);
        let port = be_value(head.subrange(n - 2, n)) as u16;
        let rest = compact_peers(raw.subrange(n, raw.len() as int), wide);
        if port == 0 {
            rest
        } else {
            seq![
                if wide {
                    PeerView::Ipv6(head.subrange(0, 16), port)
                } else {
                    PeerView::Ipv4(head.subrange(0, 4), port)
                },
            ] + rest
        }
    }
}

/// The entries of a compact peer list: chunks of `entry_len(wide)` bytes,
/// in order, leaving out a short tail.
pub open spec fn peer_chunks(raw: Seq<u8>, wide: bool) -> Seq<Seq<u8>> {
    let n = entry_len(wide);
    Seq::new(((raw.len() as int) / n) as nat, |k: int| raw.subrange(n * k, n * k + n))
}

/// The peer a compact entry names: its address and the port in its last
/// two bytes, big-endian; none when the port is zero.
pub open spec fn compact_entry(c: Seq<u8>, wide: bool) -> Option<PeerView> {
    let n = entry_len(wide);
    let port = be_value(c.subrange(n - 2, n));
    if port == 0 {
        None
    } else if wide {
        Some(PeerView::Ipv6(c.subrange(0, 16), port as u16))
    } else {
        Some(PeerView::Ipv4(c.subrange(0, 4), port as u16))
    }
}

/// A compact peer list keeps every entry whose port is not zero, in
/// order: the first four bytes of six as an IPv4 address, or the first 16
/// of 18 as an IPv6 address, with the port from the last two.
pub proof fn law_compact_peers_keep_every_peer(raw: Seq<u8>, wide: bool)
    ensures
        compact_peers(raw, wide) == peer_chunks(raw, wide).filter_map(|c: Seq<u8>| compact_entry(c, wide)),
    decreases raw.len(),
{
    let n = entry_len(wide);
    let f = |c: Seq<u8>| compact_entry(c, wide);
    if raw.len() < n {
        assert(((raw.len() as int) / n) as nat == 0);
        assert(peer_chunks(raw, wide) =~= Seq::<Seq<u8>>::empty());
        assert(peer_chunks(raw, wide).filter_map(f) =~= Seq::<PeerView>::empty());
    } else {
        let sub = raw.subrange(n, raw.len() as int);
        law_compact_peers_keep_every_peer(sub, wide);
        let c0 = raw.subrange(0, n);
        assert(((raw.len() as int) / n) as nat == ((sub.len() as int) / n) as nat + 1);
        assert forall|k: int| 0 <= k < peer_chunks(sub, wide).len() implies peer_chunks(raw, wide)[k + 1]
            == peer_chunks(sub, wide)[k] by {
            assert(n * (k + 1) == n * k + n);
            assert(peer_chunks(raw, wide)[k + 1] =~= peer_chunks(sub, wide)[k]);
        }
        assert(peer_chunks(raw, wide) =~= seq![c0] + peer_chunks(sub, wide)) by {
            assert(peer_chunks(raw, wide)[0] =~= c0);
        }
        crate::wire::lemma_filter_map_concat(seq![c0], peer_chunks(sub, wide), f);
        Seq::lemma_filter_map_singleton(c0, f);
        crate::wire::lemma_be_value_bound(c0.subrange(n - 2, n));
        crate::wire::lemma_pow256_values();
        assert(compact_peers(raw, wide) =~= peer_chunks(raw, wide).filter_map(f));
    }
}

/// A peer list in dictionary form keeps every usable entry, in order.
pub proof fn law_dict_peers_keep_every_peer(items: Seq<Bencode>)
    ensures
        dict_peers(items) == items.filter_map(|v: Bencode| dict_peer(v)),
    decreases items.len(),
{
    if items.len() > 0 {
        law_dict_peers_keep_every_peer(items.drop_last());
        assert(dict_peers(items) =~= items.filter_map(|v: Bencode| dict_peer(v)));
    }
}

/// One entry of a peer list in dictionary form: its `ip` as text and its
/// `port` from 1 to 65535.
pub open spec fn dict_peer(v: Bencode) -> Option<PeerView> {
    match v {
        Bencode::Dict(map) => match (bytes_at(map, ip_key()), int_at(map, port_key())) {
            (Some(ip), Some(port)) => if valid_utf8(ip) && 0 < port <= 65535 {
                Some(PeerView::Host(ip, port as u16))
            } else {
                None
            },
            _ => None,
        },
        _ => None,
    }
}

/// The usable entries of a peer list in dictionary form, in order.
pub open spec fn dict_peers(items: Seq<Bencode>) -> Seq<PeerView>
    decreases items.len(),
{
    if items.len() == 0 {
        Seq::empty()
    } else {
        let rest = dict_peers(items.drop_last());
        match dict_peer(items.last()) {
            Some(p) => rest.push(p),
            None => rest,
        }
    }
}

/// The announce interval: positive if given, 1800 seconds if not; `None`
/// when it is given wrongly.
pub open spec fn interval_of(top: Seq<(Seq<u8>, Bencode)>) -> Option<u32> {
    match lookup(top, interval_key()) {
        Some(Bencode::Int(n)) => if n > 0 {
            Some(n as u32)
        } else {
            None
        },
        Some(_) => None,
        None => Some(1800),
    }
}

/// The IPv4 peers under `peers`: a compact list or a list of dictionaries;
/// none when the key is absent, `None` when it is malformed.
pub open spec fn v4_peers(entry: Option<Bencode>) -> Option<Seq<PeerView>> {
    match entry {
        Some(Bencode::Bytes(raw)) => if raw.len() % 6 == 0 {
            Some(compact_peers(raw, false))
        } else {
            None
        },
        Some(Bencode::List(items)) => Some(dict_peers(items)),
        Some(_) => None,
        None => Some(Seq::empty()),
    }
}

/// The IPv6 peers under `peers6`: a compact list; none when the key is
/// absent, `None` when it is malformed.
pub open spec fn v6_peers(entry: Option<Bencode>) -> Option<Seq<PeerView>> {
    match entry {
        Some(Bencode::Bytes(raw)) => if raw.len() % 18 == 0 {
            Some(compact_peers(raw, true))
        } else {
            None
        },
        Some(_) => None,
        None => Some(Seq::empty()),
    }
}

/// The peers of a response, IPv4 before IPv6; `None` when both keys are
/// missing or either is malformed.
pub open spec fn peers_of(top: Seq<(Seq<u8>, Bencode)>) -> Option<Seq<PeerView>> {
    let p4 = lookup(top, peers_key());
    let p6 = lookup(top, peers6_key());
    if p4 is None && p6 is None {
        None
    } else {
        match (v4_peers(p4), v6_peers(p6)) {
            (Some(a), Some(b)) => Some(a + b),
            _ => None,
        }
    }
}

/// An exec peer holds what `v` says.
pub open spec fn peer_matches(p: PeerAddr, v: PeerView) -> bool {
    match (p, v) {
        (PeerAddr::Ipv4(a, port), PeerView::Ipv4(b, port2)) => a@ == b && port == port2,
        (PeerAddr::Ipv6(a, port), PeerView::Ipv6(b, port2)) => a@ == b && port == port2,
        (PeerAddr::Host(h, port), PeerView::Host(b, port2)) => h@ == decode_utf8(b) && port == port2,
        _ => false,
    }
}

pub open spec fn peers_match(ps: Seq<PeerAddr>, vs: Seq<PeerView>) -> bool {
    ps.len() == vs.len() && forall|i: int| 0 <= i < vs.len() ==> #[trigger] peer_matches(ps[i], vs[i])
}

/// Reads a compact peer list of IPv4 entries, or of IPv6 entries where
/// `wide` holds.
pub(crate) fn parse_compact_peers(raw: &[u8], wide: bool) -> (r: Result<Vec<PeerAddr>, Error>)
    ensures
        match r {
            Ok(ps) => (raw@.len() as int) % entry_len(wide) == 0 && peers_match(ps@, compact_peers(raw@, wide)),
            Err(e) => (raw@.len() as int) % entry_len(wide) != 0 && e == Error::BadResponse,
        },
{
    let n: usize = if wide {
        18
    } else {
        6
    };
    if raw.len() % n != 0 {
        return Err(Error::BadResponse);
    }
    let mut out: Vec<PeerAddr> = Vec::new();
    let ghost mut acc: Seq<PeerView> = Seq::empty();
    let mut i: usize = 0;
    proof {
        assert(raw@.subrange(0, raw@.len() as int) =~= raw@);
        assert(Seq::<PeerView>::empty() + compact_peers(raw@, wide) =~= compact_peers(raw@, wide));
    }
    while i < raw.len()
        invariant
            n == entry_len(wide),
            i <= raw@.len(),
            raw@.len() % (n as nat) == 0,
            i % n == 0,
            compact_peers(raw@, wide) == acc + compact_peers(raw@.subrange(i as int, raw@.len() as int), wide),
            peers_match(out@, acc),
        decreases raw.len() - i,
    {
        let ghost rest = raw@.subrange(i as int, raw@.len() as int);
        assert(i + n <= raw.len()) by (nonlinear_arith)
            requires
                i < raw.len(),
                i % n == 0,
                raw.len() % n == 0,
                n > 0,
        ;
        let port = read_u16_be(raw, i + n - 2);
        proof {
            assert(rest.subrange(0, n as int).subrange(n - 2, n as int) =~= raw@.subrange(i + n - 2, i + n as int));
            assert(rest.subrange(n as int, rest.len() as int) =~= raw@.subrange(i + n, raw@.len() as int));
            crate::wire::lemma_be_value_bound(raw@.subrange(i + n - 2, i + n as int));
            crate::wire::lemma_pow256_values();
        }
        if port != 0 {
            let a = if wide {
                let ip: [u8; 16] = [
                    raw[i], raw[i + 1], raw[i + 2], raw[i + 3], raw[i + 4], raw[i + 5], raw[i + 6],
                    raw[i + 7], raw[i + 8], raw[i + 9], raw[i + 10], raw[i + 11], raw[i + 12],
                    raw[i + 13], raw[i + 14], raw[i + 15],
                ];
                proof {
                    assert(rest.subrange(0, n as int).subrange(0, 16) =~= ip@);
                }
                PeerAddr::Ipv6(ip, port)
            } else {
                let ip: [u8; 4] = [raw[i], raw[i + 1], raw[i + 2], raw[i + 3]];
                proof {
                    assert(rest.subrange(0, n as int).subrange(0, 4) =~= ip@);
                }
                PeerAddr::Ipv4(ip, port)
            };
            out.push(a);
            proof {
                let head = rest.subrange(0, n as int);
                let v = if wide {
                    PeerView::Ipv6(head.subrange(0, 16), port)
                } else {
                    PeerView::Ipv4(head.subrange(0, 4), port)
                };
                assert(acc + (seq![v] + compact_peers(raw@.subrange(i + n, raw@.len() as int), wide)) =~= acc.push(v)
                    + compact_peers(raw@.subrange(i + n, raw@.len() as int), wide));
                acc = acc.push(v);
                assert(peer_matches(out@[out@.len() - 1], v));
            }
        }
        i = i + n;
    }
    proof {
        assert(raw@.subrange(i as int, raw@.len() as int) =~= Seq::<u8>::empty());
        assert(acc + Seq::<PeerView>::empty() =~= acc);
    }
    Ok(out)
}

fn parse_dict_peers(items: &Vec<Value>) -> (r: Vec<PeerAddr>)
    ensures
        peers_match(r@, dict_peers(items_model(items@))),
{
    let ghost im = items_model(items@);
    let mut out: Vec<PeerAddr> = Vec::new();
    let mut i: usize = 0;
    while i < items.len()
        invariant
            i <= items@.len(),
            im == items_model(items@),
            peers_match(out@, dict_peers(im.take(i as int))),
        decreases items.len() - i,
    {
        proof {
            assert(im.take(i + 1).drop_last() =~= im.take(i as int));
            assert(im.take(i + 1).last() == items@[i as int]@);
        }
        match &items[i] {
            Value::Dict(map) => {
                let ip = map.get_bytes(ip_bytes().as_slice());
                let port = map.get_int(port_bytes().as_slice());
                match (ip, port) {
                    (Some(ip), Some(port)) => {
                        if port > 0 && port <= 65535 {
                            match string_from_utf8(crate::wire::copy_all(ip.as_slice())) {
                                Some(host) => {
                                    out.push(PeerAddr::Host(host, port as u16));
                                },
                                None => {},
                            }
                        }
                    },
                    _ => {},
                }
            },
            _ => {},
        }
        i = i + 1;
    }
    proof {
        assert(im.take(items@.len() as int) =~= im);
    }
    out
}

/// Reads a tracker's announce response.
pub fn parse_response(body: &[u8]) -> (r: Result<AnnounceResponse, Error>)
    ensures
        match r {
            Ok(resp) => exists|top: Seq<(Seq<u8>, Bencode)>|
                decodes_to(body@, Bencode::Dict(top)) && bytes_at(top, failure_reason_key()) is None
                    && interval_of(top) == Some(resp.interval) && (peers_of(top) matches Some(ps)
                    && peers_match(resp.peers@, ps)),
            Err(Error::Failure(msg)) => exists|top: Seq<(Seq<u8>, Bencode)>|
                decodes_to(body@, Bencode::Dict(top)) && (bytes_at(top, failure_reason_key()) matches Some(
                    reason,
                ) && msg@ == lossy_text(reason)),
            Err(Error::BadResponse) => forall|top: Seq<(Seq<u8>, Bencode)>|
                decodes_to(body@, Bencode::Dict(top)) ==> bytes_at(top, failure_reason_key()) is None
                    && (interval_of(top) is None || peers_of(top) is None),
            Err(_) => false,
        },
{
    let top = match decode(body) {
        Ok(Value::Dict(map)) => map,
        Ok(other) => {
            proof {
                assert forall|top: Seq<(Seq<u8>, Bencode)>| !decodes_to(body@, Bencode::Dict(top)) by {
                    if decodes_to(body@, Bencode::Dict(top)) {
                        crate::bencode_spec::law_decoding_unique(body@, other@, Bencode::Dict(top));
                    }
                }
            }
            return Err(Error::BadResponse);
        },
        Err(_) => {
            return Err(Error::BadResponse);
        },
    };
    proof {
        assert(decodes_to(body@, Bencode::Dict(top@)));
        assert forall|t: Seq<(Seq<u8>, Bencode)>| #[trigger] decodes_to(body@, Bencode::Dict(t)) implies t
            == top@ by {
            crate::bencode_spec::law_decoding_unique(body@, Bencode::Dict(t), Bencode::Dict(top@));
        }
    }
    if let Some(reason) = top.get_bytes(failure_reason_bytes().as_slice()) {
        return Err(Error::Failure(lossy_string(reason.as_slice())));
    }
    let interval: u32 = match top.get(interval_bytes().as_slice()) {
        Some(Value::Int(n)) => if *n > 0 {
            *n as u32
        } else {
            return Err(Error::BadResponse);
        },
        Some(_) => {
            return Err(Error::BadResponse);
        },
        None => 1800,
    };
    let p4 = top.get(peers_bytes().as_slice());
    let p6 = top.get(peers6_bytes().as_slice());
    if p4.is_none() && p6.is_none() {
        return Err(Error::BadResponse);
    }
    let mut peers = match p4 {
        Some(Value::Bytes(raw)) => parse_compact_peers(raw.as_slice(), false)?,
        Some(Value::List(items)) => {
            proof {
                assert(Value::List(*items)@->List_0 =~= items_model(items@));
            }
            parse_dict_peers(items)
        },
        Some(_) => {
            return Err(Error::BadResponse);
        },
        None => Vec::new(),
    };
    let mut wide = match p6 {
        Some(Value::Bytes(raw)) => parse_compact_peers(raw.as_slice(), true)?,
        Some(_) => {
            return Err(Error::BadResponse);
        },
        None => Vec::new(),
    };
    let ghost first = peers@;
    let ghost second = wide@;
    peers.append(&mut wide);
    proof {
        assert(peers@ == first + second);
        let a = v4_peers(lookup(top@, peers_key()))->Some_0;
        let b = v6_peers(lookup(top@, peers6_key()))->Some_0;
        assert forall|k: int| 0 <= k < (a + b).len() implies #[trigger] peer_matches(peers@[k], (a + b)[k]) by {
            if k < a.len() {
                assert(peers@[k] == first[k]);
            } else {
                assert(peers@[k] == second[k - a.len()]);
            }
        }
    }
    let resp = AnnounceResponse { interval, peers };
    proof {
        let t = top@;
        assert(decodes_to(body@, Bencode::Dict(t)) && bytes_at(t, failure_reason_key()) is None
            && interval_of(t) == Some(resp.interval) && (peers_of(t) matches Some(ps) && peers_match(
            resp.peers@,
            ps,
        )));
    }
    Ok(resp)
}

// ---------------------------------------------------------------------
// The HTTP reply

/// The first `\r\n\r\n` at or after `from`.
pub open spec fn blank_line_from(raw: Seq<u8>, from: int) -> Option<nat>
    decreases raw.len() - from,
{
    if from < 0 || from + 4 > raw.len() {
        None
    } else if raw[from] == 13 && raw[from + 1] == 10 && raw[from + 2] == 13 && raw[from + 3] == 10 {
        Some(from as nat)
    } else {
        blank_line_from(raw, from + 1)
    }
}

/// ASCII whitespace, as it separates the words of a status line.
pub open spec fn is_space(c: u8) -> bool {
    c == 32 || (9 <= c <= 13)
}

/// The first line of `s`, without a trailing carriage return.
pub open spec fn first_line(s: Seq<u8>) -> Seq<u8> {
    let line = match crate::wire::index_of(s, 10) {
        Some(i) => s.subrange(0, i as int),
        None => s,
    };
    if line.len() > 0 && line.last() == 13 {
        line.drop_last()
    } else {
        line
    }
}

/// The first position at or after `i` that is not whitespace.
pub open spec fn skip_space(s: Seq<u8>, i: int) -> int
    decreases s.len() - i,
{
    if 0 <= i < s.len() && is_space(s[i]) {
        skip_space(s, i + 1)
    } else {
        i
    }
}

/// The first position at or after `i` that is whitespace.
pub open spec fn word_end(s: Seq<u8>, i: int) -> int
    decreases s.len() - i,
{
    if 0 <= i < s.len() && !is_space(s[i]) {
        word_end(s, i + 1)
    } else {
        i
    }
}

/// The second whitespace-separated word of `s`.
pub open spec fn second_word(s: Seq<u8>) -> Option<Seq<u8>> {
    let a = skip_space(s, 0);
    let b = word_end(s, a);
    let c = skip_space(s, b);
    if a >= s.len() || c >= s.len() {
        None
    } else {
        Some(s.subrange(c, word_end(s, c)))
    }
}

/// The status code of an HTTP reply and where its body starts: the head
/// ends at the first blank line, must be UTF-8, and the code is the second
/// word of its first line.
pub open spec fn http_status(raw: Seq<u8>) -> Option<(u16, nat)> {
    match blank_line_from(raw, 0) {
        Some(e) => {
            let head = raw.subrange(0, e as int);
            if valid_utf8(head) {
                match second_word(first_line(head)) {
                    Some(w) => match crate::number::decimal_value(w) {
                        Some(v) => if v <= u16::MAX {
                            Some((v as u16, e + 4))
                        } else {
                            None
                        },
                        None => None,
                    },
                    None => None,
                }
            } else {
                None
            }
        },
        None => None,
    }
}

proof fn lemma_skip_space_bound(s: Seq<u8>, i: int)
    requires
        0 <= i <= s.len(),
    ensures
        i <= skip_space(s, i) <= s.len(),
        i <= word_end(s, i) <= s.len(),
    decreases s.len() - i,
{
    if i < s.len() {
        lemma_skip_space_bound(s, i + 1);
    }
}

fn find_blank_line(raw: &[u8]) -> (r: Option<usize>)
    ensures
        match r {
            Some(e) => blank_line_from(raw@, 0) == Some(e as nat) && e + 4 <= raw@.len(),
            None => blank_line_from(raw@, 0) is None,
        },
{
    let mut i: usize = 0;
    while raw.len() >= 4 && i <= raw.len() - 4
        invariant
            i <= raw@.len(),
            blank_line_from(raw@, 0) == blank_line_from(raw@, i as int),
        decreases raw.len() - i,
    {
        if raw[i] == 13u8 && raw[i + 1] == 10u8 && raw[i + 2] == 13u8 && raw[i + 3] == 10u8 {
            return Some(i);
        }
        i = i + 1;
    }
    None
}

fn skip_space_exec(s: &[u8], i: usize) -> (r: usize)
    requires
        i <= s@.len(),
    ensures
        r == skip_space(s@, i as int),
        i <= r <= s@.len(),
    decreases s@.len() - i,
{
    if i < s.len() && (s[i] == 32u8 || (9u8 <= s[i] && s[i] <= 13u8)) {
        skip_space_exec(s, i + 1)
    } else {
        i
    }
}

fn word_end_exec(s: &[u8], i: usize) -> (r: usize)
    requires
        i <= s@.len(),
    ensures
        r == word_end(s@, i as int),
        i <= r <= s@.len(),
    decreases s@.len() - i,
{
    if i < s.len() && !(s[i] == 32u8 || (9u8 <= s[i] && s[i] <= 13u8)) {
        word_end_exec(s, i + 1)
    } else {
        i
    }
}

/// The status code of an HTTP reply and the offset where its body starts.
pub fn split_http_response(raw: &[u8]) -> (r: Result<(u16, usize), Error>)
    ensures
        match r {
            Ok((status, start)) => http_status(raw@) == Some((status, start as nat)),
            Err(e) => e == Error::BadResponse && http_status(raw@) is None,
        },
{
    let header_end = match find_blank_line(raw) {
        Some(e) => e,
        None => {
            return Err(Error::BadResponse);
        },
    };
    let head = crate::wire::copy_range(raw, 0, header_end);
    let text = match string_from_utf8(crate::wire::copy_all(head.as_slice())) {
        Some(t) => t,
        None => {
            return Err(Error::BadResponse);
        },
    };
    let line_end = match crate::wire::find_from(head.as_slice(), 0, 10u8) {
        Some(k) => k,
        None => head.len(),
    };
    proof {
        assert(head@.subrange(0, head@.len() as int) =~= head@);
        if line_end == head.len() {
            assert(head@.subrange(0, line_end as int) =~= head@);
        }
    }
    let line_len = if line_end > 0 && head[line_end - 1] == 13u8 {
        line_end - 1
    } else {
        line_end
    };
    let line = crate::wire::copy_range(head.as_slice(), 0, line_len);
    proof {
        let l0 = head@.subrange(0, line_end as int);
        if line_end > 0 && head@[line_end - 1] == 13 {
            assert(l0.last() == 13);
            assert(line@ =~= l0.drop_last());
        } else {
            assert(line@ =~= l0);
        }
        assert(line@ == first_line(head@));
    }
    let a = skip_space_exec(line.as_slice(), 0);
    let b = word_end_exec(line.as_slice(), a);
    let c = skip_space_exec(line.as_slice(), b);
    if a >= line.len() || c >= line.len() {
        return Err(Error::BadResponse);
    }
    let d = word_end_exec(line.as_slice(), c);
    let word = crate::wire::copy_range(line.as_slice(), c, d);
    let status = match crate::number::parse_u16(word.as_slice()) {
        Some(v) => v,
        None => {
            return Err(Error::BadResponse);
        },
    };
    let total = raw.len();
    assert(header_end + 4 <= total);
    Ok((status, header_end + 4))
}

} // verus!
