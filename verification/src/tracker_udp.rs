//! UDP trackers: the connect and announce packets and their replies, and the
//! tracker's address in a `udp://` URL.
use vstd::prelude::*;
use vstd::utf8::{decode_utf8, encode_utf8, valid_utf8};
use crate::keys::{udp_scheme_bytes, udp_scheme_key};
use crate::magnet::starts;
use crate::number::{decimal_value, parse_u16};
use crate::text::{lemma_ascii_cut, lossy_string, string_from_utf8, text_of};
use crate::tracker::{
    compact_peers, entry_len, parse_compact_peers, peers_match, AnnounceRequest,
    AnnounceResponse, Error, Event,
};
use crate::wire::{be_bytes, be_value, index_of, push_all, push_be, read_be, read_u32_be};

verus! {

/// The magic number that opens a connect request.
pub const PROTOCOL_ID: u64 = 0x0417_2710_1980;

pub const ACTION_CONNECT: u32 = 0;

pub const ACTION_ANNOUNCE: u32 = 1;

pub const ACTION_ERROR: u32 = 3;

/// A connect request: the magic number, the connect action and the
/// transaction id.
pub open spec fn connect_packet(transaction_id: u32) -> Seq<u8> {
    be_bytes(PROTOCOL_ID as nat, 8) + be_bytes(ACTION_CONNECT as nat, 4) + be_bytes(
        transaction_id as nat,
        4,
    )
}

/// The number by which an announce names its event.
pub open spec fn event_code(e: Event) -> u32 {
    match e {
        Event::Regular => 0,
        Event::Completed => 1,
        Event::Started => 2,
        Event::Stopped => 3,
    }
}

/// An announce request: connection id, action, transaction id, info hash,
/// peer id, downloaded, left, uploaded, event, a zero address and key, the
/// default number of peers wanted (all ones) and the port.
pub open spec fn announce_packet(connection_id: u64, transaction_id: u32, req: AnnounceRequest) -> Seq<u8> {
    be_bytes(connection_id as nat, 8) + be_bytes(ACTION_ANNOUNCE as nat, 4) + be_bytes(
        transaction_id as nat,
        4,
    ) + req.info_hash.0@ + req.peer_id@ + be_bytes(req.downloaded as nat, 8) + be_bytes(
        req.left as nat,
        8,
    ) + be_bytes(req.uploaded as nat, 8) + be_bytes(event_code(req.event) as nat, 4) + be_bytes(
        0,
        8,
    ) + be_bytes(0xFFFF_FFFF, 4) + be_bytes(req.port as nat, 2)
}

/// The fields of the packets, at the offsets the UDP tracker protocol
/// gives them, big-endian: a connect request is the magic number
/// `0x41727101980`, action 0 and the transaction id; an announce is the
/// connection id, action 1, the transaction id, the info hash, the peer id,
/// downloaded, left and uploaded, the event (0 none, 1 completed, 2
/// started, 3 stopped), a zero address and key, -1 peers wanted and the
/// port, 98 bytes in all.
pub proof fn law_udp_packet_layout(connection_id: u64, transaction_id: u32, req: AnnounceRequest)
    ensures
        ({
            let c = connect_packet(transaction_id);
            &&& c.len() == 16
            &&& be_value(c.subrange(0, 8)) == 0x417_2710_1980
            &&& be_value(c.subrange(8, 12)) == 0
            &&& be_value(c.subrange(12, 16)) == transaction_id
        }),
        ({
            let p = announce_packet(connection_id, transaction_id, req);
            &&& p.len() == 98
            &&& be_value(p.subrange(0, 8)) == connection_id
            &&& be_value(p.subrange(8, 12)) == 1
            &&& be_value(p.subrange(12, 16)) == transaction_id
            &&& p.subrange(16, 36) == req.info_hash.0@
            &&& p.subrange(36, 56) == req.peer_id@
            &&& be_value(p.subrange(56, 64)) == req.downloaded
            &&& be_value(p.subrange(64, 72)) == req.left
            &&& be_value(p.subrange(72, 80)) == req.uploaded
            &&& be_value(p.subrange(80, 84)) == match req.event {
                Event::Regular => 0nat,
                Event::Completed => 1nat,
                Event::Started => 2nat,
                Event::Stopped => 3nat,
            }
            &&& be_value(p.subrange(84, 92)) == 0
            &&& be_value(p.subrange(92, 96)) == 0xFFFF_FFFF
            &&& be_value(p.subrange(96, 98)) == req.port
        }),
{
    crate::wire::lemma_pow256_values();
    let c = connect_packet(transaction_id);
    let m = be_bytes(PROTOCOL_ID as nat, 8);
    let a0 = be_bytes(ACTION_CONNECT as nat, 4);
    let t = be_bytes(transaction_id as nat, 4);
    crate::wire::lemma_be_bytes_len(PROTOCOL_ID as nat, 8);
    crate::wire::lemma_be_bytes_len(ACTION_CONNECT as nat, 4);
    crate::wire::lemma_be_bytes_len(transaction_id as nat, 4);
    crate::wire::lemma_be_round_trip(PROTOCOL_ID as nat, 8);
    crate::wire::lemma_be_round_trip(ACTION_CONNECT as nat, 4);
    crate::wire::lemma_be_round_trip(transaction_id as nat, 4);
    assert(c.subrange(0, 8) =~= m);
    assert(c.subrange(8, 12) =~= a0);
    assert(c.subrange(12, 16) =~= t);
    let p = announce_packet(connection_id, transaction_id, req);
    let f0 = be_bytes(connection_id as nat, 8);
    let f1 = be_bytes(ACTION_ANNOUNCE as nat, 4);
    let f2 = t;
    let f3 = req.info_hash.0@;
    let f4 = req.peer_id@;
    let f5 = be_bytes(req.downloaded as nat, 8);
    let f6 = be_bytes(req.left as nat, 8);
    let f7 = be_bytes(req.uploaded as nat, 8);
    let f8 = be_bytes(event_code(req.event) as nat, 4);
    let f9 = be_bytes(0, 8);
    let f10 = be_bytes(0xFFFF_FFFF, 4);
    let f11 = be_bytes(req.port as nat, 2);
    crate::wire::lemma_be_bytes_len(connection_id as nat, 8);
    crate::wire::lemma_be_bytes_len(ACTION_ANNOUNCE as nat, 4);
    crate::wire::lemma_be_bytes_len(req.downloaded as nat, 8);
    crate::wire::lemma_be_bytes_len(req.left as nat, 8);
    crate::wire::lemma_be_bytes_len(req.uploaded as nat, 8);
    crate::wire::lemma_be_bytes_len(event_code(req.event) as nat, 4);
    crate::wire::lemma_be_bytes_len(0, 8);
    crate::wire::lemma_be_bytes_len(0xFFFF_FFFF, 4);
    crate::wire::lemma_be_bytes_len(req.port as nat, 2);
    crate::wire::lemma_be_round_trip(connection_id as nat, 8);
    crate::wire::lemma_be_round_trip(ACTION_ANNOUNCE as nat, 4);
    crate::wire::lemma_be_round_trip(req.downloaded as nat, 8);
    crate::wire::lemma_be_round_trip(req.left as nat, 8);
    crate::wire::lemma_be_round_trip(req.uploaded as nat, 8);
    crate::wire::lemma_be_round_trip(event_code(req.event) as nat, 4);
    crate::wire::lemma_be_round_trip(0, 8);
    crate::wire::lemma_be_round_trip(0xFFFF_FFFF, 4);
    crate::wire::lemma_be_round_trip(req.port as nat, 2);
    assert(p == f0 + f1 + f2 + f3 + f4 + f5 + f6 + f7 + f8 + f9 + f10 + f11);
    assert(p.subrange(0, 8) =~= f0);
    assert(p.subrange(8, 12) =~= f1);
    assert(p.subrange(12, 16) =~= f2);
    assert(p.subrange(16, 36) =~= f3);
    assert(p.subrange(36, 56) =~= f4);
    assert(p.subrange(56, 64) =~= f5);
    assert(p.subrange(64, 72) =~= f6);
    assert(p.subrange(72, 80) =~= f7);
    assert(p.subrange(80, 84) =~= f8);
    assert(p.subrange(84, 92) =~= f9);
    assert(p.subrange(92, 96) =~= f10);
    assert(p.subrange(96, 98) =~= f11);
}

/// The action word of a reply.
pub open spec fn action_of(raw: Seq<u8>) -> nat {
    be_value(raw.subrange(0, 4))
}

/// The transaction word of a reply.
pub open spec fn txid_of(raw: Seq<u8>) -> nat {
    be_value(raw.subrange(4, 8))
}

/// A reply to `transaction_id` that reports an error.
pub open spec fn error_reply(raw: Seq<u8>, transaction_id: u32) -> bool {
    raw.len() >= 8 && txid_of(raw) == transaction_id && action_of(raw) == ACTION_ERROR
}

/// A reply to `transaction_id` for the action expected.
pub open spec fn reply_for(raw: Seq<u8>, expected: u32, transaction_id: u32) -> bool {
    raw.len() >= 8 && txid_of(raw) == transaction_id && action_of(raw) != ACTION_ERROR
        && action_of(raw) == expected
}

fn put_packet<const N: usize>(v: &Vec<u8>) -> (r: [u8; N])
    requires
        v@.len() == N,
    ensures
        r@ == v@,
{
    crate::wire::to_array(v)
}

/// The connect request with `transaction_id`.
pub fn build_connect(transaction_id: u32) -> (r: [u8; 16])
    ensures
        r@ == connect_packet(transaction_id),
{
    let mut out: Vec<u8> = Vec::new();
    push_be(&mut out, PROTOCOL_ID, 8);
    push_be(&mut out, ACTION_CONNECT as u64, 4);
    push_be(&mut out, transaction_id as u64, 4);
    proof {
        crate::wire::lemma_be_bytes_len(PROTOCOL_ID as nat, 8);
        crate::wire::lemma_be_bytes_len(ACTION_CONNECT as nat, 4);
        crate::wire::lemma_be_bytes_len(transaction_id as nat, 4);
        assert(out@ =~= connect_packet(transaction_id));
    }
    put_packet(&out)
}

/// Checks the header of a reply: long enough, for this transaction, and
/// not an error.
fn check_header(raw: &[u8], expected_action: u32, transaction_id: u32) -> (r: Result<(), Error>)
    requires
        expected_action != ACTION_ERROR,
    ensures
        match r {
            Ok(()) => reply_for(raw@, expected_action, transaction_id),
            Err(Error::Failure(msg)) => error_reply(raw@, transaction_id) && msg@ == text_of(
                raw@.subrange(8, raw@.len() as int),
            ),
            Err(Error::BadResponse) => !reply_for(raw@, expected_action, transaction_id)
                && !error_reply(raw@, transaction_id),
            Err(_) => false,
        },
{
    if raw.len() < 8 {
        return Err(Error::BadResponse);
    }
    let action = read_u32_be(raw, 0);
    let txid = read_u32_be(raw, 4);
    if txid != transaction_id {
        return Err(Error::BadResponse);
    }
    if action == ACTION_ERROR {
        let rest = crate::wire::copy_range(raw, 8, raw.len());
        return Err(Error::Failure(lossy_string(rest.as_slice())));
    }
    if action != expected_action {
        return Err(Error::BadResponse);
    }
    Ok(())
}

/// Reads the reply to a connect request: the connection id.
pub fn parse_connect(raw: &[u8], transaction_id: u32) -> (r: Result<u64, Error>)
    ensures
        match r {
            Ok(id) => reply_for(raw@, ACTION_CONNECT, transaction_id) && raw@.len() >= 16 && id
                == be_value(raw@.subrange(8, 16)),
            Err(Error::Failure(msg)) => error_reply(raw@, transaction_id) && msg@ == text_of(
                raw@.subrange(8, raw@.len() as int),
            ),
            Err(Error::BadResponse) => !(reply_for(raw@, ACTION_CONNECT, transaction_id) && raw@.len()
                >= 16) && !error_reply(raw@, transaction_id),
            Err(_) => false,
        },
{
    check_header(raw, ACTION_CONNECT, transaction_id)?;
    if raw.len() < 16 {
        return Err(Error::BadResponse);
    }
    Ok(read_be(raw, 8, 8))
}

/// The announce request for `req` over the connection `connection_id`.
pub fn build_announce(connection_id: u64, transaction_id: u32, request: &AnnounceRequest) -> (r: [u8; 98])
    ensures
        r@ == announce_packet(connection_id, transaction_id, *request),
{
    let mut out: Vec<u8> = Vec::new();
    push_be(&mut out, connection_id, 8);
    push_be(&mut out, ACTION_ANNOUNCE as u64, 4);
    push_be(&mut out, transaction_id as u64, 4);
    push_all(&mut out, &request.info_hash.0);
    push_all(&mut out, &request.peer_id);
    push_be(&mut out, request.downloaded, 8);
    push_be(&mut out, request.left, 8);
    push_be(&mut out, request.uploaded, 8);
    let event: u32 = match request.event {
        Event::Regular => 0,
        Event::Completed => 1,
        Event::Started => 2,
        Event::Stopped => 3,
    };
    push_be(&mut out, event as u64, 4);
    push_be(&mut out, 0, 8);
    push_be(&mut out, 0xFFFF_FFFF, 4);
    push_be(&mut out, request.port as u64, 2);
    proof {
        crate::wire::lemma_be_bytes_len(connection_id as nat, 8);
        crate::wire::lemma_be_bytes_len(ACTION_ANNOUNCE as nat, 4);
        crate::wire::lemma_be_bytes_len(transaction_id as nat, 4);
        crate::wire::lemma_be_bytes_len(request.downloaded as nat, 8);
        crate::wire::lemma_be_bytes_len(request.left as nat, 8);
        crate::wire::lemma_be_bytes_len(request.uploaded as nat, 8);
        crate::wire::lemma_be_bytes_len(event as nat, 4);
        crate::wire::lemma_be_bytes_len(0, 8);
        crate::wire::lemma_be_bytes_len(0xFFFF_FFFF, 4);
        crate::wire::lemma_be_bytes_len(request.port as nat, 2);
        assert(out@ =~= announce_packet(connection_id, transaction_id, *request));
    }
    put_packet(&out)
}

/// Reads the reply to an announce: the interval, then the peers as a
/// compact list of IPv4 entries, or of IPv6 entries where `wide` holds.
pub fn parse_announce(raw: &[u8], transaction_id: u32, wide: bool) -> (r: Result<AnnounceResponse, Error>)
    ensures
        match r {
            Ok(resp) => reply_for(raw@, ACTION_ANNOUNCE, transaction_id) && raw@.len() >= 20
                && resp.interval == be_value(raw@.subrange(8, 12)) && (raw@.len() - 20)
                % entry_len(wide) == 0 && peers_match(
                resp.peers@,
                compact_peers(raw@.subrange(20, raw@.len() as int), wide),
            ),
            Err(Error::Failure(msg)) => error_reply(raw@, transaction_id) && msg@ == text_of(
                raw@.subrange(8, raw@.len() as int),
            ),
            Err(Error::BadResponse) => !(reply_for(raw@, ACTION_ANNOUNCE, transaction_id) && raw@.len()
                >= 20 && (raw@.len() - 20) % entry_len(wide) == 0) && !error_reply(raw@, transaction_id),
            Err(_) => false,
        },
{
    check_header(raw, ACTION_ANNOUNCE, transaction_id)?;
    if raw.len() < 20 {
        return Err(Error::BadResponse);
    }
    let interval = read_u32_be(raw, 8);
    let rest = crate::wire::copy_range(raw, 20, raw.len());
    let peers = parse_compact_peers(rest.as_slice(), wide)?;
    Ok(AnnounceResponse { interval, peers })
}

// ---------------------------------------------------------------------
// The tracker's address

/// The last position of `c` in `s`.
pub open spec fn last_index_of(s: Seq<u8>, c: u8) -> Option<nat>
    decreases s.len(),
{
    if s.len() == 0 {
        None
    } else if s.last() == c {
        Some((s.len() - 1) as nat)
    } else {
        last_index_of(s.drop_last(), c)
    }
}

/// The authority of a `udp://` URL: what follows the scheme, up to the first
/// `/`.
pub open spec fn udp_authority(url: Seq<u8>) -> Seq<u8> {
    let rest = url.subrange(6, url.len() as int);
    match index_of(rest, 47) {
        Some(i) => rest.subrange(0, i as int),
        None => rest,
    }
}

/// A host without the brackets that an IPv6 address stands in.
pub open spec fn unbracket(h: Seq<u8>) -> Seq<u8> {
    if h.len() >= 2 && h[0] == 91 && h.last() == 93 {
        h.subrange(1, h.len() - 1)
    } else {
        h
    }
}

/// The host and port of a `udp://` URL: the authority split at its last
/// `:`, the port a decimal number up to 65535.
pub open spec fn udp_target(url: Seq<u8>) -> Option<(Seq<u8>, u16)> {
    if !starts(url, udp_scheme_key()) {
        None
    } else {
        let auth = udp_authority(url);
        match last_index_of(auth, 58) {
            Some(k) => match decimal_value(auth.subrange(k + 1int, auth.len() as int)) {
                Some(v) => if v <= 65535 {
                    Some((unbracket(auth.subrange(0, k as int)), v as u16))
                } else {
                    None
                },
                None => None,
            },
            None => None,
        }
    }
}

pub(crate) proof fn lemma_last_index_of(s: Seq<u8>, c: u8)
    ensures
        last_index_of(s, c) matches Some(k) ==> k < s.len() && s[k as int] == c,
        last_index_of(s, c) is None ==> forall|j: int| 0 <= j < s.len() ==> s[j] != c,
    decreases s.len(),
{
    if s.len() > 0 && s.last() != c {
        lemma_last_index_of(s.drop_last(), c);
        if last_index_of(s, c) is None {
            assert forall|j: int| 0 <= j < s.len() implies s[j] != c by {
                if j < s.len() - 1 {
                    assert(s.drop_last()[j] == s[j]);
                }
            }
        }
    }
}

pub(crate) fn rfind(s: &[u8], c: u8) -> (r: Option<usize>)
    ensures
        match r {
            Some(k) => last_index_of(s@, c) == Some(k as nat) && k < s@.len(),
            None => last_index_of(s@, c) is None,
        },
{
    let mut i: usize = s.len();
    proof {
        assert(s@.subrange(0, s@.len() as int) =~= s@);
    }
    while i > 0
        invariant
            i <= s@.len(),
            last_index_of(s@, c) == last_index_of(s@.subrange(0, i as int), c),
        decreases i,
    {
        if s[i - 1] == c {
            return Some(i - 1);
        }
        proof {
            assert(s@.subrange(0, i as int).drop_last() =~= s@.subrange(0, i - 1));
        }
        i = i - 1;
    }
    proof {
        assert(s@.subrange(0, 0) =~= Seq::<u8>::empty());
    }
    None
}

/// The host and port of a UDP tracker's URL.
#[verifier::spinoff_prover]
#[verifier::rlimit(30)]
pub fn udp_tracker_addr(url: &str) -> (r: Result<(String, u16), Error>)
    ensures
        match r {
            Ok((host, port)) => udp_target(encode_utf8(url@)) matches Some((h, p)) && host@
                == decode_utf8(h) && port == p,
            Err(Error::UnsupportedUrl(s)) => udp_target(encode_utf8(url@)) is None && s@ == url@,
            Err(_) => false,
        },
{
    let b = url.as_bytes();
    let ghost bs = b@;
    let scheme = udp_scheme_bytes();
    if !crate::wire::starts_with(b, scheme.as_slice()) {
        return Err(Error::UnsupportedUrl(url.to_owned()));
    }
    let ghost rest = bs.subrange(6, bs.len() as int);
    let end = match crate::wire::find_from(b, 6, 47u8) {
        Some(k) => k,
        None => b.len(),
    };
    proof {
        crate::magnet::lemma_index_of_bound(rest, 47u8);
        if end < b.len() {
            assert(bs.subrange(6, bs.len() as int) =~= rest);
        }
        assert(bs.subrange(6, bs.len() as int) =~= rest);
    }
    let auth = crate::wire::copy_range(b, 6, end);
    proof {
        assert(auth@ =~= udp_authority(bs));
    }
    let colon = match rfind(auth.as_slice(), 58u8) {
        Some(k) => k,
        None => {
            return Err(Error::UnsupportedUrl(url.to_owned()));
        },
    };
    let port_text = crate::wire::copy_range(auth.as_slice(), colon + 1, auth.len());
    let port = match parse_u16(port_text.as_slice()) {
        Some(p) => p,
        None => {
            return Err(Error::UnsupportedUrl(url.to_owned()));
        },
    };
    let (lo, hi) = if colon >= 2 && auth[0] == 91u8 && auth[colon - 1] == 93u8 {
        (1, colon - 1)
    } else {
        (0, colon)
    };
    let host_bytes = crate::wire::copy_range(auth.as_slice(), lo, hi);
    proof {
        lemma_last_index_of(auth@, 58u8);
        let h = auth@.subrange(0, colon as int);
        assert(host_bytes@ =~= unbracket(h));
        vstd::utf8::encode_utf8_valid_utf8(url@);
        assert(auth@ =~= bs.subrange(6, end as int));
        assert(bs[6 + colon as int] == 58u8);
        assert(bs.subrange(0, 6) == udp_scheme_key());
        assert forall|j: int| 0 <= j < 6 implies #[trigger] bs[j] < 128 by {
            assert(bs[j] == bs.subrange(0, 6)[j]);
        }
        crate::text::lemma_drop_ascii(bs, 6);
        let t = bs.subrange(6, bs.len() as int);
        assert(t[colon as int] == 58u8);
        if lo == 1 {
            assert(t[0] == 91u8);
            crate::text::lemma_drop_ascii(t, 1);
            let u = t.subrange(1, t.len() as int);
            assert(u[hi - 1] == t[hi as int]);
            lemma_ascii_cut(u, 0, hi - 1);
            assert(u.subrange(0, hi - 1) =~= host_bytes@);
        } else {
            lemma_ascii_cut(t, 0, hi as int);
            assert(t.subrange(0, hi as int) =~= host_bytes@);
        }
    }
    match string_from_utf8(host_bytes) {
        Some(host) => Ok((host, port)),
        None => Err(Error::UnsupportedUrl(url.to_owned())),
    }
}

} // verus!
