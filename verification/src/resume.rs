//! The resume state of a download: which pieces of which torrent are
//! already on disk, as a small bencoded dictionary.
use vstd::prelude::*;
use vstd::utf8::{decode_utf8, encode_utf8};
use crate::bencode::{decode, encode, Dict, Value};
use crate::bencode_spec::{
    bytes_at, canonical, decodes_to, dict3, enc, fits, int_at, law_decoding_unique,
    law_encoding_decodes, lemma_lex_at, lemma_lookup_extensional, lemma_lookup_small, lex_lt, Bencode,
};
use crate::keys::{dot_resume_bytes, dot_resume_key, hash_bytes, hash_key, have_bytes, have_key, pieces_bytes, pieces_key};
use crate::metainfo::InfoHash;
use crate::pieces::{bit_at, byte_len, packs, Bitfield};
use crate::storage::join_bytes;
use crate::text::string_from_utf8;
use crate::wire::push_all;

verus! {

/// The name of the state file of the torrent `name`: hidden, with a
/// `.resume` suffix.
pub open spec fn state_file(name: Seq<u8>) -> Seq<u8> {
    seq![46u8] + name + dot_resume_key()
}

/// Where the resume state of the torrent `name` lives under `output_dir`.
pub fn state_path(output_dir: &str, name: &str) -> (r: String)
    ensures
        r@ == decode_utf8(join_bytes(encode_utf8(output_dir@), state_file(encode_utf8(name@)))),
{
    let mut file: Vec<u8> = Vec::new();
    file.push(46u8);
    push_all(&mut file, name.as_bytes());
    push_all(&mut file, dot_resume_bytes().as_slice());
    let mut out: Vec<u8> = Vec::new();
    push_all(&mut out, output_dir.as_bytes());
    let dir_len = out.len();
    if dir_len == 0 {
        push_all(&mut out, file.as_slice());
    } else if out[dir_len - 1] == 47u8 {
        push_all(&mut out, file.as_slice());
    } else {
        out.push(47u8);
        push_all(&mut out, file.as_slice());
    }
    proof {
        let d = encode_utf8(output_dir@);
        let f = state_file(encode_utf8(name@));
        assert(file@ =~= f);
        vstd::utf8::encode_utf8_valid_utf8(output_dir@);
        vstd::utf8::encode_utf8_valid_utf8(name@);
        let dot = seq![46u8];
        assert(dot_resume_key() =~= seq![46u8, 114, 101, 115, 117, 109, 101]);
        crate::text::lemma_ascii_valid(dot);
        crate::text::lemma_ascii_valid(dot_resume_key());
        vstd::utf8::valid_utf8_concat(dot, encode_utf8(name@));
        vstd::utf8::valid_utf8_concat(dot + encode_utf8(name@), dot_resume_key());
        crate::text::lemma_ascii_valid(seq![47u8]);
        if d.len() == 0 {
            assert(out@ =~= f);
        } else if d.last() == 47 {
            assert(out@ =~= d + f);
            vstd::utf8::valid_utf8_concat(d, f);
        } else {
            assert(out@ =~= d + seq![47u8] + f);
            vstd::utf8::valid_utf8_concat(d, seq![47u8]);
            vstd::utf8::valid_utf8_concat(d + seq![47u8], f);
        }
        assert(out@ == join_bytes(d, f));
    }
    match string_from_utf8(out) {
        Some(s) => s,
        None => String::new(),
    }
}

/// The state dictionary: the info hash, the packed bitfield and the number
/// of pieces.
pub open spec fn state_value(info_hash: Seq<u8>, packed: Seq<u8>, pieces: nat) -> Bencode {
    Bencode::Dict(
        dict3(hash_key(), Bencode::Bytes(info_hash), have_key(), Bencode::Bytes(packed), pieces_key(), Bencode::Int(pieces as int)),
    )
}

proof fn lemma_state_keys()
    ensures
        lex_lt(hash_key(), have_key()),
        lex_lt(have_key(), pieces_key()),
{
    assert(hash_key().subrange(0, 2) =~= have_key().subrange(0, 2));
    lemma_lex_at(hash_key(), have_key(), 2);
    crate::bencode_spec::lemma_lex_first_byte(have_key(), pieces_key());
}

/// The bytes of the resume state for `have` of the torrent `info_hash`.
pub fn encode_state(info_hash: InfoHash, have: &Bitfield) -> (out: Vec<u8>)
    ensures
        exists|packed: Seq<u8>|
            packs(packed, have@) && out@ == enc(state_value(info_hash.0@, packed, have@.len())),
{
    let bits = have.as_bytes();
    let mut top = Dict::new();
    top.insert(hash_bytes(), Value::Bytes(crate::wire::copy_all(&info_hash.0)));
    top.insert(have_bytes(), Value::Bytes(crate::wire::copy_all(bits)));
    top.insert(pieces_bytes(), Value::Int(have.pieces() as i64));
    proof {
        lemma_state_keys();
        let want = state_value(info_hash.0@, bits@, have@.len())->Dict_0;
        lemma_lookup_small(
            hash_key(),
            Bencode::Bytes(info_hash.0@),
            have_key(),
            Bencode::Bytes(bits@),
            pieces_key(),
            Bencode::Int(have@.len() as int),
        );
        lemma_lookup_extensional(top@, want);
    }
    encode(&Value::Dict(top))
}

/// A saved state loads back. The bytes that `encode_state` writes for
/// `have` of the torrent `hash` decode to one dictionary, which holds that
/// hash, that number of pieces and a packed bitfield of the right length
/// with no spare bit set, so `decode_state` with the same hash and count
/// finds a state; and the bitfield it unpacks from those bytes is `have`.
pub proof fn law_saved_state_loads(hash: Seq<u8>, packed: Seq<u8>, have: Seq<bool>)
    requires
        packs(packed, have),
        have.len() <= u32::MAX,
    ensures
        ({
            let top = state_value(hash, packed, have.len())->Dict_0;
            &&& decodes_to(enc(state_value(hash, packed, have.len())), Bencode::Dict(top))
            &&& bytes_at(top, hash_key()) == Some(hash)
            &&& int_at(top, pieces_key()) == Some(have.len() as int)
            &&& bytes_at(top, have_key()) == Some(packed)
            &&& packed.len() == byte_len(have.len())
            &&& forall|i: int| have.len() <= i < 8 * packed.len() ==> !#[trigger] bit_at(packed, i)
        }),
        forall|top: Seq<(Seq<u8>, Bencode)>, bits: Seq<u8>, b: Seq<bool>|
            #![trigger decodes_to(enc(state_value(hash, packed, have.len())), Bencode::Dict(top)), packs(bits, b)]
            decodes_to(enc(state_value(hash, packed, have.len())), Bencode::Dict(top))
                && bytes_at(top, have_key()) == Some(bits) && packs(bits, b) && b.len() == have.len()
                ==> b == have,
{
    let v = state_value(hash, packed, have.len());
    let top = v->Dict_0;
    lemma_state_keys();
    lemma_lookup_small(
        hash_key(),
        Bencode::Bytes(hash),
        have_key(),
        Bencode::Bytes(packed),
        pieces_key(),
        Bencode::Int(have.len() as int),
    );
    assert(top == dict3(hash_key(), Bencode::Bytes(hash), have_key(), Bencode::Bytes(packed), pieces_key(), Bencode::Int(have.len() as int)));
    assert(canonical(v)) by {
        reveal_with_fuel(canonical, 2);
        assert forall|i: int| 0 <= i < top.len() implies canonical(#[trigger] top[i].1) by {
            if i == 2 {
                assert(top[i].1 == Bencode::Int(have.len() as int));
            }
        }
    }
    assert(fits(v, 0)) by {
        reveal_with_fuel(fits, 2);
    }
    law_encoding_decodes(v);
    assert forall|t: Seq<(Seq<u8>, Bencode)>, bits: Seq<u8>, b: Seq<bool>|
        #![trigger decodes_to(enc(v), Bencode::Dict(t)), packs(bits, b)]
        decodes_to(enc(v), Bencode::Dict(t)) && bytes_at(t, have_key()) == Some(bits) && packs(bits, b)
            && b.len() == have.len() implies b == have by {
        law_decoding_unique(enc(v), Bencode::Dict(t), v);
        assert(bits == packed);
        assert forall|i: int| 0 <= i < b.len() implies b[i] == have[i] by {
            assert(bit_at(bits, i) == b[i]);
            assert(bit_at(packed, i) == have[i]);
        }
        assert(b =~= have);
    }
}

/// The bitfield that a resume state holds for the torrent `info_hash` of
/// `pieces` pieces: `None` unless the state is a dictionary of that hash,
/// that number of pieces and a well-formed bitfield of them.
pub fn decode_state(raw: &[u8], info_hash: InfoHash, pieces: u32) -> (r: Option<Bitfield>)
    ensures
        match r {
            Some(b) => exists|top: Seq<(Seq<u8>, Bencode)>|
                decodes_to(raw@, Bencode::Dict(top)) && bytes_at(top, hash_key()) == Some(info_hash.0@)
                    && int_at(top, pieces_key()) == Some(pieces as int) && (bytes_at(top, have_key())
                    matches Some(bits) && packs(bits, b@)) && b@.len() == pieces,
            None => forall|top: Seq<(Seq<u8>, Bencode)>|
                decodes_to(raw@, Bencode::Dict(top)) ==> !(bytes_at(top, hash_key()) == Some(info_hash.0@)
                    && int_at(top, pieces_key()) == Some(pieces as int) && (bytes_at(top, have_key())
                    matches Some(bits) && bits.len() == byte_len(pieces as nat) && (forall|i: int|
                    pieces <= i < 8 * bits.len() ==> !#[trigger] crate::pieces::bit_at(bits, i)))),
        },
{
    let top = match decode(raw) {
        Ok(Value::Dict(map)) => map,
        Ok(other) => {
            proof {
                assert forall|t: Seq<(Seq<u8>, Bencode)>| !decodes_to(raw@, Bencode::Dict(t)) by {
                    if decodes_to(raw@, Bencode::Dict(t)) {
                        crate::bencode_spec::law_decoding_unique(raw@, other@, Bencode::Dict(t));
                    }
                }
            }
            return None;
        },
        Err(_) => {
            return None;
        },
    };
    proof {
        assert forall|t: Seq<(Seq<u8>, Bencode)>| #[trigger] decodes_to(raw@, Bencode::Dict(t)) implies t
            == top@ by {
            crate::bencode_spec::law_decoding_unique(raw@, Bencode::Dict(t), Bencode::Dict(top@));
        }
    }
    match top.get_bytes(hash_bytes().as_slice()) {
        Some(h) => {
            if !crate::wire::bytes_eq(h.as_slice(), &info_hash.0) {
                return None;
            }
        },
        None => {
            return None;
        },
    }
    match top.get_int(pieces_bytes().as_slice()) {
        Some(n) => {
            if n != pieces as i64 {
                return None;
            }
        },
        None => {
            return None;
        },
    }
    match top.get_bytes(have_bytes().as_slice()) {
        Some(bits) => match Bitfield::from_bytes(bits.as_slice(), pieces) {
            Ok(b) => Some(b),
            Err(_) => None,
        },
        None => None,
    }
}

} // verus!
