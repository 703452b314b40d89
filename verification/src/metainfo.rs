//! Torrent files: the info dictionary, its hash, the files and the trackers.
use vstd::prelude::*;
use vstd::utf8::{decode_utf8, valid_utf8};
use crate::bencode::{decode, encode, items_model, Dict, Value};
use crate::bencode_spec::{decodes_to, enc, lookup, Bencode};
use crate::bencode::Error as BencodeError;
use crate::keys::{
    announce_bytes, announce_key, announce_list_bytes, announce_list_key, files_bytes, files_key,
    info_bytes, info_key, length_bytes, length_key, name_bytes, name_key, path_bytes, path_key,
    piece_length_bytes, piece_length_key, pieces_bytes, pieces_key,
};
use crate::text::{hex_char, hex_char_of, hex_digit_value, hex_value, lemma_ascii_valid, string_from_utf8};
use crate::verify::{piece_digest, sha1_digest};

verus! {

/// The SHA-1 hash of a torrent's info dictionary.
#[derive(Debug, Clone, Copy, PartialEq, Eq, Hash)]
pub struct InfoHash(pub [u8; 20]);

/// The lowercase hexadecimal text of `bytes`, two digits per byte.
pub open spec fn hex_text(bytes: Seq<u8>) -> Seq<u8> {
    Seq::new(
        2 * bytes.len(),
        |i: int|
            if i % 2 == 0 {
                hex_char((bytes[i / 2] / 16) as nat)
            } else {
                hex_char((bytes[i / 2] % 16) as nat)
            },
    )
}

/// `text` is forty hexadecimal digits that spell `bytes`.
pub open spec fn spells_hex(text: Seq<u8>, bytes: Seq<u8>) -> bool {
    &&& text.len() == 40
    &&& bytes.len() == 20
    &&& forall|i: int|
        0 <= i < 20 ==> #[trigger] hex_value(text[2 * i]) is Some && hex_value(text[2 * i + 1]) is Some
            && bytes[i] == hex_value(text[2 * i])->0 * 16 + hex_value(text[2 * i + 1])->0
}

/// The hexadecimal text of twenty bytes reads back as those bytes and no
/// others, and is all digits and lowercase letters `a` to `f`; reading
/// accepts either case of a letter alike.
pub proof fn law_hex_round_trip(bytes: Seq<u8>)
    requires
        bytes.len() == 20,
    ensures
        spells_hex(hex_text(bytes), bytes),
        forall|other: Seq<u8>| #[trigger] spells_hex(hex_text(bytes), other) ==> other == bytes,
        forall|i: int|
            0 <= i < 40 ==> (48 <= #[trigger] hex_text(bytes)[i] <= 57 || 97 <= hex_text(bytes)[i] <= 102),
        forall|c: u8| 97 <= c <= 102 ==> #[trigger] hex_value(c) == hex_value((c - 32) as u8),
{
    let t = hex_text(bytes);
    assert forall|i: int| 0 <= i < 20 implies #[trigger] hex_value(t[2 * i]) is Some && hex_value(t[2 * i + 1]) is Some
        && bytes[i] == hex_value(t[2 * i])->0 * 16 + hex_value(t[2 * i + 1])->0 by {
        assert((2 * i) / 2 == i && (2 * i) % 2 == 0);
        assert((2 * i + 1) / 2 == i && (2 * i + 1) % 2 == 1);
        let hi = (bytes[i] / 16) as nat;
        let lo = (bytes[i] % 16) as nat;
        assert(hex_value(hex_char(hi)) == Some(hi));
        assert(hex_value(hex_char(lo)) == Some(lo));
    }
    assert forall|other: Seq<u8>| #[trigger] spells_hex(t, other) implies other == bytes by {
        assert forall|i: int| 0 <= i < 20 implies other[i] == bytes[i] by {
            assert(hex_value(t[2 * i]) is Some);
        }
        assert(other =~= bytes);
    }
    assert forall|i: int| 0 <= i < 40 implies (48 <= #[trigger] t[i] <= 57 || 97 <= t[i] <= 102) by {
        let v = if i % 2 == 0 { (bytes[i / 2] / 16) as nat } else { (bytes[i / 2] % 16) as nat };
        assert(t[i] == hex_char(v));
    }
}

/// `t` with its ASCII capitals made small.
pub open spec fn ascii_lower(t: Seq<u8>) -> Seq<u8> {
    Seq::new(t.len(), |i: int| if 65 <= t[i] <= 90 { (t[i] + 32) as u8 } else { t[i] })
}

/// Reading hexadecimal text does not depend on the case of its letters:
/// text spells bytes exactly when its small-letter form does.
pub proof fn law_hex_case_free(t: Seq<u8>, b: Seq<u8>)
    ensures
        spells_hex(t, b) <==> spells_hex(ascii_lower(t), b),
{
    let l = ascii_lower(t);
    assert forall|i: int| 0 <= i < t.len() implies #[trigger] hex_value(l[i]) == hex_value(t[i]) by {}
    if t.len() == 40 {
        if spells_hex(t, b) {
            assert forall|i: int| 0 <= i < 20 implies #[trigger] hex_value(l[2 * i]) is Some && hex_value(l[2 * i + 1]) is Some
                && b[i] == hex_value(l[2 * i])->0 * 16 + hex_value(l[2 * i + 1])->0 by {
                assert(hex_value(t[2 * i]) is Some);
                assert(hex_value(l[2 * i + 1]) == hex_value(t[2 * i + 1]));
            }
        }
        if spells_hex(l, b) {
            assert forall|i: int| 0 <= i < 20 implies #[trigger] hex_value(t[2 * i]) is Some && hex_value(t[2 * i + 1]) is Some
                && b[i] == hex_value(t[2 * i])->0 * 16 + hex_value(t[2 * i + 1])->0 by {
                assert(hex_value(l[2 * i]) is Some);
                assert(hex_value(l[2 * i + 1]) == hex_value(t[2 * i + 1]));
            }
        }
    }
}

impl InfoHash {
    /// Forty lowercase hexadecimal digits.
    pub fn to_hex(&self) -> (r: String)
        ensures
            r@ == decode_utf8(hex_text(self.0@)),
    {
        let mut out: Vec<u8> = Vec::new();
        let mut i: usize = 0;
        while i < 20
            invariant
                i <= 20,
                out@ == hex_text(self.0@.take(i as int)),
            decreases 20 - i,
        {
            let b = self.0[i];
            out.push(hex_char_of(b / 16));
            out.push(hex_char_of(b % 16));
            i = i + 1;
            proof {
                assert(out@ =~= hex_text(self.0@.take(i as int)));
            }
        }
        proof {
            assert(self.0@.take(20) =~= self.0@);
            assert forall|k: int| 0 <= k < out@.len() implies #[trigger] out@[k] < 128 by {
                assert(hex_text(self.0@)[k] == out@[k]);
            }
            lemma_ascii_valid(out@);
        }
        match string_from_utf8(out) {
            Some(s) => s,
            None => String::new(),
        }
    }

    /// Reads forty hexadecimal digits, either case.
    pub fn from_hex(text: &str) -> (r: Option<InfoHash>)
        ensures
            match r {
                Some(h) => spells_hex(vstd::utf8::encode_utf8(text@), h.0@),
                None => !exists|b: Seq<u8>| spells_hex(vstd::utf8::encode_utf8(text@), b),
            },
    {
        let bytes = text.as_bytes();
        let ghost t = bytes@;
        assert(t == vstd::utf8::encode_utf8(text@));
        if bytes.len() != 40 {
            return None;
        }
        let mut out = [0u8; 20];
        let mut i: usize = 0;
        while i < 20
            invariant
                i <= 20,
                bytes@ == t,
                t == vstd::utf8::encode_utf8(text@),
                t.len() == 40,
                out@.len() == 20,
                forall|k: int|
                    0 <= k < i ==> #[trigger] hex_value(t[2 * k]) is Some && hex_value(t[2 * k + 1]) is Some
                        && out@[k] == hex_value(t[2 * k])->0 * 16 + hex_value(t[2 * k + 1])->0,
            decreases 20 - i,
        {
            let hi = match hex_digit_value(bytes[2 * i]) {
                Some(v) => v,
                None => {
                    proof {
                        assert forall|b: Seq<u8>| !spells_hex(t, b) by {
                            if spells_hex(t, b) {
                                assert(hex_value(t[2 * (i as int)]) is Some);
                            }
                        }
                    }
                    return None;
                },
            };
            let lo = match hex_digit_value(bytes[2 * i + 1]) {
                Some(v) => v,
                None => {
                    proof {
                        assert forall|b: Seq<u8>| !spells_hex(t, b) by {
                            if spells_hex(t, b) {
                                assert(hex_value(t[2 * (i as int)]) is Some);
                                assert(hex_value(t[2 * (i as int) + 1]) is Some);
                            }
                        }
                    }
                    return None;
                },
            };
            out[i] = hi * 16 + lo;
            i = i + 1;
        }
        Some(InfoHash(out))
    }
}

// ---------------------------------------------------------------------
// Torrent files

#[derive(Debug, Clone, PartialEq, Eq)]
pub struct FileEntry {
    pub path: Vec<String>,
    pub length: u64,
}

#[derive(Debug, Clone, PartialEq, Eq)]
pub struct Metainfo {
    pub trackers: Vec<Vec<String>>,
    pub info_hash: InfoHash,
    pub name: String,
    pub piece_length: u64,
    pub pieces: Vec<[u8; 20]>,
    pub files: Vec<FileEntry>,
    pub total_length: u64,
}

#[derive(Debug, Clone, PartialEq, Eq)]
pub enum Error {
    Bencode(BencodeError),
    NotADict,
    MissingKey(&'static str),
    WrongType(&'static str),
    BadPieces,
    BadPath,
    BadName,
    BadLength,
    PieceCountMismatch,
    BothLengthAndFiles,
    NoFiles,
}

/// A file of a torrent as a mathematical value: its path components, as
/// UTF-8 bytes, and its length.
pub struct FileView {
    pub path: Seq<Seq<u8>>,
    pub length: nat,
}

/// What a torrent's info dictionary describes.
pub struct MetaView {
    pub hash: Seq<u8>,
    pub name: Seq<u8>,
    pub piece_length: nat,
    pub pieces: Seq<Seq<u8>>,
    pub files: Seq<FileView>,
    pub total: nat,
}

/// A path component that stays where it is put: not empty, not `.` or
/// `..`, and without `/`, `\` or NUL.
pub open spec fn component_ok(c: Seq<u8>) -> bool {
    &&& c.len() > 0
    &&& c != seq![46u8]
    &&& c != seq![46u8, 46]
    &&& forall|i: int| 0 <= i < c.len() ==> #[trigger] c[i] != 47 && c[i] != 92 && c[i] != 0
}

/// The byte string under `k`, or why there is none.
pub open spec fn required_bytes(d: Seq<(Seq<u8>, Bencode)>, k: Seq<u8>, name: &'static str) -> Result<Seq<u8>, Error> {
    match lookup(d, k) {
        Some(Bencode::Bytes(b)) => Ok(b),
        Some(_) => Err(Error::WrongType(name)),
        None => Err(Error::MissingKey(name)),
    }
}

/// The non-negative integer under `k`, or why there is none.
pub open spec fn required_u64(d: Seq<(Seq<u8>, Bencode)>, k: Seq<u8>, name: &'static str) -> Result<nat, Error> {
    match lookup(d, k) {
        Some(Bencode::Int(n)) => if n >= 0 {
            Ok(n as nat)
        } else {
            Err(Error::WrongType(name))
        },
        Some(_) => Err(Error::WrongType(name)),
        None => Err(Error::MissingKey(name)),
    }
}

/// The path components of a file, each UTF-8 and a safe component.
pub open spec fn path_components(items: Seq<Bencode>) -> Result<Seq<Seq<u8>>, Error>
    decreases items.len(),
{
    if items.len() == 0 {
        Ok(Seq::empty())
    } else {
        match items[0] {
            Bencode::Bytes(b) => if !valid_utf8(b) || !component_ok(b) {
                Err(Error::BadPath)
            } else {
                match path_components(items.subrange(1, items.len() as int)) {
                    Ok(r) => Ok(seq![b] + r),
                    Err(e) => Err(e),
                }
            },
            _ => Err(Error::WrongType("path component")),
        }
    }
}

/// One entry of the `files` list.
pub open spec fn file_entry(v: Bencode) -> Result<FileView, Error> {
    match v {
        Bencode::Dict(map) => match required_u64(map, length_key(), "length") {
            Err(e) => Err(e),
            Ok(len) => match lookup(map, path_key()) {
                None => Err(Error::MissingKey("path")),
                Some(Bencode::List(items)) => if items.len() == 0 {
                    Err(Error::BadPath)
                } else {
                    match path_components(items) {
                        Ok(p) => Ok(FileView { path: p, length: len }),
                        Err(e) => Err(e),
                    }
                },
                Some(_) => Err(Error::WrongType("path")),
            },
        },
        _ => Err(Error::WrongType("files entry")),
    }
}

/// The entries of the `files` list, in order; the first bad one stops.
pub open spec fn file_entries(items: Seq<Bencode>) -> Result<Seq<FileView>, Error>
    decreases items.len(),
{
    if items.len() == 0 {
        Ok(Seq::empty())
    } else {
        match file_entry(items[0]) {
            Err(e) => Err(e),
            Ok(f) => match file_entries(items.subrange(1, items.len() as int)) {
                Ok(r) => Ok(seq![f] + r),
                Err(e) => Err(e),
            },
        }
    }
}

/// The files of a torrent: one file of `length` bytes, or the `files` list.
pub open spec fn torrent_files(info: Seq<(Seq<u8>, Bencode)>) -> Result<Seq<FileView>, Error> {
    match (lookup(info, length_key()), lookup(info, files_key())) {
        (Some(_), Some(_)) => Err(Error::BothLengthAndFiles),
        (Some(Bencode::Int(n)), None) => if n > 0 {
            Ok(seq![FileView { path: Seq::empty(), length: n as nat }])
        } else {
            Err(Error::WrongType("length"))
        },
        (Some(_), None) => Err(Error::WrongType("length")),
        (None, Some(Bencode::List(items))) => if items.len() == 0 {
            Err(Error::NoFiles)
        } else {
            file_entries(items)
        },
        (None, Some(_)) => Err(Error::WrongType("files")),
        (None, None) => Err(Error::MissingKey("length")),
    }
}

/// The sum of the file lengths, as a 64-bit sum that wraps around.
pub open spec fn total_of(files: Seq<FileView>) -> nat
    decreases files.len(),
{
    if files.len() == 0 {
        0
    } else {
        ((total_of(files.drop_last()) + files.last().length) % 0x1_0000_0000_0000_0000) as nat
    }
}

/// The piece hashes: the `pieces` string cut into 20-byte pieces.
pub open spec fn hash_chunks(raw: Seq<u8>) -> Seq<Seq<u8>> {
    Seq::new(raw.len() / 20, |i: int| raw.subrange(20 * i, 20 * i + 20))
}

/// What an info dictionary describes, whose encoding is `info_bytes`.
pub open spec fn described(info: Seq<(Seq<u8>, Bencode)>, info_bytes: Seq<u8>) -> Result<MetaView, Error> {
    match required_bytes(info, name_key(), "name") {
        Err(e) => Err(e),
        Ok(name) => if !valid_utf8(name) {
            Err(Error::BadName)
        } else if !component_ok(name) {
            Err(Error::BadPath)
        } else {
            match required_u64(info, piece_length_key(), "piece length") {
                Err(e) => Err(e),
                Ok(pl) => if pl == 0 {
                    Err(Error::BadLength)
                } else {
                    match required_bytes(info, pieces_key(), "pieces") {
                        Err(e) => Err(e),
                        Ok(raw) => if raw.len() == 0 || raw.len() % 20 != 0 {
                            Err(Error::BadPieces)
                        } else {
                            match torrent_files(info) {
                                Err(e) => Err(e),
                                Ok(files) => {
                                    let total = total_of(files);
                                    if total == 0 {
                                        Err(Error::BadLength)
                                    } else if (total + pl - 1) / (pl as int) != raw.len() / 20 {
                                        Err(Error::PieceCountMismatch)
                                    } else {
                                        Ok(
                                            MetaView {
                                                hash: sha1_digest(info_bytes),
                                                name,
                                                piece_length: pl,
                                                pieces: hash_chunks(raw),
                                                files,
                                                total,
                                            },
                                        )
                                    }
                                },
                            }
                        },
                    }
                },
            }
        },
    }
}

/// An exec file entry holds what `v` says.
pub open spec fn file_matches(f: FileEntry, v: FileView) -> bool {
    &&& f.length == v.length
    &&& f.path@.len() == v.path.len()
    &&& forall|i: int| 0 <= i < v.path.len() ==> #[trigger] f.path@[i]@ == decode_utf8(v.path[i])
}

/// An exec torrent holds what `v` says.
pub open spec fn meta_matches(m: Metainfo, v: MetaView) -> bool {
    &&& m.info_hash.0@ == v.hash
    &&& m.name@ == decode_utf8(v.name)
    &&& m.piece_length == v.piece_length
    &&& m.pieces@.len() == v.pieces.len()
    &&& forall|i: int| 0 <= i < v.pieces.len() ==> #[trigger] m.pieces@[i]@ == v.pieces[i]
    &&& m.files@.len() == v.files.len()
    &&& forall|i: int| 0 <= i < v.files.len() ==> #[trigger] file_matches(m.files@[i], v.files[i])
    &&& m.total_length == v.total
}

/// The text of `bytes`, if they are UTF-8.
fn utf8(bytes: &[u8]) -> (r: Option<String>)
    ensures
        r is Some <==> valid_utf8(bytes@),
        r matches Some(s) ==> s@ == decode_utf8(bytes@),
{
    string_from_utf8(crate::wire::copy_all(bytes))
}

/// Refuses a path component that could leave the download directory.
fn check_component(component: &[u8]) -> (r: Result<(), Error>)
    ensures
        r is Ok <==> component_ok(component@),
        r matches Err(e) ==> e == Error::BadPath,
{
    let n = component.len();
    if n == 0 || (n == 1 && component[0] == 46u8) || (n == 2 && component[0] == 46u8 && component[1] == 46u8) {
        proof {
            if n == 1 {
                assert(component@ =~= seq![46u8]);
            }
            if n == 2 {
                assert(component@ =~= seq![46u8, 46]);
            }
        }
        return Err(Error::BadPath);
    }
    let mut i: usize = 0;
    while i < n
        invariant
            i <= n == component@.len(),
            forall|j: int| 0 <= j < i ==> #[trigger] component@[j] != 47 && component@[j] != 92 && component@[j] != 0,
        decreases n - i,
    {
        let c = component[i];
        if c == 47u8 || c == 92u8 || c == 0u8 {
            return Err(Error::BadPath);
        }
        i = i + 1;
    }
    proof {
        if component@ == seq![46u8] {
            assert(component@.len() == 1);
        }
        if component@ == seq![46u8, 46] {
            assert(component@.len() == 2);
        }
    }
    Ok(())
}

fn req_bytes<'a>(map: &'a Dict, key: &[u8], name: &'static str) -> (r: Result<&'a Vec<u8>, Error>)
    ensures
        match r {
            Ok(b) => required_bytes(map@, key@, name) == Ok::<Seq<u8>, Error>(b@),
            Err(e) => required_bytes(map@, key@, name) == Err::<Seq<u8>, Error>(e),
        },
{
    match map.get(key) {
        Some(Value::Bytes(b)) => Ok(b),
        Some(_) => Err(Error::WrongType(name)),
        None => Err(Error::MissingKey(name)),
    }
}

fn req_u64(map: &Dict, key: &[u8], name: &'static str) -> (r: Result<u64, Error>)
    ensures
        match r {
            Ok(n) => required_u64(map@, key@, name) == Ok::<nat, Error>(n as nat),
            Err(e) => required_u64(map@, key@, name) == Err::<nat, Error>(e),
        },
{
    match map.get(key) {
        Some(Value::Int(n)) => if *n >= 0 {
            Ok(*n as u64)
        } else {
            Err(Error::WrongType(name))
        },
        Some(_) => Err(Error::WrongType(name)),
        None => Err(Error::MissingKey(name)),
    }
}

fn parse_file_entry(value: &Value) -> (r: Result<FileEntry, Error>)
    ensures
        match r {
            Ok(f) => file_entry(value@) matches Ok(v) && file_matches(f, v),
            Err(e) => file_entry(value@) == Err::<FileView, Error>(e),
        },
{
    let map = match value {
        Value::Dict(map) => map,
        _ => {
            return Err(Error::WrongType("files entry"));
        },
    };
    let length = req_u64(map, length_bytes().as_slice(), "length")?;
    let items = match map.get(path_bytes().as_slice()) {
        Some(Value::List(items)) => items,
        Some(_) => {
            return Err(Error::WrongType("path"));
        },
        None => {
            return Err(Error::MissingKey("path"));
        },
    };
    let ghost im = Value::List(*items)@->List_0;
    if items.len() == 0 {
        return Err(Error::BadPath);
    }
    let mut path: Vec<String> = Vec::new();
    let mut i: usize = 0;
    proof {
        assert(im.subrange(0, im.len() as int) =~= im);
        assert(path_prefix(im.subrange(0, 0)) =~= Seq::<Seq<u8>>::empty());
        match path_components(im) {
            Ok(r) => {
                assert(Seq::<Seq<u8>>::empty() + r =~= r);
            },
            Err(e) => {},
        }
        assert(lookup(map@, path_key()) == Some(Bencode::List(im)));
    }
    while i < items.len()
        invariant
            i <= items@.len(),
            im.len() > 0,
            file_entry(value@) == match path_components(im) {
                Ok(p) => Ok::<FileView, Error>(FileView { path: p, length: length as nat }),
                Err(e) => Err(e),
            },
            im.len() == items@.len(),
            forall|j: int| 0 <= j < im.len() ==> #[trigger] im[j] == items@[j]@,
            path_components(im) == match path_components(im.subrange(i as int, im.len() as int)) {
                Ok(r) => Ok(path_prefix(im.subrange(0, i as int)) + r),
                Err(e) => Err(e),
            },
            path@.len() == i,
            forall|j: int| 0 <= j < i ==> #[trigger] path@[j]@ == decode_utf8(path_prefix(im.subrange(0, i as int))[j]),
            path_prefix(im.subrange(0, i as int)).len() == i,
        decreases items.len() - i,
    {
        let ghost rest = im.subrange(i as int, im.len() as int);
        proof {
            assert(rest[0] == im[i as int]);
            assert(rest.subrange(1, rest.len() as int) =~= im.subrange(i + 1, im.len() as int));
        }
        let b = match &items[i] {
            Value::Bytes(b) => b,
            _ => {
                return Err(Error::WrongType("path component"));
            },
        };
        let component = match utf8(b.as_slice()) {
            Some(c) => c,
            None => {
                return Err(Error::BadPath);
            },
        };
        check_component(b.as_slice())?;
        proof {
            lemma_path_prefix_push(im.subrange(0, i as int), b@);
            assert(im.subrange(0, i + 1) =~= im.subrange(0, i as int).push(Bencode::Bytes(b@)));
            match path_components(im.subrange(i + 1, im.len() as int)) {
                Ok(r) => {
                    assert(path_prefix(im.subrange(0, i as int)) + (seq![b@] + r) =~= path_prefix(
                        im.subrange(0, i as int),
                    ).push(b@) + r);
                },
                Err(e) => {},
            }
        }
        path.push(component);
        i = i + 1;
    }
    proof {
        assert(im.subrange(i as int, im.len() as int) =~= Seq::<Bencode>::empty());
        assert(im.subrange(0, i as int) =~= im);
        assert(path_prefix(im) + Seq::<Seq<u8>>::empty() =~= path_prefix(im));
    }
    Ok(FileEntry { path, length })
}

/// The byte strings of a list whose items are all byte strings.
pub open spec fn path_prefix(items: Seq<Bencode>) -> Seq<Seq<u8>> {
    Seq::new(items.len(), |i: int| items[i]->Bytes_0)
}

proof fn lemma_path_prefix_push(items: Seq<Bencode>, b: Seq<u8>)
    ensures
        path_prefix(items.push(Bencode::Bytes(b))) == path_prefix(items).push(b),
{
    assert(path_prefix(items.push(Bencode::Bytes(b))) =~= path_prefix(items).push(b));
}

fn parse_files(info: &Dict) -> (r: Result<Vec<FileEntry>, Error>)
    ensures
        match r {
            Ok(fs) => torrent_files(info@) matches Ok(v) && fs@.len() == v.len() && forall|i: int|
                0 <= i < v.len() ==> #[trigger] file_matches(fs@[i], v[i]),
            Err(e) => torrent_files(info@) == Err::<Seq<FileView>, Error>(e),
        },
{
    let length = info.get(length_bytes().as_slice());
    let files = info.get(files_bytes().as_slice());
    match (length, files) {
        (Some(_), Some(_)) => Err(Error::BothLengthAndFiles),
        (Some(Value::Int(n)), None) => {
            if *n > 0 {
                let mut out: Vec<FileEntry> = Vec::new();
                out.push(FileEntry { path: Vec::new(), length: *n as u64 });
                proof {
                    let v = seq![FileView { path: Seq::empty(), length: *n as nat }];
                    assert(file_matches(out@[0], v[0]));
                }
                Ok(out)
            } else {
                Err(Error::WrongType("length"))
            }
        },
        (Some(_), None) => Err(Error::WrongType("length")),
        (None, Some(Value::List(items))) => {
            let ghost im = Value::List(*items)@->List_0;
            if items.len() == 0 {
                return Err(Error::NoFiles);
            }
            let mut out: Vec<FileEntry> = Vec::new();
            let mut i: usize = 0;
            proof {
                assert(im.subrange(0, im.len() as int) =~= im);
                match file_entries(im) {
                    Ok(r) => {
                        assert(Seq::<FileView>::empty() + r =~= r);
                    },
                    Err(e) => {},
                }
            }
            let ghost mut done: Seq<FileView> = Seq::empty();
            while i < items.len()
                invariant
                    i <= items@.len(),
                    im.len() == items@.len(),
                    im.len() > 0,
                    torrent_files(info@) == file_entries(im),
                    forall|j: int| 0 <= j < im.len() ==> #[trigger] im[j] == items@[j]@,
                    file_entries(im) == match file_entries(im.subrange(i as int, im.len() as int)) {
                        Ok(r) => Ok(done + r),
                        Err(e) => Err(e),
                    },
                    out@.len() == i,
                    done.len() == i,
                    forall|j: int| 0 <= j < i ==> #[trigger] file_matches(out@[j], done[j]),
                decreases items.len() - i,
            {
                let ghost rest = im.subrange(i as int, im.len() as int);
                proof {
                    assert(rest[0] == im[i as int]);
                    assert(rest.subrange(1, rest.len() as int) =~= im.subrange(i + 1, im.len() as int));
                }
                let f = parse_file_entry(&items[i])?;
                proof {
                    let v = file_entry(im[i as int])->Ok_0;
                    match file_entries(im.subrange(i + 1, im.len() as int)) {
                        Ok(r) => {
                            assert(done + (seq![v] + r) =~= done.push(v) + r);
                        },
                        Err(e) => {},
                    }
                    done = done.push(v);
                }
                out.push(f);
                i = i + 1;
            }
            proof {
                assert(im.subrange(i as int, im.len() as int) =~= Seq::<Bencode>::empty());
                assert(done + Seq::<FileView>::empty() =~= done);
            }
            Ok(out)
        },
        (None, Some(_)) => Err(Error::WrongType("files")),
        (None, None) => Err(Error::MissingKey("length")),
    }
}

/// A tier keeps exactly the UTF-8 byte strings of its list, in their order:
/// what it holds is the list with every other item left out.
pub proof fn law_tier_keeps_every_url(urls: Seq<Bencode>)
    ensures
        tier_urls(urls) == urls.filter_map(
            |v: Bencode|
                match v {
                    Bencode::Bytes(b) => if valid_utf8(b) {
                        Some(b)
                    } else {
                        None
                    },
                    _ => None,
                },
        ),
        forall|k: int|
            0 <= k < urls.len() && (#[trigger] urls[k] matches Bencode::Bytes(b) && valid_utf8(b))
                ==> tier_urls(urls).contains(urls[k]->Bytes_0),
        forall|u: Seq<u8>| #[trigger]
            tier_urls(urls).contains(u) ==> valid_utf8(u) && urls.contains(Bencode::Bytes(u)),
    decreases urls.len(),
{
    if urls.len() > 0 {
        let init = urls.drop_last();
        law_tier_keeps_every_url(init);
        let rest = tier_urls(init);
        let t = tier_urls(urls);
        assert forall|k: int|
            0 <= k < urls.len() && (#[trigger] urls[k] matches Bencode::Bytes(b) && valid_utf8(b))
                implies t.contains(urls[k]->Bytes_0) by {
            if k < urls.len() - 1 {
                assert(init[k] == urls[k]);
                let j = choose|j: int| 0 <= j < rest.len() && rest[j] == urls[k]->Bytes_0;
                assert(t[j] == rest[j]);
            } else {
                assert(t[t.len() - 1] == urls[k]->Bytes_0);
            }
        }
        assert forall|u: Seq<u8>| #[trigger] t.contains(u) implies valid_utf8(u) && urls.contains(
            Bencode::Bytes(u),
        ) by {
            let j = choose|j: int| 0 <= j < t.len() && t[j] == u;
            if j < rest.len() {
                assert(rest[j] == u);
                assert(rest.contains(u));
                let k = choose|k: int| 0 <= k < init.len() && init[k] == Bencode::Bytes(u);
                assert(urls[k] == init[k]);
            } else {
                assert(urls[urls.len() - 1] == Bencode::Bytes(u));
            }
        }
        assert(tier_urls(urls) =~= urls.filter_map(
            |v: Bencode|
                match v {
                    Bencode::Bytes(b) => if valid_utf8(b) {
                        Some(b)
                    } else {
                        None
                    },
                    _ => None,
                },
        ));
    }
}

/// The tiers of `announce-list` are its lists in order, each with its
/// UTF-8 URLs, leaving out only items that are not lists and lists with no
/// usable URL.
pub proof fn law_tiers_keep_every_list(tiers: Seq<Bencode>)
    ensures
        tier_list(tiers) == tiers.filter_map(
            |t: Bencode|
                match t {
                    Bencode::List(urls) => if tier_urls(urls).len() > 0 {
                        Some(tier_urls(urls))
                    } else {
                        None
                    },
                    _ => None,
                },
        ),
    decreases tiers.len(),
{
    if tiers.len() > 0 {
        law_tiers_keep_every_list(tiers.drop_last());
        assert(tier_list(tiers) =~= tiers.filter_map(
            |t: Bencode|
                match t {
                    Bencode::List(urls) => if tier_urls(urls).len() > 0 {
                        Some(tier_urls(urls))
                    } else {
                        None
                    },
                    _ => None,
                },
        ));
    }
}

/// The tracker URLs of one tier: its byte strings that are UTF-8.
pub open spec fn tier_urls(urls: Seq<Bencode>) -> Seq<Seq<u8>>
    decreases urls.len(),
{
    if urls.len() == 0 {
        Seq::empty()
    } else {
        let rest = tier_urls(urls.drop_last());
        match urls.last() {
            Bencode::Bytes(b) => if valid_utf8(b) {
                rest.push(b)
            } else {
                rest
            },
            _ => rest,
        }
    }
}

/// The tiers of `announce-list`: each list with at least one usable URL.
pub open spec fn tier_list(tiers: Seq<Bencode>) -> Seq<Seq<Seq<u8>>>
    decreases tiers.len(),
{
    if tiers.len() == 0 {
        Seq::empty()
    } else {
        let rest = tier_list(tiers.drop_last());
        match tiers.last() {
            Bencode::List(urls) => if tier_urls(urls).len() > 0 {
                rest.push(tier_urls(urls))
            } else {
                rest
            },
            _ => rest,
        }
    }
}

/// The trackers of a torrent: the tiers of `announce-list` when there are
/// any, otherwise the one `announce` URL, otherwise none.
pub open spec fn tracker_tiers(top: Seq<(Seq<u8>, Bencode)>) -> Seq<Seq<Seq<u8>>> {
    let listed = match lookup(top, announce_list_key()) {
        Some(Bencode::List(tiers)) => tier_list(tiers),
        _ => Seq::empty(),
    };
    if listed.len() > 0 {
        listed
    } else {
        match lookup(top, announce_key()) {
            Some(Bencode::Bytes(b)) => if valid_utf8(b) {
                seq![seq![b]]
            } else {
                Seq::empty()
            },
            _ => Seq::empty(),
        }
    }
}

/// Exec tiers of URLs hold the texts of `v`.
pub open spec fn tiers_match(t: Seq<Vec<String>>, v: Seq<Seq<Seq<u8>>>) -> bool {
    &&& t.len() == v.len()
    &&& forall|i: int|
        0 <= i < v.len() ==> (#[trigger] t[i])@.len() == v[i].len() && forall|j: int|
            0 <= j < v[i].len() ==> #[trigger] t[i]@[j]@ == decode_utf8(v[i][j])
}

fn parse_tier(urls: &Vec<Value>) -> (r: Vec<String>)
    ensures
        r@.len() == tier_urls(items_model(urls@)).len(),
        forall|j: int| 0 <= j < r@.len() ==> #[trigger] r@[j]@ == decode_utf8(tier_urls(items_model(urls@))[j]),
{
    let ghost um = items_model(urls@);
    let mut out: Vec<String> = Vec::new();
    let mut i: usize = 0;
    while i < urls.len()
        invariant
            i <= urls@.len(),
            um == items_model(urls@),
            out@.len() == tier_urls(um.take(i as int)).len(),
            forall|j: int| 0 <= j < out@.len() ==> #[trigger] out@[j]@ == decode_utf8(tier_urls(um.take(i as int))[j]),
        decreases urls.len() - i,
    {
        proof {
            assert(um.take(i + 1).drop_last() =~= um.take(i as int));
            assert(um.take(i + 1).last() == urls@[i as int]@);
        }
        match &urls[i] {
            Value::Bytes(b) => {
                match utf8(b.as_slice()) {
                    Some(text) => {
                        out.push(text);
                    },
                    None => {},
                }
            },
            _ => {},
        }
        i = i + 1;
    }
    proof {
        assert(um.take(urls@.len() as int) =~= um);
    }
    out
}

/// The tracker tiers of a torrent's top-level dictionary.
fn parse_trackers(top: &Dict) -> (r: Vec<Vec<String>>)
    ensures
        tiers_match(r@, tracker_tiers(top@)),
{
    let mut parsed: Vec<Vec<String>> = Vec::new();
    let ghost mut listed: Seq<Seq<Seq<u8>>> = Seq::empty();
    match top.get(announce_list_bytes().as_slice()) {
        Some(Value::List(tiers)) => {
            let ghost tm = items_model(tiers@);
            proof {
                assert(Value::List(*tiers)@->List_0 =~= tm);
            }
            let mut i: usize = 0;
            while i < tiers.len()
                invariant
                    i <= tiers@.len(),
                    tm == items_model(tiers@),
                    listed == tier_list(tm.take(i as int)),
                    tiers_match(parsed@, listed),
                decreases tiers.len() - i,
            {
                proof {
                    assert(tm.take(i + 1).drop_last() =~= tm.take(i as int));
                    assert(tm.take(i + 1).last() == tiers@[i as int]@);
                }
                match &tiers[i] {
                    Value::List(urls) => {
                        let tier = parse_tier(urls);
                        proof {
                            assert(Value::List(*urls)@->List_0 =~= items_model(urls@));
                        }
                        if tier.len() > 0 {
                            proof {
                                listed = listed.push(tier_urls(items_model(urls@)));
                            }
                            parsed.push(tier);
                        }
                    },
                    _ => {},
                }
                i = i + 1;
            }
            proof {
                assert(tm.take(tiers@.len() as int) =~= tm);
            }
        },
        _ => {},
    }
    if parsed.len() > 0 {
        return parsed;
    }
    match top.get(announce_bytes().as_slice()) {
        Some(Value::Bytes(b)) => match utf8(b.as_slice()) {
            Some(url) => {
                let mut tier: Vec<String> = Vec::new();
                tier.push(url);
                let mut out: Vec<Vec<String>> = Vec::new();
                out.push(tier);
                proof {
                    assert(out@[0]@[0]@ == decode_utf8(b@));
                }
                out
            },
            None => Vec::new(),
        },
        _ => Vec::new(),
    }
}

proof fn lemma_div_ceil(t: nat, p: nat)
    requires
        p > 0,
    ensures
        (t + p - 1) / (p as int) == t / p + if t % p == 0 {
            0int
        } else {
            1int
        },
{
    let q = t / p;
    let r = t % p;
    assert(t == q * p + r && r < p) by (nonlinear_arith)
        requires
            p > 0,
            q == t / p,
            r == t % p,
    ;
    if r == 0 {
        assert((t + p - 1) / (p as int) == q) by (nonlinear_arith)
            requires
                t == q * p,
                p > 0,
        ;
    } else {
        assert((t + p - 1) / (p as int) == q + 1) by (nonlinear_arith)
            requires
                t == q * p + r,
                0 < r < p,
        ;
    }
}

/// The errors of reading a file list are about its contents, never about
/// decoding.
pub open spec fn content_error(e: Error) -> bool {
    !(e is Bencode) && !(e is NotADict)
}

proof fn lemma_path_errors(items: Seq<Bencode>)
    ensures
        path_components(items) matches Err(e) ==> content_error(e),
    decreases items.len(),
{
    if items.len() > 0 {
        lemma_path_errors(items.subrange(1, items.len() as int));
    }
}

proof fn lemma_file_errors(items: Seq<Bencode>)
    ensures
        file_entries(items) matches Err(e) ==> content_error(e),
    decreases items.len(),
{
    if items.len() > 0 {
        lemma_file_errors(items.subrange(1, items.len() as int));
        match items[0] {
            Bencode::Dict(map) => {
                match lookup(map, path_key()) {
                    Some(Bencode::List(ps)) => {
                        lemma_path_errors(ps);
                    },
                    _ => {},
                }
            },
            _ => {},
        }
    }
}

proof fn lemma_described_errors(info: Seq<(Seq<u8>, Bencode)>, info_bytes: Seq<u8>)
    ensures
        described(info, info_bytes) matches Err(e) ==> content_error(e),
{
    match lookup(info, files_key()) {
        Some(Bencode::List(items)) => {
            lemma_file_errors(items);
        },
        _ => {},
    }
}

/// Every component is UTF-8 and stays where it is put.
pub open spec fn components_safe(path: Seq<Seq<u8>>) -> bool {
    forall|j: int| 0 <= j < path.len() ==> valid_utf8(#[trigger] path[j]) && component_ok(path[j])
}

proof fn lemma_path_components_safe(items: Seq<Bencode>)
    ensures
        path_components(items) matches Ok(p) ==> p.len() == items.len() && components_safe(p),
    decreases items.len(),
{
    if items.len() > 0 {
        let rest = items.subrange(1, items.len() as int);
        lemma_path_components_safe(rest);
        if let Ok(p) = path_components(items) {
            if let Bencode::Bytes(b) = items[0] {
                if let Ok(r) = path_components(rest) {
                    assert(p == seq![b] + r);
                    assert forall|j: int| 0 <= j < p.len() implies valid_utf8(#[trigger] p[j]) && component_ok(p[j]) by {
                        if j > 0 {
                            assert(p[j] == r[j - 1]);
                        }
                    }
                }
            }
        }
    }
}

proof fn lemma_file_entries_safe(items: Seq<Bencode>)
    ensures
        file_entries(items) matches Ok(fs) ==> fs.len() == items.len() && forall|i: int|
            0 <= i < fs.len() ==> #[trigger] fs[i].path.len() > 0 && components_safe(fs[i].path),
    decreases items.len(),
{
    if items.len() > 0 {
        let rest = items.subrange(1, items.len() as int);
        lemma_file_entries_safe(rest);
        if let Ok(fs) = file_entries(items) {
            if let Ok(f) = file_entry(items[0]) {
                if let Ok(r) = file_entries(rest) {
                    if let Bencode::Dict(map) = items[0] {
                        if let Some(Bencode::List(ps)) = lookup(map, path_key()) {
                            lemma_path_components_safe(ps);
                        }
                    }
                    assert(fs == seq![f] + r);
                    assert forall|i: int| 0 <= i < fs.len() implies #[trigger] fs[i].path.len() > 0
                        && components_safe(fs[i].path) by {
                        if i > 0 {
                            assert(fs[i] == r[i - 1]);
                        }
                    }
                }
            }
        }
    }
}

/// What an accepted info dictionary describes is sound: pieces of positive
/// length, a positive total split into as many pieces as there are hashes,
/// the SHA-1 of the dictionary's encoding as its hash, and a name and
/// file paths that are UTF-8 and safe to join under a directory. A single
/// file has an empty path; every file of a list has a path of its own.
pub proof fn law_described_sound(info: Seq<(Seq<u8>, Bencode)>, info_bytes: Seq<u8>)
    ensures
        described(info, info_bytes) matches Ok(v) ==> {
            &&& v.piece_length > 0
            &&& v.total > 0
            &&& v.total == total_of(v.files)
            &&& v.pieces.len() == (v.total + v.piece_length - 1) / (v.piece_length as int)
            &&& forall|i: int| 0 <= i < v.pieces.len() ==> (#[trigger] v.pieces[i]).len() == 20
            &&& v.hash == sha1_digest(info_bytes)
            &&& valid_utf8(v.name) && component_ok(v.name)
            &&& v.files.len() > 0
            &&& forall|i: int| 0 <= i < v.files.len() ==> components_safe(#[trigger] v.files[i].path)
            &&& (lookup(info, length_key()) is Some ==> v.files.len() == 1 && v.files[0].path.len() == 0)
            &&& (lookup(info, length_key()) is None ==> forall|i: int|
                0 <= i < v.files.len() ==> (#[trigger] v.files[i]).path.len() > 0)
        },
{
    if let Ok(v) = described(info, info_bytes) {
        if let Some(Bencode::List(items)) = lookup(info, files_key()) {
            lemma_file_entries_safe(items);
        }
        assert forall|i: int| 0 <= i < v.pieces.len() implies (#[trigger] v.pieces[i]).len() == 20 by {}
        assert forall|i: int| 0 <= i < v.files.len() implies components_safe(#[trigger] v.files[i].path) by {
            if lookup(info, length_key()) is Some {
                assert(v.files[i].path.len() == 0);
            }
        }
    }
}

/// The info dictionary of a decoded torrent file, encoded again, decodes
/// to that same dictionary, and the torrent the file describes is what that
/// dictionary describes under its own encoding: metadata fetched by its hash
/// reads as the file's own.
pub proof fn law_info_dict_reproduces(input: Seq<u8>, top: Seq<(Seq<u8>, Bencode)>)
    requires
        decodes_to(input, Bencode::Dict(top)),
    ensures
        lookup(top, info_key()) matches Some(iv) ==> (iv matches Bencode::Dict(info) ==> decodes_to(enc(iv), iv)
            && torrent_of(top) == described(info, enc(iv))),
{
    crate::bencode_spec::lemma_lookup_some(top, info_key());
    if let Some(iv) = lookup(top, info_key()) {
        let i = choose|i: int| 0 <= i < top.len() && #[trigger] top[i].0 == info_key() && lookup(top, info_key()) == Some(top[i].1);
        assert(crate::bencode_spec::canonical(top[i].1));
        assert(crate::bencode_spec::fits(top[i].1, 1));
        crate::bencode_spec::lemma_fits_shallower(iv, 1, 0);
    }
}

/// Checks an info dictionary, whose encoding is `info_bytes`, and builds the
/// torrent it describes with the given trackers.
fn build(info: &Dict, info_bytes: &[u8], trackers: Vec<Vec<String>>) -> (r: Result<Metainfo, Error>)
    ensures
        match r {
            Ok(m) => described(info@, info_bytes@) matches Ok(v) && meta_matches(m, v) && m.trackers@
                == trackers@,
            Err(e) => described(info@, info_bytes@) == Err::<MetaView, Error>(e),
        },
{
    let hash = piece_digest(info_bytes);
    let name_raw = req_bytes(info, name_bytes().as_slice(), "name")?;
    let name = match utf8(name_raw.as_slice()) {
        Some(n) => n,
        None => {
            return Err(Error::BadName);
        },
    };
    check_component(name_raw.as_slice())?;
    let piece_length = req_u64(info, piece_length_bytes().as_slice(), "piece length")?;
    if piece_length == 0 {
        return Err(Error::BadLength);
    }
    let pieces_raw = req_bytes(info, pieces_bytes().as_slice(), "pieces")?;
    if pieces_raw.len() == 0 || pieces_raw.len() % 20 != 0 {
        return Err(Error::BadPieces);
    }
    let mut pieces: Vec<[u8; 20]> = Vec::new();
    let count = pieces_raw.len() / 20;
    let mut k: usize = 0;
    while k < count
        invariant
            k <= count,
            count == pieces_raw@.len() / 20,
            pieces_raw@.len() % 20 == 0,
            pieces@.len() == k,
            forall|i: int| 0 <= i < k ==> #[trigger] pieces@[i]@ == hash_chunks(pieces_raw@)[i],
        decreases count - k,
    {
        let mut chunk = [0u8; 20];
        let mut j: usize = 0;
        while j < 20
            invariant
                j <= 20,
                k < count,
                count == pieces_raw@.len() / 20,
                pieces_raw@.len() % 20 == 0,
                chunk@.len() == 20,
                forall|x: int| 0 <= x < j ==> chunk@[x] == pieces_raw@[20 * k + x],
            decreases 20 - j,
        {
            proof {
                assert(20 * k + j < pieces_raw@.len()) by (nonlinear_arith)
                    requires
                        k < pieces_raw@.len() / 20,
                        j < 20,
                ;
                assert(20 * k + j < pieces_raw.len());
            }
            chunk[j] = pieces_raw[20 * k + j];
            j = j + 1;
        }
        proof {
            assert(chunk@ =~= pieces_raw@.subrange(20 * k as int, 20 * k + 20));
        }
        pieces.push(chunk);
        k = k + 1;
    }
    let files = parse_files(info)?;
    let ghost fv = torrent_files(info@)->Ok_0;
    let mut total: u64 = 0;
    let mut i: usize = 0;
    while i < files.len()
        invariant
            i <= files@.len(),
            files@.len() == fv.len(),
            forall|x: int| 0 <= x < fv.len() ==> #[trigger] file_matches(files@[x], fv[x]),
            total == total_of(fv.take(i as int)),
        decreases files.len() - i,
    {
        proof {
            assert(fv.take(i + 1).drop_last() =~= fv.take(i as int));
            assert(file_matches(files@[i as int], fv[i as int]));
        }
        total = ((total as u128 + files[i].length as u128) % 0x1_0000_0000_0000_0000u128) as u64;
        i = i + 1;
    }
    proof {
        assert(fv.take(files@.len() as int) =~= fv);
    }
    if total == 0 {
        return Err(Error::BadLength);
    }
    proof {
        if total % piece_length != 0 {
            assert(total / piece_length < total) by (nonlinear_arith)
                requires
                    total % piece_length != 0,
                    piece_length > 0,
                    total > 0,
            ;
        }
    }
    let expected = total / piece_length + if total % piece_length == 0 {
        0
    } else {
        1
    };
    proof {
        lemma_div_ceil(total as nat, piece_length as nat);
    }
    if expected != pieces.len() as u64 {
        return Err(Error::PieceCountMismatch);
    }
    let m = Metainfo {
        trackers,
        info_hash: InfoHash(hash),
        name,
        piece_length,
        pieces,
        files,
        total_length: total,
    };
    proof {
        let v = described(info@, info_bytes@)->Ok_0;
        assert(meta_matches(m, v));
    }
    Ok(m)
}

/// What a torrent file's top-level dictionary describes: its `info`
/// dictionary, hashed as encoded.
pub open spec fn torrent_of(top: Seq<(Seq<u8>, Bencode)>) -> Result<MetaView, Error> {
    match lookup(top, info_key()) {
        None => Err(Error::MissingKey("info")),
        Some(iv) => match iv {
            Bencode::Dict(info) => described(info, enc(iv)),
            _ => Err(Error::WrongType("info")),
        },
    }
}

/// Reads a torrent file.
pub fn parse(input: &[u8]) -> (r: Result<Metainfo, Error>)
    ensures
        match r {
            Ok(m) => exists|top: Seq<(Seq<u8>, Bencode)>|
                decodes_to(input@, Bencode::Dict(top)) && (torrent_of(top) matches Ok(v) && meta_matches(
                    m,
                    v,
                )) && tiers_match(m.trackers@, tracker_tiers(top)),
            Err(Error::Bencode(_)) => forall|b: Bencode| !decodes_to(input@, b),
            Err(Error::NotADict) => exists|b: Bencode| decodes_to(input@, b) && !(b is Dict),
            Err(e) => exists|top: Seq<(Seq<u8>, Bencode)>|
                decodes_to(input@, Bencode::Dict(top)) && torrent_of(top) == Err::<MetaView, Error>(e),
        },
{
    let top = match decode(input) {
        Ok(Value::Dict(map)) => map,
        Ok(other) => {
            proof {
                assert(decodes_to(input@, other@));
            }
            return Err(Error::NotADict);
        },
        Err(e) => {
            return Err(Error::Bencode(e));
        },
    };
    proof {
        assert(decodes_to(input@, Bencode::Dict(top@)));
    }
    let info_value = match top.get(info_bytes().as_slice()) {
        Some(v) => v,
        None => {
            proof {
                assert(torrent_of(top@) == Err::<MetaView, Error>(Error::MissingKey("info")));
            }
            return Err(Error::MissingKey("info"));
        },
    };
    let encoded = encode(info_value);
    let info = match info_value {
        Value::Dict(map) => map,
        _ => {
            proof {
                assert(torrent_of(top@) == Err::<MetaView, Error>(Error::WrongType("info")));
            }
            return Err(Error::WrongType("info"));
        },
    };
    let trackers = parse_trackers(&top);
    let r = build(info, encoded.as_slice(), trackers);
    proof {
        assert(torrent_of(top@) == described(info@, encoded@));
        lemma_described_errors(info@, encoded@);
        if r is Err {
            assert(decodes_to(input@, Bencode::Dict(top@)) && torrent_of(top@) == Err::<MetaView, Error>(r->Err_0));
        }
        if r is Ok {
            let m = r->Ok_0;
            assert(tiers_match(m.trackers@, tracker_tiers(top@)));
            assert(decodes_to(input@, Bencode::Dict(top@)) && (torrent_of(top@) matches Ok(v) && meta_matches(
                m,
                v,
            )) && tiers_match(m.trackers@, tracker_tiers(top@)));
        }
    }
    r
}

/// Builds a torrent from the bytes of an info dictionary, as fetched from
/// peers, and the trackers known for it.
pub fn parse_info_dict(info_bytes: &[u8], trackers: Vec<Vec<String>>) -> (r: Result<Metainfo, Error>)
    ensures
        match r {
            Ok(m) => exists|info: Seq<(Seq<u8>, Bencode)>|
                decodes_to(info_bytes@, Bencode::Dict(info)) && (described(info, info_bytes@) matches Ok(v)
                    && meta_matches(m, v)) && m.trackers@ == trackers@,
            Err(Error::Bencode(_)) => forall|b: Bencode| !decodes_to(info_bytes@, b),
            Err(Error::NotADict) => exists|b: Bencode| decodes_to(info_bytes@, b) && !(b is Dict),
            Err(e) => exists|info: Seq<(Seq<u8>, Bencode)>|
                decodes_to(info_bytes@, Bencode::Dict(info)) && described(info, info_bytes@) == Err::<
                    MetaView,
                    Error,
                >(e),
        },
{
    let info = match decode(info_bytes) {
        Ok(Value::Dict(map)) => map,
        Ok(other) => {
            proof {
                assert(decodes_to(info_bytes@, other@));
            }
            return Err(Error::NotADict);
        },
        Err(e) => {
            return Err(Error::Bencode(e));
        },
    };
    proof {
        assert(decodes_to(info_bytes@, Bencode::Dict(info@)));
    }
    let ghost old_trackers = trackers@;
    let r = build(&info, info_bytes, trackers);
    proof {
        lemma_described_errors(info@, info_bytes@);
        if r is Err {
            assert(decodes_to(info_bytes@, Bencode::Dict(info@)) && described(info@, info_bytes@) == Err::<MetaView, Error>(r->Err_0));
        }
        if r is Ok {
            let m = r->Ok_0;
            assert(decodes_to(info_bytes@, Bencode::Dict(info@)) && (described(info@, info_bytes@) matches Ok(v)
                && meta_matches(m, v)) && m.trackers@ == old_trackers);
        }
    }
    r
}

} // verus!
