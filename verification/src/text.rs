//! Text that the wire formats carry as bytes: UTF-8 checks and hex digits.
use vstd::prelude::*;
use vstd::utf8::{decode_utf8, valid_utf8};

verus! {

/// Calls `String::from_utf8` on `bytes`. Trusted: as its documentation
/// states, it succeeds exactly when the bytes are valid UTF-8, and then the
/// string holds the characters that the bytes encode.
#[verifier::external_body]
pub(crate) fn string_from_utf8(bytes: Vec<u8>) -> (r: Option<String>)
    ensures
        r is Some <==> valid_utf8(bytes@),
        r matches Some(s) ==> s@ == decode_utf8(bytes@),
{
    String::from_utf8(bytes).ok()
}

/// The value of a hexadecimal digit, either case.
pub open spec fn hex_value(c: u8) -> Option<nat> {
    if 48 <= c <= 57 {
        Some((c - 48) as nat)
    } else if 97 <= c <= 102 {
        Some((c - 87) as nat)
    } else if 65 <= c <= 70 {
        Some((c - 55) as nat)
    } else {
        None
    }
}

/// The lowercase hexadecimal digit for `v < 16`.
pub open spec fn hex_char(v: nat) -> u8 {
    if v < 10 {
        (48 + v) as u8
    } else {
        (87 + v) as u8
    }
}

pub fn hex_digit_value(c: u8) -> (r: Option<u8>)
    ensures
        match r {
            Some(v) => hex_value(c) == Some(v as nat) && v < 16,
            None => hex_value(c) is None,
        },
{
    if 48u8 <= c && c <= 57u8 {
        Some(c - 48)
    } else if 97u8 <= c && c <= 102u8 {
        Some(c - 87)
    } else if 65u8 <= c && c <= 70u8 {
        Some(c - 55)
    } else {
        None
    }
}

pub fn hex_char_of(v: u8) -> (c: u8)
    requires
        v < 16,
    ensures
        c == hex_char(v as nat),
        hex_value(c) == Some(v as nat),
{
    if v < 10 {
        48 + v
    } else {
        87 + v
    }
}

/// What `String::from_utf8_lossy` makes of `bytes`.
pub uninterp spec fn lossy_text(bytes: Seq<u8>) -> Seq<char>;

/// Calls `String::from_utf8_lossy` of std on `bytes`. Trusted: the result is
/// that function's value on exactly these bytes, and, as its documentation
/// states, valid UTF-8 comes back as the text it encodes.
#[verifier::external_body]
pub(crate) fn lossy_string(bytes: &[u8]) -> (r: String)
    ensures
        r@ == lossy_text(bytes@),
        valid_utf8(bytes@) ==> r@ == decode_utf8(bytes@),
{
    String::from_utf8_lossy(bytes).into_owned()
}

/// The text of `bytes` as `String::from_utf8_lossy` gives it: valid UTF-8
/// as the text it encodes, else that function's value.
pub open spec fn text_of(bytes: Seq<u8>) -> Seq<char> {
    if valid_utf8(bytes) {
        decode_utf8(bytes)
    } else {
        lossy_text(bytes)
    }
}

/// Bytes below 128 are valid UTF-8.
pub proof fn lemma_ascii_valid(s: Seq<u8>)
    requires
        forall|i: int| 0 <= i < s.len() ==> #[trigger] s[i] < 128,
    ensures
        valid_utf8(s),
{
    assert(s.subrange(0, 0) =~= Seq::<u8>::empty());
    assert(valid_utf8(Seq::<u8>::empty())) by {
        reveal_with_fuel(valid_utf8, 1);
    }
    assert(vstd::utf8::partial_valid_utf8(s, 0));
    assert forall|i: int| 0 <= i < s.len() implies #[trigger] vstd::utf8::is_leading_byte_width_1(s[i]) by {
        assert(s[i] < 128);
    }
    vstd::utf8::partial_valid_utf8_extend_ascii_block(s, 0, s.len() as int);
    assert(s.subrange(0, s.len() as int) =~= s);
}

/// A piece of valid UTF-8 cut out where ASCII bytes (or the ends) stand is
/// valid UTF-8.
pub proof fn lemma_ascii_cut(s: Seq<u8>, a: int, b: int)
    requires
        valid_utf8(s),
        0 <= a <= b <= s.len(),
        0 < a < s.len() ==> s[a] < 128,
        a < b < s.len() ==> s[b] < 128,
    ensures
        valid_utf8(s.subrange(a, b)),
{
    vstd::utf8::is_char_boundary_start_end_of_seq(s);
    if 0 < a < s.len() {
        vstd::utf8::is_char_boundary_iff_not_is_continuation_byte(s, a);
    }
    vstd::utf8::valid_utf8_split(s, a);
    let t = s.subrange(a, s.len() as int);
    vstd::utf8::is_char_boundary_start_end_of_seq(t);
    if a < b < s.len() {
        assert(t[b - a] == s[b]);
        vstd::utf8::is_char_boundary_iff_not_is_continuation_byte(t, b - a);
    } else if b == s.len() {
        assert(b - a == t.len());
    }
    vstd::utf8::valid_utf8_split(t, b - a);
    assert(t.subrange(0, b - a) =~= s.subrange(a, b));
}

/// Valid UTF-8 stays valid when an ASCII start is taken off.
pub proof fn lemma_drop_ascii(s: Seq<u8>, k: int)
    requires
        valid_utf8(s),
        0 <= k <= s.len(),
        forall|j: int| 0 <= j < k ==> #[trigger] s[j] < 128,
    ensures
        valid_utf8(s.subrange(k, s.len() as int)),
    decreases k,
{
    if k == 0 {
        assert(s.subrange(0, s.len() as int) =~= s);
    } else {
        let t = s.subrange(1, s.len() as int);
        assert(vstd::utf8::pop_first_scalar(s) =~= t);
        assert forall|j: int| 0 <= j < k - 1 implies #[trigger] t[j] < 128 by {
            assert(t[j] == s[j + 1]);
        }
        lemma_drop_ascii(t, k - 1);
        assert(t.subrange(k - 1, t.len() as int) =~= s.subrange(k, s.len() as int));
    }
}

} // verus!
