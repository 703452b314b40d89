//! The mathematical model of bencoded data: a value, its canonical
//! encoding, and the facts about that encoding that decoding rests on.
use vstd::prelude::*;

verus! {

/// Deepest nesting of lists and dictionaries that decoding accepts.
pub const MAX_DEPTH: usize = 128;

/// A bencoded value as a mathematical object.
pub enum Bencode {
    Bytes(Seq<u8>),
    Int(int),
    List(Seq<Bencode>),
    Dict(Seq<(Seq<u8>, Bencode)>),
}

pub open spec fn is_digit(c: u8) -> bool {
    48 <= c <= 57
}

pub open spec fn all_digits(s: Seq<u8>) -> bool {
    forall|i: int| 0 <= i < s.len() ==> is_digit(#[trigger] s[i])
}

/// Decimal digits of `n`, most significant first, without leading zeroes.
pub open spec fn digit_seq(n: nat) -> Seq<u8>
    decreases n,
{
    if n < 10 {
        seq![(48 + n) as u8]
    } else {
        digit_seq(n / 10).push((48 + n % 10) as u8)
    }
}

/// The number that a string of decimal digits denotes.
pub open spec fn digits_value(s: Seq<u8>) -> nat
    decreases s.len(),
{
    if s.len() == 0 {
        0
    } else {
        digits_value(s.drop_last()) * 10 + (s.last() - 48) as nat
    }
}

/// A digit string as the canonical encoding writes it: not empty, and no
/// leading zero unless the number is zero itself.
pub open spec fn canonical_digits(s: Seq<u8>) -> bool {
    &&& s.len() >= 1
    &&& all_digits(s)
    &&& (s.len() > 1 ==> s[0] != 48)
}

pub open spec fn abs(n: int) -> nat {
    if n < 0 {
        (-n) as nat
    } else {
        n as nat
    }
}

/// The decimal text of an integer, with a leading `-` when it is negative.
pub open spec fn int_text(n: int) -> Seq<u8> {
    if n < 0 {
        seq![45u8] + digit_seq(abs(n))
    } else {
        digit_seq(abs(n))
    }
}

pub open spec fn enc_bytes(s: Seq<u8>) -> Seq<u8> {
    digit_seq(s.len()) + seq![58u8] + s
}

/// The canonical encoding of a value.
pub open spec fn enc(b: Bencode) -> Seq<u8>
    decreases b,
{
    match b {
        Bencode::Bytes(s) => enc_bytes(s),
        Bencode::Int(n) => seq![105u8] + int_text(n) + seq![101u8],
        Bencode::List(items) => seq![108u8] + enc_list(items) + seq![101u8],
        Bencode::Dict(entries) => seq![100u8] + enc_dict(entries) + seq![101u8],
    }
}

/// The encodings of the items, one after the other.
pub open spec fn enc_list(items: Seq<Bencode>) -> Seq<u8>
    decreases items,
{
    if items.len() == 0 {
        Seq::empty()
    } else {
        enc(items[0]) + enc_list(items.subrange(1, items.len() as int))
    }
}

/// The encodings of key and value of each entry, one after the other.
pub open spec fn enc_dict(entries: Seq<(Seq<u8>, Bencode)>) -> Seq<u8>
    decreases entries,
{
    if entries.len() == 0 {
        Seq::empty()
    } else {
        enc_bytes(entries[0].0) + enc(entries[0].1) + enc_dict(
            entries.subrange(1, entries.len() as int),
        )
    }
}

/// Byte-wise lexicographic order, as `Vec<u8>` compares.
pub open spec fn lex_lt(a: Seq<u8>, b: Seq<u8>) -> bool
    decreases a.len(),
{
    if a.len() == 0 {
        b.len() > 0
    } else if b.len() == 0 {
        false
    } else if a[0] < b[0] {
        true
    } else if a[0] > b[0] {
        false
    } else {
        lex_lt(a.subrange(1, a.len() as int), b.subrange(1, b.len() as int))
    }
}

/// Integers fit in 64 bits and dictionary keys strictly increase, all the
/// way down.
pub open spec fn canonical(b: Bencode) -> bool
    decreases b,
{
    match b {
        Bencode::Bytes(_) => true,
        Bencode::Int(n) => i64::MIN <= n <= i64::MAX,
        Bencode::List(items) => forall|i: int|
            0 <= i < items.len() ==> canonical(#[trigger] items[i]),
        Bencode::Dict(entries) => {
            &&& forall|i: int| 0 <= i < entries.len() ==> canonical(#[trigger] entries[i].1)
            &&& forall|i: int|
                0 < i < entries.len() ==> lex_lt(entries[i - 1].0, #[trigger] entries[i].0)
        },
    }
}

/// A value met at nesting depth `depth` stays within `MAX_DEPTH`: every
/// value is read at its depth, and the items, keys and values of a
/// container one level deeper.
pub open spec fn fits(b: Bencode, depth: int) -> bool
    decreases b,
{
    &&& depth <= MAX_DEPTH
    &&& match b {
        Bencode::List(items) => forall|i: int|
            0 <= i < items.len() ==> fits(#[trigger] items[i], depth + 1),
        Bencode::Dict(entries) => forall|i: int|
            0 <= i < entries.len() ==> depth + 1 <= MAX_DEPTH && fits(
                #[trigger] entries[i].1,
                depth + 1,
            ),
        _ => true,
    }
}

/// `e` stands in `s` from `pos` on.
pub open spec fn prefix_at(e: Seq<u8>, s: Seq<u8>, pos: int) -> bool {
    &&& 0 <= pos
    &&& pos + e.len() <= s.len()
    &&& s.subrange(pos, pos + e.len()) == e
}

/// `b` is a valid value whose encoding starts at `pos` in `s`, read at
/// nesting depth `depth`.
pub open spec fn ok_at(b: Bencode, s: Seq<u8>, pos: int, depth: int) -> bool {
    &&& canonical(b)
    &&& fits(b, depth)
    &&& prefix_at(enc(b), s, pos)
}

/// `s` is exactly the encoding of the valid value `b`.
pub open spec fn decodes_to(s: Seq<u8>, b: Bencode) -> bool {
    &&& canonical(b)
    &&& fits(b, 0)
    &&& enc(b) == s
}

// ---------------------------------------------------------------------
// Digits
pub proof fn lemma_digit_seq(n: nat)
    ensures
        canonical_digits(digit_seq(n)),
        digits_value(digit_seq(n)) == n,
        digit_seq(n).len() >= 1,
        n > 0 ==> digit_seq(n)[0] != 48,
        n == 0 ==> digit_seq(n) == seq![48u8],
    decreases n,
{
    let d = digit_seq(n);
    if n < 10 {
        assert(d.drop_last() =~= Seq::<u8>::empty());
        assert(digits_value(d) == digits_value(d.drop_last()) * 10 + (d.last() - 48) as nat);
    } else {
        lemma_digit_seq(n / 10);
        let p = digit_seq(n / 10);
        assert(d.drop_last() =~= p);
        assert(d[0] == p[0]);
        assert(n / 10 > 0);
        assert(all_digits(d)) by {
            assert forall|i: int| 0 <= i < d.len() implies is_digit(#[trigger] d[i]) by {
                if i < p.len() {
                    assert(d[i] == p[i]);
                }
            }
        }
        assert((n / 10) * 10 + n % 10 == n) by (nonlinear_arith);
        assert(d.last() == (48 + n % 10) as u8);
        assert(digits_value(d) == digits_value(p) * 10 + (d.last() - 48) as nat);
    }
}

pub proof fn lemma_digits_value_push(s: Seq<u8>, c: u8)
    requires
        is_digit(c),
    ensures
        digits_value(s.push(c)) == digits_value(s) * 10 + (c - 48) as nat,
{
    assert(s.push(c).drop_last() =~= s);
}

pub proof fn lemma_digits_value_positive(s: Seq<u8>)
    requires
        s.len() >= 1,
        all_digits(s),
        s[0] != 48,
    ensures
        digits_value(s) >= 1,
    decreases s.len(),
{
    if s.len() > 1 {
        let p = s.drop_last();
        assert(p[0] == s[0]);
        assert(all_digits(p)) by {
            assert forall|i: int| 0 <= i < p.len() implies is_digit(#[trigger] p[i]) by {
                assert(p[i] == s[i]);
            }
        }
        lemma_digits_value_positive(p);
    }
}

/// A canonical digit string is the digit sequence of its own value.
pub proof fn lemma_canonical_digits(s: Seq<u8>)
    requires
        canonical_digits(s),
    ensures
        digit_seq(digits_value(s)) == s,
    decreases s.len(),
{
    assert(is_digit(s[s.len() - 1]));
    if s.len() == 1 {
        assert(s.drop_last() =~= Seq::<u8>::empty());
        assert(digits_value(s) == digits_value(s.drop_last()) * 10 + (s.last() - 48) as nat);
        assert(digits_value(s) == (s[0] - 48) as nat);
        assert(digit_seq(digits_value(s)) == seq![(48 + digits_value(s)) as u8]);
        assert(digit_seq(digits_value(s)) =~= s);
    } else {
        let p = s.drop_last();
        assert(p[0] == s[0]);
        assert(all_digits(p)) by {
            assert forall|i: int| 0 <= i < p.len() implies is_digit(#[trigger] p[i]) by {
                assert(p[i] == s[i]);
            }
        }
        lemma_digits_value_positive(p);
        lemma_canonical_digits(p);
        let v = digits_value(s);
        let c = (s.last() - 48) as nat;
        assert(v == digits_value(p) * 10 + c);
        assert(c < 10);
        assert(v / 10 == digits_value(p) && v % 10 == c && v >= 10) by (nonlinear_arith)
            requires
                v == digits_value(p) * 10 + c,
                c < 10,
                digits_value(p) >= 1,
        ;
        assert(digit_seq(v) =~= p.push(s.last()));
        assert(p.push(s.last()) =~= s);
    }
}

/// Two digit strings each followed by a non-digit marker at the same place
/// are equal.
pub proof fn lemma_digit_run_unique(d1: Seq<u8>, d2: Seq<u8>, m1: u8, m2: u8, x: Seq<u8>, y: Seq<u8>)
    requires
        all_digits(d1),
        all_digits(d2),
        !is_digit(m1),
        !is_digit(m2),
        d1 + seq![m1] + x == d2 + seq![m2] + y,
    ensures
        d1 == d2,
        m1 == m2,
        x == y,
{
    let l = d1 + seq![m1] + x;
    let r = d2 + seq![m2] + y;
    if d1.len() < d2.len() {
        assert(l[d1.len() as int] == m1);
        assert(r[d1.len() as int] == d2[d1.len() as int]);
        assert(false);
    } else if d2.len() < d1.len() {
        assert(r[d2.len() as int] == m2);
        assert(l[d2.len() as int] == d1[d2.len() as int]);
        assert(false);
    }
    assert(d1 =~= l.subrange(0, d1.len() as int));
    assert(d2 =~= r.subrange(0, d2.len() as int));
    assert(l[d1.len() as int] == m1);
    assert(r[d2.len() as int] == m2);
    assert(x =~= l.subrange(d1.len() as int + 1, l.len() as int));
    assert(y =~= r.subrange(d2.len() as int + 1, r.len() as int));
}

// ---------------------------------------------------------------------
// Shape of encodings
pub open spec fn first_byte_ok(c: u8) -> bool {
    c == 105 || c == 108 || c == 100 || is_digit(c)
}

pub proof fn lemma_enc_shape(b: Bencode)
    ensures
        enc(b).len() >= 2,
        first_byte_ok(enc(b)[0]),
        enc(b)[0] != 101,
        b is Bytes <==> is_digit(enc(b)[0]),
        b is Int <==> enc(b)[0] == 105,
        b is List <==> enc(b)[0] == 108,
        b is Dict <==> enc(b)[0] == 100,
{
    match b {
        Bencode::Bytes(s) => {
            lemma_digit_seq(s.len());
            assert(enc(b)[0] == digit_seq(s.len())[0]);
        },
        _ => {},
    }
}

pub proof fn lemma_enc_list_push(items: Seq<Bencode>, x: Bencode)
    ensures
        enc_list(items.push(x)) == enc_list(items) + enc(x),
    decreases items.len(),
{
    let s = items.push(x);
    if items.len() == 0 {
        assert(s.subrange(1, s.len() as int) =~= Seq::<Bencode>::empty());
        assert(s[0] == x);
        assert(enc_list(Seq::<Bencode>::empty()) == Seq::<u8>::empty());
        assert(enc_list(items) == Seq::<u8>::empty());
        assert(enc_list(s) == enc(s[0]) + enc_list(s.subrange(1, s.len() as int)));
        assert(enc_list(s) =~= enc_list(items) + enc(x));
    } else {
        let rest = items.subrange(1, items.len() as int);
        assert(s.subrange(1, s.len() as int) =~= rest.push(x));
        lemma_enc_list_push(rest, x);
        assert(s[0] == items[0]);
        assert(enc_list(s) =~= enc_list(items) + enc(x));
    }
}

pub proof fn lemma_enc_dict_push(entries: Seq<(Seq<u8>, Bencode)>, k: Seq<u8>, x: Bencode)
    ensures
        enc_dict(entries.push((k, x))) == enc_dict(entries) + enc_bytes(k) + enc(x),
    decreases entries.len(),
{
    let s = entries.push((k, x));
    if entries.len() == 0 {
        assert(s.subrange(1, s.len() as int) =~= Seq::<(Seq<u8>, Bencode)>::empty());
        assert(s[0] == (k, x));
        assert(enc_dict(Seq::<(Seq<u8>, Bencode)>::empty()) == Seq::<u8>::empty());
        assert(enc_dict(entries) == Seq::<u8>::empty());
        assert(enc_dict(s) == enc_bytes(s[0].0) + enc(s[0].1) + enc_dict(s.subrange(1, s.len() as int)));
        assert(enc_dict(s) =~= enc_dict(entries) + enc_bytes(k) + enc(x));
    } else {
        let rest = entries.subrange(1, entries.len() as int);
        assert(s.subrange(1, s.len() as int) =~= rest.push((k, x)));
        lemma_enc_dict_push(rest, k, x);
        assert(s[0] == entries[0]);
        assert(enc_dict(s) =~= enc_dict(entries) + enc_bytes(k) + enc(x));
    }
}

/// The encodings of the first `k` items are followed, in the encoding of
/// the whole list, by that of item `k`.
pub proof fn lemma_enc_list_split(items: Seq<Bencode>, k: int)
    requires
        0 <= k < items.len(),
    ensures
        enc_list(items) == enc_list(items.take(k)) + enc(items[k]) + enc_list(
            items.subrange(k + 1, items.len() as int),
        ),
    decreases k,
{
    if k == 0 {
        assert(items.take(0) =~= Seq::<Bencode>::empty());
    } else {
        let rest = items.subrange(1, items.len() as int);
        lemma_enc_list_split(rest, k - 1);
        assert(rest.take(k - 1) =~= items.take(k).subrange(1, k));
        assert(items.take(k)[0] == items[0]);
        assert(rest[k - 1] == items[k]);
        assert(rest.subrange(k, rest.len() as int) =~= items.subrange(k + 1, items.len() as int));
        assert(enc_list(items.take(k)) == enc(items[0]) + enc_list(rest.take(k - 1)));
        assert(enc_list(items) =~= enc_list(items.take(k)) + enc(items[k]) + enc_list(
            items.subrange(k + 1, items.len() as int),
        ));
    }
}

pub proof fn lemma_enc_dict_split(entries: Seq<(Seq<u8>, Bencode)>, k: int)
    requires
        0 <= k < entries.len(),
    ensures
        enc_dict(entries) == enc_dict(entries.take(k)) + enc_bytes(entries[k].0) + enc(
            entries[k].1,
        ) + enc_dict(entries.subrange(k + 1, entries.len() as int)),
    decreases k,
{
    if k == 0 {
        assert(entries.take(0) =~= Seq::<(Seq<u8>, Bencode)>::empty());
    } else {
        let rest = entries.subrange(1, entries.len() as int);
        lemma_enc_dict_split(rest, k - 1);
        assert(rest.take(k - 1) =~= entries.take(k).subrange(1, k));
        assert(entries.take(k)[0] == entries[0]);
        assert(rest[k - 1] == entries[k]);
        assert(rest.subrange(k, rest.len() as int) =~= entries.subrange(
            k + 1,
            entries.len() as int,
        ));
        assert(enc_dict(entries.take(k)) == enc_bytes(entries[0].0) + enc(entries[0].1)
            + enc_dict(rest.take(k - 1)));
        assert(enc_dict(entries) =~= enc_dict(entries.take(k)) + enc_bytes(entries[k].0) + enc(
            entries[k].1,
        ) + enc_dict(entries.subrange(k + 1, entries.len() as int)));
    }
}

// ---------------------------------------------------------------------
// No encoding is a proper prefix of another, and encoding is one to one.
pub proof fn lemma_bytes_unique(s: Seq<u8>, t: Seq<u8>, r1: Seq<u8>, r2: Seq<u8>)
    requires
        enc_bytes(s) + r1 == enc_bytes(t) + r2,
    ensures
        s == t,
        r1 == r2,
{
    lemma_digit_seq(s.len());
    lemma_digit_seq(t.len());
    let x = s + r1;
    let y = t + r2;
    assert(enc_bytes(s) + r1 =~= digit_seq(s.len()) + seq![58u8] + x);
    assert(enc_bytes(t) + r2 =~= digit_seq(t.len()) + seq![58u8] + y);
    lemma_digit_run_unique(digit_seq(s.len()), digit_seq(t.len()), 58u8, 58u8, x, y);
    assert(s.len() == t.len());
    assert(s =~= x.subrange(0, s.len() as int));
    assert(t =~= y.subrange(0, t.len() as int));
    assert(r1 =~= x.subrange(s.len() as int, x.len() as int));
    assert(r2 =~= y.subrange(t.len() as int, y.len() as int));
}

pub proof fn lemma_int_unique(n: int, m: int, r1: Seq<u8>, r2: Seq<u8>)
    requires
        int_text(n) + seq![101u8] + r1 == int_text(m) + seq![101u8] + r2,
    ensures
        n == m,
        r1 == r2,
{
    lemma_digit_seq(abs(n));
    lemma_digit_seq(abs(m));
    let l = int_text(n) + seq![101u8] + r1;
    let dn = digit_seq(abs(n));
    let dm = digit_seq(abs(m));
    if n < 0 {
        assert(l[0] == 45);
    } else {
        assert(l[0] == dn[0]);
    }
    if m < 0 {
        assert(l[0] == 45);
    } else {
        assert(l[0] == dm[0]);
    }
    if n < 0 {
        assert(m < 0);
        assert(l =~= seq![45u8] + (dn + seq![101u8] + r1));
        assert(l =~= seq![45u8] + (dm + seq![101u8] + r2));
        assert(dn + seq![101u8] + r1 =~= l.subrange(1, l.len() as int));
        assert(dm + seq![101u8] + r2 =~= l.subrange(1, l.len() as int));
        lemma_digit_run_unique(dn, dm, 101u8, 101u8, r1, r2);
    } else {
        assert(m >= 0);
        lemma_digit_run_unique(dn, dm, 101u8, 101u8, r1, r2);
    }
}

/// Encodings are prefix-free and one to one: equal strings that begin with
/// two encodings begin with the same one.
pub proof fn lemma_enc_unique(a: Bencode, b: Bencode, r1: Seq<u8>, r2: Seq<u8>)
    requires
        enc(a) + r1 == enc(b) + r2,
    ensures
        a == b,
        r1 == r2,
    decreases a,
{
    lemma_enc_shape(a);
    lemma_enc_shape(b);
    let l = enc(a) + r1;
    assert(l[0] == enc(a)[0]);
    assert(l[0] == enc(b)[0]);
    match a {
        Bencode::Bytes(s) => {
            let t = b->Bytes_0;
            lemma_bytes_unique(s, t, r1, r2);
        },
        Bencode::Int(n) => {
            let m = b->Int_0;
            assert(l =~= seq![105u8] + (int_text(n) + seq![101u8] + r1));
            assert(l =~= seq![105u8] + (int_text(m) + seq![101u8] + r2));
            assert(int_text(n) + seq![101u8] + r1 =~= l.subrange(1, l.len() as int));
            assert(int_text(m) + seq![101u8] + r2 =~= l.subrange(1, l.len() as int));
            lemma_int_unique(n, m, r1, r2);
        },
        Bencode::List(xs) => {
            let ys = b->List_0;
            assert(l =~= seq![108u8] + (enc_list(xs) + (seq![101u8] + r1)));
            assert(l =~= seq![108u8] + (enc_list(ys) + (seq![101u8] + r2)));
            assert(enc_list(xs) + (seq![101u8] + r1) =~= l.subrange(1, l.len() as int));
            assert(enc_list(ys) + (seq![101u8] + r2) =~= l.subrange(1, l.len() as int));
            lemma_list_unique(xs, ys, r1, r2);
        },
        Bencode::Dict(xs) => {
            let ys = b->Dict_0;
            assert(l =~= seq![100u8] + (enc_dict(xs) + (seq![101u8] + r1)));
            assert(l =~= seq![100u8] + (enc_dict(ys) + (seq![101u8] + r2)));
            assert(enc_dict(xs) + (seq![101u8] + r1) =~= l.subrange(1, l.len() as int));
            assert(enc_dict(ys) + (seq![101u8] + r2) =~= l.subrange(1, l.len() as int));
            lemma_dict_unique(xs, ys, r1, r2);
        },
    }
}

pub proof fn lemma_list_unique(xs: Seq<Bencode>, ys: Seq<Bencode>, r1: Seq<u8>, r2: Seq<u8>)
    requires
        enc_list(xs) + (seq![101u8] + r1) == enc_list(ys) + (seq![101u8] + r2),
    ensures
        xs == ys,
        r1 == r2,
    decreases xs,
{
    let l = enc_list(xs) + (seq![101u8] + r1);
    if xs.len() == 0 {
        assert(l[0] == 101);
        if ys.len() > 0 {
            lemma_enc_shape(ys[0]);
            assert(l[0] == enc(ys[0])[0]);
        }
        assert(xs =~= ys);
        assert(seq![101u8] + r1 =~= l);
        assert(seq![101u8] + r2 =~= l);
        assert(r1 =~= l.subrange(1, l.len() as int));
        assert(r2 =~= l.subrange(1, l.len() as int));
    } else {
        lemma_enc_shape(xs[0]);
        assert(l[0] == enc(xs[0])[0]);
        if ys.len() == 0 {
            assert(l[0] == 101);
        }
        let xr = xs.subrange(1, xs.len() as int);
        let yr = ys.subrange(1, ys.len() as int);
        assert(l =~= enc(xs[0]) + (enc_list(xr) + (seq![101u8] + r1)));
        assert(l =~= enc(ys[0]) + (enc_list(yr) + (seq![101u8] + r2)));
        lemma_enc_unique(xs[0], ys[0], enc_list(xr) + (seq![101u8] + r1), enc_list(yr) + (seq![
            101u8,
        ] + r2));
        lemma_list_unique(xr, yr, r1, r2);
        assert(xs =~= seq![xs[0]] + xr);
        assert(ys =~= seq![ys[0]] + yr);
    }
}

pub proof fn lemma_dict_unique(
    xs: Seq<(Seq<u8>, Bencode)>,
    ys: Seq<(Seq<u8>, Bencode)>,
    r1: Seq<u8>,
    r2: Seq<u8>,
)
    requires
        enc_dict(xs) + (seq![101u8] + r1) == enc_dict(ys) + (seq![101u8] + r2),
    ensures
        xs == ys,
        r1 == r2,
    decreases xs,
{
    let l = enc_dict(xs) + (seq![101u8] + r1);
    if xs.len() == 0 {
        assert(l[0] == 101);
        if ys.len() > 0 {
            lemma_enc_shape(Bencode::Bytes(ys[0].0));
            assert(l[0] == enc_bytes(ys[0].0)[0]);
        }
        assert(xs =~= ys);
        assert(seq![101u8] + r1 =~= l);
        assert(seq![101u8] + r2 =~= l);
        assert(r1 =~= l.subrange(1, l.len() as int));
        assert(r2 =~= l.subrange(1, l.len() as int));
    } else {
        lemma_enc_shape(Bencode::Bytes(xs[0].0));
        assert(l[0] == enc_bytes(xs[0].0)[0]);
        if ys.len() == 0 {
            assert(l[0] == 101);
        }
        let xr = xs.subrange(1, xs.len() as int);
        let yr = ys.subrange(1, ys.len() as int);
        let tx = enc(xs[0].1) + (enc_dict(xr) + (seq![101u8] + r1));
        let ty = enc(ys[0].1) + (enc_dict(yr) + (seq![101u8] + r2));
        assert(l =~= enc_bytes(xs[0].0) + tx);
        assert(l =~= enc_bytes(ys[0].0) + ty);
        lemma_bytes_unique(xs[0].0, ys[0].0, tx, ty);
        assert(decreases_to!(xs => xs[0]));
        lemma_enc_unique(xs[0].1, ys[0].1, enc_dict(xr) + (seq![101u8] + r1), enc_dict(yr) + (seq![
            101u8,
        ] + r2));
        lemma_dict_unique(xr, yr, r1, r2);
        assert(xs =~= seq![xs[0]] + xr);
        assert(ys =~= seq![ys[0]] + yr);
    }
}

// ---------------------------------------------------------------------
// Order of keys, and dictionaries as maps

/// No key sorts before itself.
pub proof fn lemma_lex_irreflexive(a: Seq<u8>)
    ensures
        !lex_lt(a, a),
    decreases a.len(),
{
    if a.len() > 0 {
        lemma_lex_irreflexive(a.subrange(1, a.len() as int));
    }
}

/// The order of keys is transitive.
pub proof fn lemma_lex_transitive(a: Seq<u8>, b: Seq<u8>, c: Seq<u8>)
    requires
        lex_lt(a, b),
        lex_lt(b, c),
    ensures
        lex_lt(a, c),
    decreases a.len(),
{
    if a.len() > 0 && b.len() > 0 && c.len() > 0 && a[0] == b[0] && b[0] == c[0] {
        lemma_lex_transitive(
            a.subrange(1, a.len() as int),
            b.subrange(1, b.len() as int),
            c.subrange(1, c.len() as int),
        );
    }
}

/// Two different keys are ordered one way or the other.
pub proof fn lemma_lex_total(a: Seq<u8>, b: Seq<u8>)
    requires
        a != b,
    ensures
        lex_lt(a, b) || lex_lt(b, a),
    decreases a.len(),
{
    if a.len() > 0 && b.len() > 0 && a[0] == b[0] {
        let ta = a.subrange(1, a.len() as int);
        let tb = b.subrange(1, b.len() as int);
        if ta == tb {
            assert(a =~= seq![a[0]] + ta);
            assert(b =~= seq![b[0]] + tb);
        }
        lemma_lex_total(ta, tb);
    } else if a.len() == 0 && b.len() == 0 {
        assert(a =~= b);
    }
}

/// Keys strictly increase from each entry to the next.
pub open spec fn keys_increase(es: Seq<(Seq<u8>, Bencode)>) -> bool {
    forall|i: int| 0 < i < es.len() ==> lex_lt(es[i - 1].0, #[trigger] es[i].0)
}

/// Keys strictly increase between any two entries.
pub open spec fn keys_sorted(es: Seq<(Seq<u8>, Bencode)>) -> bool {
    forall|i: int, j: int| 0 <= i < j < es.len() ==> lex_lt(#[trigger] es[i].0, #[trigger] es[j].0)
}

pub proof fn lemma_keys_sorted(es: Seq<(Seq<u8>, Bencode)>)
    requires
        keys_increase(es),
    ensures
        keys_sorted(es),
    decreases es.len(),
{
    if es.len() > 1 {
        let p = es.drop_last();
        assert(keys_increase(p)) by {
            assert forall|i: int| 0 < i < p.len() implies lex_lt(p[i - 1].0, #[trigger] p[i].0) by {
                assert(p[i] == es[i] && p[i - 1] == es[i - 1]);
            }
        }
        lemma_keys_sorted(p);
        let n = es.len() - 1;
        assert forall|i: int, j: int| 0 <= i < j < es.len() implies lex_lt(
            #[trigger] es[i].0,
            #[trigger] es[j].0,
        ) by {
            if j < n {
                assert(p[i] == es[i] && p[j] == es[j]);
            } else if i < n - 1 {
                assert(p[i] == es[i] && p[n - 1] == es[n - 1]);
                lemma_lex_transitive(es[i].0, es[n - 1].0, es[n].0);
            }
        }
    }
}

/// In a dictionary with increasing keys, no key occurs twice.
pub proof fn lemma_keys_distinct(es: Seq<(Seq<u8>, Bencode)>, i: int, j: int)
    requires
        keys_increase(es),
        0 <= i < es.len(),
        0 <= j < es.len(),
        es[i].0 == es[j].0,
    ensures
        i == j,
{
    lemma_keys_sorted(es);
    if i < j {
        lemma_lex_irreflexive(es[i].0);
    } else if j < i {
        lemma_lex_irreflexive(es[i].0);
    }
}

/// The value stored under `k` in the first entry that has it, if any.
pub open spec fn lookup(es: Seq<(Seq<u8>, Bencode)>, k: Seq<u8>) -> Option<Bencode>
    decreases es.len(),
{
    if es.len() == 0 {
        None
    } else if es[0].0 == k {
        Some(es[0].1)
    } else {
        lookup(es.subrange(1, es.len() as int), k)
    }
}

proof fn lemma_tail_increase(es: Seq<(Seq<u8>, Bencode)>)
    requires
        keys_increase(es),
        es.len() > 0,
    ensures
        keys_increase(es.subrange(1, es.len() as int)),
{
    let t = es.subrange(1, es.len() as int);
    assert forall|x: int| 0 < x < t.len() implies lex_lt(t[x - 1].0, #[trigger] t[x].0) by {
        assert(t[x] == es[x + 1] && t[x - 1] == es[x]);
    }
}

/// What `lookup` finds is stored at some index; when it finds nothing, no
/// entry has the key.
pub proof fn lemma_lookup_some(es: Seq<(Seq<u8>, Bencode)>, k: Seq<u8>)
    ensures
        lookup(es, k) is Some ==> exists|i: int|
            0 <= i < es.len() && #[trigger] es[i].0 == k && lookup(es, k) == Some(es[i].1),
        lookup(es, k) is None ==> forall|i: int| 0 <= i < es.len() ==> #[trigger] es[i].0 != k,
    decreases es.len(),
{
    if es.len() > 0 && es[0].0 != k {
        let t = es.subrange(1, es.len() as int);
        lemma_lookup_some(t, k);
        if lookup(t, k) is Some {
            let x = choose|x: int| 0 <= x < t.len() && #[trigger] t[x].0 == k && lookup(t, k) == Some(t[x].1);
            assert(es[x + 1] == t[x]);
        } else {
            assert forall|i: int| 0 <= i < es.len() implies #[trigger] es[i].0 != k by {
                if i > 0 {
                    assert(es[i] == t[i - 1]);
                }
            }
        }
    }
}

/// With increasing keys, the entry at `i` is what `lookup` finds for its key.
pub proof fn lemma_lookup_at(es: Seq<(Seq<u8>, Bencode)>, i: int)
    requires
        keys_increase(es),
        0 <= i < es.len(),
    ensures
        lookup(es, es[i].0) == Some(es[i].1),
    decreases i,
{
    if i > 0 {
        if es[0].0 == es[i].0 {
            lemma_keys_distinct(es, 0, i);
        }
        let t = es.subrange(1, es.len() as int);
        lemma_tail_increase(es);
        assert(t[i - 1] == es[i]);
        lemma_lookup_at(t, i - 1);
    }
}

/// Two dictionaries with increasing keys and the same lookups are equal.
pub proof fn lemma_lookup_extensional(a: Seq<(Seq<u8>, Bencode)>, b: Seq<(Seq<u8>, Bencode)>)
    requires
        keys_increase(a),
        keys_increase(b),
        forall|k: Seq<u8>| lookup(a, k) == lookup(b, k),
    ensures
        a == b,
    decreases a.len() + b.len(),
{
    lemma_keys_sorted(a);
    lemma_keys_sorted(b);
    if a.len() == 0 {
        if b.len() > 0 {
            lemma_lookup_at(b, 0);
            assert(lookup(a, b[0].0) is None);
        }
        assert(a =~= b);
    } else if b.len() == 0 {
        lemma_lookup_at(a, 0);
        assert(lookup(b, a[0].0) is None);
    } else {
        let ka = a[0].0;
        let kb = b[0].0;
        lemma_lookup_at(a, 0);
        lemma_lookup_at(b, 0);
        lemma_lookup_some(b, ka);
        lemma_lookup_some(a, kb);
        let j = choose|j: int| 0 <= j < b.len() && #[trigger] b[j].0 == ka && lookup(b, ka) == Some(b[j].1);
        let i = choose|i: int| 0 <= i < a.len() && #[trigger] a[i].0 == kb && lookup(a, kb) == Some(a[i].1);
        if ka != kb {
            if j > 0 && i > 0 {
                assert(lex_lt(kb, ka));
                assert(lex_lt(ka, kb));
                lemma_lex_transitive(kb, ka, kb);
                lemma_lex_irreflexive(kb);
            } else if j == 0 {
                assert(false);
            } else {
                assert(false);
            }
        }
        assert(a[0] == b[0]);
        let ta = a.subrange(1, a.len() as int);
        let tb = b.subrange(1, b.len() as int);
        lemma_tail_increase(a);
        lemma_tail_increase(b);
        assert forall|k: Seq<u8>| lookup(ta, k) == lookup(tb, k) by {
            if k == ka {
                lemma_lookup_some(ta, k);
                lemma_lookup_some(tb, k);
                if lookup(ta, k) is Some {
                    let x = choose|x: int| 0 <= x < ta.len() && #[trigger] ta[x].0 == k && lookup(ta, k) == Some(ta[x].1);
                    assert(a[x + 1] == ta[x]);
                    lemma_keys_distinct(a, x + 1, 0);
                }
                if lookup(tb, k) is Some {
                    let x = choose|x: int| 0 <= x < tb.len() && #[trigger] tb[x].0 == k && lookup(tb, k) == Some(tb[x].1);
                    assert(b[x + 1] == tb[x]);
                    lemma_keys_distinct(b, x + 1, 0);
                }
            } else {
                assert(lookup(a, k) == lookup(ta, k));
                assert(lookup(b, k) == lookup(tb, k));
            }
        }
        lemma_lookup_extensional(ta, tb);
        assert(a =~= seq![a[0]] + ta);
        assert(b =~= seq![b[0]] + tb);
    }
}

/// Keys that differ in their first byte are ordered by it.
pub proof fn lemma_lex_first_byte(a: Seq<u8>, b: Seq<u8>)
    requires
        a.len() > 0,
        b.len() > 0,
        a[0] < b[0],
    ensures
        lex_lt(a, b),
{
}

/// A key sorts before every longer key that it starts.
pub proof fn lemma_lex_prefix(a: Seq<u8>, b: Seq<u8>)
    requires
        a.len() < b.len(),
        b.subrange(0, a.len() as int) == a,
    ensures
        lex_lt(a, b),
    decreases a.len(),
{
    if a.len() > 0 {
        assert(a[0] == b.subrange(0, a.len() as int)[0]);
        let ta = a.subrange(1, a.len() as int);
        let tb = b.subrange(1, b.len() as int);
        assert(tb.subrange(0, ta.len() as int) =~= ta);
        lemma_lex_prefix(ta, tb);
    }
}

/// The value of a digit string is at least that of each of its prefixes.
pub proof fn lemma_digits_value_grows(s: Seq<u8>, k: int)
    requires
        0 <= k <= s.len(),
        all_digits(s),
    ensures
        digits_value(s) >= digits_value(s.subrange(0, k)),
    decreases s.len() - k,
{
    if k < s.len() {
        lemma_digits_value_grows(s, k + 1);
        let t = s.subrange(0, k + 1);
        assert(t.drop_last() =~= s.subrange(0, k));
        assert(is_digit(s[k]));
        assert(t.last() == s[k]);
    } else {
        assert(s.subrange(0, k) =~= s);
    }
}

/// The integer stored under `k`, if that is what is stored there.
pub open spec fn int_at(d: Seq<(Seq<u8>, Bencode)>, k: Seq<u8>) -> Option<int> {
    match lookup(d, k) {
        Some(Bencode::Int(n)) => Some(n),
        _ => None,
    }
}

/// The byte string stored under `k`, if that is what is stored there.
pub open spec fn bytes_at(d: Seq<(Seq<u8>, Bencode)>, k: Seq<u8>) -> Option<Seq<u8>> {
    match lookup(d, k) {
        Some(Bencode::Bytes(b)) => Some(b),
        _ => None,
    }
}

/// The dictionary stored under `k`, if that is what is stored there.
pub open spec fn dict_at(d: Seq<(Seq<u8>, Bencode)>, k: Seq<u8>) -> Option<Seq<(Seq<u8>, Bencode)>> {
    match lookup(d, k) {
        Some(Bencode::Dict(e)) => Some(e),
        _ => None,
    }
}

/// The list stored under `k`, if that is what is stored there.
pub open spec fn list_at(d: Seq<(Seq<u8>, Bencode)>, k: Seq<u8>) -> Option<Seq<Bencode>> {
    match lookup(d, k) {
        Some(Bencode::List(e)) => Some(e),
        _ => None,
    }
}

/// A dictionary of one entry.
pub open spec fn dict1(k1: Seq<u8>, v1: Bencode) -> Seq<(Seq<u8>, Bencode)> {
    seq![(k1, v1)]
}

/// A dictionary of two entries, in this order.
pub open spec fn dict2(k1: Seq<u8>, v1: Bencode, k2: Seq<u8>, v2: Bencode) -> Seq<(Seq<u8>, Bencode)> {
    seq![(k1, v1), (k2, v2)]
}

/// A dictionary of three entries, in this order.
pub open spec fn dict3(k1: Seq<u8>, v1: Bencode, k2: Seq<u8>, v2: Bencode, k3: Seq<u8>, v3: Bencode) -> Seq<
    (Seq<u8>, Bencode),
> {
    seq![(k1, v1), (k2, v2), (k3, v3)]
}

/// What a dictionary of one, two or three entries looks up.
pub proof fn lemma_lookup_small(
    k1: Seq<u8>,
    v1: Bencode,
    k2: Seq<u8>,
    v2: Bencode,
    k3: Seq<u8>,
    v3: Bencode,
)
    ensures
        forall|k: Seq<u8>| #[trigger] lookup(Seq::<(Seq<u8>, Bencode)>::empty(), k) is None,
        forall|k: Seq<u8>|
            #[trigger] lookup(dict1(k1, v1), k) == if k == k1 {
                Some(v1)
            } else {
                None
            },
        forall|k: Seq<u8>|
            #[trigger] lookup(dict2(k1, v1, k2, v2), k) == if k == k1 {
                Some(v1)
            } else if k == k2 {
                Some(v2)
            } else {
                None
            },
        forall|k: Seq<u8>|
            #[trigger] lookup(dict3(k1, v1, k2, v2, k3, v3), k) == if k == k1 {
                Some(v1)
            } else if k == k2 {
                Some(v2)
            } else if k == k3 {
                Some(v3)
            } else {
                None
            },
        keys_increase(dict1(k1, v1)),
        lex_lt(k1, k2) ==> keys_increase(dict2(k1, v1, k2, v2)),
        lex_lt(k1, k2) && lex_lt(k2, k3) ==> keys_increase(dict3(k1, v1, k2, v2, k3, v3)),
{
    let e = Seq::<(Seq<u8>, Bencode)>::empty();
    let s1 = dict1(k1, v1);
    let s2 = dict2(k1, v1, k2, v2);
    let s3 = dict3(k1, v1, k2, v2, k3, v3);
    let t2 = dict1(k2, v2);
    let t3 = dict2(k2, v2, k3, v3);
    let u3 = dict1(k3, v3);
    assert(s1.subrange(1, 1) =~= e);
    assert(s2.subrange(1, 2) =~= t2);
    assert(t2.subrange(1, 1) =~= e);
    assert(s3.subrange(1, 3) =~= t3);
    assert(t3.subrange(1, 2) =~= u3);
    assert(u3.subrange(1, 1) =~= e);
    assert forall|k: Seq<u8>| #[trigger] lookup(e, k) is None by {}
    assert forall|k: Seq<u8>| #[trigger] lookup(s1, k) == if k == k1 { Some(v1) } else { None } by {
        assert(lookup(s1, k) == if k == k1 { Some(v1) } else { lookup(e, k) });
    }
    assert forall|k: Seq<u8>|
        #[trigger] lookup(s2, k) == if k == k1 {
            Some(v1)
        } else if k == k2 {
            Some(v2)
        } else {
            None
        } by {
        assert(lookup(t2, k) == if k == k2 { Some(v2) } else { lookup(e, k) });
        assert(lookup(s2, k) == if k == k1 { Some(v1) } else { lookup(t2, k) });
    }
    assert forall|k: Seq<u8>|
        #[trigger] lookup(s3, k) == if k == k1 {
            Some(v1)
        } else if k == k2 {
            Some(v2)
        } else if k == k3 {
            Some(v3)
        } else {
            None
        } by {
        assert(lookup(u3, k) == if k == k3 { Some(v3) } else { lookup(e, k) });
        assert(lookup(t3, k) == if k == k2 { Some(v2) } else { lookup(u3, k) });
        assert(lookup(s3, k) == if k == k1 { Some(v1) } else { lookup(t3, k) });
    }
}

/// Decoding is unambiguous: a byte string is the encoding of at most one
/// valid value.
pub proof fn law_decoding_unique(s: Seq<u8>, a: Bencode, b: Bencode)
    requires
        decodes_to(s, a),
        decodes_to(s, b),
    ensures
        a == b,
{
    assert(enc(a) + Seq::<u8>::empty() =~= enc(b) + Seq::<u8>::empty());
    lemma_enc_unique(a, b, Seq::empty(), Seq::empty());
}

/// A value that fits at some depth fits at every shallower depth.
pub proof fn lemma_fits_shallower(b: Bencode, d: int, e: int)
    requires
        fits(b, d),
        e <= d,
    ensures
        fits(b, e),
    decreases b,
{
    match b {
        Bencode::List(items) => {
            assert forall|i: int| 0 <= i < items.len() implies fits(#[trigger] items[i], e + 1) by {
                lemma_fits_shallower(items[i], d + 1, e + 1);
            }
        },
        Bencode::Dict(entries) => {
            assert forall|i: int| 0 <= i < entries.len() implies e + 1 <= MAX_DEPTH && fits(
                #[trigger] entries[i].1,
                e + 1,
            ) by {
                lemma_fits_shallower(entries[i].1, d + 1, e + 1);
            }
        },
        _ => {},
    }
}

/// What a valid value encodes to decodes back to that value.
pub proof fn law_encoding_decodes(b: Bencode)
    requires
        canonical(b),
        fits(b, 0),
    ensures
        decodes_to(enc(b), b),
{
}

/// Keys that agree up to position `k` and differ there are ordered by that
/// byte.
pub proof fn lemma_lex_at(a: Seq<u8>, b: Seq<u8>, k: int)
    requires
        0 <= k < a.len(),
        k < b.len(),
        a.subrange(0, k) == b.subrange(0, k),
        a[k] < b[k],
    ensures
        lex_lt(a, b),
    decreases k,
{
    if k > 0 {
        let ta = a.subrange(1, a.len() as int);
        let tb = b.subrange(1, b.len() as int);
        assert(a[0] == a.subrange(0, k)[0]);
        assert(b[0] == b.subrange(0, k)[0]);
        assert(ta.subrange(0, k - 1) =~= a.subrange(0, k).subrange(1, k));
        assert(tb.subrange(0, k - 1) =~= b.subrange(0, k).subrange(1, k));
        lemma_lex_at(ta, tb, k - 1);
    }
}

} // verus!
