//! Reading bencoding leniently, as some peers and trackers write it:
//! dictionary keys in any order (a later key replacing an earlier one) and
//! numbers with leading zeros. Everything else is as strict as ever.
use vstd::prelude::*;
use crate::bencode::{digits_to_u128, items_model, scan_digits, Dict, Error, Value};
use crate::bencode_spec::{
    abs, all_digits, canonical, decodes_to, digit_seq, digits_value, enc, enc_bytes, enc_dict, enc_list,
    fits, is_digit, keys_increase, lemma_digit_seq, lemma_enc_shape, lemma_keys_sorted, lemma_lex_irreflexive,
    lemma_lex_transitive, lemma_lookup_extensional, lex_lt, lookup, prefix_at, Bencode, MAX_DEPTH,
};

verus! {

/// Where the run of digits from `i` ends.
pub open spec fn run_end(s: Seq<u8>, i: int) -> int
    decreases s.len() - i,
{
    if 0 <= i < s.len() && is_digit(s[i]) {
        run_end(s, i + 1)
    } else {
        i
    }
}

/// An integer at `pos`, which holds `i`: an optional `-`, at least one
/// digit, `e`, and a value that fits 64 bits. Its value and its end.
pub open spec fn lenient_int(s: Seq<u8>, pos: int) -> Option<(int, int)> {
    let neg = pos + 1 < s.len() && s[pos + 1] == 45;
    let start = if neg {
        pos + 2
    } else {
        pos + 1
    };
    let e = run_end(s, start);
    if e == start || e >= s.len() || s[e] != 101 {
        None
    } else {
        let m = digits_value(s.subrange(start, e));
        if neg {
            if m <= 0x8000_0000_0000_0000 {
                Some((-m, e + 1))
            } else {
                None
            }
        } else if m <= i64::MAX {
            Some((m as int, e + 1))
        } else {
            None
        }
    }
}

/// A byte string at `pos`: a length in digits, `:`, and that many bytes.
/// Its bytes and its end.
pub open spec fn lenient_bytes(s: Seq<u8>, pos: int) -> Option<(Seq<u8>, int)> {
    let e = run_end(s, pos);
    if e == pos || e >= s.len() || s[e] != 58 {
        None
    } else {
        let n = digits_value(s.subrange(pos, e));
        if e + 1 + n <= s.len() {
            Some((s.subrange(e + 1, e + 1 + n), e + 1 + n))
        } else {
            None
        }
    }
}

/// `es` with `k` set to `v`, keys kept in increasing order.
pub open spec fn dict_insert(es: Seq<(Seq<u8>, Bencode)>, k: Seq<u8>, v: Bencode) -> Seq<(Seq<u8>, Bencode)>
    decreases es.len(),
{
    if es.len() == 0 {
        seq![(k, v)]
    } else if es[0].0 == k {
        seq![(k, v)] + es.subrange(1, es.len() as int)
    } else if lex_lt(k, es[0].0) {
        seq![(k, v)] + es
    } else {
        seq![es[0]] + dict_insert(es.subrange(1, es.len() as int), k, v)
    }
}

/// The value at `pos`, at nesting depth `depth`, and its end.
pub open spec fn lenient_value(s: Seq<u8>, pos: int, depth: int) -> Option<(Bencode, int)>
    decreases s.len() - pos, 1int,
{
    if depth > MAX_DEPTH || pos < 0 || pos >= s.len() {
        None
    } else if s[pos] == 105 {
        match lenient_int(s, pos) {
            Some((n, e)) => Some((Bencode::Int(n), e)),
            None => None,
        }
    } else if s[pos] == 108 {
        lenient_list(s, pos + 1, depth + 1, Seq::empty())
    } else if s[pos] == 100 {
        lenient_dict(s, pos + 1, depth + 1, Seq::empty())
    } else if is_digit(s[pos]) {
        match lenient_bytes(s, pos) {
            Some((b, e)) => Some((Bencode::Bytes(b), e)),
            None => None,
        }
    } else {
        None
    }
}

/// The rest of a list from `pos`, after the items `acc`, and its end.
pub open spec fn lenient_list(s: Seq<u8>, pos: int, depth: int, acc: Seq<Bencode>) -> Option<(Bencode, int)>
    decreases s.len() - pos, 2int,
{
    if pos < 0 || pos >= s.len() {
        None
    } else if s[pos] == 101 {
        Some((Bencode::List(acc), pos + 1))
    } else {
        match lenient_value(s, pos, depth) {
            Some((v, e)) => if pos < e <= s.len() {
                lenient_list(s, e, depth, acc.push(v))
            } else {
                None
            },
            None => None,
        }
    }
}

/// The rest of a dictionary from `pos`, after the entries `acc`, and its
/// end.
pub open spec fn lenient_dict(s: Seq<u8>, pos: int, depth: int, acc: Seq<(Seq<u8>, Bencode)>) -> Option<(Bencode, int)>
    decreases s.len() - pos, 2int,
{
    if pos < 0 || pos >= s.len() {
        None
    } else if s[pos] == 101 {
        Some((Bencode::Dict(acc), pos + 1))
    } else if !is_digit(s[pos]) {
        None
    } else {
        match lenient_bytes(s, pos) {
            Some((k, e1)) => if e1 > pos {
                match lenient_value(s, e1, depth) {
                    Some((v, e2)) => if e1 < e2 <= s.len() {
                        lenient_dict(s, e2, depth, dict_insert(acc, k, v))
                    } else {
                        None
                    },
                    None => None,
                }
            } else {
                None
            },
            None => None,
        }
    }
}

/// What reading `s` leniently gives: one value that ends where `s` ends.
pub open spec fn lenient_decoding(s: Seq<u8>) -> Option<Bencode> {
    match lenient_value(s, 0, 0) {
        Some((v, e)) => if e == s.len() {
            Some(v)
        } else {
            None
        },
        None => None,
    }
}

/// Inserting a key greater than every key present appends it.
proof fn lemma_insert_last(es: Seq<(Seq<u8>, Bencode)>, k: Seq<u8>, v: Bencode)
    requires
        forall|i: int| 0 <= i < es.len() ==> lex_lt(#[trigger] es[i].0, k),
    ensures
        dict_insert(es, k, v) == es.push((k, v)),
    decreases es.len(),
{
    if es.len() > 0 {
        let t = es.subrange(1, es.len() as int);
        assert(lex_lt(es[0].0, k));
        lemma_lex_irreflexive(k);
        if lex_lt(k, es[0].0) {
            lemma_lex_transitive(k, es[0].0, k);
        }
        assert forall|i: int| 0 <= i < t.len() implies lex_lt(#[trigger] t[i].0, k) by {
            assert(t[i] == es[i + 1]);
        }
        lemma_insert_last(t, k, v);
        assert(seq![es[0]] + t.push((k, v)) =~= es.push((k, v)));
    }
}

/// What stands at `i` as `a + b` stands there as `a`, then `b`.
proof fn lemma_split_at(a: Seq<u8>, b: Seq<u8>, s: Seq<u8>, i: int)
    requires
        0 <= i,
        prefix_at(a + b, s, i),
    ensures
        prefix_at(a, s, i),
        prefix_at(b, s, i + a.len()),
{
    let ab = a + b;
    assert forall|j: int| 0 <= j < a.len() implies s.subrange(i, i + a.len())[j] == a[j] by {
        assert(s.subrange(i, i + ab.len())[j] == ab[j]);
    }
    assert(s.subrange(i, i + a.len()) =~= a);
    assert forall|j: int| 0 <= j < b.len() implies s.subrange(i + a.len(), i + a.len() + b.len())[j] == b[j] by {
        assert(s.subrange(i, i + ab.len())[a.len() + j] == ab[a.len() + j]);
    }
    assert(s.subrange(i + a.len(), i + a.len() + b.len()) =~= b);
}

/// The bytes at `i` are those of `e`.
proof fn lemma_at(e: Seq<u8>, s: Seq<u8>, i: int, j: int)
    requires
        0 <= i,
        prefix_at(e, s, i),
        0 <= j < e.len(),
    ensures
        s[i + j] == e[j],
{
    assert(s.subrange(i, i + e.len())[j] == e[j]);
}

/// A run of digits at `i`, followed by a non-digit, ends where it ends.
proof fn lemma_digits_at(d: Seq<u8>, s: Seq<u8>, i: int)
    requires
        0 <= i,
        prefix_at(d, s, i),
        all_digits(d),
        i + d.len() < s.len(),
        !is_digit(s[i + d.len()]),
    ensures
        run_end(s, i) == i + d.len(),
        s.subrange(i, i + d.len()) == d,
{
    assert(s.subrange(i, i + d.len()) =~= d);
    lemma_run_end(s, i, i + d.len());
}

/// A byte string encoded at `pos` reads back leniently.
proof fn lemma_lenient_bytes(x: Seq<u8>, s: Seq<u8>, pos: int)
    requires
        0 <= pos,
        prefix_at(enc_bytes(x), s, pos),
    ensures
        lenient_bytes(s, pos) == Some((x, pos + enc_bytes(x).len())),
{
    let d = digit_seq(x.len());
    lemma_digit_seq(x.len());
    let e = enc_bytes(x);
    assert(e =~= d + (seq![58u8] + x));
    lemma_split_at(d, seq![58u8] + x, s, pos);
    lemma_split_at(seq![58u8], x, s, pos + d.len());
    lemma_at(seq![58u8], s, pos + d.len(), 0);
    lemma_digits_at(d, s, pos);
}

/// A valid value encoded at `pos` reads back leniently as itself, read at
/// any depth it fits.
proof fn lemma_lenient_value(b: Bencode, s: Seq<u8>, pos: int, depth: int)
    requires
        0 <= pos,
        0 <= depth,
        canonical(b),
        fits(b, depth),
        prefix_at(enc(b), s, pos),
    ensures
        lenient_value(s, pos, depth) == Some((b, pos + enc(b).len())),
    decreases b,
{
    let e = enc(b);
    lemma_enc_shape(b);
    lemma_at(e, s, pos, 0);
    match b {
        Bencode::Bytes(x) => {
            lemma_lenient_bytes(x, s, pos);
        },
        Bencode::Int(n) => {
            let d = digit_seq(abs(n));
            lemma_digit_seq(abs(n));
            if n < 0 {
                assert(e =~= seq![105u8, 45u8] + (d + seq![101u8]));
                lemma_split_at(seq![105u8, 45u8], d + seq![101u8], s, pos);
                lemma_at(seq![105u8, 45u8], s, pos, 1);
                lemma_split_at(d, seq![101u8], s, pos + 2);
                lemma_at(seq![101u8], s, pos + 2 + d.len(), 0);
                lemma_digits_at(d, s, pos + 2);
            } else {
                assert(e =~= seq![105u8] + (d + seq![101u8]));
                lemma_split_at(seq![105u8], d + seq![101u8], s, pos);
                lemma_split_at(d, seq![101u8], s, pos + 1);
                lemma_at(d, s, pos + 1, 0);
                lemma_at(seq![101u8], s, pos + 1 + d.len(), 0);
                lemma_digits_at(d, s, pos + 1);
            }
        },
        Bencode::List(items) => {
            let l = enc_list(items);
            assert(e =~= seq![108u8] + (l + seq![101u8]));
            lemma_split_at(seq![108u8], l + seq![101u8], s, pos);
            lemma_lenient_list(items, s, pos + 1, depth + 1, Seq::empty());
            assert(Seq::<Bencode>::empty() + items =~= items);
        },
        Bencode::Dict(entries) => {
            let l = enc_dict(entries);
            assert(e =~= seq![100u8] + (l + seq![101u8]));
            lemma_split_at(seq![100u8], l + seq![101u8], s, pos);
            assert(Seq::<(Seq<u8>, Bencode)>::empty() + entries =~= entries);
            lemma_lenient_entries(entries, s, pos + 1, depth + 1, Seq::empty());
        },
    }
}

proof fn lemma_lenient_list(items: Seq<Bencode>, s: Seq<u8>, pos: int, depth: int, acc: Seq<Bencode>)
    requires
        0 <= pos,
        0 <= depth,
        forall|i: int| 0 <= i < items.len() ==> canonical(#[trigger] items[i]) && fits(items[i], depth),
        prefix_at(enc_list(items) + seq![101u8], s, pos),
    ensures
        lenient_list(s, pos, depth, acc) == Some((Bencode::List(acc + items), pos + enc_list(items).len() + 1)),
    decreases items,
{
    let l = enc_list(items);
    lemma_split_at(l, seq![101u8], s, pos);
    if items.len() == 0 {
        lemma_at(seq![101u8], s, pos, 0);
        assert(acc + items =~= acc);
    } else {
        let head = enc(items[0]);
        let rest = items.subrange(1, items.len() as int);
        assert(l == head + enc_list(rest));
        assert(l + seq![101u8] =~= head + (enc_list(rest) + seq![101u8]));
        lemma_split_at(head, enc_list(rest) + seq![101u8], s, pos);
        lemma_enc_shape(items[0]);
        lemma_at(head, s, pos, 0);
        lemma_lenient_value(items[0], s, pos, depth);
        assert forall|i: int| 0 <= i < rest.len() implies canonical(#[trigger] rest[i]) && fits(rest[i], depth) by {
            assert(rest[i] == items[i + 1]);
        }
        lemma_lenient_list(rest, s, pos + head.len(), depth, acc.push(items[0]));
        assert(acc.push(items[0]) + rest =~= acc + items);
    }
}

proof fn lemma_lenient_entries(
    entries: Seq<(Seq<u8>, Bencode)>,
    s: Seq<u8>,
    pos: int,
    depth: int,
    acc: Seq<(Seq<u8>, Bencode)>,
)
    requires
        0 <= pos,
        0 <= depth,
        keys_increase(acc + entries),
        forall|i: int| 0 <= i < entries.len() ==> canonical(#[trigger] entries[i].1) && fits(entries[i].1, depth),
        prefix_at(enc_dict(entries) + seq![101u8], s, pos),
    ensures
        lenient_dict(s, pos, depth, acc) == Some((Bencode::Dict(acc + entries), pos + enc_dict(entries).len() + 1)),
    decreases entries,
{
    let l = enc_dict(entries);
    lemma_split_at(l, seq![101u8], s, pos);
    if entries.len() == 0 {
        lemma_at(seq![101u8], s, pos, 0);
        assert(acc + entries =~= acc);
    } else {
        let key = enc_bytes(entries[0].0);
        let value = enc(entries[0].1);
        let rest = entries.subrange(1, entries.len() as int);
        assert(l == key + value + enc_dict(rest));
        assert(l + seq![101u8] =~= key + (value + (enc_dict(rest) + seq![101u8])));
        lemma_split_at(key, value + (enc_dict(rest) + seq![101u8]), s, pos);
        lemma_split_at(value, enc_dict(rest) + seq![101u8], s, pos + key.len());
        lemma_digit_seq(entries[0].0.len());
        lemma_at(key, s, pos, 0);
        assert(key[0] == digit_seq(entries[0].0.len())[0]);
        lemma_lenient_bytes(entries[0].0, s, pos);
        assert(decreases_to!(entries => entries[0]));
        lemma_enc_shape(entries[0].1);
        lemma_lenient_value(entries[0].1, s, pos + key.len(), depth);
        let all = acc + entries;
        lemma_keys_sorted(all);
        assert forall|i: int| 0 <= i < acc.len() implies lex_lt(#[trigger] acc[i].0, entries[0].0) by {
            assert(all[i] == acc[i]);
            assert(all[acc.len() as int] == entries[0]);
        }
        lemma_insert_last(acc, entries[0].0, entries[0].1);
        assert(acc.push(entries[0]) + rest =~= all);
        assert forall|i: int| 0 <= i < rest.len() implies canonical(#[trigger] rest[i].1) && fits(rest[i].1, depth) by {
            assert(rest[i] == entries[i + 1]);
        }
        lemma_lenient_entries(rest, s, pos + key.len() + value.len(), depth, acc.push(entries[0]));
    }
}

/// Lenient reading accepts every valid encoding, and reads it as the
/// strict reading does: what decodes to a value also reads leniently as
/// that value.
pub proof fn law_lenient_accepts_canonical(s: Seq<u8>, b: Bencode)
    requires
        decodes_to(s, b),
    ensures
        lenient_decoding(s) == Some(b),
{
    assert(s.subrange(0, s.len() as int) =~= s);
    lemma_lenient_value(b, s, 0, 0);
}

pub(crate) proof fn lemma_run_end(s: Seq<u8>, start: int, p: int)
    requires
        0 <= start <= p <= s.len(),
        all_digits(s.subrange(start, p)),
        p < s.len() ==> !is_digit(s[p]),
    ensures
        run_end(s, start) == p,
    decreases p - start,
{
    if start < p {
        assert(s[start] == s.subrange(start, p)[0]);
        assert(all_digits(s.subrange(start + 1, p))) by {
            assert forall|i: int| 0 <= i < p - start - 1 implies is_digit(#[trigger] s.subrange(start + 1, p)[i]) by {
                assert(s.subrange(start + 1, p)[i] == s.subrange(start, p)[i + 1]);
            }
        }
        lemma_run_end(s, start + 1, p);
    }
}

proof fn lemma_dict_insert(es: Seq<(Seq<u8>, Bencode)>, k: Seq<u8>, v: Bencode)
    requires
        keys_increase(es),
    ensures
        keys_increase(dict_insert(es, k, v)),
        forall|k2: Seq<u8>| #[trigger] lookup(dict_insert(es, k, v), k2) == if k2 == k {
            Some(v)
        } else {
            lookup(es, k2)
        },
        dict_insert(es, k, v).len() > 0,
        es.len() > 0 ==> (dict_insert(es, k, v)[0].0 == k || dict_insert(es, k, v)[0].0 == es[0].0),
    decreases es.len(),
{
    let r = dict_insert(es, k, v);
    if es.len() == 0 {
        assert forall|k2: Seq<u8>| #[trigger] lookup(r, k2) == if k2 == k {
            Some(v)
        } else {
            lookup(es, k2)
        } by {
            assert(r == seq![(k, v)]);
            assert(r[0] == (k, v));
            assert(r.subrange(1, r.len() as int) =~= Seq::<(Seq<u8>, Bencode)>::empty());
            assert(lookup(Seq::<(Seq<u8>, Bencode)>::empty(), k2) is None);
        }
    } else {
        let t = es.subrange(1, es.len() as int);
        assert(keys_increase(t)) by {
            assert forall|i: int| 0 < i < t.len() implies lex_lt(t[i - 1].0, #[trigger] t[i].0) by {
                assert(t[i] == es[i + 1] && t[i - 1] == es[i]);
            }
        }
        if es[0].0 == k {
            assert forall|i: int| 0 < i < r.len() implies lex_lt(r[i - 1].0, #[trigger] r[i].0) by {
                if i == 1 {
                    assert(r[1] == es[1]);
                } else {
                    assert(r[i] == es[i] && r[i - 1] == es[i - 1]);
                }
            }
            assert forall|k2: Seq<u8>| #[trigger] lookup(r, k2) == if k2 == k {
                Some(v)
            } else {
                lookup(es, k2)
            } by {
                assert(r.subrange(1, r.len() as int) =~= t);
            }
        } else if lex_lt(k, es[0].0) {
            assert forall|i: int| 0 < i < r.len() implies lex_lt(r[i - 1].0, #[trigger] r[i].0) by {
                if i > 1 {
                    assert(r[i] == es[i - 1] && r[i - 1] == es[i - 2]);
                }
            }
            assert forall|k2: Seq<u8>| #[trigger] lookup(r, k2) == if k2 == k {
                Some(v)
            } else {
                lookup(es, k2)
            } by {
                assert(r.subrange(1, r.len() as int) =~= es);
                if k2 == k {
                } else if k2 == es[0].0 {
                }
            }
        } else {
            lemma_dict_insert(t, k, v);
            let rt = dict_insert(t, k, v);
            crate::bencode_spec::lemma_lex_total(k, es[0].0);
            assert forall|i: int| 0 < i < r.len() implies lex_lt(r[i - 1].0, #[trigger] r[i].0) by {
                if i == 1 {
                    assert(r[1] == rt[0]);
                    if rt[0].0 == k {
                    } else {
                        assert(rt[0].0 == t[0].0);
                        assert(t[0] == es[1]);
                    }
                } else {
                    assert(r[i] == rt[i - 1] && r[i - 1] == rt[i - 2]);
                }
            }
            assert forall|k2: Seq<u8>| #[trigger] lookup(r, k2) == if k2 == k {
                Some(v)
            } else {
                lookup(es, k2)
            } by {
                assert(r.subrange(1, r.len() as int) =~= rt);
                assert(lookup(rt, k2) == if k2 == k {
                    Some(v)
                } else {
                    lookup(t, k2)
                });
            }
        }
    }
}

/// Reads an integer at `pos`, which holds `i`.
fn read_int(input: &[u8], pos: usize) -> (r: Option<(i64, usize)>)
    requires
        pos < input@.len(),
    ensures
        match r {
            Some((n, e)) => lenient_int(input@, pos as int) == Some((n as int, e as int)),
            None => lenient_int(input@, pos as int) is None,
        },
{
    let ghost s = input@;
    let neg = input.len() - pos > 1 && input[pos + 1] == 45u8;
    let start = if neg {
        pos + 2
    } else {
        pos + 1
    };
    if start > input.len() {
        proof {
            assert(run_end(s, start as int) == start);
        }
        return None;
    }
    let e = scan_digits(input, start);
    proof {
        lemma_run_end(s, start as int, e as int);
    }
    if e == start || e >= input.len() || input[e] != 101u8 {
        return None;
    }
    if neg {
        match digits_to_u128(input, start, e, 0x8000_0000_0000_0000) {
            Some(m) => {
                let n: i64 = if m == 0x8000_0000_0000_0000 {
                    i64::MIN
                } else {
                    -(m as i64)
                };
                Some((n, e + 1))
            },
            None => None,
        }
    } else {
        match digits_to_u128(input, start, e, 0x7FFF_FFFF_FFFF_FFFF) {
            Some(m) => Some((m as i64, e + 1)),
            None => None,
        }
    }
}

/// Reads a byte string at `pos`.
fn read_bytes(input: &[u8], pos: usize) -> (r: Option<(Vec<u8>, usize)>)
    requires
        pos <= input@.len(),
    ensures
        match r {
            Some((b, e)) => lenient_bytes(input@, pos as int) == Some((b@, e as int)),
            None => lenient_bytes(input@, pos as int) is None,
        },
{
    let ghost s = input@;
    let e = scan_digits(input, pos);
    proof {
        lemma_run_end(s, pos as int, e as int);
    }
    if e == pos || e >= input.len() || input[e] != 58u8 {
        return None;
    }
    let room = (input.len() - e - 1) as u64;
    match digits_to_u128(input, pos, e, room as u128) {
        Some(n) => {
            let end = e + 1 + n as usize;
            Some((crate::wire::copy_range(input, e + 1, end), end))
        },
        None => None,
    }
}

/// Reads a value at `pos`, at depth `depth`.
fn read_value(input: &[u8], pos: usize, depth: usize) -> (r: Option<(Value, usize)>)
    requires
        pos <= input@.len(),
    ensures
        match r {
            Some((v, e)) => lenient_value(input@, pos as int, depth as int) == Some((v@, e as int)) && e <= input@.len(),
            None => lenient_value(input@, pos as int, depth as int) is None,
        },
    decreases input@.len() - pos, 1int,
{
    if depth > MAX_DEPTH || pos >= input.len() {
        return None;
    }
    let c = input[pos];
    if c == 105u8 {
        match read_int(input, pos) {
            Some((n, e)) => Some((Value::Int(n), e)),
            None => None,
        }
    } else if c == 108u8 {
        read_list(input, pos + 1, depth + 1)
    } else if c == 100u8 {
        read_dict(input, pos + 1, depth + 1)
    } else if 48u8 <= c && c <= 57u8 {
        match read_bytes(input, pos) {
            Some((b, e)) => Some((Value::Bytes(b), e)),
            None => None,
        }
    } else {
        None
    }
}

/// Reads the items of a list from `pos` to its `e`.
fn read_list(input: &[u8], pos: usize, depth: usize) -> (r: Option<(Value, usize)>)
    requires
        pos <= input@.len(),
        depth <= MAX_DEPTH + 1,
    ensures
        match r {
            Some((v, e)) => lenient_list(input@, pos as int, depth as int, Seq::empty()) == Some((v@, e as int)) && e <= input@.len(),
            None => lenient_list(input@, pos as int, depth as int, Seq::empty()) is None,
        },
    decreases input@.len() - pos, 2int,
{
    let ghost s = input@;
    let mut items: Vec<Value> = Vec::new();
    let mut p = pos;
    proof {
        assert(items_model(items@) =~= Seq::<Bencode>::empty());
    }
    while p < input.len() && input[p] != 101u8
        invariant
            pos <= p <= input@.len(),
            s == input@,
            lenient_list(s, pos as int, depth as int, Seq::empty()) == lenient_list(s, p as int, depth as int, items_model(items@)),
        decreases input@.len() - p,
    {
        match read_value(input, p, depth) {
            Some((v, e)) => {
                if e <= p {
                    return None;
                }
                let ghost before = items_model(items@);
                items.push(v);
                proof {
                    assert(items_model(items@) =~= before.push(v@));
                }
                p = e;
            },
            None => {
                return None;
            },
        }
    }
    if p >= input.len() {
        return None;
    }
    proof {
        assert(Value::List(items)@->List_0 =~= items_model(items@));
    }
    Some((Value::List(items), p + 1))
}

/// Reads the entries of a dictionary from `pos` to its `e`.
fn read_dict(input: &[u8], pos: usize, depth: usize) -> (r: Option<(Value, usize)>)
    requires
        pos <= input@.len(),
        depth <= MAX_DEPTH + 1,
    ensures
        match r {
            Some((v, e)) => lenient_dict(input@, pos as int, depth as int, Seq::empty()) == Some((v@, e as int)) && e <= input@.len(),
            None => lenient_dict(input@, pos as int, depth as int, Seq::empty()) is None,
        },
    decreases input@.len() - pos, 2int,
{
    let ghost s = input@;
    let mut map = Dict::new();
    let mut p = pos;
    while p < input.len() && input[p] != 101u8
        invariant
            pos <= p <= input@.len(),
            s == input@,
            keys_increase(map@),
            lenient_dict(s, pos as int, depth as int, Seq::empty()) == lenient_dict(s, p as int, depth as int, map@),
        decreases input@.len() - p,
    {
        if !(48u8 <= input[p] && input[p] <= 57u8) {
            return None;
        }
        let (key, e1) = match read_bytes(input, p) {
            Some(x) => x,
            None => {
                return None;
            },
        };
        if e1 <= p {
            return None;
        }
        let (value, e2) = match read_value(input, e1, depth) {
            Some(x) => x,
            None => {
                return None;
            },
        };
        if e2 <= e1 {
            return None;
        }
        let ghost before = map@;
        let ghost kv = (key@, value@);
        map.insert(key, value);
        proof {
            lemma_dict_insert(before, kv.0, kv.1);
            lemma_lookup_extensional(map@, dict_insert(before, kv.0, kv.1));
        }
        p = e2;
    }
    if p >= input.len() {
        return None;
    }
    Some((Value::Dict(map), p + 1))
}

/// Decodes `input` leniently: keys in any order, the last of equal keys
/// winning, and numbers with leading zeros, but otherwise well formed and
/// with nothing after the value.
pub fn decode_lenient(input: &[u8]) -> (r: Result<Value, Error>)
    ensures
        match r {
            Ok(v) => lenient_decoding(input@) == Some(v@),
            Err(e) => lenient_decoding(input@) is None && (e == Error::TrailingData <==> lenient_value(input@, 0, 0) is Some),
        },
{
    match read_value(input, 0, 0) {
        Some((v, e)) => {
            if e == input.len() {
                Ok(v)
            } else {
                Err(Error::TrailingData)
            }
        },
        None => Err(Error::Malformed),
    }
}

} // verus!
