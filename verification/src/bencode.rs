//! Bencoding: decoding checks canonical form strictly, encoding writes it.
use vstd::prelude::*;
use crate::wire::{bytes_eq, copy_range, push_all, push_decimal};
pub use crate::lenient::decode_lenient;
use crate::bencode_spec::{
    bytes_at, dict_at, int_at, list_at,
    lemma_digits_value_grows,
    keys_increase, keys_sorted, lemma_keys_sorted, lemma_lex_total, lemma_lex_transitive,
    lemma_lookup_at, lemma_lookup_some, lookup,
    abs, all_digits, canonical, canonical_digits, decodes_to, digit_seq, digits_value, enc,
    enc_bytes, enc_dict, enc_list, first_byte_ok, fits, int_text, is_digit, lemma_canonical_digits,
    lemma_digit_seq, lemma_digits_value_push, lemma_enc_dict_push, lemma_enc_dict_split,
    lemma_enc_list_push, lemma_enc_list_split, lemma_enc_shape, lemma_enc_unique, lex_lt, ok_at,
    prefix_at, Bencode, MAX_DEPTH,
};

verus! {

/// A decoded bencoded value.
#[derive(Debug, PartialEq, Eq)]
pub enum Value {
    Bytes(Vec<u8>),
    Int(i64),
    List(Vec<Value>),
    Dict(Dict),
}

/// A dictionary. Its entries are kept with their keys in strictly increasing
/// byte order, so each key occurs once.
#[derive(Debug, PartialEq, Eq)]
pub struct Dict {
    entries: Vec<(Vec<u8>, Value)>,
}

#[derive(Debug, Clone, Copy, PartialEq, Eq)]
pub enum Error {
    UnexpectedEnd,
    UnexpectedByte(u8),
    BadInteger,
    BadLength,
    NonStringKey,
    UnsortedOrDuplicateKey,
    TrailingData,
    TooDeep,
    /// Not a value even when read leniently.
    Malformed,
}

/// The mathematical value that an exec value stands for.
pub open spec fn model(v: Value) -> Bencode
    decreases v,
{
    match v {
        Value::Bytes(b) => Bencode::Bytes(b@),
        Value::Int(n) => Bencode::Int(n as int),
        Value::List(items) => Bencode::List(
            Seq::new(
                items@.len(),
                |i: int|
                    if 0 <= i < items@.len() {
                        model(items@[i])
                    } else {
                        Bencode::Int(0)
                    },
            ),
        ),
        Value::Dict(d) => Bencode::Dict(d.model_entries()),
    }
}

impl Dict {
    /// The entries as keys and mathematical values, in order.
    pub closed spec fn model_entries(self) -> Seq<(Seq<u8>, Bencode)>
        decreases self,
    {
        Seq::new(
            self.entries@.len(),
            |i: int|
                if 0 <= i < self.entries@.len() {
                    (self.entries@[i].0@, model(self.entries@[i].1))
                } else {
                    (Seq::empty(), Bencode::Int(0))
                },
        )
    }

    #[verifier::type_invariant]
    closed spec fn keys_in_order(self) -> bool {
        forall|i: int|
            0 < i < self.entries@.len() ==> lex_lt(
                self.entries@[i - 1].0@,
                #[trigger] self.entries@[i].0@,
            )
    }
}

impl View for Dict {
    type V = Seq<(Seq<u8>, Bencode)>;

    open spec fn view(&self) -> Seq<(Seq<u8>, Bencode)> {
        self.model_entries()
    }
}

/// The mathematical values of a list's items.
pub open spec fn items_model(items: Seq<Value>) -> Seq<Bencode> {
    Seq::new(items.len(), |i: int| items[i]@)
}

impl View for Value {
    type V = Bencode;

    open spec fn view(&self) -> Bencode {
        model(*self)
    }
}

impl Value {
    /// A copy of the value, equal to it in every part.
    pub fn deep_clone(&self) -> (r: Value)
        ensures
            r@ == self@,
        decreases self,
    {
        match self {
            Value::Bytes(b) => {
                let c = copy_range(b.as_slice(), 0, b.len());
                proof {
                    assert(c@ =~= b@);
                }
                Value::Bytes(c)
            },
            Value::Int(n) => Value::Int(*n),
            Value::List(items) => {
                let mut out: Vec<Value> = Vec::new();
                let mut i: usize = 0;
                while i < items.len()
                    invariant
                        *self is List,
                        self->List_0 == *items,
                        i <= items.len(),
                        out@.len() == i,
                        forall|j: int| 0 <= j < i ==> (#[trigger] out@[j])@ == items@[j]@,
                    decreases items.len() - i,
                {
                    proof {
                        assert(decreases_to!(*self => self->List_0));
                        assert(decreases_to!(items => items@));
                        assert(decreases_to!(items@ => items@[i as int]));
                    }
                    let x = items[i].deep_clone();
                    out.push(x);
                    i = i + 1;
                }
                let r = Value::List(out);
                proof {
                    assert(r@->List_0 =~= self@->List_0);
                }
                r
            },
            Value::Dict(d) => {
                proof {
                    assert(decreases_to!(*self => self->Dict_0));
                }
                Value::Dict(d.deep_clone())
            },
        }
    }
}

impl Clone for Value {
    fn clone(&self) -> (r: Self)
        ensures
            r@ == self@,
    {
        self.deep_clone()
    }
}

impl Dict {
    /// The keys of the exec entries increase.
    proof fn lemma_model_keys(self)
        requires
            self.keys_in_order(),
        ensures
            keys_increase(self@),
            self@.len() == self.entries@.len(),
            forall|i: int| 0 <= i < self@.len() ==> #[trigger] self@[i] == (self.entries@[i].0@, self.entries@[i].1@),
    {
        assert forall|i: int| 0 < i < self@.len() implies lex_lt(self@[i - 1].0, #[trigger] self@[i].0) by {
            assert(self@[i].0 == self.entries@[i].0@);
            assert(self@[i - 1].0 == self.entries@[i - 1].0@);
        }
    }

    /// An empty dictionary.
    pub fn new() -> (d: Dict)
        ensures
            d@ == Seq::<(Seq<u8>, Bencode)>::empty(),
    {
        let d = Dict { entries: Vec::new() };
        proof {
            assert(d@ =~= Seq::<(Seq<u8>, Bencode)>::empty());
        }
        d
    }

    /// The number of entries.
    pub fn len(&self) -> (n: usize)
        ensures
            n == self@.len(),
            keys_increase(self@),
    {
        proof {
            use_type_invariant(self);
            self.lemma_model_keys();
        }
        self.entries.len()
    }

    pub fn is_empty(&self) -> (r: bool)
        ensures
            r == (self@.len() == 0),
    {
        self.entries.len() == 0
    }

    /// The entries, in the order of their keys.
    pub fn entries(&self) -> (r: &[(Vec<u8>, Value)])
        ensures
            r@.len() == self@.len(),
            forall|i: int| 0 <= i < r@.len() ==> (#[trigger] r@[i]).0@ == self@[i].0 && r@[i].1@ == self@[i].1,
            keys_increase(self@),
    {
        proof {
            use_type_invariant(self);
            self.lemma_model_keys();
        }
        self.entries.as_slice()
    }

    /// The value stored under `key`, if any.
    pub fn get(&self, key: &[u8]) -> (r: Option<&Value>)
        ensures
            match r {
                Some(v) => lookup(self@, key@) == Some(v@),
                None => lookup(self@, key@) is None,
            },
            keys_increase(self@),
    {
        proof {
            use_type_invariant(self);
            self.lemma_model_keys();
        }
        let mut i: usize = 0;
        while i < self.entries.len()
            invariant
                i <= self.entries@.len(),
                keys_increase(self@),
                self@.len() == self.entries@.len(),
                forall|j: int| 0 <= j < self@.len() ==> #[trigger] self@[j] == (self.entries@[j].0@, self.entries@[j].1@),
                forall|j: int| 0 <= j < i ==> #[trigger] self@[j].0 != key@,
            decreases self.entries.len() - i,
        {
            if bytes_eq(self.entries[i].0.as_slice(), key) {
                proof {
                    assert(self@[i as int].0 == key@);
                    lemma_lookup_at(self@, i as int);
                }
                return Some(&self.entries[i].1);
            }
            i = i + 1;
        }
        proof {
            lemma_lookup_some(self@, key@);
        }
        None
    }

    /// The integer stored under `key`, if an integer is stored there.
    pub fn get_int(&self, key: &[u8]) -> (r: Option<i64>)
        ensures
            match r {
                Some(n) => int_at(self@, key@) == Some(n as int),
                None => int_at(self@, key@) is None,
            },
    {
        match self.get(key) {
            Some(Value::Int(n)) => Some(*n),
            _ => None,
        }
    }

    /// The byte string stored under `key`, if one is stored there.
    pub fn get_bytes(&self, key: &[u8]) -> (r: Option<&Vec<u8>>)
        ensures
            match r {
                Some(b) => bytes_at(self@, key@) == Some(b@),
                None => bytes_at(self@, key@) is None,
            },
    {
        match self.get(key) {
            Some(Value::Bytes(b)) => Some(b),
            _ => None,
        }
    }

    /// The dictionary stored under `key`, if one is stored there.
    pub fn get_dict(&self, key: &[u8]) -> (r: Option<&Dict>)
        ensures
            match r {
                Some(d) => dict_at(self@, key@) == Some(d@),
                None => dict_at(self@, key@) is None,
            },
    {
        match self.get(key) {
            Some(Value::Dict(d)) => Some(d),
            _ => None,
        }
    }

    /// The list stored under `key`, if one is stored there.
    pub fn get_list(&self, key: &[u8]) -> (r: Option<&Vec<Value>>)
        ensures
            match r {
                Some(l) => list_at(self@, key@) == Some(items_model(l@)),
                None => list_at(self@, key@) is None,
            },
    {
        match self.get(key) {
            Some(Value::List(l)) => {
                proof {
                    assert(Value::List(*l)@->List_0 =~= items_model(l@));
                }
                Some(l)
            },
            _ => None,
        }
    }

    /// Whether some entry has `key`.
    pub fn contains_key(&self, key: &[u8]) -> (r: bool)
        ensures
            r == (lookup(self@, key@) is Some),
    {
        self.get(key).is_some()
    }

    /// Stores `value` under `key`, in place of what was stored there.
    pub fn insert(&mut self, key: Vec<u8>, value: Value)
        ensures
            keys_increase(final(self)@),
            forall|k: Seq<u8>|
                #[trigger] lookup(final(self)@, k) == if k == key@ {
                    Some(value@)
                } else {
                    lookup(old(self)@, k)
                },
    {
        proof {
            use_type_invariant(&*self);
            self.lemma_model_keys();
            lemma_keys_sorted(self@);
        }
        let ghost old_m = self@;
        let n = self.entries.len();
        let mut i: usize = 0;
        while i < n && bytes_lt(self.entries[i].0.as_slice(), key.as_slice())
            invariant
                i <= n == self.entries@.len(),
                self@ == old_m,
                keys_increase(old_m),
                keys_sorted(old_m),
                old_m.len() == n,
                forall|j: int| 0 <= j < n ==> #[trigger] old_m[j] == (self.entries@[j].0@, self.entries@[j].1@),
                forall|j: int| 0 <= j < i ==> lex_lt(#[trigger] old_m[j].0, key@),
            decreases n - i,
        {
            i = i + 1;
        }
        // Every entry from `i` on sorts at or after `key`.
        proof {
            assert forall|j: int| i <= j < n implies !lex_lt(#[trigger] old_m[j].0, key@) by {
                if j > i {
                    if lex_lt(old_m[j].0, key@) {
                        assert(!lex_lt(old_m[i as int].0, key@));
                        assert(lex_lt(old_m[i as int].0, old_m[j].0));
                        lemma_lex_transitive(old_m[i as int].0, old_m[j].0, key@);
                    }
                }
            }
        }
        let ghost kv = (key@, value@);
        let ghost old_entries = self.entries@;
        let mut entries: Vec<(Vec<u8>, Value)> = Vec::new();
        std::mem::swap(&mut entries, &mut self.entries);
        if i < n && bytes_eq(entries[i].0.as_slice(), key.as_slice()) {
            entries.set(i, (key, value));
            proof {
                assert(entries@ == old_entries.update(i as int, (key, value)));
                assert forall|j: int| 0 < j < entries@.len() implies lex_lt(
                    entries@[j - 1].0@,
                    #[trigger] entries@[j].0@,
                ) by {
                    assert(old_m[j].0 == old_entries[j].0@);
                    assert(old_m[j - 1].0 == old_entries[j - 1].0@);
                }
            }
            self.entries = entries;
            proof {
                let m = self@;
                assert(m =~= old_m.update(i as int, kv));
                self.lemma_model_keys();
                lemma_insert_lookup_update(old_m, i as int, kv);
            }
        } else {
            proof {
                assert forall|j: int| i <= j < n implies lex_lt(key@, #[trigger] old_m[j].0) by {
                    if j == i {
                        lemma_lex_total(key@, old_m[j].0);
                    } else {
                        assert(lex_lt(old_m[i as int].0, old_m[j].0));
                        if !lex_lt(key@, old_m[i as int].0) {
                            lemma_lex_total(key@, old_m[i as int].0);
                        }
                        lemma_lex_transitive(key@, old_m[i as int].0, old_m[j].0);
                    }
                }
            }
            entries.insert(i, (key, value));
            proof {
                assert(entries@ == old_entries.insert(i as int, (key, value)));
                assert forall|j: int| 0 < j < entries@.len() implies lex_lt(
                    entries@[j - 1].0@,
                    #[trigger] entries@[j].0@,
                ) by {
                    if j < i {
                        assert(old_m[j].0 == old_entries[j].0@);
                        assert(old_m[j - 1].0 == old_entries[j - 1].0@);
                    } else if j == i {
                        assert(old_m[j - 1].0 == old_entries[j - 1].0@);
                    } else if j == i + 1 {
                        assert(old_m[j - 1].0 == old_entries[j - 1].0@);
                    } else {
                        assert(old_m[j - 1].0 == old_entries[j - 1].0@);
                        assert(old_m[j - 2].0 == old_entries[j - 2].0@);
                    }
                }
            }
            self.entries = entries;
            proof {
                let m = self@;
                assert(m =~= old_m.insert(i as int, kv));
                self.lemma_model_keys();
                lemma_insert_lookup_insert(old_m, i as int, kv);
            }
        }
    }

    /// A copy of the dictionary, equal to it in every part.
    pub fn deep_clone(&self) -> (r: Dict)
        ensures
            r@ == self@,
        decreases self,
    {
        proof {
            use_type_invariant(self);
        }
        let mut out: Vec<(Vec<u8>, Value)> = Vec::new();
        let mut i: usize = 0;
        while i < self.entries.len()
            invariant
                self.keys_in_order(),
                i <= self.entries.len(),
                out@.len() == i,
                forall|j: int|
                    0 <= j < i ==> (#[trigger] out@[j]).0@ == self.entries@[j].0@ && out@[j].1@
                        == self.entries@[j].1@,
            decreases self.entries.len() - i,
        {
            proof {
                assert(decreases_to!(*self => self.entries));
                assert(decreases_to!(self.entries => self.entries@));
                assert(decreases_to!(self.entries@ => self.entries@[i as int]));
                assert(decreases_to!(self.entries@[i as int] => self.entries@[i as int].1));
            }
            let k = copy_range(self.entries[i].0.as_slice(), 0, self.entries[i].0.len());
            let x = self.entries[i].1.deep_clone();
            proof {
                assert(k@ =~= self.entries@[i as int].0@);
            }
            out.push((k, x));
            i = i + 1;
        }
        let r = Dict { entries: out };
        proof {
            assert(r@ =~= self@);
        }
        r
    }
}

/// Replacing the entry at `i` by one with the same key changes only what
/// that key looks up.
proof fn lemma_insert_lookup_update(es: Seq<(Seq<u8>, Bencode)>, i: int, kv: (Seq<u8>, Bencode))
    requires
        keys_increase(es),
        0 <= i < es.len(),
        es[i].0 == kv.0,
    ensures
        keys_increase(es.update(i, kv)),
        forall|k: Seq<u8>|
            #[trigger] lookup(es.update(i, kv), k) == if k == kv.0 {
                Some(kv.1)
            } else {
                lookup(es, k)
            },
{
    let m = es.update(i, kv);
    assert forall|j: int| 0 < j < m.len() implies lex_lt(m[j - 1].0, #[trigger] m[j].0) by {
        assert(m[j].0 == es[j].0 && m[j - 1].0 == es[j - 1].0);
    }
    assert forall|k: Seq<u8>|
        #[trigger] lookup(m, k) == if k == kv.0 {
            Some(kv.1)
        } else {
            lookup(es, k)
        } by {
        if k == kv.0 {
            lemma_lookup_at(m, i);
        } else {
            lemma_lookup_some(m, k);
            lemma_lookup_some(es, k);
            if lookup(es, k) is Some {
                let j = choose|j: int| 0 <= j < es.len() && #[trigger] es[j].0 == k && lookup(es, k) == Some(es[j].1);
                assert(m[j] == es[j]);
                lemma_lookup_at(m, j);
            } else if lookup(m, k) is Some {
                let j = choose|j: int| 0 <= j < m.len() && #[trigger] m[j].0 == k && lookup(m, k) == Some(m[j].1);
                assert(m[j] == es[j]);
            }
        }
    }
}

/// Inserting an entry whose key sorts between its neighbours adds that key
/// and changes nothing else.
proof fn lemma_insert_lookup_insert(es: Seq<(Seq<u8>, Bencode)>, i: int, kv: (Seq<u8>, Bencode))
    requires
        keys_increase(es),
        0 <= i <= es.len(),
        forall|j: int| 0 <= j < i ==> lex_lt(#[trigger] es[j].0, kv.0),
        forall|j: int| i <= j < es.len() ==> lex_lt(kv.0, #[trigger] es[j].0),
    ensures
        keys_increase(es.insert(i, kv)),
        forall|k: Seq<u8>|
            #[trigger] lookup(es.insert(i, kv), k) == if k == kv.0 {
                Some(kv.1)
            } else {
                lookup(es, k)
            },
{
    let m = es.insert(i, kv);
    assert forall|j: int| 0 < j < m.len() implies lex_lt(m[j - 1].0, #[trigger] m[j].0) by {
        if j < i {
            assert(m[j] == es[j] && m[j - 1] == es[j - 1]);
        } else if j == i {
            assert(m[j - 1] == es[j - 1]);
        } else if j == i + 1 {
            assert(m[j] == es[j - 1]);
        } else {
            assert(m[j] == es[j - 1] && m[j - 1] == es[j - 2]);
        }
    }
    assert forall|k: Seq<u8>|
        #[trigger] lookup(m, k) == if k == kv.0 {
            Some(kv.1)
        } else {
            lookup(es, k)
        } by {
        if k == kv.0 {
            assert(m[i] == kv);
            lemma_lookup_at(m, i);
        } else {
            lemma_lookup_some(m, k);
            lemma_lookup_some(es, k);
            if lookup(es, k) is Some {
                let j = choose|j: int| 0 <= j < es.len() && #[trigger] es[j].0 == k && lookup(es, k) == Some(es[j].1);
                if j < i {
                    assert(m[j] == es[j]);
                    lemma_lookup_at(m, j);
                } else {
                    assert(m[j + 1] == es[j]);
                    lemma_lookup_at(m, j + 1);
                }
            } else if lookup(m, k) is Some {
                let j = choose|j: int| 0 <= j < m.len() && #[trigger] m[j].0 == k && lookup(m, k) == Some(m[j].1);
                if j < i {
                    assert(m[j] == es[j]);
                } else if j > i {
                    assert(m[j] == es[j - 1]);
                }
            }
        }
    }
}

/// What parsing one value at `pos` in `s`, at nesting depth `depth`,
/// promises: the value read and where it ends, or that no valid value
/// starts there.
pub open spec fn parsed(s: Seq<u8>, pos: int, depth: int, r: Result<(Value, usize), Error>) -> bool {
    match r {
        Ok((v, end)) => end == pos + enc(v@).len() && ok_at(v@, s, pos, depth),
        Err(e) => e != Error::TrailingData && e == value_error(s, pos, depth) && forall|b: Bencode|
            !ok_at(b, s, pos, depth),
    }
}

/// The last key of `entries`, if any.
pub open spec fn last_key(entries: Seq<(Seq<u8>, Bencode)>) -> Option<Seq<u8>> {
    if entries.len() == 0 {
        None
    } else {
        Some(entries.last().0)
    }
}

/// Which error decoding reports for a value at `pos` of `s`, `depth`
/// levels below the top, where none is to be read there: nesting too deep
/// first, then the input ending, then what the first byte starts.
pub open spec fn value_error(s: Seq<u8>, pos: int, depth: int) -> Error
    decreases s.len() - pos, 0int,
{
    if depth > MAX_DEPTH {
        Error::TooDeep
    } else if pos < 0 || pos >= s.len() {
        Error::UnexpectedEnd
    } else if s[pos] == 105 {
        int_error(s, pos)
    } else if s[pos] == 108 {
        list_error(s, pos + 1, depth)
    } else if s[pos] == 100 {
        dict_error(s, pos + 1, depth, None)
    } else if is_digit(s[pos]) {
        bytes_error(s, pos)
    } else {
        Error::UnexpectedByte(s[pos])
    }
}

/// The error for an integer at `pos` that does not read: the input ends
/// within its digits, else it is malformed.
pub open spec fn int_error(s: Seq<u8>, pos: int) -> Error {
    if pos + 1 >= s.len() {
        Error::UnexpectedEnd
    } else if crate::lenient::run_end(s, if s[pos + 1] == 45 {
        pos + 2
    } else {
        pos + 1
    }) >= s.len() {
        Error::UnexpectedEnd
    } else {
        Error::BadInteger
    }
}

/// The error for a string at `pos` that does not read: the input ends
/// within its length; a length not followed by `:`, with a leading zero,
/// or too large for memory; else the input ends within its bytes.
pub open spec fn bytes_error(s: Seq<u8>, pos: int) -> Error {
    let p = crate::lenient::run_end(s, pos);
    if p >= s.len() {
        Error::UnexpectedEnd
    } else if s[p] != 58 {
        Error::BadLength
    } else if p - pos > 1 && s[pos] == 48 {
        Error::BadLength
    } else if crate::bencode_spec::digits_value(s.subrange(pos, p)) > usize::MAX {
        Error::BadLength
    } else {
        Error::UnexpectedEnd
    }
}

/// The error for a list whose items from `q` on are read at `depth`: the
/// first item that does not read gives its error.
pub open spec fn list_error(s: Seq<u8>, q: int, depth: int) -> Error
    decreases s.len() - q, 1int,
{
    if q < 0 || q >= s.len() || s[q] == 101 {
        Error::UnexpectedEnd
    } else if exists|b: Bencode| #[trigger] ok_at(b, s, q, depth + 1) {
        let b = choose|b: Bencode| #[trigger] ok_at(b, s, q, depth + 1);
        proof {
            crate::bencode_spec::lemma_enc_shape(b);
        }
        list_error(s, q + enc(b).len(), depth)
    } else {
        value_error(s, q, depth + 1)
    }
}

/// The error for a dictionary whose entries from `q` on are read at
/// `depth`, after the key `last` if any: a key that does not read gives its
/// error, one that is no string `NonStringKey`, one not above `last`
/// `UnsortedOrDuplicateKey`, and a value that does not read its error.
pub open spec fn dict_error(s: Seq<u8>, q: int, depth: int, last: Option<Seq<u8>>) -> Error
    decreases s.len() - q, 1int,
{
    if q < 0 || q >= s.len() || s[q] == 101 {
        Error::UnexpectedEnd
    } else if exists|b: Bencode| #[trigger] ok_at(b, s, q, depth + 1) {
        let b = choose|b: Bencode| #[trigger] ok_at(b, s, q, depth + 1);
        proof {
            crate::bencode_spec::lemma_enc_shape(b);
        }
        if !(b is Bytes) {
            Error::NonStringKey
        } else if last is Some && !lex_lt(last->0, b->Bytes_0) {
            Error::UnsortedOrDuplicateKey
        } else {
            let q1 = q + enc(b).len();
            if exists|v: Bencode| #[trigger] ok_at(v, s, q1, depth + 1) {
                let v = choose|v: Bencode| #[trigger] ok_at(v, s, q1, depth + 1);
                proof {
                    crate::bencode_spec::lemma_enc_shape(v);
                }
                dict_error(s, q1 + enc(v).len(), depth, Some(b->Bytes_0))
            } else {
                value_error(s, q1, depth + 1)
            }
        }
    } else {
        value_error(s, q, depth + 1)
    }
}

proof fn lemma_prefix_index(e: Seq<u8>, s: Seq<u8>, pos: int, i: int)
    requires
        prefix_at(e, s, pos),
        0 <= i < e.len(),
    ensures
        s[pos + i] == e[i],
{
    assert(s.subrange(pos, pos + e.len())[i] == s[pos + i]);
}

/// Two values whose encodings both start at `pos` are the same value.
proof fn lemma_prefix_unique(a: Bencode, b: Bencode, s: Seq<u8>, pos: int)
    requires
        prefix_at(enc(a), s, pos),
        prefix_at(enc(b), s, pos),
    ensures
        a == b,
{
    let t = s.subrange(pos, s.len() as int);
    let ra = t.subrange(enc(a).len() as int, t.len() as int);
    let rb = t.subrange(enc(b).len() as int, t.len() as int);
    assert(enc(a) + ra =~= t);
    assert(enc(b) + rb =~= t);
    lemma_enc_unique(a, b, ra, rb);
}

/// A value's encoding starting at `pos` fixes the byte there.
proof fn lemma_first_byte(b: Bencode, s: Seq<u8>, pos: int)
    requires
        prefix_at(enc(b), s, pos),
    ensures
        pos < s.len(),
        s[pos] == enc(b)[0],
        first_byte_ok(s[pos]),
        s[pos] != 101,
        b is Bytes <==> is_digit(s[pos]),
        b is Int <==> s[pos] == 105,
        b is List <==> s[pos] == 108,
        b is Dict <==> s[pos] == 100,
{
    lemma_enc_shape(b);
    lemma_prefix_index(enc(b), s, pos, 0);
}

proof fn lemma_model_variant(v: Value)
    ensures
        v is Bytes <==> v@ is Bytes,
        v is Int <==> v@ is Int,
        v is List <==> v@ is List,
        v is Dict <==> v@ is Dict,
        v matches Value::Bytes(b) ==> v@ == Bencode::Bytes(b@),
{
}

pub(crate) fn is_ascii_digit(c: u8) -> (r: bool)
    ensures
        r == is_digit(c),
{
    48u8 <= c && c <= 57u8
}

/// Index of the first non-digit at or after `start`, or the end of input.
pub(crate) fn scan_digits(input: &[u8], start: usize) -> (p: usize)
    requires
        start <= input.len(),
    ensures
        start <= p <= input.len(),
        all_digits(input@.subrange(start as int, p as int)),
        p < input.len() ==> !is_digit(input@[p as int]),
{
    let mut p = start;
    while p < input.len() && is_ascii_digit(input[p])
        invariant
            start <= p <= input.len(),
            all_digits(input@.subrange(start as int, p as int)),
        decreases input.len() - p,
    {
        proof {
            assert forall|i: int| 0 <= i < p + 1 - start implies is_digit(
                #[trigger] input@.subrange(start as int, p + 1)[i],
            ) by {
                if i < p - start {
                    assert(input@.subrange(start as int, p + 1)[i] == input@.subrange(
                        start as int,
                        p as int,
                    )[i]);
                }
            }
        }
        p = p + 1;
    }
    p
}

/// A digit string written at `q` and followed by a non-digit is exactly
/// the run that `scan_digits` finds from `q`.
proof fn lemma_run_matches(s: Seq<u8>, q: int, d: Seq<u8>, p: int)
    requires
        0 <= q <= p <= s.len(),
        all_digits(s.subrange(q, p)),
        p < s.len() ==> !is_digit(s[p]),
        all_digits(d),
        q + d.len() < s.len(),
        s.subrange(q, q + d.len()) == d,
        !is_digit(s[q + d.len()]),
    ensures
        p == q + d.len(),
        s.subrange(q, p) == d,
{
    if p < q + d.len() {
        assert(s[p] == s.subrange(q, q + d.len())[p - q]);
        assert(is_digit(d[p - q]));
    }
    if p > q + d.len() {
        assert(s[q + d.len()] == s.subrange(q, p)[d.len() as int]);
    }
}

/// Accumulates the value of the digits `input[start..end]`, stopping once it
/// exceeds `limit`. Returns `None` when it does.
pub(crate) fn digits_to_u128(input: &[u8], start: usize, end: usize, limit: u128) -> (r: Option<u128>)
    requires
        start <= end <= input.len(),
        all_digits(input@.subrange(start as int, end as int)),
        limit <= u64::MAX,
    ensures
        match r {
            Some(m) => m == digits_value(input@.subrange(start as int, end as int)) && m <= limit,
            None => digits_value(input@.subrange(start as int, end as int)) > limit,
        },
{
    let mut mag: u128 = 0;
    let mut i = start;
    while i < end
        invariant
            start <= i <= end <= input.len(),
            all_digits(input@.subrange(start as int, end as int)),
            limit <= u64::MAX,
            mag == digits_value(input@.subrange(start as int, i as int)),
            mag <= limit,
        decreases end - i,
    {
        let c = input[i];
        proof {
            assert(input@.subrange(start as int, end as int)[i - start] == c);
            assert(input@.subrange(start as int, i + 1) =~= input@.subrange(start as int, i as int).push(
                c,
            ));
            lemma_digits_value_push(input@.subrange(start as int, i as int), c);
        }
        let next = mag * 10 + (c - 48u8) as u128;
        if next > limit {
            proof {
                lemma_digits_value_grows(input@.subrange(start as int, end as int), i + 1 - start);
                assert(input@.subrange(start as int, end as int).subrange(0, i + 1 - start)
                    =~= input@.subrange(start as int, i + 1));
            }
            return None;
        }
        mag = next;
        i = i + 1;
    }
    Some(mag)
}

/// Where the parts of an integer's encoding stand.
proof fn lemma_int_layout(s: Seq<u8>, pos: int, n: int)
    requires
        prefix_at(enc(Bencode::Int(n)), s, pos),
    ensures
        pos + 1 < s.len(),
        s[pos + 1] == 45 <==> n < 0,
        ({
            let q = if n < 0 {
                pos + 2
            } else {
                pos + 1
            };
            let d = digit_seq(abs(n));
            &&& q + d.len() < s.len()
            &&& s.subrange(q, q + d.len()) == d
            &&& s[q + d.len()] == 101
        }),
{
    let e = enc(Bencode::Int(n));
    let d = digit_seq(abs(n));
    lemma_digit_seq(abs(n));
    let q0 = if n < 0 {
        2int
    } else {
        1int
    };
    assert(e =~= seq![105u8] + int_text(n) + seq![101u8]);
    assert forall|i: int| 0 <= i < d.len() implies e[q0 + i] == d[i] by {
        if n < 0 {
            assert(e[q0 + i] == (seq![45u8] + d)[1 + i]);
        }
    }
    assert(e[q0 + d.len()] == 101);
    lemma_prefix_index(e, s, pos, 1);
    if n < 0 {
        assert(e[1] == 45);
    } else {
        assert(e[1] == d[0]);
    }
    lemma_prefix_index(e, s, pos, q0 + d.len());
    let q = pos + q0;
    assert forall|i: int| 0 <= i < d.len() implies s.subrange(q, q + d.len())[i] == d[i] by {
        lemma_prefix_index(e, s, pos, q0 + i);
    }
    assert(s.subrange(q, q + d.len()) =~= d);
}

/// Where the parts of a byte string's encoding stand.
proof fn lemma_bytes_layout(s: Seq<u8>, pos: int, t: Seq<u8>)
    requires
        prefix_at(enc(Bencode::Bytes(t)), s, pos),
    ensures
        ({
            let d = digit_seq(t.len());
            &&& pos + d.len() + 1 + t.len() <= s.len()
            &&& s.subrange(pos, pos + d.len()) == d
            &&& s[pos + d.len()] == 58
            &&& s.subrange(pos + d.len() + 1, pos + d.len() + 1 + t.len()) == t
        }),
{
    let e = enc(Bencode::Bytes(t));
    let d = digit_seq(t.len());
    let l = d.len() as int;
    assert(e =~= d + seq![58u8] + t);
    assert forall|i: int| 0 <= i < l implies s.subrange(pos, pos + l)[i] == d[i] by {
        lemma_prefix_index(e, s, pos, i);
    }
    assert(s.subrange(pos, pos + l) =~= d);
    lemma_prefix_index(e, s, pos, l);
    assert forall|i: int| 0 <= i < t.len() implies s.subrange(pos + l + 1, pos + l + 1 + t.len())[i]
        == t[i] by {
        lemma_prefix_index(e, s, pos, l + 1 + i);
    }
    assert(s.subrange(pos + l + 1, pos + l + 1 + t.len()) =~= t);
}

const MAGNITUDE_LIMIT: u128 = 0x8000_0000_0000_0000;

/// Reads `i<digits>e` at `pos`.
fn parse_int(input: &[u8], pos: usize) -> (r: Result<(Value, usize), Error>)
    requires
        pos < input.len(),
        input@[pos as int] == 105,
    ensures
        match r {
            Ok((v, end)) => v is Int && end == pos + enc(v@).len() && canonical(v@) && prefix_at(
                enc(v@),
                input@,
                pos as int,
            ),
            Err(e) => e != Error::TrailingData && e == int_error(input@, pos as int) && forall|n: int|
                i64::MIN <= n <= i64::MAX ==> !prefix_at(
                    #[trigger] enc(Bencode::Int(n)),
                    input@,
                    pos as int,
                ),
        },
{
    let ghost s = input@;
    if pos + 1 >= input.len() {
        proof {
            assert forall|n: int| i64::MIN <= n <= i64::MAX implies !prefix_at(
                #[trigger] enc(Bencode::Int(n)),
                s,
                pos as int,
            ) by {
                if prefix_at(enc(Bencode::Int(n)), s, pos as int) {
                    lemma_int_layout(s, pos as int, n);
                }
            }
        }
        return Err(Error::UnexpectedEnd);
    }
    let negative = input[pos + 1] == 45u8;
    let start = if negative {
        pos + 2
    } else {
        pos + 1
    };
    let p = scan_digits(input, start);
    proof {
        crate::lenient::lemma_run_end(s, start as int, p as int);
    }
    // Every integer whose encoding starts at `pos` has its digits exactly
    // in input[start..p], followed by `e`.
    proof {
        assert forall|n: int| #[trigger]
            prefix_at(enc(Bencode::Int(n)), s, pos as int) implies {
            &&& (n < 0 <==> negative)
            &&& p < s.len()
            &&& s.subrange(start as int, p as int) == digit_seq(abs(n))
            &&& s[p as int] == 101
        } by {
            lemma_int_layout(s, pos as int, n);
            lemma_digit_seq(abs(n));
            lemma_run_matches(s, start as int, digit_seq(abs(n)), p as int);
        }
    }
    if p >= input.len() {
        return Err(Error::UnexpectedEnd);
    }
    if input[p] != 101u8 {
        return Err(Error::BadInteger);
    }
    let ndig = p - start;
    if ndig == 0 {
        proof {
            assert forall|n: int| i64::MIN <= n <= i64::MAX implies !prefix_at(
                #[trigger] enc(Bencode::Int(n)),
                s,
                pos as int,
            ) by {
                lemma_digit_seq(abs(n));
            }
        }
        return Err(Error::BadInteger);
    }
    if ndig > 1 && input[start] == 48u8 {
        proof {
            assert forall|n: int| i64::MIN <= n <= i64::MAX implies !prefix_at(
                #[trigger] enc(Bencode::Int(n)),
                s,
                pos as int,
            ) by {
                lemma_digit_seq(abs(n));
                if prefix_at(enc(Bencode::Int(n)), s, pos as int) {
                    assert(s.subrange(start as int, p as int)[0] == s[start as int]);
                }
            }
        }
        return Err(Error::BadInteger);
    }
    if negative && ndig == 1 && input[start] == 48u8 {
        proof {
            assert forall|n: int| i64::MIN <= n <= i64::MAX implies !prefix_at(
                #[trigger] enc(Bencode::Int(n)),
                s,
                pos as int,
            ) by {
                lemma_digit_seq(abs(n));
                if prefix_at(enc(Bencode::Int(n)), s, pos as int) {
                    assert(s.subrange(start as int, p as int)[0] == s[start as int]);
                }
            }
        }
        return Err(Error::BadInteger);
    }
    let mag = match digits_to_u128(input, start, p, MAGNITUDE_LIMIT) {
        Some(m) => m,
        None => {
            proof {
                assert forall|n: int| i64::MIN <= n <= i64::MAX implies !prefix_at(
                    #[trigger] enc(Bencode::Int(n)),
                    s,
                    pos as int,
                ) by {
                    lemma_digit_seq(abs(n));
                }
            }
            return Err(Error::BadInteger);
        },
    };
    if !negative && mag > 0x7fff_ffff_ffff_ffff {
        proof {
            assert forall|n: int| i64::MIN <= n <= i64::MAX implies !prefix_at(
                #[trigger] enc(Bencode::Int(n)),
                s,
                pos as int,
            ) by {
                lemma_digit_seq(abs(n));
            }
        }
        return Err(Error::BadInteger);
    }
    let value: i64 = if negative {
        if mag == MAGNITUDE_LIMIT {
            i64::MIN
        } else {
            -(mag as i64)
        }
    } else {
        mag as i64
    };
    proof {
        let d = s.subrange(start as int, p as int);
        assert(d[0] == s[start as int]);
        lemma_canonical_digits(d);
        assert(abs(value as int) == mag);
        let e = enc(Bencode::Int(value as int));
        let t = s.subrange(pos as int, p + 1);
        if negative {
            assert(t =~= seq![105u8] + (seq![45u8] + d) + seq![101u8]);
        } else {
            assert(t =~= seq![105u8] + d + seq![101u8]);
        }
        assert(e =~= t);
    }
    Ok((Value::Int(value), p + 1))
}

/// Reads `<length>:<bytes>` at `pos`.
fn parse_bytes(input: &[u8], pos: usize) -> (r: Result<(Value, usize), Error>)
    requires
        pos < input.len(),
        is_digit(input@[pos as int]),
    ensures
        match r {
            Ok((v, end)) => v is Bytes && end == pos + enc(v@).len() && prefix_at(
                enc(v@),
                input@,
                pos as int,
            ),
            Err(e) => e != Error::TrailingData && e == bytes_error(input@, pos as int) && forall|t: Seq<u8>| !prefix_at(
                #[trigger] enc_bytes(t),
                input@,
                pos as int,
            ),
        },
{
    let ghost s = input@;
    let p = scan_digits(input, pos);
    proof {
        crate::lenient::lemma_run_end(s, pos as int, p as int);
    }
    proof {
        assert forall|t: Seq<u8>| #[trigger] prefix_at(enc_bytes(t), s, pos as int) implies {
            &&& p < s.len()
            &&& s.subrange(pos as int, p as int) == digit_seq(t.len())
            &&& s[p as int] == 58
            &&& p + 1 + t.len() <= s.len()
            &&& s.subrange(p + 1, p + 1 + t.len()) == t
        } by {
            assert(enc(Bencode::Bytes(t)) == enc_bytes(t));
            lemma_bytes_layout(s, pos as int, t);
            lemma_digit_seq(t.len());
            lemma_run_matches(s, pos as int, digit_seq(t.len()), p as int);
        }
    }
    if p >= input.len() {
        return Err(Error::UnexpectedEnd);
    }
    if input[p] != 58u8 {
        return Err(Error::BadLength);
    }
    let ndig = p - pos;
    if ndig > 1 && input[pos] == 48u8 {
        proof {
            assert forall|t: Seq<u8>| !prefix_at(#[trigger] enc_bytes(t), s, pos as int) by {
                lemma_digit_seq(t.len());
                if prefix_at(enc_bytes(t), s, pos as int) {
                    assert(s.subrange(pos as int, p as int)[0] == s[pos as int]);
                }
            }
        }
        return Err(Error::BadLength);
    }
    let len = match digits_to_u128(input, pos, p, usize::MAX as u128) {
        Some(m) => m as usize,
        None => {
            proof {
                assert forall|t: Seq<u8>| !prefix_at(#[trigger] enc_bytes(t), s, pos as int) by {
                    lemma_digit_seq(t.len());
                }
            }
            return Err(Error::BadLength);
        },
    };
    if input.len() - (p + 1) < len {
        proof {
            assert forall|t: Seq<u8>| !prefix_at(#[trigger] enc_bytes(t), s, pos as int) by {
                lemma_digit_seq(t.len());
            }
        }
        return Err(Error::UnexpectedEnd);
    }
    let bytes = copy_range(input, p + 1, p + 1 + len);
    proof {
        let d = s.subrange(pos as int, p as int);
        assert(d[0] == s[pos as int]);
        lemma_canonical_digits(d);
        assert(bytes@.len() == len);
        let t = s.subrange(pos as int, p + 1 + len);
        assert(t =~= d + seq![58u8] + bytes@);
        assert(enc(Bencode::Bytes(bytes@)) =~= t);
    }
    Ok((Value::Bytes(bytes), p + 1 + len))
}

/// The parse of a whole input.
fn parse_value(input: &[u8], pos: usize, depth: usize) -> (r: Result<(Value, usize), Error>)
    requires
        pos <= input.len(),
    ensures
        parsed(input@, pos as int, depth as int, r),
    decreases input.len() - pos, 1usize,
{
    let ghost s = input@;
    if depth > MAX_DEPTH {
        return Err(Error::TooDeep);
    }
    if pos >= input.len() {
        proof {
            assert forall|b: Bencode| !ok_at(b, s, pos as int, depth as int) by {
                if ok_at(b, s, pos as int, depth as int) {
                    lemma_first_byte(b, s, pos as int);
                }
            }
        }
        return Err(Error::UnexpectedEnd);
    }
    let c = input[pos];
    if c == 105u8 {
        let r = parse_int(input, pos);
        proof {
            if r is Err {
                assert forall|b: Bencode| !ok_at(b, s, pos as int, depth as int) by {
                    if ok_at(b, s, pos as int, depth as int) {
                        lemma_first_byte(b, s, pos as int);
                        let n = b->Int_0;
                        assert(enc(Bencode::Int(n)) == enc(b));
                    }
                }
            }
        }
        r
    } else if c == 108u8 {
        parse_list(input, pos, depth)
    } else if c == 100u8 {
        parse_dict(input, pos, depth)
    } else if is_ascii_digit(c) {
        let r = parse_bytes(input, pos);
        proof {
            if r is Ok {
                lemma_model_variant(r->Ok_0.0);
            } else {
                assert forall|b: Bencode| !ok_at(b, s, pos as int, depth as int) by {
                    if ok_at(b, s, pos as int, depth as int) {
                        lemma_first_byte(b, s, pos as int);
                        let t = b->Bytes_0;
                        assert(enc(b) == enc_bytes(t));
                    }
                }
            }
        }
        r
    } else {
        proof {
            assert forall|b: Bencode| !ok_at(b, s, pos as int, depth as int) by {
                if ok_at(b, s, pos as int, depth as int) {
                    lemma_first_byte(b, s, pos as int);
                }
            }
        }
        Err(Error::UnexpectedByte(c))
    }
}

/// Invariant of the list loop: every valid list whose encoding starts at
/// `pos` begins with the items read so far, and after them there is either
/// its end or its next item.
proof fn lemma_list_step(s: Seq<u8>, pos: int, depth: int, b: Bencode, gm: Seq<Bencode>, p: int)
    requires
        ok_at(b, s, pos, depth),
        b is List,
        gm.len() <= b->List_0.len(),
        b->List_0.take(gm.len() as int) == gm,
        p == pos + 1 + enc_list(gm).len(),
    ensures
        ({
            let ws = b->List_0;
            let k = gm.len() as int;
            &&& k == ws.len() ==> (p < s.len() && s[p] == 101)
            &&& k < ws.len() ==> ok_at(ws[k], s, p, depth + 1)
        }),
{
    let ws = b->List_0;
    let k = gm.len() as int;
    let e = enc(b);
    assert(e == seq![108u8] + enc_list(ws) + seq![101u8]);
    if k == ws.len() {
        assert(ws.take(k) =~= ws);
        lemma_prefix_index(e, s, pos, p - pos);
    } else {
        lemma_enc_list_split(ws, k);
        let x = enc(ws[k]);
        assert forall|i: int| 0 <= i < x.len() implies s.subrange(p, p + x.len())[i] == x[i] by {
            assert(e[p - pos + i] == x[i]);
            lemma_prefix_index(e, s, pos, p - pos + i);
        }
        assert(s.subrange(p, p + x.len()) =~= x);
        assert(canonical(ws[k]));
        assert(fits(ws[k], depth + 1));
    }
}

fn parse_list(input: &[u8], pos: usize, depth: usize) -> (r: Result<(Value, usize), Error>)
    requires
        pos < input.len(),
        input@[pos as int] == 108,
        depth <= MAX_DEPTH,
    ensures
        parsed(input@, pos as int, depth as int, r),
    decreases input.len() - pos, 0usize,
{
    let ghost s = input@;
    let mut items: Vec<Value> = Vec::new();
    let ghost mut gm: Seq<Bencode> = Seq::empty();
    let mut p = pos + 1;
    proof {
        assert(s.subrange(pos + 1, p as int) =~= enc_list(gm));
        assert forall|b: Bencode| #[trigger] ok_at(b, s, pos as int, depth as int) implies {
            &&& b is List
            &&& gm.len() <= b->List_0.len()
            &&& b->List_0.take(gm.len() as int) == gm
        } by {
            lemma_first_byte(b, s, pos as int);
            assert(b->List_0.take(0) =~= gm);
        }
    }
    loop
        invariant
            pos + 1 <= p <= input.len(),
            s == input@,
            depth <= MAX_DEPTH,
            s[pos as int] == 108,
            gm.len() == items@.len(),
            forall|i: int| 0 <= i < gm.len() ==> (#[trigger] items@[i])@ == gm[i],
            forall|i: int|
                0 <= i < gm.len() ==> canonical(#[trigger] gm[i]) && fits(gm[i], depth + 1),
            s.subrange(pos + 1, p as int) == enc_list(gm),
            list_error(s, pos + 1, depth as int) == list_error(s, p as int, depth as int),
            forall|b: Bencode| #[trigger]
                ok_at(b, s, pos as int, depth as int) ==> {
                    &&& b is List
                    &&& gm.len() <= b->List_0.len()
                    &&& b->List_0.take(gm.len() as int) == gm
                },
        decreases input.len() - p,
    {
        if p >= input.len() {
            proof {
                assert forall|b: Bencode| !ok_at(b, s, pos as int, depth as int) by {
                    if ok_at(b, s, pos as int, depth as int) {
                        lemma_list_step(s, pos as int, depth as int, b, gm, p as int);
                        let ws = b->List_0;
                        if gm.len() < ws.len() {
                            lemma_first_byte(ws[gm.len() as int], s, p as int);
                        }
                    }
                }
            }
            return Err(Error::UnexpectedEnd);
        }
        if input[p] == 101u8 {
            let ghost v = Value::List(items);
            proof {
                assert(v@ == Bencode::List(gm)) by {
                    assert(v@->List_0 =~= gm);
                }
                assert(enc(v@) == seq![108u8] + enc_list(gm) + seq![101u8]);
                assert(s.subrange(pos as int, p + 1) =~= enc(v@));
            }
            return Ok((Value::List(items), p + 1));
        }
        match parse_value(input, p, depth + 1) {
            Err(e) => {
                proof {
                    assert forall|b: Bencode| !ok_at(b, s, pos as int, depth as int) by {
                        if ok_at(b, s, pos as int, depth as int) {
                            lemma_list_step(s, pos as int, depth as int, b, gm, p as int);
                            let ws = b->List_0;
                            assert(ok_at(ws[gm.len() as int], s, p as int, depth + 1));
                        }
                    }
                    assert(!exists|b: Bencode| #[trigger] ok_at(b, s, p as int, depth + 1));
                    assert(list_error(s, p as int, depth as int) == value_error(s, p as int, depth + 1));
                }
                return Err(e);
            },
            Ok((x, p2)) => {
                proof {
                    lemma_enc_shape(x@);
                    lemma_enc_list_push(gm, x@);
                    assert forall|b: Bencode| #[trigger]
                        ok_at(b, s, pos as int, depth as int) implies {
                        &&& b is List
                        &&& gm.len() + 1 <= b->List_0.len()
                        &&& b->List_0.take(gm.len() + 1int) == gm.push(x@)
                    } by {
                        lemma_list_step(s, pos as int, depth as int, b, gm, p as int);
                        let ws = b->List_0;
                        let k = gm.len() as int;
                        if k < ws.len() {
                            lemma_prefix_unique(ws[k], x@, s, p as int);
                            assert(ws.take(k + 1) =~= ws.take(k).push(ws[k]));
                        }
                    }
                    assert(s.subrange(pos + 1, p2 as int) =~= s.subrange(pos + 1, p as int)
                        + s.subrange(p as int, p2 as int));
                    assert(ok_at(x@, s, p as int, depth + 1));
                    let c = choose|b: Bencode| #[trigger] ok_at(b, s, p as int, depth + 1);
                    lemma_prefix_unique(c, x@, s, p as int);
                    assert(list_error(s, p as int, depth as int) == list_error(s, p2 as int, depth as int));
                }
                items.push(x);
                proof {
                    gm = gm.push(x@);
                }
                p = p2;
            },
        }
    }
}

/// Byte-wise lexicographic comparison: `a` sorts strictly before `b`.
pub fn bytes_lt(a: &[u8], b: &[u8]) -> (r: bool)
    ensures
        r == lex_lt(a@, b@),
{
    let mut i: usize = 0;
    proof {
        assert(a@.subrange(0, a@.len() as int) =~= a@);
        assert(b@.subrange(0, b@.len() as int) =~= b@);
    }
    while i < a.len() && i < b.len() && a[i] == b[i]
        invariant
            i <= a.len(),
            i <= b.len(),
            lex_lt(a@, b@) == lex_lt(
                a@.subrange(i as int, a@.len() as int),
                b@.subrange(i as int, b@.len() as int),
            ),
        decreases a.len() - i,
    {
        proof {
            let x = a@.subrange(i as int, a@.len() as int);
            let y = b@.subrange(i as int, b@.len() as int);
            assert(x[0] == a@[i as int]);
            assert(y[0] == b@[i as int]);
            assert(x.subrange(1, x.len() as int) =~= a@.subrange(i + 1, a@.len() as int));
            assert(y.subrange(1, y.len() as int) =~= b@.subrange(i + 1, b@.len() as int));
        }
        i = i + 1;
    }
    let ghost x = a@.subrange(i as int, a@.len() as int);
    let ghost y = b@.subrange(i as int, b@.len() as int);
    if i == a.len() {
        i < b.len()
    } else if i == b.len() {
        false
    } else {
        proof {
            assert(x[0] == a@[i as int]);
            assert(y[0] == b@[i as int]);
        }
        a[i] < b[i]
    }
}

/// Invariant of the dictionary loop, as for lists.
proof fn lemma_dict_step(
    s: Seq<u8>,
    pos: int,
    depth: int,
    b: Bencode,
    gm: Seq<(Seq<u8>, Bencode)>,
    p: int,
)
    requires
        ok_at(b, s, pos, depth),
        b is Dict,
        gm.len() <= b->Dict_0.len(),
        b->Dict_0.take(gm.len() as int) == gm,
        p == pos + 1 + enc_dict(gm).len(),
    ensures
        ({
            let es = b->Dict_0;
            let k = gm.len() as int;
            &&& k == es.len() ==> (p < s.len() && s[p] == 101)
            &&& k < es.len() ==> {
                &&& ok_at(Bencode::Bytes(es[k].0), s, p, depth + 1)
                &&& ok_at(es[k].1, s, p + enc_bytes(es[k].0).len(), depth + 1)
                &&& k > 0 ==> lex_lt(gm[k - 1].0, es[k].0)
            }
        }),
{
    let es = b->Dict_0;
    let k = gm.len() as int;
    let e = enc(b);
    assert(e == seq![100u8] + enc_dict(es) + seq![101u8]);
    if k == es.len() {
        assert(es.take(k) =~= es);
        lemma_prefix_index(e, s, pos, p - pos);
    } else {
        lemma_enc_dict_split(es, k);
        let x = enc_bytes(es[k].0);
        let y = enc(es[k].1);
        let p1 = p + x.len();
        assert forall|i: int| 0 <= i < x.len() implies s.subrange(p, p + x.len())[i] == x[i] by {
            assert(e[p - pos + i] == x[i]);
            lemma_prefix_index(e, s, pos, p - pos + i);
        }
        assert(s.subrange(p, p + x.len()) =~= x);
        assert(enc(Bencode::Bytes(es[k].0)) == x);
        assert forall|i: int| 0 <= i < y.len() implies s.subrange(p1, p1 + y.len())[i] == y[i] by {
            assert(e[p1 - pos + i] == y[i]);
            lemma_prefix_index(e, s, pos, p1 - pos + i);
        }
        assert(s.subrange(p1, p1 + y.len()) =~= y);
        assert(canonical(es[k].1));
        assert(fits(es[k].1, depth + 1));
        if k > 0 {
            assert(gm[k - 1] == es[k - 1]);
        }
    }
}

/// Every valid dictionary whose encoding starts at `pos` begins with the
/// entries `gm`.
pub open spec fn dict_prefix_ok(s: Seq<u8>, pos: int, depth: int, gm: Seq<(Seq<u8>, Bencode)>) -> bool {
    forall|b: Bencode| #[trigger]
        ok_at(b, s, pos, depth) ==> {
            &&& b is Dict
            &&& gm.len() <= b->Dict_0.len()
            &&& b->Dict_0.take(gm.len() as int) == gm
        }
}

/// The input ends where the next key or the closing `e` should stand.
proof fn lemma_dict_cut_short(s: Seq<u8>, pos: int, depth: int, gm: Seq<(Seq<u8>, Bencode)>, p: int)
    requires
        dict_prefix_ok(s, pos, depth, gm),
        p == pos + 1 + enc_dict(gm).len(),
        p >= s.len(),
    ensures
        forall|b: Bencode| !ok_at(b, s, pos, depth),
{
    assert forall|b: Bencode| !ok_at(b, s, pos, depth) by {
        if ok_at(b, s, pos, depth) {
            lemma_dict_step(s, pos, depth, b, gm, p);
            let es = b->Dict_0;
            if gm.len() < es.len() {
                lemma_first_byte(Bencode::Bytes(es[gm.len() as int].0), s, p);
            }
        }
    }
}

/// No valid value, or no valid key, stands where the next key should.
proof fn lemma_dict_bad_key(s: Seq<u8>, pos: int, depth: int, gm: Seq<(Seq<u8>, Bencode)>, p: int)
    requires
        dict_prefix_ok(s, pos, depth, gm),
        p == pos + 1 + enc_dict(gm).len(),
        forall|t: Seq<u8>| !ok_at(Bencode::Bytes(t), s, p, depth + 1),
        p < s.len(),
        s[p] != 101,
    ensures
        forall|b: Bencode| !ok_at(b, s, pos, depth),
{
    assert forall|b: Bencode| !ok_at(b, s, pos, depth) by {
        if ok_at(b, s, pos, depth) {
            lemma_dict_step(s, pos, depth, b, gm, p);
        }
    }
}

/// A valid value that is not a byte string stands where the next key should.
proof fn lemma_dict_non_string_key(
    s: Seq<u8>,
    pos: int,
    depth: int,
    gm: Seq<(Seq<u8>, Bencode)>,
    p: int,
    other: Bencode,
)
    requires
        dict_prefix_ok(s, pos, depth, gm),
        p == pos + 1 + enc_dict(gm).len(),
        ok_at(other, s, p, depth + 1),
        !(other is Bytes),
    ensures
        forall|t: Seq<u8>| !ok_at(Bencode::Bytes(t), s, p, depth + 1),
{
    assert forall|t: Seq<u8>| !ok_at(Bencode::Bytes(t), s, p, depth + 1) by {
        if ok_at(Bencode::Bytes(t), s, p, depth + 1) {
            lemma_prefix_unique(Bencode::Bytes(t), other, s, p);
        }
    }
}

/// The key read at `p` is the next key of every valid dictionary here.
proof fn lemma_dict_key(
    s: Seq<u8>,
    pos: int,
    depth: int,
    gm: Seq<(Seq<u8>, Bencode)>,
    p: int,
    key: Seq<u8>,
)
    requires
        dict_prefix_ok(s, pos, depth, gm),
        p == pos + 1 + enc_dict(gm).len(),
        ok_at(Bencode::Bytes(key), s, p, depth + 1),
    ensures
        forall|b: Bencode| #[trigger]
            ok_at(b, s, pos, depth) ==> {
                &&& gm.len() < b->Dict_0.len()
                &&& b->Dict_0[gm.len() as int].0 == key
                &&& ok_at(b->Dict_0[gm.len() as int].1, s, p + enc_bytes(key).len(), depth + 1)
                &&& gm.len() > 0 ==> lex_lt(gm[gm.len() - 1].0, key)
            },
{
    assert forall|b: Bencode| #[trigger] ok_at(b, s, pos, depth) implies {
        &&& gm.len() < b->Dict_0.len()
        &&& b->Dict_0[gm.len() as int].0 == key
        &&& ok_at(b->Dict_0[gm.len() as int].1, s, p + enc_bytes(key).len(), depth + 1)
        &&& gm.len() > 0 ==> lex_lt(gm[gm.len() - 1].0, key)
    } by {
        lemma_dict_step(s, pos, depth, b, gm, p);
        let es = b->Dict_0;
        if gm.len() < es.len() {
            lemma_prefix_unique(Bencode::Bytes(es[gm.len() as int].0), Bencode::Bytes(key), s, p);
        } else {
            lemma_first_byte(Bencode::Bytes(key), s, p);
        }
    }
}

/// After a valid value follows the key, the entries read so far grow by one.
proof fn lemma_dict_value(
    s: Seq<u8>,
    pos: int,
    depth: int,
    gm: Seq<(Seq<u8>, Bencode)>,
    p: int,
    key: Seq<u8>,
    x: Bencode,
)
    requires
        dict_prefix_ok(s, pos, depth, gm),
        p == pos + 1 + enc_dict(gm).len(),
        forall|b: Bencode| #[trigger]
            ok_at(b, s, pos, depth) ==> {
                &&& gm.len() < b->Dict_0.len()
                &&& b->Dict_0[gm.len() as int].0 == key
                &&& ok_at(b->Dict_0[gm.len() as int].1, s, p + enc_bytes(key).len(), depth + 1)
            },
        ok_at(x, s, p + enc_bytes(key).len(), depth + 1),
    ensures
        dict_prefix_ok(s, pos, depth, gm.push((key, x))),
{
    assert forall|b: Bencode| #[trigger] ok_at(b, s, pos, depth) implies {
        &&& b is Dict
        &&& gm.push((key, x)).len() <= b->Dict_0.len()
        &&& b->Dict_0.take(gm.push((key, x)).len() as int) == gm.push((key, x))
    } by {
        let es = b->Dict_0;
        let kk = gm.len() as int;
        lemma_prefix_unique(es[kk].1, x, s, p + enc_bytes(key).len());
        assert(es[kk] == (key, x));
        assert(es.take(kk + 1) =~= es.take(kk).push(es[kk]));
    }
}

#[verifier::spinoff_prover]
fn parse_dict(input: &[u8], pos: usize, depth: usize) -> (r: Result<(Value, usize), Error>)
    requires
        pos < input.len(),
        input@[pos as int] == 100,
        depth <= MAX_DEPTH,
    ensures
        parsed(input@, pos as int, depth as int, r),
    decreases input.len() - pos, 0usize,
{
    let ghost s = input@;
    let mut entries: Vec<(Vec<u8>, Value)> = Vec::new();
    let ghost mut gm: Seq<(Seq<u8>, Bencode)> = Seq::empty();
    let mut p = pos + 1;
    proof {
        assert(s.subrange(pos + 1, p as int) =~= enc_dict(gm));
        assert forall|b: Bencode| #[trigger] ok_at(b, s, pos as int, depth as int) implies {
            &&& b is Dict
            &&& gm.len() <= b->Dict_0.len()
            &&& b->Dict_0.take(gm.len() as int) == gm
        } by {
            lemma_first_byte(b, s, pos as int);
            assert(b->Dict_0.take(0) =~= gm);
        }
    }
    loop
        invariant
            pos + 1 <= p <= input.len(),
            s == input@,
            depth <= MAX_DEPTH,
            s[pos as int] == 100,
            gm.len() == entries@.len(),
            forall|i: int|
                0 <= i < gm.len() ==> (#[trigger] entries@[i]).0@ == gm[i].0 && entries@[i].1@
                    == gm[i].1,
            forall|i: int|
                0 <= i < gm.len() ==> canonical(#[trigger] gm[i].1) && depth + 1 <= MAX_DEPTH
                    && fits(gm[i].1, depth + 1),
            forall|i: int| 0 < i < gm.len() ==> lex_lt(gm[i - 1].0, #[trigger] gm[i].0),
            s.subrange(pos + 1, p as int) == enc_dict(gm),
            p == pos + 1 + enc_dict(gm).len(),
            dict_prefix_ok(s, pos as int, depth as int, gm),
            dict_error(s, pos + 1, depth as int, None) == dict_error(s, p as int, depth as int, last_key(gm)),
        decreases input.len() - p,
    {
        if p >= input.len() {
            proof {
                lemma_dict_cut_short(s, pos as int, depth as int, gm, p as int);
            }
            return Err(Error::UnexpectedEnd);
        }
        if input[p] == 101u8 {
            let ghost ge = entries@;
            proof {
                assert forall|i: int| 0 <= i < gm.len() implies ge[i].0@ == gm[i].0 && ge[i].1@ == gm[i].1 by {
                    assert(entries@[i].0@ == gm[i].0);
                }
            }
            let d = Dict { entries };
            let ghost v = Value::Dict(d);
            proof {
                assert(v@ == Bencode::Dict(gm)) by {
                    assert forall|i: int| 0 <= i < gm.len() implies #[trigger] d@[i] == gm[i] by {
                        assert(ge[i].0@ == gm[i].0 && ge[i].1@ == gm[i].1);
                        assert(d.entries@[i] == ge[i]);
                    }
                    assert(d@ =~= gm);
                }
                assert(enc(v@) == seq![100u8] + enc_dict(gm) + seq![101u8]);
                assert(s.subrange(pos as int, p + 1) =~= enc(v@));
            }
            return Ok((Value::Dict(d), p + 1));
        }
        let (key, p1) = match parse_value(input, p, depth + 1) {
            Err(e) => {
                proof {
                    lemma_dict_bad_key(s, pos as int, depth as int, gm, p as int);
                    assert(!exists|b: Bencode| #[trigger] ok_at(b, s, p as int, depth + 1));
                    assert(dict_error(s, p as int, depth as int, last_key(gm)) == value_error(s, p as int, depth + 1));
                }
                return Err(e);
            },
            Ok((Value::Bytes(k), p1)) => (k, p1),
            Ok((other, _)) => {
                proof {
                    lemma_model_variant(other);
                    lemma_dict_non_string_key(s, pos as int, depth as int, gm, p as int, other@);
                    lemma_dict_bad_key(s, pos as int, depth as int, gm, p as int);
                    assert(ok_at(other@, s, p as int, depth + 1));
                    let c = choose|b: Bencode| #[trigger] ok_at(b, s, p as int, depth + 1);
                    lemma_prefix_unique(c, other@, s, p as int);
                    assert(dict_error(s, p as int, depth as int, last_key(gm)) == Error::NonStringKey);
                }
                return Err(Error::NonStringKey);
            },
        };
        proof {
            assert(ok_at(Bencode::Bytes(key@), s, p as int, depth + 1));
            let c = choose|b: Bencode| #[trigger] ok_at(b, s, p as int, depth + 1);
            lemma_prefix_unique(c, Bencode::Bytes(key@), s, p as int);
            assert(c == Bencode::Bytes(key@));
        }
        proof {
            assert(Value::Bytes(key)@ == Bencode::Bytes(key@));
            assert(enc(Bencode::Bytes(key@)) == enc_bytes(key@));
            lemma_dict_key(s, pos as int, depth as int, gm, p as int, key@);
        }
        let k = entries.len();
        if k > 0 {
            if !bytes_lt(entries[k - 1].0.as_slice(), key.as_slice()) {
                proof {
                    assert(entries@[k - 1].0@ == gm[k - 1].0);
                    assert forall|b: Bencode| !ok_at(b, s, pos as int, depth as int) by {
                        if ok_at(b, s, pos as int, depth as int) {
                            assert(lex_lt(gm[gm.len() - 1].0, key@));
                        }
                    }
                    assert(last_key(gm) == Some(gm[k - 1].0));
                    assert(dict_error(s, p as int, depth as int, last_key(gm)) == Error::UnsortedOrDuplicateKey);
                }
                return Err(Error::UnsortedOrDuplicateKey);
            }
        }
        match parse_value(input, p1, depth + 1) {
            Err(e) => {
                proof {
                    assert forall|b: Bencode| !ok_at(b, s, pos as int, depth as int) by {
                        if ok_at(b, s, pos as int, depth as int) {
                            assert(ok_at(b->Dict_0[gm.len() as int].1, s, p1 as int, depth + 1));
                        }
                    }
                    if k > 0 {
                        assert(entries@[k - 1].0@ == gm[k - 1].0);
                        assert(last_key(gm) == Some(gm[k - 1].0));
                    }
                    assert(!exists|v: Bencode| #[trigger] ok_at(v, s, p1 as int, depth + 1));
                    assert(dict_error(s, p as int, depth as int, last_key(gm)) == value_error(s, p1 as int, depth + 1));
                }
                return Err(e);
            },
            Ok((x, p2)) => {
                proof {
                    lemma_enc_shape(x@);
                    lemma_enc_dict_push(gm, key@, x@);
                    lemma_dict_value(s, pos as int, depth as int, gm, p as int, key@, x@);
                    if k > 0 {
                        assert(entries@[k - 1].0@ == gm[k - 1].0);
                    }
                    assert(depth + 1 <= MAX_DEPTH) by {
                        assert(fits(x@, depth + 1));
                    }
                    assert(s.subrange(pos + 1, p2 as int) =~= s.subrange(pos + 1, p as int)
                        + s.subrange(p as int, p1 as int) + s.subrange(p1 as int, p2 as int));
                    if k > 0 {
                        assert(last_key(gm) == Some(gm[k - 1].0));
                    }
                    assert(ok_at(x@, s, p1 as int, depth + 1));
                    let cv = choose|v: Bencode| #[trigger] ok_at(v, s, p1 as int, depth + 1);
                    lemma_prefix_unique(cv, x@, s, p1 as int);
                    assert(last_key(gm.push((key@, x@))) == Some(key@));
                    assert(dict_error(s, p as int, depth as int, last_key(gm)) == dict_error(
                        s,
                        p2 as int,
                        depth as int,
                        Some(key@),
                    ));
                }
                entries.push((key, x));
                proof {
                    gm = gm.push((key@, x@));
                }
                p = p2;
            },
        }
    }
}

/// Decodes a complete bencoded value, which must be in canonical form:
/// integers without leading zeroes or `-0`, string lengths without leading
/// zeroes, dictionary keys that are strings in strictly increasing order,
/// nesting no deeper than `MAX_DEPTH`, and nothing after the value.
pub fn decode(input: &[u8]) -> (r: Result<Value, Error>)
    ensures
        r matches Ok(v) ==> decodes_to(input@, v@),
        r is Err ==> forall|b: Bencode| !decodes_to(input@, b),
        r is Err ==> (r == Err::<Value, Error>(Error::TrailingData) <==> exists|b: Bencode|
            ok_at(b, input@, 0, 0)),
        r is Err && r != Err::<Value, Error>(Error::TrailingData) ==> r == Err::<Value, Error>(
            value_error(input@, 0, 0),
        ),
{
    let ghost s = input@;
    match parse_value(input, 0, 0) {
        Ok((v, end)) => {
            if end != input.len() {
                proof {
                    assert forall|b: Bencode| !decodes_to(s, b) by {
                        if decodes_to(s, b) {
                            assert(s.subrange(0, s.len() as int) =~= s);
                            assert(ok_at(b, s, 0, 0));
                            lemma_prefix_unique(b, v@, s, 0);
                        }
                    }
                    assert(ok_at(v@, s, 0, 0));
                }
                return Err(Error::TrailingData);
            }
            proof {
                assert(s.subrange(0, end as int) =~= s);
            }
            Ok(v)
        },
        Err(e) => {
            proof {
                assert forall|b: Bencode| !decodes_to(s, b) by {
                    if decodes_to(s, b) {
                        assert(s.subrange(0, s.len() as int) =~= s);
                        assert(ok_at(b, s, 0, 0));
                    }
                }
            }
            Err(e)
        },
    }
}

/// Appends the encoding of a byte string.
fn encode_bytes_into(b: &[u8], out: &mut Vec<u8>)
    ensures
        final(out)@ == old(out)@ + enc_bytes(b@),
{
    push_decimal(out, b.len() as u64);
    out.push(58u8);
    push_all(out, b);
    proof {
        assert(final(out)@ =~= old(out)@ + enc_bytes(b@));
    }
}

/// Appends the encoding of `v`, which is always canonical.
fn encode_into(v: &Value, out: &mut Vec<u8>)
    ensures
        final(out)@ == old(out)@ + enc(v@),
        canonical(v@),
    decreases v,
{
    let ghost start = out@;
    match v {
        Value::Bytes(b) => {
            encode_bytes_into(b.as_slice(), out);
        },
        Value::Int(n) => {
            out.push(105u8);
            let magnitude: u64 = if *n < 0 {
                out.push(45u8);
                ((-(*n + 1)) as u64) + 1
            } else {
                *n as u64
            };
            push_decimal(out, magnitude);
            out.push(101u8);
            proof {
                assert(magnitude == abs(*n as int));
                assert(out@ =~= start + enc(v@));
            }
        },
        Value::List(items) => {
            out.push(108u8);
            let mut i: usize = 0;
            while i < items.len()
                invariant
                    *v is List,
                    v->List_0 == *items,
                    i <= items.len(),
                    out@ == start + seq![108u8] + enc_list(v@->List_0.take(i as int)),
                    forall|j: int| 0 <= j < i ==> canonical(#[trigger] v@->List_0[j]),
                decreases items.len() - i,
            {
                proof {
                    assert(decreases_to!(*v => v->List_0));
                    assert(decreases_to!(items => items@));
                    assert(decreases_to!(items@ => items@[i as int]));
                }
                encode_into(&items[i], out);
                proof {
                    let ms = v@->List_0;
                    assert(ms[i as int] == items@[i as int]@);
                    lemma_enc_list_push(ms.take(i as int), ms[i as int]);
                    assert(ms.take(i + 1) =~= ms.take(i as int).push(ms[i as int]));
                }
                i = i + 1;
            }
            out.push(101u8);
            proof {
                assert(v@->List_0.take(items.len() as int) =~= v@->List_0);
                assert(out@ =~= start + enc(v@));
            }
        },
        Value::Dict(d) => {
            proof {
                use_type_invariant(d);
                d.lemma_model_keys();
            }
            out.push(100u8);
            let mut i: usize = 0;
            while i < d.entries.len()
                invariant
                    *v is Dict,
                    v->Dict_0 == *d,
                    d.keys_in_order(),
                    keys_increase(d@),
                    d@.len() == d.entries@.len(),
                    forall|j: int| 0 <= j < d@.len() ==> #[trigger] d@[j] == (d.entries@[j].0@, d.entries@[j].1@),
                    i <= d.entries@.len(),
                    out@ == start + seq![100u8] + enc_dict(d@.take(i as int)),
                    forall|j: int| 0 <= j < i ==> canonical(#[trigger] d@[j].1),
                decreases d.entries@.len() - i,
            {
                proof {
                    assert(decreases_to!(*v => v->Dict_0));
                    assert(decreases_to!(*d => d.entries));
                    assert(decreases_to!(d.entries => d.entries@));
                    assert(decreases_to!(d.entries@ => d.entries@[i as int]));
                    assert(decreases_to!(d.entries@[i as int] => d.entries@[i as int].1));
                }
                encode_bytes_into(d.entries[i].0.as_slice(), out);
                encode_into(&d.entries[i].1, out);
                proof {
                    let es = d@;
                    assert(es[i as int] == (d.entries@[i as int].0@, d.entries@[i as int].1@));
                    lemma_enc_dict_push(es.take(i as int), es[i as int].0, es[i as int].1);
                    assert(es.take(i + 1) =~= es.take(i as int).push(es[i as int]));
                }
                i = i + 1;
            }
            out.push(101u8);
            proof {
                assert(d@.take(d@.len() as int) =~= d@);
                assert(out@ =~= start + enc(v@));
            }
        },
    }
}

/// The canonical encoding of `value`: dictionaries are written with their
/// keys in increasing order.
pub fn encode(value: &Value) -> (out: Vec<u8>)
    ensures
        out@ == enc(value@),
        canonical(value@),
{
    let mut out: Vec<u8> = Vec::new();
    encode_into(value, &mut out);
    proof {
        assert(out@ =~= enc(value@));
    }
    out
}

} // verus!
