//! The distributed hash table: node ids and their XOR distance, a routing
//! table of buckets, and the KRPC messages of a lookup.
use vstd::prelude::*;
use vstd::std_specs::bits::u8_leading_zeros;
use crate::bencode::{decode, encode, Dict, Value};
use crate::bencode_spec::{bytes_at, decodes_to, enc, int_text, keys_increase, lookup, Bencode};
use crate::keys::{
    a_bytes, a_key, e_bytes, e_key, id_bytes, id_key, q_bytes, q_key, r_bytes, r_key, t_bytes, t_key,
    y_bytes, y_key,
};
use crate::text::{lossy_string, string_from_utf8, text_of};
use vstd::utf8::{decode_utf8, encode_utf8, valid_utf8};
use crate::wire::{be_value, bytes_eq, read_u16_be};

verus! {

/// How many nodes a bucket holds.
pub const K: usize = 8;

/// The number of buckets: one per leading bit the distance can share.
pub const BUCKETS: usize = 160;

#[derive(Debug, Clone, Copy, PartialEq, Eq, Hash)]
pub struct NodeId(pub [u8; 20]);

/// A node's IPv4 address and port.
#[derive(Debug, Clone, Copy, PartialEq, Eq, Hash)]
pub struct NodeAddr {
    pub ip: [u8; 4],
    pub port: u16,
}

#[derive(Debug, Clone, Copy, PartialEq, Eq)]
pub struct NodeEntry {
    pub id: NodeId,
    pub addr: NodeAddr,
}

#[derive(Debug, Clone, PartialEq, Eq)]
pub enum Error {
    Io(String),
    Timeout,
    BadResponse,
    Remote(String),
}

/// The XOR of two ids, byte by byte.
pub open spec fn xor_seq(a: Seq<u8>, b: Seq<u8>) -> Seq<u8> {
    Seq::new(a.len(), |i: int| a[i] ^ b[i])
}

/// The bucket of one id seen from another is the same both ways, and the
/// bucket of an id seen from itself is the last one.
pub proof fn law_bucket_symmetric(a: Seq<u8>, b: Seq<u8>)
    requires
        a.len() == b.len(),
    ensures
        bucket_of(xor_seq(a, b)) == bucket_of(xor_seq(b, a)),
        a == b ==> bucket_of(xor_seq(a, b)) == 159,
{
    assert forall|i: int| 0 <= i < a.len() implies #[trigger] xor_seq(a, b)[i] == xor_seq(b, a)[i] by {
        let x = a[i];
        let y = b[i];
        assert(x ^ y == y ^ x) by (bit_vector);
    }
    assert(xor_seq(a, b) =~= xor_seq(b, a));
    if a == b {
        let d = xor_seq(a, b);
        assert forall|i: int| 0 <= i < d.len() implies d[i] == 0 by {
            let x = a[i];
            assert(x ^ x == 0) by (bit_vector);
        }
        lemma_all_zero(d, 0);
    }
}

proof fn lemma_all_zero(d: Seq<u8>, from: int)
    requires
        0 <= from,
        forall|i: int| 0 <= i < d.len() ==> d[i] == 0,
    ensures
        first_nonzero(d, from) is None,
    decreases d.len() - from,
{
    if from < d.len() {
        lemma_all_zero(d, from + 1);
    }
}

/// The first position from `from` on whose byte is not zero.
pub open spec fn first_nonzero(d: Seq<u8>, from: int) -> Option<int>
    decreases d.len() - from,
{
    if from < 0 || from >= d.len() {
        None
    } else if d[from] != 0 {
        Some(from)
    } else {
        first_nonzero(d, from + 1)
    }
}

/// The bucket of a distance: the number of its leading zero bits, at most
/// 159.
pub open spec fn bucket_of(d: Seq<u8>) -> nat {
    match first_nonzero(d, 0) {
        Some(i) => (i * 8 + u8_leading_zeros(d[i])) as nat,
        None => 159,
    }
}

proof fn lemma_first_nonzero(d: Seq<u8>, from: int, k: int)
    requires
        0 <= from <= k <= d.len(),
        forall|j: int| from <= j < k ==> d[j] == 0,
    ensures
        first_nonzero(d, from) == first_nonzero(d, k),
    decreases k - from,
{
    if from < k {
        lemma_first_nonzero(d, from + 1, k);
    }
}

proof fn lemma_first_nonzero_bound(d: Seq<u8>, from: int)
    ensures
        first_nonzero(d, from) matches Some(i) ==> from <= i < d.len() && d[i] != 0,
    decreases d.len() - from,
{
    if 0 <= from < d.len() && d[from] == 0 {
        lemma_first_nonzero_bound(d, from + 1);
    }
}

impl NodeId {
    /// The XOR distance to `other`.
    pub fn distance(&self, other: &NodeId) -> (r: [u8; 20])
        ensures
            r@ == xor_seq(self.0@, other.0@),
    {
        let mut out = [0u8; 20];
        let mut i: usize = 0;
        while i < 20
            invariant
                i <= 20,
                out@.len() == 20,
                forall|j: int| 0 <= j < i ==> #[trigger] out@[j] == self.0@[j] ^ other.0@[j],
            decreases 20 - i,
        {
            out[i] = self.0[i] ^ other.0[i];
            i = i + 1;
        }
        assert(out@ =~= xor_seq(self.0@, other.0@));
        out
    }

    /// The bucket that `other` falls in, seen from this id.
    pub fn bucket_index(&self, other: &NodeId) -> (r: usize)
        ensures
            r == bucket_of(xor_seq(self.0@, other.0@)),
            r < BUCKETS,
    {
        let distance = self.distance(other);
        let ghost d = distance@;
        let mut i: usize = 0;
        while i < 20
            invariant
                i <= 20,
                d == distance@,
                d == xor_seq(self.0@, other.0@),
                d.len() == 20,
                forall|j: int| 0 <= j < i ==> d[j] == 0,
            decreases 20 - i,
        {
            if distance[i] != 0 {
                proof {
                    lemma_first_nonzero(d, 0, i as int);
                    vstd::std_specs::bits::axiom_u8_leading_zeros(distance[i as int]);
                }
                let lz = distance[i].leading_zeros();
                proof {
                    assert(lz < 8);
                    assert(d[i as int] != 0);
                    assert(first_nonzero(d, i as int) == Some(i as int));
                    assert(first_nonzero(d, 0) == Some(i as int));
                    assert(lz == u8_leading_zeros(d[i as int]));
                    assert(bucket_of(d) == i * 8 + lz);
                    assert(d == xor_seq(self.0@, other.0@));
                }
                return i * 8 + lz as usize;
            }
            i = i + 1;
        }
        proof {
            lemma_first_nonzero(d, 0, 20);
        }
        159
    }
}

/// Whether two ids are the same.
fn same_id(a: &NodeId, b: &NodeId) -> (r: bool)
    ensures
        r == (a.0@ == b.0@),
{
    bytes_eq(&a.0, &b.0)
}

/// The nodes this table knows, by bucket, with our own id.
pub struct RoutingTable {
    own: NodeId,
    buckets: Vec<Vec<NodeEntry>>,
}

impl RoutingTable {
    pub closed spec fn own_id(&self) -> NodeId {
        self.own
    }

    /// The entries of each bucket, in the order they came.
    pub closed spec fn bucket_lists(&self) -> Seq<Seq<NodeEntry>> {
        self.buckets@.map_values(|b: Vec<NodeEntry>| b@)
    }

    /// Each bucket holds at most `K` nodes, each at the distance of the
    /// bucket, none twice, and not our own id.
    pub open spec fn wf(&self) -> bool {
        &&& self.bucket_lists().len() == BUCKETS
        &&& forall|b: int| 0 <= b < BUCKETS ==> #[trigger] self.bucket_lists()[b].len() <= K
        &&& forall|b: int, j: int|
            0 <= b < BUCKETS && 0 <= j < self.bucket_lists()[b].len() ==> bucket_of(
                xor_seq(self.own_id().0@, #[trigger] self.bucket_lists()[b][j].id.0@),
            ) == b && self.bucket_lists()[b][j].id.0@ != self.own_id().0@
        &&& forall|b: int, i: int, j: int|
            0 <= b < BUCKETS && 0 <= i < j < self.bucket_lists()[b].len() ==> #[trigger] self.bucket_lists()[b][i].id.0@
                != #[trigger] self.bucket_lists()[b][j].id.0@
    }

    /// An empty table around `own`.
    pub fn new(own: NodeId) -> (r: RoutingTable)
        ensures
            r.wf(),
            r.own_id() == own,
            forall|b: int| 0 <= b < BUCKETS ==> #[trigger] r.bucket_lists()[b].len() == 0,
    {
        let mut buckets: Vec<Vec<NodeEntry>> = Vec::new();
        let mut i: usize = 0;
        while i < BUCKETS
            invariant
                i <= BUCKETS,
                buckets@.len() == i,
                forall|b: int| 0 <= b < i ==> #[trigger] buckets@[b]@.len() == 0,
            decreases BUCKETS - i,
        {
            buckets.push(Vec::new());
            i = i + 1;
        }
        RoutingTable { own, buckets }
    }

    /// Adds `entry` unless it is our own id, already known, or its bucket
    /// is full; says whether it did.
    pub fn insert(&mut self, entry: NodeEntry) -> (r: bool)
        requires
            old(self).wf(),
        ensures
            final(self).wf(),
            final(self).own_id() == old(self).own_id(),
            ({
                let b = bucket_of(xor_seq(old(self).own_id().0@, entry.id.0@)) as int;
                &&& r == (entry.id.0@ != old(self).own_id().0@ && old(self).bucket_lists()[b].len() < K
                    && forall|j: int| 0 <= j < old(self).bucket_lists()[b].len() ==> #[trigger] old(self).bucket_lists()[b][j].id.0@ != entry.id.0@)
                &&& final(self).bucket_lists() == if r {
                    old(self).bucket_lists().update(b, old(self).bucket_lists()[b].push(entry))
                } else {
                    old(self).bucket_lists()
                }
            }),
    {
        if same_id(&entry.id, &self.own) {
            return false;
        }
        let b = self.own.bucket_index(&entry.id);
        let ghost lists = self.bucket_lists();
        proof {
            assert(self.buckets@[b as int]@ == lists[b as int]);
        }
        let mut j: usize = 0;
        while j < self.buckets[b].len()
            invariant
                self.wf(),
                *self == *old(self),
                b == bucket_of(xor_seq(self.own_id().0@, entry.id.0@)),
                entry.id.0@ != self.own_id().0@,
                b < BUCKETS,
                self.buckets@.len() == BUCKETS,
                lists == self.bucket_lists(),
                self.buckets@[b as int]@ == lists[b as int],
                j <= lists[b as int].len(),
                forall|i: int| 0 <= i < j ==> #[trigger] lists[b as int][i].id.0@ != entry.id.0@,
            decreases lists[b as int].len() - j,
        {
            if same_id(&self.buckets[b][j].id, &entry.id) {
                return false;
            }
            j = j + 1;
        }
        if self.buckets[b].len() >= K {
            return false;
        }
        let mut bucket: Vec<NodeEntry> = Vec::new();
        std::mem::swap(&mut bucket, &mut self.buckets[b]);
        bucket.push(entry);
        self.buckets.set(b, bucket);
        proof {
            let nl = lists.update(b as int, lists[b as int].push(entry));
            assert(self.bucket_lists() =~= nl);
            assert(self.own == old(self).own);
            assert(lists == old(self).bucket_lists());
            assert(old(self).wf());
            assert forall|c: int| 0 <= c < BUCKETS implies #[trigger] nl[c].len() <= K by {
                if c != b {
                    assert(nl[c] == lists[c]);
                }
            }
            assert forall|c: int, j: int| 0 <= c < BUCKETS && 0 <= j < nl[c].len() implies bucket_of(
                xor_seq(self.own_id().0@, #[trigger] nl[c][j].id.0@),
            ) == c && nl[c][j].id.0@ != self.own_id().0@ by {
                if c != b {
                    assert(nl[c] == lists[c]);
                    assert(old(self).bucket_lists()[c][j] == nl[c][j]);
                } else if j < lists[c].len() {
                    assert(nl[c][j] == lists[c][j]);
                    assert(old(self).bucket_lists()[c][j] == nl[c][j]);
                } else {
                    assert(nl[c][j] == entry);
                }
            }
            assert forall|c: int, x: int, y: int| 0 <= c < BUCKETS && 0 <= x < y < nl[c].len() implies #[trigger] nl[c][x].id.0@
                != #[trigger] nl[c][y].id.0@ by {
                if c != b {
                    assert(nl[c] == lists[c]);
                    assert(old(self).bucket_lists()[c][x] == nl[c][x]);
                    assert(old(self).bucket_lists()[c][y] == nl[c][y]);
                    assert(old(self).bucket_lists()[c][x].id.0@ != old(self).bucket_lists()[c][y].id.0@);
                } else if y < lists[c].len() {
                    assert(nl[c][x] == lists[c][x] && nl[c][y] == lists[c][y]);
                    assert(old(self).bucket_lists()[c][x] == nl[c][x]);
                    assert(old(self).bucket_lists()[c][y] == nl[c][y]);
                    assert(old(self).bucket_lists()[c][x].id.0@ != old(self).bucket_lists()[c][y].id.0@);
                } else {
                    assert(nl[c][x] == lists[c][x]);
                    assert(nl[c][y] == entry);
                    assert(lists[b as int][x].id.0@ != entry.id.0@);
                }
            }
        }
        true
    }

    /// The number of known nodes.
    pub fn len(&self) -> (r: usize)
        requires
            self.wf(),
        ensures
            r == total_len(self.bucket_lists()),
    {
        let mut n: usize = 0;
        let mut b: usize = 0;
        while b < self.buckets.len()
            invariant
                self.wf(),
                b <= BUCKETS,
                self.buckets@.len() == BUCKETS,
                n == total_len(self.bucket_lists().take(b as int)),
                n <= b * K,
            decreases BUCKETS - b,
        {
            proof {
                assert(self.bucket_lists().take(b + 1).drop_last() =~= self.bucket_lists().take(b as int));
                assert(self.buckets@[b as int]@ == self.bucket_lists()[b as int]);
            }
            n = n + self.buckets[b].len();
            b = b + 1;
        }
        proof {
            assert(self.bucket_lists().take(BUCKETS as int) =~= self.bucket_lists());
        }
        n
    }

    pub fn is_empty(&self) -> (r: bool)
        requires
            self.wf(),
        ensures
            r == (total_len(self.bucket_lists()) == 0),
    {
        self.len() == 0
    }
}

/// The number of entries in all lists.
pub open spec fn total_len(lists: Seq<Seq<NodeEntry>>) -> nat
    decreases lists.len(),
{
    if lists.len() == 0 {
        0
    } else {
        total_len(lists.drop_last()) + lists.last().len()
    }
}

/// The nodes of a compact node list: 26 bytes each, id, address and port,
/// leaving out port 0 and a short tail.
pub open spec fn compact_nodes(raw: Seq<u8>) -> Seq<(Seq<u8>, Seq<u8>, u16)>
    decreases raw.len(),
{
    if raw.len() < 26 {
        Seq::empty()
    } else {
        let port = be_value(raw.subrange(24, 26)) as u16;
        let rest = compact_nodes(raw.subrange(26, raw.len() as int));
        if port == 0 {
            rest
        } else {
            seq![(raw.subrange(0, 20), raw.subrange(20, 24), port)] + rest
        }
    }
}

/// The 26-byte chunks of `raw`, in order, leaving out a short tail.
pub open spec fn node_chunks(raw: Seq<u8>) -> Seq<Seq<u8>> {
    Seq::new(raw.len() / 26, |k: int| raw.subrange(26 * k, 26 * k + 26))
}

/// A compact node list keeps every 26-byte chunk whose port is not zero,
/// in order, as its first 20 bytes (the id), the next four (the IPv4
/// address) and the last two read big-endian (the port).
pub proof fn law_compact_nodes_keep_every_node(raw: Seq<u8>)
    ensures
        compact_nodes(raw) == node_chunks(raw).filter_map(
            |c: Seq<u8>|
                if be_value(c.subrange(24, 26)) != 0 {
                    Some((c.subrange(0, 20), c.subrange(20, 24), be_value(c.subrange(24, 26)) as u16))
                } else {
                    None
                },
        ),
    decreases raw.len(),
{
    let f = |c: Seq<u8>|
        if be_value(c.subrange(24, 26)) != 0 {
            Some((c.subrange(0, 20), c.subrange(20, 24), be_value(c.subrange(24, 26)) as u16))
        } else {
            None
        };
    if raw.len() < 26 {
        assert(node_chunks(raw) =~= Seq::<Seq<u8>>::empty());
        assert(node_chunks(raw).filter_map(f) =~= Seq::<(Seq<u8>, Seq<u8>, u16)>::empty());
    } else {
        let sub = raw.subrange(26, raw.len() as int);
        law_compact_nodes_keep_every_node(sub);
        let c0 = raw.subrange(0, 26);
        assert forall|k: int| 0 <= k < node_chunks(sub).len() implies node_chunks(raw)[k + 1] == node_chunks(
            sub,
        )[k] by {
            assert(node_chunks(raw)[k + 1] =~= node_chunks(sub)[k]);
        }
        assert(node_chunks(raw) =~= seq![c0] + node_chunks(sub)) by {
            assert(node_chunks(raw)[0] =~= c0);
        }
        crate::wire::lemma_filter_map_concat(seq![c0], node_chunks(sub), f);
        Seq::lemma_filter_map_singleton(c0, f);
        crate::wire::lemma_be_value_bound(c0.subrange(24, 26));
        crate::wire::lemma_pow256_values();
        assert(c0.subrange(24, 26) =~= raw.subrange(24, 26));
        assert(c0.subrange(0, 20) =~= raw.subrange(0, 20));
        assert(c0.subrange(20, 24) =~= raw.subrange(20, 24));
        assert(compact_nodes(raw) =~= node_chunks(raw).filter_map(f));
    }
}

/// `e` holds the node `v` describes.
pub open spec fn node_matches(e: NodeEntry, v: (Seq<u8>, Seq<u8>, u16)) -> bool {
    e.id.0@ == v.0 && e.addr.ip@ == v.1 && e.addr.port == v.2
}

/// Reads a compact node list.
pub fn parse_compact_nodes(raw: &[u8]) -> (r: Vec<NodeEntry>)
    ensures
        r@.len() == compact_nodes(raw@).len(),
        forall|i: int| 0 <= i < r@.len() ==> #[trigger] node_matches(r@[i], compact_nodes(raw@)[i]),
{
    let mut out: Vec<NodeEntry> = Vec::new();
    let ghost mut acc: Seq<(Seq<u8>, Seq<u8>, u16)> = Seq::empty();
    let mut i: usize = 0;
    proof {
        assert(raw@.subrange(0, raw@.len() as int) =~= raw@);
        assert(Seq::<(Seq<u8>, Seq<u8>, u16)>::empty() + compact_nodes(raw@) =~= compact_nodes(raw@));
    }
    while raw.len() >= 26 && i <= raw.len() - 26
        invariant
            i <= raw@.len(),
            compact_nodes(raw@) == acc + compact_nodes(raw@.subrange(i as int, raw@.len() as int)),
            out@.len() == acc.len(),
            forall|j: int| 0 <= j < out@.len() ==> #[trigger] node_matches(out@[j], acc[j]),
        decreases raw.len() - i,
    {
        let ghost rest = raw@.subrange(i as int, raw@.len() as int);
        let port = read_u16_be(raw, i + 24);
        let id: [u8; 20] = [
            raw[i], raw[i + 1], raw[i + 2], raw[i + 3], raw[i + 4], raw[i + 5], raw[i + 6], raw[i + 7],
            raw[i + 8], raw[i + 9], raw[i + 10], raw[i + 11], raw[i + 12], raw[i + 13], raw[i + 14],
            raw[i + 15], raw[i + 16], raw[i + 17], raw[i + 18], raw[i + 19],
        ];
        let ip: [u8; 4] = [raw[i + 20], raw[i + 21], raw[i + 22], raw[i + 23]];
        proof {
            assert(rest.subrange(24, 26) =~= raw@.subrange(i + 24, i + 26));
            assert(rest.subrange(26, rest.len() as int) =~= raw@.subrange(i + 26, raw@.len() as int));
            assert(rest.subrange(0, 20) =~= id@);
            assert(rest.subrange(20, 24) =~= ip@);
            crate::wire::lemma_be_value_bound(raw@.subrange(i + 24, i + 26));
            crate::wire::lemma_pow256_values();
        }
        if port != 0 {
            out.push(NodeEntry { id: NodeId(id), addr: NodeAddr { ip, port } });
            proof {
                let v = (id@, ip@, port);
                assert(acc + (seq![v] + compact_nodes(raw@.subrange(i + 26, raw@.len() as int))) =~= acc.push(v)
                    + compact_nodes(raw@.subrange(i + 26, raw@.len() as int)));
                acc = acc.push(v);
            }
        }
        i = i + 26;
    }
    proof {
        assert(compact_nodes(raw@.subrange(i as int, raw@.len() as int)) =~= Seq::<(Seq<u8>, Seq<u8>, u16)>::empty());
        assert(acc + Seq::<(Seq<u8>, Seq<u8>, u16)>::empty() =~= acc);
    }
    out
}


// ---------------------------------------------------------------------
// KRPC messages

/// The arguments of a query: our id under `id`, then `extra` in order, a
/// later key replacing an earlier one.
pub open spec fn query_args(own: Seq<u8>, extra: Seq<(Seq<u8>, Bencode)>, k: Seq<u8>) -> Option<Bencode>
    decreases extra.len(),
{
    if extra.len() == 0 {
        if k == id_key() {
            Some(Bencode::Bytes(own))
        } else {
            None
        }
    } else if extra.last().0 == k {
        Some(extra.last().1)
    } else {
        query_args(own, extra.drop_last(), k)
    }
}

/// The extra arguments as mathematical values.
pub open spec fn extra_model(extra: Seq<(&[u8], Value)>) -> Seq<(Seq<u8>, Bencode)> {
    extra.map_values(|p: (&[u8], Value)| (p.0@, p.1@))
}

/// A query: arguments `a`, method `q`, transaction `t`, and `y` = `q`.
pub open spec fn query_value(args: Seq<(Seq<u8>, Bencode)>, name: Seq<u8>, txid: Seq<u8>) -> Bencode {
    Bencode::Dict(
        seq![
            (a_key(), Bencode::Dict(args)),
            (q_key(), Bencode::Bytes(name)),
            (t_key(), Bencode::Bytes(txid)),
            (y_key(), Bencode::Bytes(q_key())),
        ],
    )
}

proof fn lemma_query_keys(args: Seq<(Seq<u8>, Bencode)>, name: Seq<u8>, txid: Seq<u8>)
    ensures
        keys_increase(query_value(args, name, txid)->Dict_0),
        forall|k: Seq<u8>|
            #[trigger] lookup(query_value(args, name, txid)->Dict_0, k) == if k == a_key() {
                Some(Bencode::Dict(args))
            } else if k == q_key() {
                Some(Bencode::Bytes(name))
            } else if k == t_key() {
                Some(Bencode::Bytes(txid))
            } else if k == y_key() {
                Some(Bencode::Bytes(q_key()))
            } else {
                None
            },
{
    let es = query_value(args, name, txid)->Dict_0;
    crate::bencode_spec::lemma_lex_first_byte(a_key(), q_key());
    crate::bencode_spec::lemma_lex_first_byte(q_key(), t_key());
    crate::bencode_spec::lemma_lex_first_byte(t_key(), y_key());
    let rest = crate::bencode_spec::dict3(q_key(), Bencode::Bytes(name), t_key(), Bencode::Bytes(txid), y_key(), Bencode::Bytes(q_key()));
    crate::bencode_spec::lemma_lookup_small(q_key(), Bencode::Bytes(name), t_key(), Bencode::Bytes(txid), y_key(), Bencode::Bytes(q_key()));
    assert(es.subrange(1, 4) =~= rest);
    assert forall|k: Seq<u8>| #[trigger] lookup(es, k) == if k == a_key() {
        Some(Bencode::Dict(args))
    } else if k == q_key() {
        Some(Bencode::Bytes(name))
    } else if k == t_key() {
        Some(Bencode::Bytes(txid))
    } else if k == y_key() {
        Some(Bencode::Bytes(q_key()))
    } else {
        None
    } by {
        if k != a_key() {
            assert(lookup(es, k) == lookup(es.subrange(1, es.len() as int), k));
        }
    }
}

/// A KRPC query from `own`, for the method `name`, with transaction
/// `txid` and `extra` arguments, bencoded.
pub fn build_query(txid: &[u8], own: &NodeId, name: &str, extra: Vec<(&[u8], Value)>) -> (out: Vec<u8>)
    ensures
        exists|args: Seq<(Seq<u8>, Bencode)>|
            keys_increase(args) && (forall|k: Seq<u8>| #[trigger] lookup(args, k) == query_args(own.0@, extra_model(extra@), k))
                && out@ == enc(query_value(args, encode_utf8(name@), txid@)),
{
    let mut a = Dict::new();
    a.insert(id_bytes(), Value::Bytes(crate::wire::copy_all(&own.0)));
    proof {
        crate::bencode_spec::lemma_lookup_small(id_key(), Bencode::Bytes(own.0@), id_key(), Bencode::Bytes(own.0@), id_key(), Bencode::Bytes(own.0@));
        assert forall|k: Seq<u8>| #[trigger] lookup(a@, k) == query_args(own.0@, extra_model(extra@).take(0), k) by {
            assert(extra_model(extra@).take(0) =~= Seq::<(Seq<u8>, Bencode)>::empty());
        }
    }
    let ghost em = extra_model(extra@);
    let total = extra.len();
    let mut rest = extra;
    let mut i: usize = 0;
    while rest.len() > 0
        invariant
            i + rest@.len() == em.len(),
            em.len() == total,
            forall|j: int| 0 <= j < rest@.len() ==> (#[trigger] rest@[j]).0@ == em[i + j].0 && rest@[j].1@ == em[i + j].1,
            keys_increase(a@),
            forall|k: Seq<u8>| #[trigger] lookup(a@, k) == query_args(own.0@, em.take(i as int), k),
        decreases rest@.len(),
    {
        let (key, value) = rest.remove(0);
        let ghost kv = (key@, value@);
        proof {
            assert(kv == em[i as int]);
        }
        a.insert(crate::wire::copy_all(key), value);
        proof {
            assert(em.take(i + 1).drop_last() =~= em.take(i as int));
            assert(em.take(i + 1).last() == kv);
            assert forall|k: Seq<u8>| #[trigger] lookup(a@, k) == query_args(own.0@, em.take(i + 1), k) by {
            }
            assert forall|j: int| 0 <= j < rest@.len() implies (#[trigger] rest@[j]).0@ == em[i + 1 + j].0 && rest@[j].1@ == em[i + 1 + j].1 by {
            }
        }
        i = i + 1;
    }
    proof {
        assert(em.take(i as int) =~= em);
    }
    let ghost args = a@;
    let mut top = Dict::new();
    top.insert(t_bytes(), Value::Bytes(crate::wire::copy_all(txid)));
    top.insert(y_bytes(), Value::Bytes(q_bytes()));
    top.insert(q_bytes(), Value::Bytes(crate::wire::copy_all(name.as_bytes())));
    top.insert(a_bytes(), Value::Dict(a));
    proof {
        let want = query_value(args, encode_utf8(name@), txid@)->Dict_0;
        lemma_query_keys(args, encode_utf8(name@), txid@);
        crate::bencode_spec::lemma_lookup_small(a_key(), Bencode::Bytes(txid@), a_key(), Bencode::Bytes(txid@), a_key(), Bencode::Bytes(txid@));
        assert(a_key()[0] != q_key()[0] && a_key()[0] != t_key()[0] && a_key()[0] != y_key()[0]);
        assert(q_key()[0] != t_key()[0] && q_key()[0] != y_key()[0] && t_key()[0] != y_key()[0]);
        assert forall|k: Seq<u8>| lookup(top@, k) == lookup(want, k) by {
        }
        crate::bencode_spec::lemma_lookup_extensional(top@, want);
    }
    encode(&Value::Dict(top))
}

/// The words of an error reply: strings as text, numbers in decimal, other
/// items left out.
pub open spec fn error_words(items: Seq<Bencode>) -> Seq<Seq<u8>>
    decreases items.len(),
{
    if items.len() == 0 {
        Seq::empty()
    } else {
        let rest = error_words(items.drop_last());
        match items.last() {
            Bencode::Bytes(b) => rest.push(encode_utf8(text_of(b))),
            Bencode::Int(n) => rest.push(int_text(n)),
            _ => rest,
        }
    }
}

/// Words joined by single spaces.
pub open spec fn joined(words: Seq<Seq<u8>>) -> Seq<u8>
    decreases words.len(),
{
    if words.len() == 0 {
        Seq::empty()
    } else if words.len() == 1 {
        words[0]
    } else {
        joined(words.drop_last()) + seq![32u8] + words.last()
    }
}

/// The message of an error reply whose `e` entry is `entry`.
pub open spec fn remote_message(entry: Option<Bencode>) -> Seq<char> {
    match entry {
        Some(Bencode::List(items)) => decode_utf8(joined(error_words(items))),
        _ => "unknown"@,
    }
}

/// The reply to `txid`, read from a reply's top dictionary.
pub enum ReplyView {
    Answer(Seq<(Seq<u8>, Bencode)>),
    Remote(Option<Bencode>),
    Bad,
}

/// What a decoded reply says to the query `txid`.
pub open spec fn reply_of(top: Seq<(Seq<u8>, Bencode)>, txid: Seq<u8>) -> ReplyView {
    if bytes_at(top, t_key()) != Some(txid) {
        ReplyView::Bad
    } else if bytes_at(top, y_key()) == Some(r_key()) {
        match lookup(top, r_key()) {
            Some(Bencode::Dict(r)) => ReplyView::Answer(r),
            _ => ReplyView::Bad,
        }
    } else if bytes_at(top, y_key()) == Some(e_key()) {
        ReplyView::Remote(lookup(top, e_key()))
    } else {
        ReplyView::Bad
    }
}

proof fn lemma_words_valid(items: Seq<Bencode>)
    ensures
        forall|i: int| 0 <= i < error_words(items).len() ==> valid_utf8(#[trigger] error_words(items)[i]),
    decreases items.len(),
{
    if items.len() > 0 {
        lemma_words_valid(items.drop_last());
        let rest = error_words(items.drop_last());
        match items.last() {
            Bencode::Bytes(b) => {
                vstd::utf8::encode_utf8_valid_utf8(text_of(b));
                assert forall|i: int| 0 <= i < error_words(items).len() implies valid_utf8(#[trigger] error_words(items)[i]) by {
                    if i < rest.len() {
                        assert(error_words(items)[i] == rest[i]);
                    }
                }
            },
            Bencode::Int(n) => {
                crate::bencode_spec::lemma_digit_seq(crate::bencode_spec::abs(n));
                assert forall|j: int| 0 <= j < int_text(n).len() implies #[trigger] int_text(n)[j] < 128 by {
                    if n < 0 && j == 0 {
                    } else {
                        let d = crate::bencode_spec::digit_seq(crate::bencode_spec::abs(n));
                        let k = if n < 0 { j - 1 } else { j };
                        assert(int_text(n)[j] == d[k]);
                        assert(crate::bencode_spec::is_digit(d[k]));
                    }
                }
                crate::text::lemma_ascii_valid(int_text(n));
                assert forall|i: int| 0 <= i < error_words(items).len() implies valid_utf8(#[trigger] error_words(items)[i]) by {
                    if i < rest.len() {
                        assert(error_words(items)[i] == rest[i]);
                    }
                }
            },
            _ => {},
        }
    }
}

proof fn lemma_joined_valid(words: Seq<Seq<u8>>)
    requires
        forall|i: int| 0 <= i < words.len() ==> valid_utf8(#[trigger] words[i]),
    ensures
        valid_utf8(joined(words)),
    decreases words.len(),
{
    if words.len() == 0 {
        crate::text::lemma_ascii_valid(Seq::<u8>::empty());
    } else if words.len() > 1 {
        let p = words.drop_last();
        assert forall|i: int| 0 <= i < p.len() implies valid_utf8(#[trigger] p[i]) by {
            assert(p[i] == words[i]);
        }
        lemma_joined_valid(p);
        crate::text::lemma_ascii_valid(seq![32u8]);
        vstd::utf8::valid_utf8_concat(joined(p), seq![32u8]);
        vstd::utf8::valid_utf8_concat(joined(p) + seq![32u8], words.last());
    }
}

fn remote_text(entry: Option<&Value>) -> (r: String)
    ensures
        r@ == remote_message(match entry {
            Some(v) => Some(v@),
            None => None,
        }),
{
    let items = match entry {
        Some(Value::List(items)) => items,
        _ => {
            return "unknown".to_owned();
        },
    };
    let ghost im = crate::bencode::items_model(items@);
    let mut out: Vec<u8> = Vec::new();
    let mut words: usize = 0;
    let mut i: usize = 0;
    while i < items.len()
        invariant
            i <= items@.len(),
            im == crate::bencode::items_model(items@),
            words <= i,
            words == error_words(im.take(i as int)).len(),
            out@ == joined(error_words(im.take(i as int))),
        decreases items.len() - i,
    {
        proof {
            assert(im.take(i + 1).drop_last() =~= im.take(i as int));
            assert(im.take(i + 1).last() == items@[i as int]@);
        }
        let ghost w = error_words(im.take(i as int));
        let ghost before_out = out@;
        match &items[i] {
            Value::Bytes(b) => {
                let text = lossy_string(b.as_slice());
                if words > 0 {
                    out.push(32u8);
                }
                crate::wire::push_all(&mut out, text.as_str().as_bytes());
                words = words + 1;
                proof {
                    let x = encode_utf8(text_of(b@));
                    assert(error_words(im.take(i + 1)) == w.push(x));
                    assert(w.push(x).drop_last() =~= w);
                    if w.len() == 0 {
                        assert(out@ =~= x);
                    } else {
                        assert(out@ =~= before_out + seq![32u8] + x);
                    }
                }
            },
            Value::Int(n) => {
                if words > 0 {
                    out.push(32u8);
                }
                let ghost mid = out@;
                let magnitude: u64 = if *n < 0 {
                    out.push(45u8);
                    ((-(*n + 1)) as u64) + 1
                } else {
                    *n as u64
                };
                crate::wire::push_decimal(&mut out, magnitude);
                words = words + 1;
                proof {
                    assert(magnitude == crate::bencode_spec::abs(*n as int));
                    assert(out@ =~= mid + int_text(*n as int));
                    let x = int_text(*n as int);
                    assert(error_words(im.take(i + 1)) == w.push(x));
                    assert(w.push(x).drop_last() =~= w);
                    if w.len() == 0 {
                        assert(out@ =~= x);
                    } else {
                        assert(out@ =~= before_out + seq![32u8] + x);
                    }
                }
            },
            _ => {
                proof {
                    assert(error_words(im.take(i + 1)) == w);
                }
            },
        }
        i = i + 1;
    }
    proof {
        assert(im.take(items@.len() as int) =~= im);
        lemma_words_valid(im);
        lemma_joined_valid(error_words(im));
        assert(Value::List(*items)@->List_0 =~= im);
    }
    match string_from_utf8(out) {
        Some(s) => s,
        None => String::new(),
    }
}

/// Reads a KRPC reply to `txid`: the `r` dictionary of an answer, the
/// message of an error reply, or `BadResponse`.
pub fn parse_reply(raw: &[u8], txid: &[u8]) -> (r: Result<Dict, Error>)
    ensures
        match r {
            Ok(d) => exists|top: Seq<(Seq<u8>, Bencode)>|
                decodes_to(raw@, Bencode::Dict(top)) && reply_of(top, txid@) == ReplyView::Answer(d@),
            Err(Error::Remote(m)) => exists|top: Seq<(Seq<u8>, Bencode)>|
                decodes_to(raw@, Bencode::Dict(top)) && (reply_of(top, txid@) matches ReplyView::Remote(e)
                    && m@ == remote_message(e)),
            Err(Error::BadResponse) => forall|top: Seq<(Seq<u8>, Bencode)>|
                decodes_to(raw@, Bencode::Dict(top)) ==> reply_of(top, txid@) is Bad,
            Err(_) => false,
        },
{
    let top = match decode(raw) {
        Ok(Value::Dict(map)) => map,
        Ok(other) => {
            proof {
                assert forall|t: Seq<(Seq<u8>, Bencode)>| !decodes_to(raw@, Bencode::Dict(t)) by {
                    if decodes_to(raw@, Bencode::Dict(t)) {
                        crate::bencode_spec::law_decoding_unique(raw@, other@, Bencode::Dict(t));
                    }
                }
            }
            return Err(Error::BadResponse);
        },
        Err(_) => {
            return Err(Error::BadResponse);
        },
    };
    proof {
        assert forall|t: Seq<(Seq<u8>, Bencode)>| #[trigger] decodes_to(raw@, Bencode::Dict(t)) implies t
            == top@ by {
            crate::bencode_spec::law_decoding_unique(raw@, Bencode::Dict(t), Bencode::Dict(top@));
        }
    }
    match top.get_bytes(t_bytes().as_slice()) {
        Some(t) => {
            if !bytes_eq(t.as_slice(), txid) {
                return Err(Error::BadResponse);
            }
        },
        None => {
            return Err(Error::BadResponse);
        },
    }
    let y = match top.get_bytes(y_bytes().as_slice()) {
        Some(y) => y,
        None => {
            return Err(Error::BadResponse);
        },
    };
    if bytes_eq(y.as_slice(), r_bytes().as_slice()) {
        match top.get_dict(r_bytes().as_slice()) {
            Some(r) => {
                let d = r.deep_clone();
                proof {
                    assert(reply_of(top@, txid@) == ReplyView::Answer(d@));
                }
                Ok(d)
            },
            None => Err(Error::BadResponse),
        }
    } else if bytes_eq(y.as_slice(), e_bytes().as_slice()) {
        let entry = top.get(e_bytes().as_slice());
        let m = remote_text(entry);
        proof {
            assert(reply_of(top@, txid@) == ReplyView::Remote(lookup(top@, e_key())));
        }
        Err(Error::Remote(m))
    } else {
        Err(Error::BadResponse)
    }
}

/// The id in an answer: 20 bytes under `id`.
pub fn reply_id(r: &Dict) -> (out: Result<NodeId, Error>)
    ensures
        match out {
            Ok(id) => bytes_at(r@, id_key()) == Some(id.0@),
            Err(e) => e == Error::BadResponse && !(bytes_at(r@, id_key()) matches Some(b) && b.len() == 20),
        },
{
    match r.get_bytes(id_bytes().as_slice()) {
        Some(id) => {
            if id.len() != 20 {
                return Err(Error::BadResponse);
            }
            let v = crate::wire::to_array::<20>(id);
            Ok(NodeId(v))
        },
        None => Err(Error::BadResponse),
    }
}

/// `a` is nearer to `target` than `b`.
pub open spec fn nearer(a: NodeEntry, b: NodeEntry, target: Seq<u8>) -> bool {
    crate::bencode_spec::lex_lt(xor_seq(a.id.0@, target), xor_seq(b.id.0@, target))
}

/// From nearest to farthest from `target`.
pub open spec fn by_distance(s: Seq<NodeEntry>, target: Seq<u8>) -> bool {
    forall|i: int, j: int| 0 <= i < j < s.len() ==> !nearer(#[trigger] s[j], #[trigger] s[i], target)
}

impl RoutingTable {
    /// Every node of the table, bucket by bucket.
    fn all_entries(&self) -> (r: Vec<NodeEntry>)
        ensures
            r@ == self.bucket_lists().flatten(),
    {
        let ghost lists = self.bucket_lists();
        let mut all: Vec<NodeEntry> = Vec::new();
        let mut b: usize = 0;
        while b < self.buckets.len()
            invariant
                b <= self.buckets@.len(),
                lists == self.bucket_lists(),
                lists.len() == self.buckets@.len(),
                all@ == lists.take(b as int).flatten(),
            decreases self.buckets.len() - b,
        {
            let bucket = &self.buckets[b];
            proof {
                assert(bucket@ == lists[b as int]);
            }
            let ghost start = all@;
            let mut j: usize = 0;
            while j < bucket.len()
                invariant
                    j <= bucket@.len(),
                    all@ == start + bucket@.take(j as int),
                decreases bucket.len() - j,
            {
                all.push(bucket[j]);
                proof {
                    assert(bucket@.take(j + 1) =~= bucket@.take(j as int).push(bucket@[j as int]));
                    assert(all@ =~= start + bucket@.take(j + 1));
                }
                j = j + 1;
            }
            proof {
                assert(bucket@.take(bucket@.len() as int) =~= bucket@);
                assert(lists.take(b + 1) =~= lists.take(b as int).push(lists[b as int]));
                lists.take(b as int).lemma_flatten_push(lists[b as int]);
            }
            b = b + 1;
        }
        proof {
            assert(lists.take(lists.len() as int) =~= lists);
        }
        all
    }

    /// The `count` nodes nearest to `target`, nearest first.
    pub fn closest(&self, target: &NodeId, count: usize) -> (r: Vec<NodeEntry>)
        ensures
            exists|s: Seq<NodeEntry>|
                s.to_multiset() == self.bucket_lists().flatten().to_multiset() && by_distance(s, target.0@)
                    && r@ == s.take(if count < s.len() { count as int } else { s.len() as int }),
    {
        let all = self.all_entries();
        let mut sorted: Vec<NodeEntry> = Vec::new();
        let mut i: usize = 0;
        proof {
            assert(all@.take(0) =~= Seq::<NodeEntry>::empty());
        }
        while i < all.len()
            invariant
                i <= all@.len(),
                sorted@.to_multiset() == all@.take(i as int).to_multiset(),
                by_distance(sorted@, target.0@),
            decreases all.len() - i,
        {
            let x = all[i];
            let dx = x.id.distance(target);
            let mut p: usize = 0;
            let mut found = false;
            while !found && p < sorted.len()
                invariant
                    p <= sorted@.len(),
                    dx@ == xor_seq(x.id.0@, target.0@),
                    forall|k: int| 0 <= k < p ==> !nearer(x, #[trigger] sorted@[k], target.0@),
                    found ==> p < sorted@.len() && nearer(x, sorted@[p as int], target.0@),
                decreases sorted@.len() - p + if found {
                    0int
                } else {
                    1int
                },
            {
                let dp = sorted[p].id.distance(target);
                if crate::bencode::bytes_lt(&dx, &dp) {
                    found = true;
                } else {
                    p = p + 1;
                }
            }
            let ghost old_sorted = sorted@;
            proof {
                if p < old_sorted.len() {
                    assert(nearer(x, old_sorted[p as int], target.0@));
                }
            }
            sorted.insert(p, x);
            proof {
                vstd::seq_lib::to_multiset_insert(old_sorted, p as int, x);
                assert(all@.take(i + 1) =~= all@.take(i as int).push(x));
                vstd::seq_lib::to_multiset_build(all@.take(i as int), x);
                assert forall|a: int, b: int| 0 <= a < b < sorted@.len() implies !nearer(#[trigger] sorted@[b], #[trigger] sorted@[a], target.0@) by {
                    let s = sorted@;
                    if b < p {
                        assert(s[a] == old_sorted[a] && s[b] == old_sorted[b]);
                    } else if b == p {
                        assert(s[a] == old_sorted[a]);
                    } else if a == p {
                        assert(s[b] == old_sorted[b - 1]);
                        if nearer(s[b], x, target.0@) {
                            if b - 1 > p {
                                crate::bencode_spec::lemma_lex_transitive(
                                    xor_seq(s[b].id.0@, target.0@),
                                    xor_seq(x.id.0@, target.0@),
                                    xor_seq(old_sorted[p as int].id.0@, target.0@),
                                );
                            } else {
                                crate::bencode_spec::lemma_lex_transitive(
                                    xor_seq(s[b].id.0@, target.0@),
                                    xor_seq(x.id.0@, target.0@),
                                    xor_seq(old_sorted[p as int].id.0@, target.0@),
                                );
                                crate::bencode_spec::lemma_lex_irreflexive(xor_seq(s[b].id.0@, target.0@));
                            }
                        }
                    } else if a < p {
                        assert(s[a] == old_sorted[a] && s[b] == old_sorted[b - 1]);
                    } else {
                        assert(s[a] == old_sorted[a - 1] && s[b] == old_sorted[b - 1]);
                    }
                }
            }
            i = i + 1;
        }
        proof {
            assert(all@.take(all@.len() as int) =~= all@);
        }
        let ghost full = sorted@;
        sorted.truncate(count);
        proof {
            if count < full.len() {
                assert(sorted@ =~= full.take(count as int));
            } else {
                assert(sorted@ =~= full.take(full.len() as int));
            }
        }
        sorted
    }
}

/// A random node id, drawn from std's randomly keyed hasher 8 bytes at a
/// time, with the top bit clear.
pub fn random_node_id() -> (r: NodeId)
    ensures
        r.0@[0] < 128,
{
    let mut out = [0u8; 20];
    let mut start: usize = 0;
    while start < 20
        invariant
            start <= 20,
            out@.len() == 20,
        decreases 20 - start,
    {
        let len: usize = if 20 - start >= 8 {
            8
        } else {
            20 - start
        };
        let state = crate::random::new_random_state();
        let mut hasher = crate::random::build_hasher(&state);
        crate::random::hash_u8(&mut hasher, len as u8);
        let value = std::hash::Hasher::finish(&hasher);
        let mut bytes: Vec<u8> = Vec::new();
        crate::wire::push_be(&mut bytes, value, 8);
        proof {
            crate::wire::lemma_be_bytes_len(value as nat, 8);
        }
        let mut i: usize = 0;
        while i < len
            invariant
                i <= len,
                len <= 8,
                start + len <= 20,
                bytes@.len() == 8,
                out@.len() == 20,
            decreases len - i,
        {
            out[start + i] = bytes[i];
            i = i + 1;
        }
        start = start + len;
    }
    let first = out[0];
    out[0] = first & 0x7f;
    proof {
        assert(first & 0x7f < 128) by (bit_vector);
        assert(out@[0] == first & 0x7f);
    }
    NodeId(out)
}
} // verus!
