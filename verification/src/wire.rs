//! Byte-level building blocks shared by the wire formats: copying, comparing,
//! big-endian integers and decimal text.
use vstd::prelude::*;
use crate::bencode_spec::digit_seq;

verus! {

/// `256` raised to `n`.
pub open spec fn pow256(n: nat) -> nat
    decreases n,
{
    if n == 0 {
        1
    } else {
        256 * pow256((n - 1) as nat)
    }
}

/// The low `n` bytes of `v`, most significant first.
pub open spec fn be_bytes(v: nat, n: nat) -> Seq<u8>
    decreases n,
{
    if n == 0 {
        Seq::empty()
    } else {
        be_bytes(v / 256, (n - 1) as nat).push((v % 256) as u8)
    }
}

/// The number that big-endian bytes denote.
pub open spec fn be_value(s: Seq<u8>) -> nat
    decreases s.len(),
{
    if s.len() == 0 {
        0
    } else {
        be_value(s.drop_last()) * 256 + s.last() as nat
    }
}

pub proof fn lemma_be_bytes_len(v: nat, n: nat)
    ensures
        be_bytes(v, n).len() == n,
    decreases n,
{
    if n > 0 {
        lemma_be_bytes_len(v / 256, (n - 1) as nat);
    }
}

pub proof fn lemma_be_value_bound(s: Seq<u8>)
    ensures
        be_value(s) < pow256(s.len()),
    decreases s.len(),
{
    if s.len() > 0 {
        lemma_be_value_bound(s.drop_last());
        let a = be_value(s.drop_last());
        let p = pow256((s.len() - 1) as nat);
        let b = s.last() as nat;
        assert(a * 256 + b < 256 * p) by (nonlinear_arith)
            requires
                a < p,
                b < 256,
        ;
    }
}

/// Keeping and mapping the items of two sequences one after the other is
/// doing it to each and joining the results.
pub proof fn lemma_filter_map_concat<A, B>(a: Seq<A>, b: Seq<A>, f: spec_fn(A) -> Option<B>)
    ensures
        (a + b).filter_map(f) == a.filter_map(f) + b.filter_map(f),
    decreases b.len(),
{
    if b.len() == 0 {
        assert(a + b =~= a);
        assert(a.filter_map(f) + b.filter_map(f) =~= a.filter_map(f));
    } else {
        lemma_filter_map_concat(a, b.drop_last(), f);
        assert((a + b).drop_last() =~= a + b.drop_last());
        assert((a + b).last() == b.last());
        match f(b.last()) {
            Some(x) => {
                assert((a + b).filter_map(f) =~= a.filter_map(f) + b.filter_map(f));
            },
            None => {},
        }
    }
}

/// Writing `v` in `n` bytes and reading it back gives `v`, when it fits.
pub proof fn lemma_be_round_trip(v: nat, n: nat)
    requires
        v < pow256(n),
    ensures
        be_value(be_bytes(v, n)) == v,
    decreases n,
{
    if n > 0 {
        let p = pow256((n - 1) as nat);
        assert(v / 256 < p) by (nonlinear_arith)
            requires
                v < 256 * p,
        ;
        lemma_be_round_trip(v / 256, (n - 1) as nat);
        let s = be_bytes(v, n);
        assert(s.drop_last() =~= be_bytes(v / 256, (n - 1) as nat));
        assert(v == (v / 256) * 256 + v % 256) by (nonlinear_arith);
    }
}

/// Reading `n` bytes and writing the value back in `n` bytes gives them back.
pub proof fn lemma_be_bytes_of_value(s: Seq<u8>)
    ensures
        be_bytes(be_value(s), s.len()) == s,
    decreases s.len(),
{
    if s.len() > 0 {
        let p = s.drop_last();
        lemma_be_bytes_of_value(p);
        let v = be_value(s);
        let a = be_value(p);
        let b = s.last() as nat;
        assert(v / 256 == a && v % 256 == b) by (nonlinear_arith)
            requires
                v == a * 256 + b,
                b < 256,
        ;
        assert(be_bytes(v, s.len()) =~= p.push(s.last()));
        assert(p.push(s.last()) =~= s);
    }
}

pub proof fn lemma_pow256_values()
    ensures
        pow256(1) == 0x100,
        pow256(2) == 0x1_0000,
        pow256(4) == 0x1_0000_0000,
        pow256(8) == 0x1_0000_0000_0000_0000,
{
    reveal_with_fuel(pow256, 9);
}

/// Appends `data` to `out`.
pub fn push_all(out: &mut Vec<u8>, data: &[u8])
    ensures
        final(out)@ == old(out)@ + data@,
{
    let ghost start = out@;
    let mut i: usize = 0;
    while i < data.len()
        invariant
            i <= data.len(),
            out@ == start + data@.subrange(0, i as int),
        decreases data.len() - i,
    {
        out.push(data[i]);
        i = i + 1;
        proof {
            assert(out@ =~= start + data@.subrange(0, i as int));
        }
    }
    proof {
        assert(data@.subrange(0, data@.len() as int) =~= data@);
    }
}

/// A copy of `input[start..end]`.
pub fn copy_range(input: &[u8], start: usize, end: usize) -> (out: Vec<u8>)
    requires
        start <= end <= input.len(),
    ensures
        out@ == input@.subrange(start as int, end as int),
{
    let mut out: Vec<u8> = Vec::new();
    let mut i = start;
    while i < end
        invariant
            start <= i <= end <= input.len(),
            out@ == input@.subrange(start as int, i as int),
        decreases end - i,
    {
        out.push(input[i]);
        i = i + 1;
        proof {
            assert(out@ =~= input@.subrange(start as int, i as int));
        }
    }
    out
}

/// A copy of all of `input`.
pub fn copy_all(input: &[u8]) -> (out: Vec<u8>)
    ensures
        out@ == input@,
{
    let out = copy_range(input, 0, input.len());
    proof {
        assert(input@.subrange(0, input@.len() as int) =~= input@);
    }
    out
}

/// Byte-wise equality.
pub fn bytes_eq(a: &[u8], b: &[u8]) -> (r: bool)
    ensures
        r == (a@ == b@),
{
    if a.len() != b.len() {
        return false;
    }
    let mut i: usize = 0;
    while i < a.len()
        invariant
            i <= a.len() == b.len(),
            forall|j: int| 0 <= j < i ==> a@[j] == b@[j],
        decreases a.len() - i,
    {
        if a[i] != b[i] {
            return false;
        }
        i = i + 1;
    }
    proof {
        assert(a@ =~= b@);
    }
    true
}

/// `data` starts with `prefix`.
pub fn starts_with(data: &[u8], prefix: &[u8]) -> (r: bool)
    ensures
        r == (prefix@.len() <= data@.len() && data@.subrange(0, prefix@.len() as int) == prefix@),
{
    if prefix.len() > data.len() {
        return false;
    }
    let mut i: usize = 0;
    while i < prefix.len()
        invariant
            i <= prefix.len() <= data.len(),
            forall|j: int| 0 <= j < i ==> data@[j] == prefix@[j],
        decreases prefix.len() - i,
    {
        if data[i] != prefix[i] {
            proof {
                assert(data@.subrange(0, prefix@.len() as int)[i as int] == data@[i as int]);
            }
            return false;
        }
        i = i + 1;
    }
    proof {
        assert(data@.subrange(0, prefix@.len() as int) =~= prefix@);
    }
    true
}

/// Appends the low `n` bytes of `v`, most significant first.
pub fn push_be(out: &mut Vec<u8>, v: u64, n: usize)
    requires
        n <= 8,
    ensures
        final(out)@ == old(out)@ + be_bytes(v as nat, n as nat),
    decreases n,
{
    if n > 0 {
        push_be(out, v / 256, n - 1);
        out.push((v % 256) as u8);
        proof {
            let ghost prev = old(out)@ + be_bytes((v / 256) as nat, (n - 1) as nat);
            assert(be_bytes(v as nat, n as nat) == be_bytes((v as nat) / 256, (n - 1) as nat).push(
                ((v as nat) % 256) as u8,
            ));
            assert(out@ =~= old(out)@ + be_bytes(v as nat, n as nat));
        }
    } else {
        proof {
            assert(out@ =~= old(out)@ + be_bytes(v as nat, n as nat));
        }
    }
}

/// The big-endian number in `s[off..off + n]`.
pub fn read_be(s: &[u8], off: usize, n: usize) -> (r: u64)
    requires
        n <= 8,
        off + n <= s@.len(),
    ensures
        r == be_value(s@.subrange(off as int, off + n)),
{
    let mut acc: u64 = 0;
    let mut i: usize = 0;
    while i < n
        invariant
            n <= 8,
            off + n <= s.len(),
            i <= n,
            acc == be_value(s@.subrange(off as int, off + i)),
        decreases n - i,
    {
        proof {
            let t = s@.subrange(off as int, off + i + 1);
            assert(t.drop_last() =~= s@.subrange(off as int, off + i));
            lemma_be_value_bound(s@.subrange(off as int, off + i));
            lemma_pow256_mono(i as nat, 7);
            lemma_pow256_values();
            assert(pow256(7) == 0x100_0000_0000_0000) by {
                reveal_with_fuel(pow256, 8);
            }
        }
        acc = acc * 256 + s[off + i] as u64;
        i = i + 1;
    }
    acc
}

pub proof fn lemma_pow256_mono(a: nat, b: nat)
    requires
        a <= b,
    ensures
        pow256(a) <= pow256(b),
    decreases b,
{
    if a < b {
        lemma_pow256_mono(a, (b - 1) as nat);
    }
}

/// The big-endian `u32` at `s[off..off + 4]`.
pub fn read_u32_be(s: &[u8], off: usize) -> (r: u32)
    requires
        off + 4 <= s@.len(),
    ensures
        r == be_value(s@.subrange(off as int, off + 4)),
{
    proof {
        lemma_be_value_bound(s@.subrange(off as int, off + 4));
        lemma_pow256_values();
    }
    read_be(s, off, 4) as u32
}

/// The big-endian `u16` at `s[off..off + 2]`.
pub fn read_u16_be(s: &[u8], off: usize) -> (r: u16)
    requires
        off + 2 <= s@.len(),
    ensures
        r == be_value(s@.subrange(off as int, off + 2)),
{
    proof {
        lemma_be_value_bound(s@.subrange(off as int, off + 2));
        lemma_pow256_values();
    }
    read_be(s, off, 2) as u16
}

/// Equal big-endian encodings of the same width come from equal numbers.
pub proof fn lemma_be_injective(x: nat, y: nat, n: nat)
    requires
        x < pow256(n),
        y < pow256(n),
        be_bytes(x, n) == be_bytes(y, n),
    ensures
        x == y,
{
    lemma_be_round_trip(x, n);
    lemma_be_round_trip(y, n);
}

/// The index of the first `c` in `s`, if any.
pub open spec fn index_of(s: Seq<u8>, c: u8) -> Option<nat>
    decreases s.len(),
{
    if s.len() == 0 {
        None
    } else if s[0] == c {
        Some(0)
    } else {
        match index_of(s.subrange(1, s.len() as int), c) {
            Some(i) => Some(i + 1),
            None => None,
        }
    }
}

/// `index_of` finds the first `c`, or says there is none.
pub proof fn lemma_index_of(s: Seq<u8>, c: u8, k: int)
    requires
        0 <= k <= s.len(),
        forall|j: int| 0 <= j < k ==> s[j] != c,
    ensures
        k < s.len() && s[k] == c ==> index_of(s, c) == Some(k as nat),
        k == s.len() ==> index_of(s, c) is None,
    decreases k,
{
    if k > 0 {
        let t = s.subrange(1, s.len() as int);
        assert forall|j: int| 0 <= j < k - 1 implies t[j] != c by {
            assert(t[j] == s[j + 1]);
        }
        lemma_index_of(t, c, k - 1);
        if k < s.len() {
            assert(t[k - 1] == s[k]);
        }
    }
}

/// The index in `s` of the first `c` at or after `from`, if any.
pub fn find_from(s: &[u8], from: usize, c: u8) -> (r: Option<usize>)
    requires
        from <= s@.len(),
    ensures
        match r {
            Some(k) => from <= k < s@.len() && index_of(s@.subrange(from as int, s@.len() as int), c)
                == Some((k - from) as nat),
            None => index_of(s@.subrange(from as int, s@.len() as int), c) is None,
        },
{
    let ghost t = s@.subrange(from as int, s@.len() as int);
    let mut k = from;
    while k < s.len()
        invariant
            from <= k <= s@.len(),
            t == s@.subrange(from as int, s@.len() as int),
            forall|j: int| 0 <= j < k - from ==> t[j] != c,
        decreases s.len() - k,
    {
        if s[k] == c {
            proof {
                assert(t[k - from] == c);
                lemma_index_of(t, c, k - from);
            }
            return Some(k);
        }
        k = k + 1;
    }
    proof {
        lemma_index_of(t, c, k - from);
    }
    None
}

/// Appends the decimal digits of `n`.
pub fn push_decimal(out: &mut Vec<u8>, n: u64)
    ensures
        final(out)@ == old(out)@ + digit_seq(n as nat),
    decreases n,
{
    if n >= 10 {
        push_decimal(out, n / 10);
    }
    out.push((48 + n % 10) as u8);
    proof {
        if n < 10 {
            assert(digit_seq(n as nat) == seq![(48 + n) as u8]);
        } else {
            assert(digit_seq(n as nat) == digit_seq((n / 10) as nat).push((48 + n % 10) as u8));
        }
        assert(out@ =~= old(out)@ + digit_seq(n as nat));
    }
}

/// The bytes of `v` as an array of its length.
pub fn to_array<const N: usize>(v: &Vec<u8>) -> (r: [u8; N])
    requires
        v@.len() == N,
    ensures
        r@ == v@,
{
    let mut out = [0u8; N];
    let mut i: usize = 0;
    while i < N
        invariant
            i <= N,
            v@.len() == N,
            out@.len() == N,
            forall|k: int| 0 <= k < i ==> out@[k] == v@[k],
        decreases N - i,
    {
        out[i] = v[i];
        i = i + 1;
    }
    assert(out@ =~= v@);
    out
}

/// Overwrites `dst` from `start` on with `src`.
pub fn copy_into(dst: &mut Vec<u8>, start: usize, src: &[u8])
    requires
        start + src@.len() <= old(dst)@.len(),
    ensures
        final(dst)@ == old(dst)@.subrange(0, start as int) + src@ + old(dst)@.subrange(
            start + src@.len(),
            old(dst)@.len() as int,
        ),
{
    let ghost d0 = dst@;
    let _n = dst.len();
    let mut i: usize = 0;
    while i < src.len()
        invariant
            i <= src@.len(),
            start + src@.len() <= d0.len(),
            d0.len() <= usize::MAX,
            dst@.len() == d0.len(),
            forall|k: int| 0 <= k < dst@.len() ==> #[trigger] dst@[k] == if start <= k < start + i {
                src@[k - start]
            } else {
                d0[k]
            },
        decreases src.len() - i,
    {
        dst.set(start + i, src[i]);
        i = i + 1;
    }
    assert(dst@ =~= d0.subrange(0, start as int) + src@ + d0.subrange(start + src@.len(), d0.len() as int));
}

} // verus!
