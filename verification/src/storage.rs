//! Where the bytes of a torrent live: its files one after another, cut into
//! pieces.
use vstd::prelude::*;
use vstd::utf8::{decode_utf8, encode_utf8, valid_utf8};
use crate::metainfo::{FileEntry, Metainfo};
use crate::text::string_from_utf8;
use crate::wire::push_all;

verus! {

/// A stretch of one file.
#[derive(Debug, Clone, Copy, PartialEq, Eq, Structural)]
pub struct Segment {
    pub file: usize,
    pub offset: u64,
    pub length: u64,
}

/// The files of a torrent, in order, with their paths and lengths, and how
/// the whole is cut into pieces.
#[derive(Debug)]
pub struct Storage {
    paths: Vec<String>,
    lengths: Vec<u64>,
    piece_length: u64,
    total: u64,
}

/// `part` under the directory `dir`, as a path: `/` between them unless
/// `dir` is empty or already ends with one.
pub open spec fn join_bytes(dir: Seq<u8>, part: Seq<u8>) -> Seq<u8> {
    if dir.len() == 0 {
        part
    } else if dir.last() == 47 {
        dir + part
    } else {
        dir + seq![47u8] + part
    }
}

/// The path of `parts` one under the other, under `dir`.
pub open spec fn join_all(dir: Seq<u8>, parts: Seq<Seq<u8>>) -> Seq<u8>
    decreases parts.len(),
{
    if parts.len() == 0 {
        dir
    } else {
        join_bytes(join_all(dir, parts.drop_last()), parts.last())
    }
}

/// The UTF-8 bytes of each string.
pub open spec fn utf8_parts(parts: Seq<String>) -> Seq<Seq<u8>> {
    parts.map_values(|c: String| encode_utf8(c@))
}

/// Where a file of the torrent `name` goes under `dir`.
pub open spec fn file_path(dir: Seq<char>, name: Seq<char>, f: FileEntry) -> Seq<char> {
    decode_utf8(join_all(join_bytes(encode_utf8(dir), encode_utf8(name)), utf8_parts(f.path@)))
}

/// The sum of `lengths`.
pub open spec fn sum_lengths(lengths: Seq<u64>) -> nat
    decreases lengths.len(),
{
    if lengths.len() == 0 {
        0
    } else {
        sum_lengths(lengths.drop_last()) + lengths.last() as nat
    }
}

/// The stretches of files that hold `remaining` bytes from `cursor` on,
/// looking at the files from the `k`th, which starts at `start`.
pub open spec fn segs(lengths: Seq<u64>, k: int, start: nat, cursor: nat, remaining: nat) -> Seq<Segment>
    decreases lengths.len() - k,
{
    if k < 0 || k >= lengths.len() || remaining == 0 {
        Seq::empty()
    } else {
        let end: nat = start + lengths[k] as nat;
        if cursor < end {
            let take = if remaining < end - cursor {
                remaining
            } else {
                (end - cursor) as nat
            };
            seq![Segment { file: k as usize, offset: (cursor - start) as u64, length: take as u64 }]
                + segs(lengths, k + 1, end, cursor + take, (remaining - take) as nat)
        } else {
            segs(lengths, k + 1, end, cursor, remaining)
        }
    }
}

/// The number of bytes that `segments` covers.
pub open spec fn covered(segments: Seq<Segment>) -> nat
    decreases segments.len(),
{
    if segments.len() == 0 {
        0
    } else {
        segments[0].length as nat + covered(segments.drop_first())
    }
}

/// The sum of the lengths from the `k`th on.
spec fn sum_from(lengths: Seq<u64>, k: int) -> nat
    decreases lengths.len() - k,
{
    if k < 0 || k >= lengths.len() {
        0
    } else {
        lengths[k] as nat + sum_from(lengths, k + 1)
    }
}

proof fn lemma_sum_from_drop_last(lengths: Seq<u64>, k: int)
    requires
        0 <= k < lengths.len(),
    ensures
        sum_from(lengths, k) == sum_from(lengths.drop_last(), k) + lengths.last() as nat,
    decreases lengths.len() - k,
{
    let d = lengths.drop_last();
    if k + 1 < lengths.len() {
        lemma_sum_from_drop_last(lengths, k + 1);
        assert(d[k] == lengths[k]);
        assert(sum_from(d, k) == d[k] as nat + sum_from(d, k + 1));
    } else {
        assert(sum_from(lengths, k + 1) == 0);
        assert(sum_from(d, k) == 0);
    }
}

proof fn lemma_sum_from_total(lengths: Seq<u64>)
    ensures
        sum_from(lengths, 0) == sum_lengths(lengths),
    decreases lengths.len(),
{
    if lengths.len() > 0 {
        lemma_sum_from_drop_last(lengths, 0);
        lemma_sum_from_total(lengths.drop_last());
    }
}

proof fn lemma_segs_cover(lengths: Seq<u64>, k: int, start: nat, cursor: nat, remaining: nat)
    requires
        0 <= k,
        lengths.len() <= usize::MAX,
        remaining > 0 ==> cursor >= start,
    ensures
        covered(segs(lengths, k, start, cursor, remaining)) == if start + sum_from(lengths, k) >= cursor + remaining {
            remaining
        } else if start + sum_from(lengths, k) >= cursor {
            (start + sum_from(lengths, k) - cursor) as nat
        } else {
            0
        },
        forall|j: int|
            0 <= j < segs(lengths, k, start, cursor, remaining).len() ==> {
                let g = #[trigger] segs(lengths, k, start, cursor, remaining)[j];
                &&& k <= g.file < lengths.len()
                &&& 0 < g.length
                &&& g.offset + g.length <= lengths[g.file as int]
            },
    decreases lengths.len() - k,
{
    let r = segs(lengths, k, start, cursor, remaining);
    if k >= lengths.len() || remaining == 0 {
        assert(r.len() == 0);
    } else {
        let end: nat = start + lengths[k] as nat;
        if cursor < end {
            let take: nat = if remaining < end - cursor {
                remaining
            } else {
                (end - cursor) as nat
            };
            lemma_segs_cover(lengths, k + 1, end, cursor + take, (remaining - take) as nat);
            let rest = segs(lengths, k + 1, end, cursor + take, (remaining - take) as nat);
            assert(r.drop_first() =~= rest);
            assert forall|j: int| 0 < j < r.len() implies #[trigger] r[j] == rest[j - 1] by {}
        } else {
            lemma_segs_cover(lengths, k + 1, end, cursor, remaining);
        }
    }
}

/// The segments of a read or write cover what it asks for, as far as the
/// files reach: `length` bytes when `offset + length` is within the total,
/// else what is left from `offset` on, and nothing past the end. Each
/// segment is a non-empty stretch inside one of the files.
pub proof fn law_segments_cover(lengths: Seq<u64>, offset: nat, length: nat)
    requires
        lengths.len() <= usize::MAX,
    ensures
        covered(segs(lengths, 0, 0, offset, length)) == if offset + length <= sum_lengths(lengths) {
            length
        } else if offset <= sum_lengths(lengths) {
            (sum_lengths(lengths) - offset) as nat
        } else {
            0
        },
        forall|j: int|
            0 <= j < segs(lengths, 0, 0, offset, length).len() ==> {
                let g = #[trigger] segs(lengths, 0, 0, offset, length)[j];
                &&& g.file < lengths.len()
                &&& 0 < g.length
                &&& g.offset + g.length <= lengths[g.file as int]
            },
{
    lemma_sum_from_total(lengths);
    lemma_segs_cover(lengths, 0, 0, offset, length);
}

/// Where file `f` starts in the torrent's bytes.
pub open spec fn file_start(lengths: Seq<u64>, f: int) -> nat {
    sum_lengths(lengths.take(f))
}

proof fn lemma_covered_cons(g: Segment, rest: Seq<Segment>, j: int)
    requires
        1 <= j <= rest.len() + 1,
    ensures
        covered((seq![g] + rest).take(j)) == g.length + covered(rest.take(j - 1)),
{
    let r = (seq![g] + rest).take(j);
    assert(r.drop_first() =~= rest.take(j - 1));
    assert(r[0] == g);
}

proof fn lemma_segs_order(lengths: Seq<u64>, k: int, start: nat, cursor: nat, remaining: nat)
    requires
        0 <= k <= lengths.len(),
        lengths.len() <= usize::MAX,
        start == file_start(lengths, k),
        remaining > 0 ==> cursor >= start,
    ensures
        forall|a: int, b: int|
            0 <= a < b < segs(lengths, k, start, cursor, remaining).len() ==> (#[trigger] segs(
                lengths,
                k,
                start,
                cursor,
                remaining,
            )[a]).file < (#[trigger] segs(lengths, k, start, cursor, remaining)[b]).file,
        forall|j: int|
            #![trigger segs(lengths, k, start, cursor, remaining)[j]]
            0 <= j < segs(lengths, k, start, cursor, remaining).len() ==> {
                let r = segs(lengths, k, start, cursor, remaining);
                &&& k <= r[j].file
                &&& file_start(lengths, r[j].file as int) + r[j].offset == cursor + covered(r.take(j))
            },
    decreases lengths.len() - k,
{
    let r = segs(lengths, k, start, cursor, remaining);
    if k >= lengths.len() || remaining == 0 {
        assert(r.len() == 0);
    } else {
        let end: nat = start + lengths[k] as nat;
        assert(lengths.take(k + 1).drop_last() =~= lengths.take(k));
        assert(file_start(lengths, k + 1) == end);
        if cursor < end {
            let take: nat = if remaining < end - cursor {
                remaining
            } else {
                (end - cursor) as nat
            };
            lemma_segs_order(lengths, k + 1, end, cursor + take, (remaining - take) as nat);
            let rest = segs(lengths, k + 1, end, cursor + take, (remaining - take) as nat);
            let g = Segment { file: k as usize, offset: (cursor - start) as u64, length: take as u64 };
            assert(r == seq![g] + rest);
            assert forall|j: int| 0 < j < r.len() implies #[trigger] r[j] == rest[j - 1] by {}
            assert forall|j: int| 0 <= j < r.len() implies k <= (#[trigger] r[j]).file && file_start(
                lengths,
                r[j].file as int,
            ) + r[j].offset == cursor + covered(r.take(j)) by {
                if j == 0 {
                    assert(r.take(0) =~= Seq::<Segment>::empty());
                    assert(r[0] == g);
                } else {
                    lemma_covered_cons(g, rest, j);
                    assert(rest[j - 1] == r[j]);
                }
            }
            assert forall|a: int, b: int| 0 <= a < b < r.len() implies (#[trigger] r[a]).file < (#[trigger] r[b]).file by {
                assert(r[b] == rest[b - 1]);
                if a > 0 {
                    assert(r[a] == rest[a - 1]);
                }
            }
        } else {
            lemma_segs_order(lengths, k + 1, end, cursor, remaining);
            assert(r == segs(lengths, k + 1, end, cursor, remaining));
        }
    }
}

/// The segments of a read or write come in increasing file order, and
/// follow each other without gap: segment `j` starts, in the torrent's
/// bytes, at `offset` plus what the segments before it cover.
pub proof fn law_segments_in_order(lengths: Seq<u64>, offset: nat, length: nat)
    requires
        lengths.len() <= usize::MAX,
    ensures
        forall|a: int, b: int|
            0 <= a < b < segs(lengths, 0, 0, offset, length).len() ==> (#[trigger] segs(lengths, 0, 0, offset, length)[a]).file
                < (#[trigger] segs(lengths, 0, 0, offset, length)[b]).file,
        forall|j: int|
            #![trigger segs(lengths, 0, 0, offset, length)[j]]
            0 <= j < segs(lengths, 0, 0, offset, length).len() ==> {
                let r = segs(lengths, 0, 0, offset, length);
                file_start(lengths, r[j].file as int) + r[j].offset == offset + covered(r.take(j))
            },
{
    assert(lengths.take(0) =~= Seq::<u64>::empty());
    lemma_segs_order(lengths, 0, 0, offset, length);
}

/// The size of piece `index`: the piece length, or what is left of the
/// total for the last piece, and 0 past the end.
/// The sizes of the first `n` pieces, added up.
pub open spec fn sizes_sum(piece_length: nat, total: nat, n: nat) -> nat
    decreases n,
{
    if n == 0 {
        0
    } else {
        sizes_sum(piece_length, total, (n - 1) as nat) + piece_size_of(piece_length, total, (n - 1) as nat)
    }
}

/// The first `n` pieces hold the first `n * piece_length` bytes of the
/// torrent, or all of it: so pieces enough to reach `total` add up to
/// `total` exactly.
pub proof fn law_piece_sizes_sum(piece_length: nat, total: nat, n: nat)
    ensures
        sizes_sum(piece_length, total, n) == if total < n * piece_length {
            total
        } else {
            n * piece_length
        },
    decreases n,
{
    if n == 0 {
        assert(n * piece_length == 0) by (nonlinear_arith)
            requires
                n == 0,
        ;
    } else {
        let m = (n - 1) as nat;
        law_piece_sizes_sum(piece_length, total, m);
        assert(m * piece_length + piece_length == n * piece_length) by (nonlinear_arith)
            requires
                m + 1 == n,
        ;
        assert(m * piece_length <= n * piece_length) by (nonlinear_arith)
            requires
                m + 1 == n,
        ;
        assert(sizes_sum(piece_length, total, n) == sizes_sum(piece_length, total, m) + piece_size_of(
            piece_length,
            total,
            m,
        ));
        let start = m * piece_length;
        if total >= start {
            assert(piece_size_of(piece_length, total, m) == if piece_length < (total - start) as nat {
                piece_length
            } else {
                (total - start) as nat
            });
        } else {
            assert(piece_size_of(piece_length, total, m) == 0);
        }
    }
}

pub open spec fn piece_size_of(piece_length: nat, total: nat, index: nat) -> nat {
    let start = index * piece_length;
    let left = if total >= start {
        (total - start) as nat
    } else {
        0
    };
    if piece_length < left {
        piece_length
    } else {
        left
    }
}

proof fn lemma_join_valid(dir: Seq<u8>, part: Seq<u8>)
    requires
        valid_utf8(dir),
        valid_utf8(part),
    ensures
        valid_utf8(join_bytes(dir, part)),
{
    if dir.len() > 0 && dir.last() != 47 {
        crate::text::lemma_ascii_valid(seq![47u8]);
        vstd::utf8::valid_utf8_concat(dir, seq![47u8]);
        vstd::utf8::valid_utf8_concat(dir + seq![47u8], part);
    } else if dir.len() > 0 {
        vstd::utf8::valid_utf8_concat(dir, part);
    }
}

fn join_into(out: &mut Vec<u8>, part: &[u8])
    ensures
        final(out)@ == join_bytes(old(out)@, part@),
{
    if out.len() == 0 {
        push_all(out, part);
        proof {
            assert(final(out)@ =~= part@);
        }
    } else if out[out.len() - 1] == 47u8 {
        push_all(out, part);
    } else {
        out.push(47u8);
        push_all(out, part);
    }
}

fn path_of(dir: &str, name: &str, f: &FileEntry) -> (r: String)
    ensures
        r@ == file_path(dir@, name@, *f),
{
    let mut out: Vec<u8> = Vec::new();
    push_all(&mut out, dir.as_bytes());
    proof {
        assert(out@ =~= encode_utf8(dir@));
        vstd::utf8::encode_utf8_valid_utf8(dir@);
        vstd::utf8::encode_utf8_valid_utf8(name@);
    }
    join_into(&mut out, name.as_bytes());
    proof {
        lemma_join_valid(encode_utf8(dir@), encode_utf8(name@));
        assert(out@ == join_all(out@, Seq::<Seq<u8>>::empty()));
    }
    let ghost base = out@;
    let ghost parts = utf8_parts(f.path@);
    let mut i: usize = 0;
    while i < f.path.len()
        invariant
            i <= f.path@.len(),
            parts == utf8_parts(f.path@),
            out@ == join_all(base, parts.take(i as int)),
            valid_utf8(out@),
        decreases f.path.len() - i,
    {
        let c = f.path[i].as_str().as_bytes();
        proof {
            assert(parts.take(i + 1).drop_last() =~= parts.take(i as int));
            assert(parts.take(i + 1).last() == c@);
            vstd::utf8::encode_utf8_valid_utf8(f.path@[i as int]@);
            lemma_join_valid(out@, c@);
        }
        join_into(&mut out, c);
        i = i + 1;
    }
    proof {
        assert(parts.take(f.path@.len() as int) =~= parts);
    }
    match string_from_utf8(out) {
        Some(s) => s,
        None => String::new(),
    }
}

impl Storage {
    /// The paths of the files, in order.
    pub closed spec fn path_list(&self) -> Seq<String> {
        self.paths@
    }

    /// The lengths of the files, in order.
    pub closed spec fn file_lengths(&self) -> Seq<u64> {
        self.lengths@
    }

    pub closed spec fn piece_len(&self) -> u64 {
        self.piece_length
    }

    pub closed spec fn total_len(&self) -> u64 {
        self.total
    }

    /// The storage of `meta` under `output_dir`: each file under a
    /// directory named after the torrent.
    pub fn from_metainfo(meta: &Metainfo, output_dir: &str) -> (r: Storage)
        ensures
            r.path_list().len() == meta.files@.len(),
            forall|i: int| 0 <= i < meta.files@.len() ==> #[trigger] r.path_list()[i]@ == file_path(
                output_dir@,
                meta.name@,
                meta.files@[i],
            ),
            r.file_lengths() == meta.files@.map_values(|f: FileEntry| f.length),
            r.piece_len() == meta.piece_length,
            r.total_len() == meta.total_length,
    {
        let mut paths: Vec<String> = Vec::new();
        let mut lengths: Vec<u64> = Vec::new();
        let mut i: usize = 0;
        while i < meta.files.len()
            invariant
                i <= meta.files@.len(),
                paths@.len() == i,
                forall|k: int| 0 <= k < i ==> #[trigger] paths@[k]@ == file_path(
                    output_dir@,
                    meta.name@,
                    meta.files@[k],
                ),
                lengths@ == meta.files@.take(i as int).map_values(|f: FileEntry| f.length),
            decreases meta.files.len() - i,
        {
            let f = &meta.files[i];
            paths.push(path_of(output_dir, meta.name.as_str(), f));
            lengths.push(f.length);
            proof {
                assert(meta.files@.take(i + 1).map_values(|f: FileEntry| f.length) =~= meta.files@.take(
                    i as int,
                ).map_values(|f: FileEntry| f.length).push(f.length));
            }
            i = i + 1;
        }
        proof {
            assert(meta.files@.take(meta.files@.len() as int) =~= meta.files@);
        }
        Storage { paths, lengths, piece_length: meta.piece_length, total: meta.total_length }
    }

    pub fn paths(&self) -> (r: &[String])
        ensures
            r@ == self.path_list(),
    {
        self.paths.as_slice()
    }

    pub fn lengths(&self) -> (r: &[u64])
        ensures
            r@ == self.file_lengths(),
    {
        self.lengths.as_slice()
    }

    pub fn total(&self) -> (r: u64)
        ensures
            r == self.total_len(),
    {
        self.total
    }

    /// The size of piece `index`.
    pub fn piece_size(&self, index: u32) -> (r: u64)
        requires
            index * self.piece_len() <= u64::MAX,
        ensures
            r == piece_size_of(self.piece_len() as nat, self.total_len() as nat, index as nat),
    {
        let start = index as u64 * self.piece_length;
        let left = self.total.saturating_sub(start);
        if self.piece_length < left {
            self.piece_length
        } else {
            left
        }
    }

    /// The stretches of files that hold `length` bytes from `offset` on.
    pub fn segments(&self, offset: u64, length: u64) -> (r: Vec<Segment>)
        requires
            sum_lengths(self.file_lengths()) <= u64::MAX,
        ensures
            r@ == segs(self.file_lengths(), 0, 0, offset as nat, length as nat),
    {
        let mut out: Vec<Segment> = Vec::new();
        let mut remaining = length;
        let mut cursor = offset;
        let mut file_start: u64 = 0;
        let mut index: usize = 0;
        let ghost ls = self.lengths@;
        while index < self.lengths.len()
            invariant
                ls == self.lengths@,
                sum_lengths(ls) <= u64::MAX,
                index <= ls.len(),
                file_start == sum_lengths(ls.take(index as int)),
                remaining > 0 ==> cursor >= file_start,
                segs(ls, 0, 0, offset as nat, length as nat) == out@ + segs(
                    ls,
                    index as int,
                    file_start as nat,
                    cursor as nat,
                    remaining as nat,
                ),
            decreases self.lengths.len() - index,
        {
            proof {
                lemma_sum_prefix(ls, index as int + 1);
                assert(ls.take(index + 1).drop_last() =~= ls.take(index as int));
            }
            let file_length = self.lengths[index];
            let file_end = file_start + file_length;
            if remaining == 0 {
                proof {
                    assert(out@ + Seq::<Segment>::empty() =~= out@);
                }
                return out;
            }
            if cursor < file_end {
                let inside = cursor - file_start;
                let take = if remaining < file_end - cursor {
                    remaining
                } else {
                    file_end - cursor
                };
                let ghost prev = out@;
                out.push(Segment { file: index, offset: inside, length: take });
                proof {
                    let seg = Segment { file: index, offset: inside, length: take };
                    assert(prev + (seq![seg] + segs(
                        ls,
                        index + 1,
                        file_end as nat,
                        (cursor + take) as nat,
                        (remaining - take) as nat,
                    )) =~= out@ + segs(
                        ls,
                        index + 1,
                        file_end as nat,
                        (cursor + take) as nat,
                        (remaining - take) as nat,
                    ));
                }
                cursor = cursor + take;
                remaining = remaining - take;
            }
            file_start = file_end;
            index = index + 1;
        }
        proof {
            assert(out@ + Seq::<Segment>::empty() =~= out@);
        }
        out
    }

    /// The stretches of files that hold `length` bytes from `begin` within
    /// piece `piece`; `None` when they reach past the end.
    pub fn span(&self, piece: u32, begin: u32, length: u64) -> (r: Option<Vec<Segment>>)
        requires
            sum_lengths(self.file_lengths()) <= u64::MAX,
        ensures
            match r {
                Some(s) => piece * self.piece_len() + begin + length <= self.total_len() && s@ == segs(
                    self.file_lengths(),
                    0,
                    0,
                    (piece * self.piece_len() + begin) as nat,
                    length as nat,
                ),
                None => piece * self.piece_len() + begin + length > self.total_len(),
            },
    {
        let base = match (piece as u64).checked_mul(self.piece_length) {
            Some(b) => b,
            None => {
                return None;
            },
        };
        let offset = match base.checked_add(begin as u64) {
            Some(o) => o,
            None => {
                return None;
            },
        };
        match offset.checked_add(length) {
            Some(end) => {
                if end > self.total {
                    return None;
                }
            },
            None => {
                return None;
            },
        }
        Some(self.segments(offset, length))
    }
}

proof fn lemma_sum_prefix(ls: Seq<u64>, k: int)
    requires
        0 <= k <= ls.len(),
    ensures
        sum_lengths(ls.take(k)) <= sum_lengths(ls),
    decreases ls.len(),
{
    if k < ls.len() {
        assert(ls.drop_last().take(k) =~= ls.take(k));
        lemma_sum_prefix(ls.drop_last(), k);
    } else {
        assert(ls.take(k) =~= ls);
    }
}

} // verus!
