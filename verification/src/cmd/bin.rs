// Reading a byte range of the file that a recipe describes.
//
// The recipe's chunks are walked in order; each chunk that overlaps the
// requested range gives the overlapping part of its bytes (inline data, or
// the file it names, checked against the chunk's size and CRC-32 first).
// The walk stops as soon as the requested number of bytes has been given.
use vstd::prelude::*;

use crate::digest::{crc32, crc32_hash};
use super::plan::assemble::{pieces_bytes, pieces_len, recipe_matches, recipe_views, PieceView};
use super::plan::recipe::{RecipeChunk, RecipeChunkView};

verus! {

// ===== The end of the described file =====

/// The end of the described file: the largest end of a chunk, 0 for none.
pub open spec fn spec_recipe_end(r: Seq<RecipeChunkView>) -> int
    decreases r.len(),
{
    if r.len() == 0 {
        0
    } else {
        let m = spec_recipe_end(r.drop_last());
        let e = r.last().offset + r.last().size;
        if e > m {
            e
        } else {
            m
        }
    }
}

/// The end of every chunk fits in 64 bits.
pub open spec fn chunk_ends_fit(r: Seq<RecipeChunkView>) -> bool {
    forall|i: int| 0 <= i < r.len() ==> #[trigger] r[i].offset + r[i].size <= u64::MAX
}

/// The end of the described file: the byte after the last chunk.
pub fn recipe_end(chunks: &[RecipeChunk]) -> (r: u64)
    requires
        chunk_ends_fit(recipe_views(chunks@)),
    ensures
        r == spec_recipe_end(recipe_views(chunks@)),
{
    let ghost rv = recipe_views(chunks@);
    let mut m: u64 = 0;
    let mut i: usize = 0;
    while i < chunks.len()
        invariant
            rv == recipe_views(chunks@),
            chunk_ends_fit(rv),
            i <= chunks@.len(),
            m == spec_recipe_end(rv.take(i as int)),
        decreases chunks@.len() - i,
    {
        assert(rv.take(i + 1).drop_last() =~= rv.take(i as int));
        assert(rv[i as int] == chunks@[i as int]@);
        assert(rv[i as int].offset + rv[i as int].size <= u64::MAX);
        let e = chunks[i].offset + chunks[i].size;
        if e > m {
            m = e;
        }
        i = i + 1;
    }
    assert(rv.take(i as int) =~= rv);
    m
}

// ===== Which part of each chunk is read =====

/// The part of the chunk at [offset, offset + size) that falls in the range
/// [start, end), as offsets within the chunk: `None` where the chunk lies
/// wholly before or after the range.
pub open spec fn spec_overlap(offset: u64, size: u64, start: u64, end: u64) -> Option<(u64, u64)> {
    let chunk_end = offset + size;
    if chunk_end <= start || offset >= end {
        None
    } else {
        let read_start = if start > offset {
            start - offset
        } else {
            0
        };
        let read_end = if end < chunk_end {
            end - offset
        } else {
            size as int
        };
        Some((read_start as u64, read_end as u64))
    }
}

/// The part of the chunk at [offset, offset + size) that falls in the range
/// [start, end), as offsets within the chunk.
pub fn chunk_overlap(offset: u64, size: u64, start: u64, end: u64) -> (r: Option<(u64, u64)>)
    requires
        offset + size <= u64::MAX,
    ensures
        r == spec_overlap(offset, size, start, end),
        r matches Some((a, b)) ==> b <= size && (start <= end ==> a <= b),
{
    let chunk_end = offset + size;
    // Skip chunks entirely before or after the requested range
    if chunk_end <= start || offset >= end {
        return None;
    }
    let read_start = if start > offset {
        start - offset
    } else {
        0
    };
    let read_end = if end < chunk_end {
        end - offset
    } else {
        size
    };
    Some((read_start, read_end))
}

/// One read: bytes [read_start, read_end) of recipe chunk `index`.
#[derive(Debug, Clone, Copy, PartialEq, Eq, Structural)]
pub struct ChunkRead {
    pub index: usize,
    pub read_start: u64,
    pub read_end: u64,
}

/// The reads from chunk `i` on, `written` bytes having been given already:
/// each chunk that overlaps [start, end) is read where it overlaps, and the
/// walk stops once `end - start` bytes have been given.
pub open spec fn reads_from(r: Seq<RecipeChunkView>, start: u64, end: u64, i: int, written: int) -> Seq<
    ChunkRead,
>
    decreases r.len() - i,
{
    if i < 0 || i >= r.len() {
        Seq::empty()
    } else {
        match spec_overlap(r[i].offset, r[i].size, start, end) {
            None => reads_from(r, start, end, i + 1, written),
            Some((a, b)) => {
                let w = written + (b - a);
                seq![ChunkRead { index: i as usize, read_start: a, read_end: b }] + if w >= end - start {
                    Seq::empty()
                } else {
                    reads_from(r, start, end, i + 1, w)
                }
            },
        }
    }
}

/// The reads that give bytes [start, end) of the described file.
pub open spec fn spec_bin_reads(r: Seq<RecipeChunkView>, start: u64, end: u64) -> Seq<ChunkRead> {
    reads_from(r, start, end, 0, 0)
}

/// The reads that give bytes [start, end) of the described file, in order.
pub fn plan_reads(chunks: &[RecipeChunk], start: u64, end: u64) -> (r: Vec<ChunkRead>)
    requires
        start <= end,
        chunk_ends_fit(recipe_views(chunks@)),
    ensures
        r@ == spec_bin_reads(recipe_views(chunks@), start, end),
{
    let ghost rv = recipe_views(chunks@);
    let total_needed = end - start;
    let mut reads: Vec<ChunkRead> = Vec::new();
    let mut written: u64 = 0;
    let mut i: usize = 0;
    while i < chunks.len()
        invariant
            rv == recipe_views(chunks@),
            chunk_ends_fit(rv),
            start <= end,
            total_needed == end - start,
            i <= chunks@.len(),
            written <= total_needed,
            reads@ + reads_from(rv, start, end, i as int, written as int) == spec_bin_reads(rv, start, end),
        decreases chunks@.len() - i,
    {
        assert(rv[i as int] == chunks@[i as int]@);
        let chunk = &chunks[i];
        match chunk_overlap(chunk.offset, chunk.size, start, end) {
            None => {},
            Some((read_start, read_end)) => {
                let read = ChunkRead { index: i, read_start, read_end };
                let ghost before = reads@;
                reads.push(read);
                let read_len = read_end - read_start;
                if read_len >= total_needed - written {
                    assert(reads@ =~= before + seq![read]);
                    assert(before + (seq![read] + Seq::<ChunkRead>::empty()) =~= reads@);
                    return reads;
                }
                assert(before + (seq![read] + reads_from(rv, start, end, i + 1, (written + read_len) as int))
                    =~= reads@ + reads_from(rv, start, end, i + 1, (written + read_len) as int));
                written = written + read_len;
            },
        }
        i = i + 1;
    }
    assert(reads@ + Seq::<ChunkRead>::empty() =~= reads@);
    reads
}

// ===== Checking a chunk's bytes =====

/// What checking a chunk's bytes against its size and CRC-32 found.
#[derive(Debug, Clone, Copy, PartialEq, Eq, Structural)]
pub enum ChunkCheck {
    Valid,
    SizeMismatch { actual_size: u64 },
    CrcMismatch { actual_crc32: u32 },
}

/// The size is checked first, then the CRC-32.
pub open spec fn spec_check_chunk(size: u64, crc: u32, data: Seq<u8>) -> ChunkCheck {
    if data.len() != size {
        ChunkCheck::SizeMismatch { actual_size: data.len() as u64 }
    } else if crc32(data) != crc {
        ChunkCheck::CrcMismatch { actual_crc32: crc32(data) }
    } else {
        ChunkCheck::Valid
    }
}

/// Checks the bytes of a chunk (its inline data, or the whole file it
/// names) against the chunk's size and CRC-32.
pub fn check_chunk(size: u64, crc: u32, data: &[u8]) -> (r: ChunkCheck)
    ensures
        r == spec_check_chunk(size, crc, data@),
{
    let len = data.len() as u64;
    if len != size {
        return ChunkCheck::SizeMismatch { actual_size: len };
    }
    let actual = crc32_hash(data);
    if actual != crc {
        return ChunkCheck::CrcMismatch { actual_crc32: actual };
    }
    ChunkCheck::Valid
}

/// Bytes [read_start, read_end) of a chunk's bytes.
pub fn read_range(data: &[u8], read_start: u64, read_end: u64) -> (r: Vec<u8>)
    requires
        read_start <= read_end <= data@.len(),
    ensures
        r@ == data@.subrange(read_start as int, read_end as int),
{
    let n = data.len();
    assert(read_end <= n);
    let end = read_end as usize;
    let mut out: Vec<u8> = Vec::new();
    let mut k: usize = read_start as usize;
    while k < end
        invariant
            end == read_end,
            read_start <= k <= read_end <= data@.len(),
            out@ == data@.subrange(read_start as int, k as int),
        decreases read_end - k,
    {
        out.push(data[k]);
        k = k + 1;
        assert(out@ =~= data@.subrange(read_start as int, k as int));
    }
    out
}

} // verus!

verus! {

// ===== Reading a range of a planned recipe =====

/// What the reads give, one after another, where chunk `i` holds `bytes[i]`.
pub open spec fn reads_output(reads: Seq<ChunkRead>, bytes: Seq<Seq<u8>>) -> Seq<u8>
    decreases reads.len(),
{
    if reads.len() == 0 {
        Seq::empty()
    } else {
        let rd = reads[0];
        bytes[rd.index as int].subrange(rd.read_start as int, rd.read_end as int) + reads_output(
            reads.skip(1),
            bytes,
        )
    }
}

/// The bytes of each piece.
pub open spec fn piece_bytes(pieces: Seq<PieceView>) -> Seq<Seq<u8>> {
    pieces.map_values(|p: PieceView| p.bytes)
}

/// `x` brought into [lo, hi].
pub open spec fn clip(x: int, lo: int, hi: int) -> int {
    if x < lo {
        lo
    } else if x > hi {
        hi
    } else {
        x
    }
}

proof fn lemma_pieces_len_is_bytes_len(pieces: Seq<PieceView>)
    ensures
        pieces_len(pieces) == pieces_bytes(pieces).len(),
    decreases pieces.len(),
{
    if pieces.len() > 0 {
        lemma_pieces_len_is_bytes_len(pieces.drop_last());
    }
}

/// The bytes of the first `k` pieces begin the described file.
proof fn lemma_bytes_prefix(pieces: Seq<PieceView>, k: int)
    requires
        0 <= k <= pieces.len(),
    ensures
        pieces_len(pieces.take(k)) <= pieces_len(pieces),
        pieces_bytes(pieces.take(k)) == pieces_bytes(pieces).subrange(0, pieces_len(pieces.take(k))),
    decreases pieces.len(),
{
    lemma_pieces_len_is_bytes_len(pieces);
    lemma_pieces_len_is_bytes_len(pieces.take(k));
    if k == pieces.len() {
        assert(pieces.take(k) =~= pieces);
        assert(pieces_bytes(pieces).subrange(0, pieces_bytes(pieces).len() as int) =~= pieces_bytes(pieces));
    } else {
        let d = pieces.drop_last();
        assert(d.take(k) =~= pieces.take(k));
        lemma_bytes_prefix(d, k);
        lemma_pieces_len_is_bytes_len(d);
        let m = pieces_len(pieces.take(k));
        assert(pieces_bytes(pieces).subrange(0, m) =~= pieces_bytes(d).subrange(0, m));
    }
}

/// Piece `i` lies at [off(i), off(i + 1)) of the described file.
proof fn lemma_piece_at(pieces: Seq<PieceView>, i: int)
    requires
        0 <= i < pieces.len(),
    ensures
        pieces_len(pieces.take(i + 1)) == pieces_len(pieces.take(i)) + pieces[i].bytes.len(),
        pieces_len(pieces.take(i)) <= pieces_len(pieces.take(i + 1)) <= pieces_len(pieces),
        pieces_bytes(pieces).subrange(pieces_len(pieces.take(i)), pieces_len(pieces.take(i + 1)))
            == pieces[i].bytes,
{
    let t = pieces.take(i + 1);
    assert(t.drop_last() =~= pieces.take(i));
    lemma_pieces_len_is_bytes_len(pieces);
    lemma_bytes_prefix(pieces, i + 1);
    lemma_bytes_prefix(pieces, i);
    lemma_pieces_len_is_bytes_len(t);
    lemma_pieces_len_is_bytes_len(pieces.take(i));
    let a = pieces_len(pieces.take(i));
    let b = pieces_len(t);
    let f = pieces_bytes(pieces);
    assert(pieces_bytes(t) == pieces_bytes(pieces.take(i)) + pieces[i].bytes);
    assert(f.subrange(a, b) =~= pieces_bytes(t).subrange(a, b));
    assert(pieces_bytes(t).subrange(a, b) =~= pieces[i].bytes);
}

proof fn lemma_reads_output_cons(rd: ChunkRead, rest: Seq<ChunkRead>, bytes: Seq<Seq<u8>>)
    ensures
        reads_output(seq![rd] + rest, bytes) == bytes[rd.index as int].subrange(
            rd.read_start as int,
            rd.read_end as int,
        ) + reads_output(rest, bytes),
{
    assert((seq![rd] + rest).skip(1) =~= rest);
    assert((seq![rd] + rest)[0] == rd);
}

/// The reads from chunk `i` on give the file from where chunk `i` starts
/// (brought into the range) to the end of the range.
proof fn lemma_reads_from(
    r: Seq<RecipeChunkView>,
    pieces: Seq<PieceView>,
    start: u64,
    end: u64,
    i: int,
    w: int,
)
    requires
        recipe_matches(r, pieces),
        r.len() <= usize::MAX,
        pieces_len(pieces) <= u64::MAX,
        start <= end <= pieces_len(pieces),
        0 <= i <= r.len(),
        w == clip(pieces_len(pieces.take(i)), start as int, end as int) - start,
    ensures
        reads_output(reads_from(r, start, end, i, w), piece_bytes(pieces)) == pieces_bytes(
            pieces,
        ).subrange(clip(pieces_len(pieces.take(i)), start as int, end as int), end as int),
    decreases r.len() - i,
{
    let f = pieces_bytes(pieces);
    let bytes = piece_bytes(pieces);
    lemma_pieces_len_is_bytes_len(pieces);
    if i == r.len() {
        assert(pieces.take(i) =~= pieces);
        assert(f.subrange(end as int, end as int) =~= Seq::<u8>::empty());
    } else {
        lemma_piece_at(pieces, i);
        lemma_pieces_monotone(pieces, i);
        lemma_bytes_prefix(pieces, i);
        let a = pieces_len(pieces.take(i));
        let b = pieces_len(pieces.take(i + 1));
        assert(r[i] == crate::cmd::plan::assemble::chunk_for_piece(pieces[i], a));
        assert(r[i].offset == a);
        assert(r[i].size == b - a);
        let ca = clip(a, start as int, end as int);
        let cb = clip(b, start as int, end as int);
        if b <= start || a >= end {
            assert(ca == cb);
            lemma_reads_from(r, pieces, start, end, i + 1, w);
        } else {
            let rs = (if start > a { start - a } else { 0 }) as u64;
            let re = (if end < b { end - a } else { b - a }) as u64;
            let rd = ChunkRead { index: i as usize, read_start: rs, read_end: re };
            let w2 = w + (re - rs);
            assert(w2 == cb - start);
            assert(bytes[i] == pieces[i].bytes);
            assert(bytes[i].subrange(rs as int, re as int) =~= f.subrange(ca, cb));
            lemma_reads_output_cons(rd, if w2 >= end - start {
                Seq::empty()
            } else {
                reads_from(r, start, end, i + 1, w2)
            }, bytes);
            if w2 >= end - start {
                assert(cb == end);
                assert(reads_output(Seq::<ChunkRead>::empty(), bytes) =~= Seq::<u8>::empty());
                assert(f.subrange(ca, cb) + Seq::<u8>::empty() =~= f.subrange(ca, end as int));
            } else {
                lemma_reads_from(r, pieces, start, end, i + 1, w2);
                assert(f.subrange(ca, cb) + f.subrange(cb, end as int) =~= f.subrange(ca, end as int));
            }
        }
    }
}

/// Reading bytes [start, end) of a file described by a recipe gives exactly
/// those bytes of the file, where the recipe lays its pieces one after
/// another from offset 0 and each chunk holds the bytes of its piece. The
/// end of such a file, the default end of a read, is the sum of the pieces'
/// lengths, and every chunk passes its check against its piece's bytes.
pub proof fn lemma_reads_give_range(r: Seq<RecipeChunkView>, pieces: Seq<PieceView>, start: u64, end: u64)
    requires
        recipe_matches(r, pieces),
        r.len() <= usize::MAX,
        pieces_len(pieces) <= u64::MAX,
        start <= end <= pieces_len(pieces),
    ensures
        chunk_ends_fit(r),
        spec_recipe_end(r) == pieces_len(pieces),
        reads_output(spec_bin_reads(r, start, end), piece_bytes(pieces)) == pieces_bytes(pieces).subrange(
            start as int,
            end as int,
        ),
        forall|i: int|
            0 <= i < r.len() ==> spec_check_chunk(#[trigger] r[i].size, r[i].crc32, pieces[i].bytes)
                == ChunkCheck::Valid,
{
    assert(pieces.take(0) =~= Seq::<PieceView>::empty());
    lemma_reads_from(r, pieces, start, end, 0, 0);
    assert forall|i: int| 0 <= i < r.len() implies spec_check_chunk(#[trigger] r[i].size, r[i].crc32, pieces[i].bytes)
        == ChunkCheck::Valid && r[i].offset + r[i].size <= u64::MAX by {
        lemma_piece_at(pieces, i);
        lemma_pieces_monotone(pieces, i);
        assert(r[i] == crate::cmd::plan::assemble::chunk_for_piece(pieces[i], pieces_len(pieces.take(i))));
    }
    lemma_recipe_end(r, pieces, r.len() as int);
    assert(r.take(r.len() as int) =~= r);
    assert(pieces.take(r.len() as int) =~= pieces);
}

/// The end of the first `k` chunks is where the `k`-th piece ends.
proof fn lemma_recipe_end(r: Seq<RecipeChunkView>, pieces: Seq<PieceView>, k: int)
    requires
        recipe_matches(r, pieces),
        pieces_len(pieces) <= u64::MAX,
        0 <= k <= r.len(),
    ensures
        spec_recipe_end(r.take(k)) == pieces_len(pieces.take(k)),
    decreases k,
{
    if k == 0 {
        assert(pieces.take(0) =~= Seq::<PieceView>::empty());
    } else {
        lemma_recipe_end(r, pieces, k - 1);
        lemma_piece_at(pieces, k - 1);
        if k - 1 > 0 {
            lemma_piece_at(pieces, k - 2);
        }
        assert(r.take(k).drop_last() =~= r.take(k - 1));
        assert(r[k - 1] == crate::cmd::plan::assemble::chunk_for_piece(
            pieces[k - 1],
            pieces_len(pieces.take(k - 1)),
        ));
        lemma_pieces_monotone(pieces, k - 1);
    }
}

/// The pieces before `k` end no later than the pieces before `k + 1`, and
/// the earlier prefixes end no later still.
proof fn lemma_pieces_monotone(pieces: Seq<PieceView>, k: int)
    requires
        0 <= k < pieces.len(),
    ensures
        pieces_len(pieces.take(k)) <= pieces_len(pieces.take(k + 1)),
        0 <= pieces_len(pieces.take(k)),
    decreases k,
{
    lemma_piece_at(pieces, k);
    if k > 0 {
        lemma_pieces_monotone(pieces, k - 1);
    } else {
        assert(pieces.take(0) =~= Seq::<PieceView>::empty());
    }
}

} // verus!
