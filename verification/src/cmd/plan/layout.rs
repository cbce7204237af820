// Placement of the embedded source files inside the mdat, and the chunk
// offsets that point into them.
use vstd::prelude::*;

use crate::binary::{lemma_be32_of, lemma_be64_of, u32_be_bytes, u64_be_bytes, write_bytes, write_u32_be, write_u64_be};
use crate::mp4_box::spec_parse_box_at;
use crate::cmd::generate::types::{ChunkParseResult, ChunkView};
use super::types::{SampleTableView, TrackSampleTable};

verus! {

// ===== mdat header =====

/// The mdat header needs the 64-bit size form when the box would not fit in
/// 32 bits.
pub open spec fn spec_mdat_header_size(total_payload: int) -> int {
    if total_payload + 8 > u32::MAX { 16 } else { 8 }
}

/// `mdat`
pub open spec fn mdat_fourcc() -> Seq<u8> {
    seq![0x6du8, 0x64u8, 0x61u8, 0x74u8]
}

/// The header of an mdat box around `total_payload` bytes.
pub open spec fn spec_mdat_header(total_payload: int) -> Seq<u8> {
    if spec_mdat_header_size(total_payload) == 16 {
        u32_be_bytes(1) + mdat_fourcc() + u64_be_bytes(16 + total_payload)
    } else {
        u32_be_bytes(8 + total_payload) + mdat_fourcc()
    }
}

/// Size of the mdat header for `total_payload` bytes of content: 16 (64-bit
/// size) when the box would not fit in 32 bits, else 8.
pub fn mdat_header_size(total_payload: u64) -> (r: u64)
    requires
        total_payload + 8 <= u64::MAX,
    ensures
        r == spec_mdat_header_size(total_payload as int),
{
    // Use large (64-bit) mdat box if payload + 8 > u32::MAX
    if total_payload + 8 > 0xffff_ffffu64 {
        16  // extended size
    } else {
        8
    }
}

/// The header of an mdat box around `total_payload` bytes.
pub fn make_mdat_header(total_payload: u64) -> (r: Vec<u8>)
    requires
        total_payload + 16 <= u64::MAX,
    ensures
        r@ == spec_mdat_header(total_payload as int),
        r@.len() == spec_mdat_header_size(total_payload as int),
{
    let mdat: [u8; 4] = [0x6d, 0x64, 0x61, 0x74];
    assert(mdat@ =~= mdat_fourcc());
    let header_size = mdat_header_size(total_payload);
    let mut buf: Vec<u8> = Vec::new();
    if header_size == 16 {
        let total_mdat_box_size = header_size + total_payload;
        write_u32_be(&mut buf, 1);  // size=1 (use extended)
        write_bytes(&mut buf, &mdat);
        write_u64_be(&mut buf, total_mdat_box_size);
    } else {
        let total_mdat_box_size = (header_size + total_payload) as u32;
        write_u32_be(&mut buf, total_mdat_box_size);
        write_bytes(&mut buf, &mdat);
    }
    buf
}

/// An mdat header followed by its payload reads back as one mdat box that
/// holds exactly that payload.
pub proof fn lemma_mdat_header_parses(total_payload: int, payload: Seq<u8>)
    requires
        payload.len() == total_payload,
        total_payload + 16 <= u64::MAX,
        spec_mdat_header(total_payload).len() + total_payload <= usize::MAX,
    ensures
        spec_parse_box_at(spec_mdat_header(total_payload) + payload, 0) matches Some(info) && {
            &&& info.header_size == spec_mdat_header_size(total_payload)
            &&& info.total_size == info.header_size + total_payload
            &&& info.box_type@ == mdat_fourcc()
        },
{
    let h = spec_mdat_header(total_payload);
    let data = h + payload;
    if spec_mdat_header_size(total_payload) == 16 {
        assert(data.subrange(0, 4) =~= u32_be_bytes(1));
        lemma_be32_of(data, 0, 1);
        assert(data.subrange(8, 16) =~= u64_be_bytes(16 + total_payload));
        lemma_be64_of(data, 8, 16 + total_payload);
    } else {
        assert(data.subrange(0, 4) =~= u32_be_bytes(8 + total_payload));
        lemma_be32_of(data, 0, 8 + total_payload);
    }
    let info = spec_parse_box_at(data, 0).unwrap();
    assert(info.box_type@ =~= mdat_fourcc());
}

// ===== Placement of the embedded files =====

/// Bytes taken by the entries of one row: each is a header then a file.
pub open spec fn row_total(row: Seq<(u64, u64)>) -> int
    decreases row.len(),
{
    if row.len() == 0 {
        0
    } else {
        row_total(row.drop_last()) + row.last().0 + row.last().1
    }
}

/// Bytes taken by all entries of `rows`, placed row after row.
pub open spec fn rows_total(rows: Seq<Seq<(u64, u64)>>) -> int
    decreases rows.len(),
{
    if rows.len() == 0 {
        0
    } else {
        rows_total(rows.drop_last()) + row_total(rows.last())
    }
}

/// Where the file of entry `s` of row `c` starts, when the entries are placed
/// one after the other from `base`, row by row, each as its header then its
/// file.
pub open spec fn file_position(rows: Seq<Seq<(u64, u64)>>, base: int, c: int, s: int) -> int {
    base + rows_total(rows.take(c)) + row_total(rows[c].take(s)) + rows[c][s].0
}

/// The rows of a grid of (header size, file size) pairs.
pub open spec fn grid_rows(grid: Seq<Vec<(u64, u64)>>) -> Seq<Seq<(u64, u64)>> {
    grid.map_values(|row: Vec<(u64, u64)>| row@)
}

pub(crate) proof fn lemma_row_total_prefix(row: Seq<(u64, u64)>, k: int)
    requires
        0 <= k <= row.len(),
    ensures
        0 <= row_total(row.take(k)) <= row_total(row),
    decreases row.len(),
{
    if k < row.len() {
        assert(row.drop_last().take(k) =~= row.take(k));
        lemma_row_total_prefix(row.drop_last(), k);
    } else {
        assert(row.take(k) =~= row);
        if row.len() > 0 {
            lemma_row_total_prefix(row.drop_last(), row.len() - 1);
            assert(row.drop_last().take(row.len() - 1) =~= row.drop_last());
        }
    }
}

proof fn lemma_rows_total_nonneg(rows: Seq<Seq<(u64, u64)>>)
    ensures
        0 <= rows_total(rows),
    decreases rows.len(),
{
    if rows.len() > 0 {
        lemma_rows_total_nonneg(rows.drop_last());
        lemma_row_total_prefix(rows.last(), 0);
    }
}

proof fn lemma_rows_total_prefix_le(rows: Seq<Seq<(u64, u64)>>, k: int)
    requires
        0 <= k <= rows.len(),
    ensures
        rows_total(rows.take(k)) <= rows_total(rows),
    decreases rows.len(),
{
    if k == rows.len() {
        assert(rows.take(k) =~= rows);
    } else {
        assert(rows.drop_last().take(k) =~= rows.take(k));
        lemma_rows_total_prefix_le(rows.drop_last(), k);
        lemma_row_total_prefix(rows.last(), 0);
    }
}

proof fn lemma_rows_total_prefix(rows: Seq<Seq<(u64, u64)>>, k: int)
    requires
        0 <= k < rows.len(),
    ensures
        0 <= rows_total(rows.take(k)),
        rows_total(rows.take(k)) + row_total(rows[k]) <= rows_total(rows),
{
    assert(rows.take(k + 1).drop_last() =~= rows.take(k));
    lemma_rows_total_nonneg(rows.take(k));
    lemma_rows_total_prefix_le(rows, k + 1);
}

/// Total size of the entries, row after row.
pub fn entries_total(grid: &Vec<Vec<(u64, u64)>>) -> (r: u64)
    requires
        rows_total(grid_rows(grid@)) <= u64::MAX,
    ensures
        r == rows_total(grid_rows(grid@)),
{
    let ghost rows = grid_rows(grid@);
    let mut total: u64 = 0;
    let mut c: usize = 0;
    while c < grid.len()
        invariant
            rows == grid_rows(grid@),
            rows_total(rows) <= u64::MAX,
            c <= rows.len(),
            total == rows_total(rows.take(c as int)),
        decreases rows.len() - c,
    {
        let row = &grid[c];
        assert(row@ == rows[c as int]);
        proof {
            lemma_rows_total_prefix(rows, c as int);
        }
        let mut s: usize = 0;
        while s < row.len()
            invariant
                rows == grid_rows(grid@),
                c < rows.len(),
                row@ == rows[c as int],
                rows_total(rows.take(c as int)) + row_total(rows[c as int]) <= u64::MAX,
                s <= row@.len(),
                total == rows_total(rows.take(c as int)) + row_total(row@.take(s as int)),
            decreases row@.len() - s,
        {
            proof {
                lemma_row_total_prefix(row@, s + 1);
                assert(row@.take(s + 1).drop_last() =~= row@.take(s as int));
            }
            total = total + row[s].0 + row[s].1;
            s = s + 1;
        }
        proof {
            assert(row@.take(s as int) =~= row@);
            assert(rows.take(c + 1).drop_last() =~= rows.take(c as int));
        }
        c = c + 1;
    }
    assert(rows.take(c as int) =~= rows);
    total
}

/// Places the entries of `grid` one after the other from `base`, row by row,
/// each entry being a header then a file, and gives where each file starts.
pub fn file_positions(grid: &Vec<Vec<(u64, u64)>>, base: u64) -> (r: Vec<Vec<u64>>)
    requires
        base + rows_total(grid_rows(grid@)) <= u64::MAX,
    ensures
        r@.len() == grid@.len(),
        forall|c: int|
            0 <= c < grid@.len() ==> (#[trigger] r@[c])@.len() == grid@[c]@.len(),
        forall|c: int, s: int|
            0 <= c < grid@.len() && 0 <= s < grid@[c]@.len() ==> #[trigger] r@[c]@[s]
                == file_position(grid_rows(grid@), base as int, c, s),
{
    let ghost rows = grid_rows(grid@);
    let mut result: Vec<Vec<u64>> = Vec::new();
    let mut data_pos: u64 = 0;
    let mut c: usize = 0;
    while c < grid.len()
        invariant
            rows == grid_rows(grid@),
            base + rows_total(rows) <= u64::MAX,
            c <= rows.len(),
            data_pos == rows_total(rows.take(c as int)),
            result@.len() == c,
            forall|c2: int| 0 <= c2 < c ==> (#[trigger] result@[c2])@.len() == rows[c2].len(),
            forall|c2: int, s: int|
                0 <= c2 < c && 0 <= s < rows[c2].len() ==> #[trigger] result@[c2]@[s] == file_position(
                    rows,
                    base as int,
                    c2,
                    s,
                ),
        decreases rows.len() - c,
    {
        let row = &grid[c];
        assert(row@ == rows[c as int]);
        proof {
            lemma_rows_total_prefix(rows, c as int);
        }
        let mut positions: Vec<u64> = Vec::new();
        let mut s: usize = 0;
        while s < row.len()
            invariant
                rows == grid_rows(grid@),
                c < rows.len(),
                row@ == rows[c as int],
                base + rows_total(rows.take(c as int)) + row_total(rows[c as int]) <= u64::MAX,
                0 <= rows_total(rows.take(c as int)),
                s <= row@.len(),
                data_pos == rows_total(rows.take(c as int)) + row_total(row@.take(s as int)),
                positions@.len() == s,
                forall|s2: int|
                    0 <= s2 < s ==> #[trigger] positions@[s2] == file_position(rows, base as int, c as int, s2),
            decreases row@.len() - s,
        {
            proof {
                lemma_row_total_prefix(row@, s + 1);
                lemma_row_total_prefix(row@, s as int);
                assert(row@.take(s + 1).drop_last() =~= row@.take(s as int));
            }
            let (header_size, file_size) = row[s];
            // This file's data starts after its header
            positions.push(base + data_pos + header_size);
            data_pos = data_pos + header_size + file_size;
            s = s + 1;
        }
        proof {
            assert(row@.take(s as int) =~= row@);
            assert(rows.take(c + 1).drop_last() =~= rows.take(c as int));
        }
        result.push(positions);
        c = c + 1;
    }
    result
}

// ===== Chunk offsets =====

/// The absolute offset of the first sample of a fragment whose file starts
/// at `file_start`.
pub open spec fn sample_data_position(file_start: int, moof_offset: usize, data_offset: i32, byte_offset: u32) -> int {
    file_start + moof_offset + (data_offset as u64) + byte_offset
}

/// Every stbl chunk of `st` names a fragment of `chunks` whose file is placed
/// at `starts`, and its offset can be computed in 64 bits.
pub open spec fn offsets_computable(st: SampleTableView, chunks: Seq<ChunkView>, starts: Seq<u64>) -> bool {
    &&& starts.len() == chunks.len()
    &&& forall|k: int|
        0 <= k < st.sub_chunks.len() ==> {
            let sc = #[trigger] st.sub_chunks[k];
            &&& sc.chunk_file_idx < chunks.len()
            &&& sc.fragment_idx < chunks[sc.chunk_file_idx as int].fragments.len()
            &&& sample_data_position(
                starts[sc.chunk_file_idx as int] as int,
                chunks[sc.chunk_file_idx as int].fragments[sc.fragment_idx as int].moof_offset,
                chunks[sc.chunk_file_idx as int].fragments[sc.fragment_idx as int].original_data_offset,
                sc.byte_offset_in_fragment,
            ) <= u64::MAX
        }
}

/// The chunk offset of stbl chunk `k`: the position of its fragment's
/// sample data in the output.
pub open spec fn spec_chunk_offset(st: SampleTableView, chunks: Seq<ChunkView>, starts: Seq<u64>, k: int) -> int {
    let sc = st.sub_chunks[k];
    let f = chunks[sc.chunk_file_idx as int].fragments[sc.fragment_idx as int];
    sample_data_position(
        starts[sc.chunk_file_idx as int] as int,
        f.moof_offset,
        f.original_data_offset,
        sc.byte_offset_in_fragment,
    )
}

/// Sets each chunk offset of `st` to the position of its first sample: the
/// start of its chunk file in the output, plus the moof offset within the
/// file, plus the trun data offset, plus the offset within the fragment.
pub fn fill_chunk_offsets(st: &mut TrackSampleTable, chunks: &[ChunkParseResult], starts: &[u64])
    requires
        old(st)@.chunk_offsets.len() == old(st)@.sub_chunks.len(),
        offsets_computable(old(st)@, chunks@.map_values(|c: ChunkParseResult| c@), starts@),
    ensures
        final(st)@.chunk_offsets.len() == old(st)@.chunk_offsets.len(),
        forall|k: int|
            0 <= k < final(st)@.chunk_offsets.len() ==> #[trigger] final(st)@.chunk_offsets[k]
                == spec_chunk_offset(old(st)@, chunks@.map_values(|c: ChunkParseResult| c@), starts@, k),
        final(st)@ == (SampleTableView { chunk_offsets: final(st)@.chunk_offsets, ..old(st)@ }),
        forall|k: int|
            0 <= k < final(st)@.chunk_offsets.len() ==> {
                let sc = old(st)@.sub_chunks[k];
                let f = chunks@[sc.chunk_file_idx as int]@.fragments[sc.fragment_idx as int];
                #[trigger] final(st)@.chunk_offsets[k] == starts@[sc.chunk_file_idx as int] + f.moof_offset
                    + (f.original_data_offset as u64) + sc.byte_offset_in_fragment
            },
{
    let ghost cv = chunks@.map_values(|c: ChunkParseResult| c@);
    let ghost st0 = st@;
    let n = st.sub_chunks.len();
    let mut k: usize = 0;
    while k < n
        invariant
            n == st0.sub_chunks.len(),
            st0.chunk_offsets.len() == n,
            cv == chunks@.map_values(|c: ChunkParseResult| c@),
            offsets_computable(st0, cv, starts@),
            k <= n,
            st@ == (SampleTableView { chunk_offsets: st@.chunk_offsets, ..st0 }),
            st@.chunk_offsets.len() == n,
            forall|j: int| 0 <= j < k ==> #[trigger] st@.chunk_offsets[j] == spec_chunk_offset(st0, cv, starts@, j),
            forall|j: int|
                0 <= j < k ==> {
                    let sc = st0.sub_chunks[j];
                    let f = chunks@[sc.chunk_file_idx as int]@.fragments[sc.fragment_idx as int];
                    #[trigger] st@.chunk_offsets[j] == starts@[sc.chunk_file_idx as int] + f.moof_offset
                        + (f.original_data_offset as u64) + sc.byte_offset_in_fragment
                },
        decreases n - k,
    {
        let sc = st.sub_chunks[k];
        assert(sc == st0.sub_chunks[k as int]);
        let c = sc.chunk_file_idx as usize;
        let fi = sc.fragment_idx as usize;
        assert(chunks@[c as int]@ == cv[c as int]);
        let frag = &chunks[c].fragments[fi];
        assert(frag@ == cv[c as int].fragments[fi as int]);
        let offset = starts[c] + frag.moof_offset as u64 + frag.original_data_offset as u64
            + sc.byte_offset_in_fragment as u64;
        st.chunk_offsets.set(k, offset);
        k = k + 1;
    }
}


/// Whether every stbl chunk of `st` names a fragment of `chunks` whose file
/// is placed at `starts`, with an offset that fits in 64 bits.
pub fn offsets_are_computable(st: &TrackSampleTable, chunks: &[ChunkParseResult], starts: &[u64]) -> (r: bool)
    ensures
        r == offsets_computable(st@, chunks@.map_values(|c: ChunkParseResult| c@), starts@),
{
    let ghost cv = chunks@.map_values(|c: ChunkParseResult| c@);
    if starts.len() != chunks.len() {
        return false;
    }
    let n = st.sub_chunks.len();
    let mut k: usize = 0;
    while k < n
        invariant
            n == st@.sub_chunks.len(),
            cv == chunks@.map_values(|c: ChunkParseResult| c@),
            starts@.len() == chunks@.len(),
            k <= n,
            forall|j: int|
                0 <= j < k ==> {
                    let sc = #[trigger] st@.sub_chunks[j];
                    &&& sc.chunk_file_idx < cv.len()
                    &&& sc.fragment_idx < cv[sc.chunk_file_idx as int].fragments.len()
                    &&& sample_data_position(
                        starts@[sc.chunk_file_idx as int] as int,
                        cv[sc.chunk_file_idx as int].fragments[sc.fragment_idx as int].moof_offset,
                        cv[sc.chunk_file_idx as int].fragments[sc.fragment_idx as int].original_data_offset,
                        sc.byte_offset_in_fragment,
                    ) <= u64::MAX
                },
        decreases n - k,
    {
        let sc = st.sub_chunks[k];
        let c = sc.chunk_file_idx as usize;
        if c >= chunks.len() {
            return false;
        }
        assert(chunks@[c as int]@ == cv[c as int]);
        let fi = sc.fragment_idx as usize;
        if fi >= chunks[c].fragments.len() {
            return false;
        }
        let frag = &chunks[c].fragments[fi];
        assert(frag@ == cv[c as int].fragments[fi as int]);
        let position = starts[c] as u128 + frag.moof_offset as u128 + (frag.original_data_offset as u64) as u128
            + sc.byte_offset_in_fragment as u128;
        if position > u64::MAX as u128 {
            return false;
        }
        k = k + 1;
    }
    true
}

/// Total size of the entries, where the entries placed from `base` end
/// within 64 bits (`None` otherwise).
pub fn try_entries_total(grid: &Vec<Vec<(u64, u64)>>, base: u64) -> (r: Option<u64>)
    ensures
        match r {
            Some(t) => t == rows_total(grid_rows(grid@)) && base + t <= u64::MAX,
            None => base + rows_total(grid_rows(grid@)) > u64::MAX,
        },
{
    let ghost rows = grid_rows(grid@);
    let mut total: u64 = 0;
    let mut c: usize = 0;
    while c < grid.len()
        invariant
            rows == grid_rows(grid@),
            c <= rows.len(),
            total == rows_total(rows.take(c as int)),
            base + total <= u64::MAX,
        decreases rows.len() - c,
    {
        let row = &grid[c];
        assert(row@ == rows[c as int]);
        let ghost before = total;
        let mut s: usize = 0;
        while s < row.len()
            invariant
                rows == grid_rows(grid@),
                c < rows.len(),
                row@ == rows[c as int],
                before == rows_total(rows.take(c as int)),
                s <= row@.len(),
                total == before + row_total(row@.take(s as int)),
                base + total <= u64::MAX,
            decreases row@.len() - s,
        {
            proof {
                assert(row@.take(s + 1).drop_last() =~= row@.take(s as int));
            }
            let (h, f) = row[s];
            if (h as u128) + (f as u128) > (u64::MAX - base - total) as u128 {
                proof {
                    lemma_row_total_prefix(row@, s + 1);
                    lemma_rows_total_prefix(rows, c as int);
                }
                return None;
            }
            total = total + h + f;
            s = s + 1;
        }
        proof {
            assert(row@.take(s as int) =~= row@);
            assert(rows.take(c + 1).drop_last() =~= rows.take(c as int));
        }
        c = c + 1;
    }
    assert(rows.take(c as int) =~= rows);
    Some(total)
}


/// Where each of `n` chunk files of stream `s` starts, placed by `rows` from `base`.
pub open spec fn starts_in(rows: Seq<Seq<(u64, u64)>>, base: int, n: int, s: int) -> Seq<u64> {
    Seq::new(n as nat, |c: int| file_position(rows, base, c, s) as u64)
}

/// `st` with each chunk offset set to the position of its first sample.
pub open spec fn with_offsets(st: SampleTableView, chunks: Seq<ChunkView>, starts: Seq<u64>) -> SampleTableView {
    SampleTableView {
        chunk_offsets: Seq::new(
            st.chunk_offsets.len(),
            |k: int| spec_chunk_offset(st, chunks, starts, k) as u64,
        ),
        ..st
    }
}

/// The positions of the chunk files of stream `s`.
fn column(positions: &Vec<Vec<u64>>, s: usize, rows: Ghost<Seq<Seq<(u64, u64)>>>, base: Ghost<int>) -> (r: Vec<u64>)
    requires
        forall|c: int| 0 <= c < positions@.len() ==> s < (#[trigger] positions@[c])@.len(),
        forall|c: int|
            0 <= c < positions@.len() ==> #[trigger] positions@[c]@[s as int] == file_position(
                rows@,
                base@,
                c,
                s as int,
            ),
    ensures
        r@ == starts_in(rows@, base@, positions@.len() as int, s as int),
{
    let n = positions.len();
    let mut starts: Vec<u64> = Vec::new();
    let mut c: usize = 0;
    while c < n
        invariant
            n == positions@.len(),
            forall|c2: int| 0 <= c2 < positions@.len() ==> s < (#[trigger] positions@[c2])@.len(),
            forall|c2: int|
                0 <= c2 < positions@.len() ==> #[trigger] positions@[c2]@[s as int] == file_position(
                    rows@,
                    base@,
                    c2,
                    s as int,
                ),
            c <= n,
            starts@ == starts_in(rows@, base@, n as int, s as int).take(c as int),
        decreases n - c,
    {
        starts.push(positions[c][s]);
        c = c + 1;
        assert(starts@ =~= starts_in(rows@, base@, n as int, s as int).take(c as int));
    }
    assert(starts_in(rows@, base@, n as int, s as int).take(c as int) =~= starts_in(
        rows@,
        base@,
        n as int,
        s as int,
    ));
    starts
}

/// The tables with their chunk offsets filled in from the positions of the
/// chunk files (`positions[c][s]` for chunk file `c` of stream `s`), where
/// every offset fits in 64 bits (`None` otherwise).
pub fn fill_all_offsets(
    tables: Vec<TrackSampleTable>,
    chunks: &Vec<Vec<ChunkParseResult>>,
    positions: &Vec<Vec<u64>>,
    rows: Ghost<Seq<Seq<(u64, u64)>>>,
    base: Ghost<int>,
) -> (r: Option<Vec<TrackSampleTable>>)
    requires
        tables@.len() == chunks@.len(),
        forall|s: int|
            0 <= s < tables@.len() ==> (#[trigger] tables@[s])@.chunk_offsets.len()
                == tables@[s]@.sub_chunks.len(),
        forall|c: int| 0 <= c < positions@.len() ==> (#[trigger] positions@[c])@.len() == chunks@.len(),
        forall|c: int, s: int|
            0 <= c < positions@.len() && 0 <= s < chunks@.len() ==> #[trigger] positions@[c]@[s]
                == file_position(rows@, base@, c, s),
    ensures
        match r {
            Some(f) => {
                &&& f@.len() == tables@.len()
                &&& forall|s: int|
                    0 <= s < tables@.len() ==> (#[trigger] f@[s])@ == with_offsets(
                        tables@[s]@,
                        chunks@[s]@.map_values(|c: ChunkParseResult| c@),
                        starts_in(rows@, base@, positions@.len() as int, s),
                    )
                &&& forall|s: int|
                    0 <= s < tables@.len() ==> offsets_computable(
                        (#[trigger] tables@[s])@,
                        chunks@[s]@.map_values(|c: ChunkParseResult| c@),
                        starts_in(rows@, base@, positions@.len() as int, s),
                    )
            },
            None => exists|s: int|
                0 <= s < tables@.len() && !offsets_computable(
                    (#[trigger] tables@[s])@,
                    chunks@[s]@.map_values(|c: ChunkParseResult| c@),
                    starts_in(rows@, base@, positions@.len() as int, s),
                ),
        },
{
    let ghost orig = tables@;
    let ns = chunks.len();
    let mut rest = tables;
    let mut filled: Vec<TrackSampleTable> = Vec::new();
    let mut s: usize = 0;
    while s < ns
        invariant
            ns == chunks@.len(),
            orig == tables@,
            orig.len() == ns,
            forall|s2: int|
                0 <= s2 < ns ==> (#[trigger] orig[s2])@.chunk_offsets.len() == orig[s2]@.sub_chunks.len(),
            forall|c: int| 0 <= c < positions@.len() ==> (#[trigger] positions@[c])@.len() == ns,
            forall|c: int, s2: int|
                0 <= c < positions@.len() && 0 <= s2 < ns ==> #[trigger] positions@[c]@[s2]
                    == file_position(rows@, base@, c, s2),
            s <= ns,
            rest@ == orig.skip(s as int),
            filled@.len() == s,
            forall|j: int|
                0 <= j < s ==> (#[trigger] filled@[j])@ == with_offsets(
                    orig[j]@,
                    chunks@[j]@.map_values(|c: ChunkParseResult| c@),
                    starts_in(rows@, base@, positions@.len() as int, j),
                ),
            forall|j: int|
                0 <= j < s ==> offsets_computable(
                    (#[trigger] orig[j])@,
                    chunks@[j]@.map_values(|c: ChunkParseResult| c@),
                    starts_in(rows@, base@, positions@.len() as int, j),
                ),
        decreases ns - s,
    {
        let ghost old_rest = rest@;
        assert(old_rest[0] == orig[s as int]);
        let mut st = rest.remove(0);
        assert(rest@ =~= orig.skip(s + 1));
        let starts = column(positions, s, rows, base);
        let cs = &chunks[s];
        if !offsets_are_computable(&st, cs.as_slice(), starts.as_slice()) {
            return None;
        }
        fill_chunk_offsets(&mut st, cs.as_slice(), starts.as_slice());
        assert(st@.chunk_offsets =~= with_offsets(
            orig[s as int]@,
            chunks@[s as int]@.map_values(|c: ChunkParseResult| c@),
            starts_in(rows@, base@, positions@.len() as int, s as int),
        ).chunk_offsets);
        let ghost before = filled@;
        filled.push(st);
        assert(filled@ == before.push(st));
        s = s + 1;
    }
    Some(filled)
}

/// Law: every stbl chunk offset points at the first sample of the fragment
/// that its sub-chunk names: the start of that chunk file, plus that
/// fragment's moof offset and trun data offset, plus the offset within the
/// fragment. Two stbl chunks from different fragments of one chunk file get
/// the positions of their own fragments.
pub proof fn lemma_chunk_offset_of_own_fragment(
    st: SampleTableView,
    chunks: Seq<ChunkView>,
    starts: Seq<u64>,
    k: int,
)
    requires
        0 <= k < st.sub_chunks.len(),
        st.sub_chunks[k].chunk_file_idx < chunks.len(),
        st.sub_chunks[k].chunk_file_idx < starts.len(),
        st.sub_chunks[k].fragment_idx < chunks[st.sub_chunks[k].chunk_file_idx as int].fragments.len(),
    ensures
        ({
            let sc = st.sub_chunks[k];
            let f = chunks[sc.chunk_file_idx as int].fragments[sc.fragment_idx as int];
            spec_chunk_offset(st, chunks, starts, k) == starts[sc.chunk_file_idx as int] + f.moof_offset
                + (f.original_data_offset as u64) + sc.byte_offset_in_fragment
        }),
{
}

} // verus!
