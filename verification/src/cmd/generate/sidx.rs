// The segment index (sidx) that closes the init file. It describes the data
// file that follows it: one reference per chunk index, covering that chunk
// index's lmc1 headers and chunk files (the first one also the mdat header),
// with the duration of the first stream's chunk file and whether that chunk
// file starts with a sync sample.
use vstd::prelude::*;

use crate::binary::{u16_be_bytes, u32_be_bytes, u64_be_bytes, write_u16_be, write_u32_be, write_u64_be};
use crate::cmd::plan::layout::{grid_rows, lemma_row_total_prefix, row_total, rows_total, spec_mdat_header_size};
use crate::helpers::{chunk_duration_u32, first_sample_flags, flags_mark_sync, is_first_sample_sap, sum_fragment_durations};
use crate::mp4_box::{make_fullbox, spec_make_fullbox};
use super::boxes::fourcc;
use super::types::FragmentInfo;
use super::{gen_grid, generate_shape, GenerateInput, GenerateView};

verus! {

/// Bytes covered by reference `c`: row `c` of the data file, and for the
/// first reference also the mdat header before it.
pub open spec fn sidx_ref_size(v: GenerateView, c: int) -> int {
    row_total(gen_grid(v)[c]) + if c == 0 {
        spec_mdat_header_size(rows_total(gen_grid(v)))
    } else {
        0
    }
}

/// Duration of reference `c`: that of chunk file `c` of the first stream, in
/// its timescale.
pub open spec fn sidx_ref_duration(v: GenerateView, c: int) -> int {
    sum_fragment_durations(v.chunks[0][c].fragments, v.tracks[0].trex_default_sample_duration)
}

/// Whether reference `c` starts with a stream access point: the first sample
/// of chunk file `c` of the first stream is a sync sample.
pub open spec fn sidx_ref_sap(v: GenerateView, c: int) -> bool {
    let fs = v.chunks[0][c].fragments;
    fs.len() > 0 && flags_mark_sync(
        first_sample_flags(fs[0].trun, fs[0].tfhd, v.tracks[0].trex_default_sample_flags),
    )
}

/// One reference: type 0 (media) and size, duration, then SAP flags (type 1
/// when it starts with a SAP, delta 0).
pub open spec fn sidx_ref_bytes(size: int, duration: int, sap: bool) -> Seq<u8> {
    u32_be_bytes(size) + u32_be_bytes(duration) + u32_be_bytes(
        if sap {
            0x9000_0000
        } else {
            0
        },
    )
}

/// The first `n` references.
pub open spec fn sidx_refs(v: GenerateView, n: int) -> Seq<u8>
    decreases n,
{
    if n <= 0 {
        Seq::empty()
    } else {
        sidx_refs(v, n - 1) + sidx_ref_bytes(sidx_ref_size(v, n - 1), sidx_ref_duration(v, n - 1), sidx_ref_sap(v, n - 1))
    }
}

/// The sidx box (version 1): the first stream's track id and timescale, its
/// first decode time as earliest presentation time, first offset 0 (the data
/// file follows the sidx), and the references.
pub open spec fn spec_sidx(v: GenerateView) -> Seq<u8> {
    let nc = v.chunk_data[0].len() as int;
    spec_make_fullbox(
        fourcc(0x73, 0x69, 0x64, 0x78),
        1,
        0,
        u32_be_bytes(v.tracks[0].new_track_id as int) + u32_be_bytes(v.tracks[0].timescale as int)
            + u64_be_bytes(v.tables[0].media_start_time as int) + u64_be_bytes(0) + u16_be_bytes(0)
            + u16_be_bytes(nc) + sidx_refs(v, nc),
    )
}

/// Reference `c` can be written: its size is below 2^31 and its duration
/// within 32 bits.
pub open spec fn sidx_ref_fits(v: GenerateView, c: int) -> bool {
    sidx_ref_size(v, c) < 0x8000_0000 && sidx_ref_duration(v, c) <= u32::MAX
}

/// The sidx can be written: at most 65535 references, each of which fits.
pub open spec fn sidx_fits(v: GenerateView) -> bool {
    &&& v.chunk_data[0].len() <= 0xffff
    &&& forall|c: int| 0 <= c < v.chunk_data[0].len() ==> #[trigger] sidx_ref_fits(v, c)
}

/// Bytes covered by the first `n` references.
pub open spec fn sidx_covered(v: GenerateView, n: int) -> int
    decreases n,
{
    if n <= 0 {
        0
    } else {
        sidx_covered(v, n - 1) + sidx_ref_size(v, n - 1)
    }
}

proof fn lemma_sidx_refs_len(v: GenerateView, n: int)
    requires
        0 <= n,
    ensures
        sidx_refs(v, n).len() == 12 * n,
    decreases n,
{
    if n > 0 {
        lemma_sidx_refs_len(v, n - 1);
    }
}

/// A sidx of `n` references is 40 + 12n bytes.
pub proof fn lemma_sidx_len(v: GenerateView)
    ensures
        spec_sidx(v).len() == 40 + 12 * v.chunk_data[0].len(),
{
    lemma_sidx_refs_len(v, v.chunk_data[0].len() as int);
}

/// Size of row `c` of the grid, where it is below 2^31.
fn row_size(row: &Vec<(u64, u64)>, limit: u64) -> (r: Option<u64>)
    requires
        0 < limit <= 0x8000_0000,
    ensures
        match r {
            Some(t) => t == row_total(row@) && t < limit,
            None => row_total(row@) >= limit,
        },
{
    let mut total: u64 = 0;
    let mut s: usize = 0;
    while s < row.len()
        invariant
            0 < limit <= 0x8000_0000,
            s <= row@.len(),
            total == row_total(row@.take(s as int)),
            total < limit,
        decreases row@.len() - s,
    {
        proof {
            assert(row@.take(s + 1).drop_last() =~= row@.take(s as int));
            lemma_row_total_prefix(row@, s + 1);
        }
        let (h, f) = row[s];
        if h >= limit - total || f >= limit - total - h {
            return None;
        }
        total = total + h + f;
        s = s + 1;
    }
    assert(row@.take(s as int) =~= row@);
    Some(total)
}

/// The sidx box that closes the init file, where it can be written (`None`
/// exactly where `sidx_fits` fails).
pub fn make_sidx(inp: &GenerateInput, grid: &Vec<Vec<(u64, u64)>>, header_len: u64) -> (r: Option<Vec<u8>>)
    requires
        generate_shape(inp@),
        grid_rows(grid@) == gen_grid(inp@),
        header_len == spec_mdat_header_size(rows_total(gen_grid(inp@))),
    ensures
        match r {
            Some(b) => sidx_fits(inp@) && b@ == spec_sidx(inp@),
            None => !sidx_fits(inp@),
        },
{
    let ghost v = inp@;
    let nc = inp.chunk_data[0].len();
    assert(inp.chunk_data@[0]@.len() == v.chunk_data[0].len());
    if nc > 0xffff {
        return None;
    }
    assert(grid@.len() == grid_rows(grid@).len());
    let track = &inp.tracks[0];
    assert(track@ == v.tracks[0]);
    assert(inp.tables@[0]@ == v.tables[0]);
    let chunks0 = &inp.chunks[0];
    assert(chunks0@.map_values(|c: super::types::ChunkParseResult| c@) == v.chunks[0]);
    let mut content: Vec<u8> = Vec::new();
    write_u32_be(&mut content, track.new_track_id);
    write_u32_be(&mut content, track.timescale);
    write_u64_be(&mut content, inp.tables[0].media_start_time);
    write_u64_be(&mut content, 0);
    write_u16_be(&mut content, 0);
    write_u16_be(&mut content, nc as u16);
    let ghost head = content@;
    let mut c: usize = 0;
    while c < nc
        invariant
            v == inp@,
            generate_shape(v),
            nc == v.chunk_data[0].len(),
            nc <= 0xffff,
            grid_rows(grid@) == gen_grid(v),
            grid@.len() == nc,
            header_len == spec_mdat_header_size(rows_total(gen_grid(v))),
            track@ == v.tracks[0],
            chunks0@.map_values(|c: super::types::ChunkParseResult| c@) == v.chunks[0],
            c <= nc,
            content@ == head + sidx_refs(v, c as int),
            forall|j: int| 0 <= j < c ==> #[trigger] sidx_ref_fits(v, j),
        decreases nc - c,
    {
        assert(grid@[c as int]@ == gen_grid(v)[c as int]);
        let extra: u64 = if c == 0 {
            header_len
        } else {
            0
        };
        let size = match row_size(&grid[c], 0x8000_0000 - extra) {
            Some(t) => t + extra,
            None => {
                assert(!sidx_ref_fits(v, c as int));
                return None;
            },
        };
        assert(v.chunks[0].len() == nc);
        let chunk = &chunks0[c];
        assert(chunk@ == v.chunks[0][c as int]);
        let frags = chunk.fragments.as_slice();
        assert(frags@.map_values(|f: FragmentInfo| f@) == v.chunks[0][c as int].fragments);
        let duration = match chunk_duration_u32(frags, track.trex_default_sample_duration) {
            Some(d) => d,
            None => {
                assert(!sidx_ref_fits(v, c as int));
                return None;
            },
        };
        let sap = if frags.len() > 0 {
            assert(frags@[0]@ == v.chunks[0][c as int].fragments[0]);
            is_first_sample_sap(&frags[0].trun, &frags[0].tfhd, track.trex_default_sample_flags)
        } else {
            false
        };
        assert(sap == sidx_ref_sap(v, c as int));
        let ghost before = content@;
        write_u32_be(&mut content, size as u32);
        write_u32_be(&mut content, duration);
        write_u32_be(&mut content, if sap { 0x9000_0000u32 } else { 0u32 });
        assert(content@ =~= head + sidx_refs(v, c + 1));
        assert(sidx_ref_fits(v, c as int));
        c = c + 1;
    }
    let ty: [u8; 4] = [0x73, 0x69, 0x64, 0x78];
    assert(ty@ =~= fourcc(0x73, 0x69, 0x64, 0x78));
    Some(make_fullbox(&ty, 1, 0, content.as_slice()))
}

} // verus!
