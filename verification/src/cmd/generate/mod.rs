// Merging fragmented MP4 streams into a hybrid MP4, split into an init file
// and a data file that are served one after the other.
//
// Layout (init + data concatenated):
//   [ftyp]
//   [free: lmc1 + original_init_0]
//   [free: lmc1 + original_init_1]
//   [moov with full stbl (co64 pointing into mdat)]
//   [mdat]
//     for each chunk_idx, stream_idx:
//       [lmc1_header(16)][original_chunk_file_bytes]
//
// The moov's sample tables reference actual sample data positions inside
// the original chunk files, skipping over fMP4 structural boxes (moof, mdat
// headers etc.) that are embedded verbatim.
use vstd::prelude::*;

pub mod boxes;
pub mod parse;
pub mod sidx;
pub mod types;

use crate::ascii::ascii_chars;
use crate::binary::{u32_be_bytes, write_bytes};
use crate::digest::{crc32, crc32_hash, lower_hex, sha256, sha256_digest, to_lower_hex};
use crate::mp4_box::{make_free_header, spec_free_header};
use crate::cmd::plan::layout::{
    file_position, file_positions, fill_all_offsets, grid_rows, make_mdat_header, offsets_computable,
    row_total, rows_total, spec_mdat_header, spec_mdat_header_size, starts_in, try_entries_total,
    with_offsets,
};
use crate::cmd::plan::types::{SampleTableView, TrackInfo, TrackInfoView, TrackSampleTable};
use self::boxes::{
    generate_ftyp, generate_hybrid_moov, lemma_moov_len_ignores_chunk_offsets, moov_computable,
    paired_count, same_but_chunk_offsets, spec_ftyp, spec_moov, table_views, track_views,
    trak_computable, try_generate_hybrid_moov,
};
use self::sidx::{make_sidx, sidx_covered, sidx_fits, sidx_ref_size, spec_sidx};
use self::types::{ChunkParseResult, ChunkView, SourceDest, SourceFile};

verus! {

// ===== lmc1 headers =====

/// Size of the lmc1 header placed before each embedded source file.
pub const LMC1_HEADER_SIZE: usize = 16;

/// The lmc1 header of an embedded file: the tag `lmc1`, the stream index,
/// the file index in 24 bits (bit 23 set for init segments), and the CRC-32
/// and size (modulo 2^32) of the file, big-endian.
#[verifier::opaque]
pub open spec fn spec_lmc1_header(stream_index: u8, file_index: u32, data: Seq<u8>) -> Seq<u8> {
    seq![
        0x6cu8,
        0x6du8,
        0x63u8,
        0x31u8,
        stream_index,
        (file_index / 65536 % 256) as u8,
        (file_index / 256 % 256) as u8,
        (file_index % 256) as u8,
    ] + u32_be_bytes(crc32(data) as int) + u32_be_bytes(data.len() as int % 0x1_0000_0000)
}

/// The lmc1 header placed before an embedded source file.
pub fn make_lmc1_header(stream_index: u8, file_index: u32, data: &[u8]) -> (r: [u8; 16])
    ensures
        r@ == spec_lmc1_header(stream_index, file_index, data@),
{
    let crc = crc32_hash(data);
    let size = ((data.len() as u64) % 0x1_0000_0000) as u32;
    let r: [u8; 16] = [
        0x6c,
        0x6d,
        0x63,
        0x31,
        stream_index,
        // file_index: 24-bit big-endian (MSB set for init segments)
        ((file_index / 65536) % 256) as u8,
        ((file_index / 256) % 256) as u8,
        (file_index % 256) as u8,
        // CRC-32 big-endian
        (crc / 16777216) as u8,
        ((crc / 65536) % 256) as u8,
        ((crc / 256) % 256) as u8,
        (crc % 256) as u8,
        // Size big-endian
        (size / 16777216) as u8,
        ((size / 65536) % 256) as u8,
        ((size / 256) % 256) as u8,
        (size % 256) as u8,
    ];
    reveal(spec_lmc1_header);
    assert(r@ =~= spec_lmc1_header(stream_index, file_index, data@));
    r
}

/// An lmc1 header is 16 bytes.
pub proof fn lemma_lmc1_len(stream_index: u8, file_index: u32, data: Seq<u8>)
    ensures
        spec_lmc1_header(stream_index, file_index, data).len() == 16,
{
    reveal(spec_lmc1_header);
}

/// The SHA-256 of `data` in lower-case hexadecimal.
pub fn compute_sha256(data: &[u8]) -> (r: String)
    ensures
        r@ == ascii_chars(lower_hex(sha256(data@))),
{
    let digest = sha256_digest(data);
    to_lower_hex(&digest)
}

} // verus!

verus! {

// ===== What the output is built from =====

/// Everything the output is built from, read and prepared for each stream:
/// its track, its sample table (chunk offsets still to be filled in), its
/// parsed chunk files with their bytes and source names, and its init
/// segment with its source name.
pub struct GenerateInput {
    pub tracks: Vec<TrackInfo>,
    pub tables: Vec<TrackSampleTable>,
    pub chunks: Vec<Vec<ChunkParseResult>>,
    pub chunk_data: Vec<Vec<Vec<u8>>>,
    pub chunk_sources: Vec<Vec<String>>,
    pub init_data: Vec<Vec<u8>>,
    pub init_sources: Vec<String>,
}

/// The inputs as mathematical values.
pub ghost struct GenerateView {
    pub tracks: Seq<TrackInfoView>,
    pub tables: Seq<SampleTableView>,
    pub chunks: Seq<Seq<ChunkView>>,
    pub chunk_data: Seq<Seq<Seq<u8>>>,
    pub chunk_sources: Seq<Seq<Seq<char>>>,
    pub init_data: Seq<Seq<u8>>,
    pub init_sources: Seq<Seq<char>>,
}

impl View for GenerateInput {
    type V = GenerateView;

    open spec fn view(&self) -> GenerateView {
        GenerateView {
            tracks: track_views(self.tracks@),
            tables: table_views(self.tables@),
            chunks: self.chunks@.map_values(
                |cs: Vec<ChunkParseResult>| cs@.map_values(|c: ChunkParseResult| c@),
            ),
            chunk_data: self.chunk_data@.map_values(
                |ds: Vec<Vec<u8>>| ds@.map_values(|d: Vec<u8>| d@),
            ),
            chunk_sources: self.chunk_sources@.map_values(
                |ns: Vec<String>| ns@.map_values(|n: String| n@),
            ),
            init_data: self.init_data@.map_values(|d: Vec<u8>| d@),
            init_sources: self.init_sources@.map_values(|n: String| n@),
        }
    }
}

/// The output: the init file, the mdat header that starts the data file,
/// the lmc1 header before each chunk file in the data file (by chunk index,
/// then stream), and where every source file was placed.
pub struct HybridOutput {
    pub init_segment: Vec<u8>,
    pub mdat_header: Vec<u8>,
    pub lmc1_headers: Vec<Vec<[u8; 16]>>,
    pub sources: Vec<SourceFile>,
}

/// A placed source file as a mathematical value.
pub ghost struct SourceView {
    pub source: Seq<char>,
    pub sha256: Seq<char>,
    pub dest_type: Seq<char>,
    pub offset: u64,
    pub length: u64,
}

/// The view of a placed source file.
pub open spec fn source_view(f: SourceFile) -> SourceView {
    SourceView {
        source: f.source@,
        sha256: f.sha256@,
        dest_type: f.dest.dest_type@,
        offset: f.dest.offset,
        length: f.dest.length,
    }
}

/// One entry per stream everywhere, at least one stream, the same number of
/// chunk files in every stream, one chunk offset per stbl chunk.
pub open spec fn generate_shape(v: GenerateView) -> bool {
    let ns = v.tracks.len();
    let nc = v.chunk_data[0].len();
    &&& ns > 0
    &&& v.tables.len() == ns
    &&& v.chunks.len() == ns
    &&& v.chunk_data.len() == ns
    &&& v.chunk_sources.len() == ns
    &&& v.init_data.len() == ns
    &&& v.init_sources.len() == ns
    &&& forall|s: int| 0 <= s < ns ==> (#[trigger] v.chunks[s]).len() == nc
    &&& forall|s: int| 0 <= s < ns ==> (#[trigger] v.chunk_data[s]).len() == nc
    &&& forall|s: int| 0 <= s < ns ==> (#[trigger] v.chunk_sources[s]).len() == nc
    &&& forall|s: int|
        0 <= s < ns ==> (#[trigger] v.tables[s]).chunk_offsets.len() == v.tables[s].sub_chunks.len()
}

/// The free boxes that embed the first `k` init segments, each after its
/// lmc1 header (file index with bit 23 set).
#[verifier::opaque]
pub open spec fn free_boxes(v: GenerateView, k: int) -> Seq<u8>
    decreases k,
{
    if k <= 0 {
        Seq::empty()
    } else {
        let d = v.init_data[k - 1];
        free_boxes(v, k - 1) + spec_free_header((16 + d.len()) as int) + spec_lmc1_header(
            (k - 1) as u8,
            0x800000,
            d,
        ) + d
    }
}

/// The data file's entries, by chunk index then stream: the lmc1 header
/// size and the chunk file's size.
pub open spec fn gen_grid(v: GenerateView) -> Seq<Seq<(u64, u64)>> {
    Seq::new(
        v.chunk_data[0].len(),
        |c: int| Seq::new(v.tracks.len(), |s: int| (16u64, v.chunk_data[s][c].len() as u64)),
    )
}

/// Where the mdat content starts in the init and data files concatenated.
pub open spec fn gen_base(v: GenerateView) -> int {
    spec_ftyp().len() + free_boxes(v, v.tracks.len() as int).len() + spec_moov(v.tracks, v.tables).len()
        + spec_sidx(v).len() + spec_mdat_header_size(rows_total(gen_grid(v)))
}

/// Where each chunk file of stream `s` starts.
pub open spec fn gen_starts(v: GenerateView, s: int) -> Seq<u64> {
    starts_in(gen_grid(v), gen_base(v), v.chunk_data[0].len() as int, s)
}

/// The sample table of stream `s` with its chunk offsets filled in.
pub open spec fn gen_filled(v: GenerateView, s: int) -> SampleTableView {
    with_offsets(v.tables[s], v.chunks[s], gen_starts(v, s))
}

/// The init file: ftyp, the free boxes with the init segments, the moov
/// with the real chunk offsets, and the sidx indexing the data file that
/// follows.
pub open spec fn gen_init_segment(v: GenerateView) -> Seq<u8> {
    spec_ftyp() + free_boxes(v, v.tracks.len() as int) + spec_moov(
        v.tracks,
        Seq::new(v.tracks.len(), |s: int| gen_filled(v, s)),
    ) + spec_sidx(v)
}

/// Where init segment `i` was placed: after the ftyp, the earlier free
/// boxes, and its own free box header and lmc1 header.
pub open spec fn init_source(v: GenerateView, i: int) -> SourceView {
    SourceView {
        source: v.init_sources[i],
        sha256: ascii_chars(lower_hex(sha256(v.init_data[i]))),
        dest_type: "init"@,
        offset: (spec_ftyp().len() + free_boxes(v, i).len() + 24) as u64,
        length: v.init_data[i].len() as u64,
    }
}

/// Where chunk file `c` of stream `s` was placed.
pub open spec fn data_source(v: GenerateView, c: int, s: int) -> SourceView {
    SourceView {
        source: v.chunk_sources[s][c],
        sha256: ascii_chars(lower_hex(sha256(v.chunk_data[s][c]))),
        dest_type: "data"@,
        offset: gen_starts(v, s)[c],
        length: v.chunk_data[s][c].len() as u64,
    }
}

/// The placed sources: every init segment, then the chunk files before
/// chunk file `c` of stream `s` (chunk index first).
pub open spec fn sources_before(v: GenerateView, c: int, s: int) -> Seq<SourceView>
    decreases c, s,
{
    if c <= 0 && s <= 0 {
        Seq::new(v.tracks.len(), |i: int| init_source(v, i))
    } else if s <= 0 {
        sources_before(v, c - 1, v.tracks.len() as int)
    } else {
        sources_before(v, c, s - 1).push(data_source(v, c, s - 1))
    }
}

/// All placed sources.
pub open spec fn gen_sources(v: GenerateView) -> Seq<SourceView> {
    sources_before(v, v.chunk_data[0].len() as int, 0)
}

/// The output can be built: the moov, the sidx and every chunk offset fit,
/// the data ends within 64 bits and the init file fits in memory.
#[verifier::opaque]
pub open spec fn generate_fits(v: GenerateView) -> bool {
    &&& moov_computable(v.tracks, v.tables)
    &&& sidx_fits(v)
    &&& forall|s: int|
        0 <= s < v.tracks.len() ==> offsets_computable(#[trigger] v.tables[s], v.chunks[s], gen_starts(v, s))
    &&& gen_base(v) + rows_total(gen_grid(v)) <= u64::MAX
    &&& spec_ftyp().len() + free_boxes(v, v.tracks.len() as int).len() + spec_moov(v.tracks, v.tables).len()
        + spec_sidx(v).len() <= usize::MAX
}

} // verus!

verus! {

// ===== Building the output =====

/// Views of placed sources.
pub open spec fn source_views(v: Seq<SourceFile>) -> Seq<SourceView> {
    v.map_values(|f: SourceFile| source_view(f))
}

/// One more free box.
proof fn lemma_free_boxes_step(v: GenerateView, k: int)
    requires
        0 <= k,
    ensures
        free_boxes(v, k + 1) == free_boxes(v, k) + spec_free_header((16 + v.init_data[k].len()) as int)
            + spec_lmc1_header(k as u8, 0x800000, v.init_data[k]) + v.init_data[k],
        free_boxes(v, k + 1).len() == free_boxes(v, k).len() + 24 + v.init_data[k].len(),
{
    reveal(free_boxes);
    lemma_lmc1_len(k as u8, 0x800000, v.init_data[k]);
}

proof fn lemma_free_boxes_grow(v: GenerateView, i: int, k: int)
    requires
        0 <= i <= k,
    ensures
        free_boxes(v, i).len() <= free_boxes(v, k).len(),
        i < k ==> free_boxes(v, i).len() + 24 + v.init_data[i].len() <= free_boxes(v, k).len(),
    decreases k - i,
{
    if i < k {
        lemma_free_boxes_grow(v, i, k - 1);
        lemma_free_boxes_step(v, k - 1);
    }
}

/// The placed source of an init segment.
fn init_source_file(
    source: String,
    data: &[u8],
    offset: u64,
    v: Ghost<GenerateView>,
    i: Ghost<int>,
) -> (r: SourceFile)
    requires
        0 <= i@ < v@.init_data.len(),
        source@ == v@.init_sources[i@],
        data@ == v@.init_data[i@],
        offset == spec_ftyp().len() + free_boxes(v@, i@).len() + 24,
    ensures
        source_view(r) == init_source(v@, i@),
{
    let sha256 = compute_sha256(data);
    let dest_type = String::from_str("init");
    SourceFile { source, sha256, dest: SourceDest { dest_type, offset, length: data.len() as u64 } }
}

/// The free boxes with the init segments, and where each init segment was
/// placed; `None` where they would not fit in memory.
fn build_free_boxes(inp: &GenerateInput) -> (r: Option<(Vec<u8>, Vec<SourceFile>)>)
    requires
        generate_shape(inp@),
    ensures
        match r {
            Some((f, srcs)) => f@ == free_boxes(inp@, inp@.tracks.len() as int) && source_views(srcs@)
                == Seq::new(inp@.tracks.len(), |i: int| init_source(inp@, i)),
            None => free_boxes(inp@, inp@.tracks.len() as int).len() + 28 > usize::MAX,
        },
{
    let ghost v = inp@;
    let ns = inp.init_data.len();
    let mut frees: Vec<u8> = Vec::new();
    let mut sources: Vec<SourceFile> = Vec::new();
    let mut i: usize = 0;
    assert(frees@ =~= free_boxes(v, 0)) by {
        reveal(free_boxes);
    }
    assert(source_views(sources@) =~= Seq::new(0 as nat, |j: int| init_source(v, j)));
    while i < ns
        invariant
            v == inp@,
            generate_shape(v),
            ns == v.tracks.len(),
            i <= ns,
            frees@ == free_boxes(v, i as int),
            sources@.len() == i,
            source_views(sources@) == Seq::new(i as nat, |j: int| init_source(v, j)),
        decreases ns - i,
    {
        let data = inp.init_data[i].as_slice();
        assert(data@ == v.init_data[i as int]);
        proof {
            lemma_free_boxes_grow(v, i as int, ns as int);
        }
        if data.len() > usize::MAX - 16 || frees.len() > usize::MAX - 52 {
            return None;
        }
        let offset = (28 + frees.len() + 24) as u64;
        let lmc1 = make_lmc1_header(i as u8, 0x800000, data);
        let free_header = make_free_header(16 + data.len());
        write_bytes(&mut frees, &free_header);
        write_bytes(&mut frees, &lmc1);
        write_bytes(&mut frees, data);
        proof {
            lemma_free_boxes_step(v, i as int);
        }
        let source = inp.init_sources[i].clone();
        assert(source@ == v.init_sources[i as int]);
        let file = init_source_file(source, data, offset, Ghost(v), Ghost(i as int));
        let ghost before = sources@;
        let ghost fv = source_view(file);
        sources.push(file);
        proof {
            assert(sources@ == before.push(file));
            assert forall|j: int| 0 <= j < i + 1 implies #[trigger] source_views(sources@)[j]
                == init_source(v, j) by {
                if j < i {
                    assert(sources@[j] == before[j]);
                    assert(source_views(before)[j] == init_source(v, j));
                }
            }
            assert(source_views(sources@) =~= Seq::new((i + 1) as nat, |j: int| init_source(v, j)));
        }
        i = i + 1;
    }
    Some((frees, sources))
}

} // verus!

verus! {

// ===== The data file and the whole output =====

/// The lmc1 header placed before chunk file `c` of stream `s`.
pub open spec fn gen_lmc1_header(v: GenerateView, c: int, s: int) -> Seq<u8> {
    spec_lmc1_header(s as u8, c as u32, v.chunk_data[s][c])
}

/// The data file's entries: for each chunk index, for each stream, the size
/// of the lmc1 header and of the chunk file.
fn build_gen_grid(inp: &GenerateInput) -> (r: Vec<Vec<(u64, u64)>>)
    requires
        generate_shape(inp@),
    ensures
        grid_rows(r@) == gen_grid(inp@),
{
    let ghost v = inp@;
    let ns = inp.tracks.len();
    let nc = inp.chunk_data[0].len();
    let mut grid: Vec<Vec<(u64, u64)>> = Vec::new();
    let mut c: usize = 0;
    while c < nc
        invariant
            v == inp@,
            generate_shape(v),
            ns == v.tracks.len(),
            nc == v.chunk_data[0].len(),
            c <= nc,
            grid@.len() == c,
            forall|j: int| 0 <= j < c ==> (#[trigger] grid@[j])@ == gen_grid(v)[j],
        decreases nc - c,
    {
        let mut row: Vec<(u64, u64)> = Vec::new();
        let mut s: usize = 0;
        while s < ns
            invariant
                v == inp@,
                generate_shape(v),
                ns == v.tracks.len(),
                nc == v.chunk_data[0].len(),
                c < nc,
                s <= ns,
                row@.len() == s,
                forall|j: int| 0 <= j < s ==> #[trigger] row@[j] == gen_grid(v)[c as int][j],
            decreases ns - s,
        {
            assert(v.chunk_data[s as int].len() == nc);
            assert(inp.chunk_data@[s as int]@[c as int]@ == v.chunk_data[s as int][c as int]);
            let file_size = inp.chunk_data[s][c].len() as u64;
            row.push((16u64, file_size));
            s = s + 1;
        }
        assert(row@ =~= gen_grid(v)[c as int]);
        grid.push(row);
        c = c + 1;
    }
    assert(grid_rows(grid@) =~= gen_grid(v));
    grid
}

/// The filled tables differ from the given ones only in their chunk offsets,
/// so the moov stays buildable and keeps its size.
proof fn lemma_gen_filled_moov(v: GenerateView)
    requires
        generate_shape(v),
        moov_computable(v.tracks, v.tables),
    ensures
        moov_computable(v.tracks, Seq::new(v.tracks.len(), |s: int| gen_filled(v, s))),
        spec_moov(v.tracks, Seq::new(v.tracks.len(), |s: int| gen_filled(v, s))).len()
            == spec_moov(v.tracks, v.tables).len(),
{
    let t2 = Seq::new(v.tracks.len(), |s: int| gen_filled(v, s));
    assert forall|i: int| 0 <= i < v.tables.len() implies same_but_chunk_offsets(
        #[trigger] v.tables[i],
        t2[i],
    ) by {}
    lemma_moov_len_ignores_chunk_offsets(v.tracks, v.tables, t2);
    assert forall|i: int| 0 <= i < paired_count(v.tracks, t2) implies trak_computable(
        #[trigger] v.tracks[i],
        t2[i],
        v.tracks[0].timescale,
    ) by {
        assert(trak_computable(v.tracks[i], v.tables[i], v.tracks[0].timescale));
    }
}

/// The placed source of chunk file `c` of stream `s`.
fn data_source_file(
    source: String,
    data: &[u8],
    offset: u64,
    v: Ghost<GenerateView>,
    c: Ghost<int>,
    s: Ghost<int>,
) -> (r: SourceFile)
    requires
        source@ == v@.chunk_sources[s@][c@],
        data@ == v@.chunk_data[s@][c@],
        offset == gen_starts(v@, s@)[c@],
    ensures
        source_view(r) == data_source(v@, c@, s@),
{
    let sha256 = compute_sha256(data);
    let dest_type = String::from_str("data");
    SourceFile { source, sha256, dest: SourceDest { dest_type, offset, length: data.len() as u64 } }
}

/// The lmc1 headers of chunk index `c`, one per stream, each chunk file
/// being recorded as placed after its header.
fn emit_data_row(
    sources: &mut Vec<SourceFile>,
    chunk_data: &Vec<Vec<Vec<u8>>>,
    chunk_sources: &Vec<Vec<String>>,
    row_positions: &Vec<u64>,
    c: usize,
    v: Ghost<GenerateView>,
) -> (headers: Vec<[u8; 16]>)
    requires
        generate_shape(v@),
        c < v@.chunk_data[0].len(),
        chunk_data@.map_values(|ds: Vec<Vec<u8>>| ds@.map_values(|d: Vec<u8>| d@)) == v@.chunk_data,
        chunk_sources@.map_values(|ns: Vec<String>| ns@.map_values(|n: String| n@)) == v@.chunk_sources,
        row_positions@.len() == v@.tracks.len(),
        forall|s: int|
            0 <= s < v@.tracks.len() ==> #[trigger] row_positions@[s] == file_position(
                gen_grid(v@),
                gen_base(v@),
                c as int,
                s,
            ),
        source_views(old(sources)@) == sources_before(v@, c as int, 0),
    ensures
        headers@.len() == v@.tracks.len(),
        forall|s: int| 0 <= s < v@.tracks.len() ==> (#[trigger] headers@[s])@ == gen_lmc1_header(v@, c as int, s),
        source_views(final(sources)@) == sources_before(v@, c + 1, 0),
{
    let ns = chunk_data.len();
    let mut headers: Vec<[u8; 16]> = Vec::new();
    let mut s: usize = 0;
    while s < ns
        invariant
            generate_shape(v@),
            ns == v@.tracks.len(),
            c < v@.chunk_data[0].len(),
            chunk_data@.map_values(|ds: Vec<Vec<u8>>| ds@.map_values(|d: Vec<u8>| d@)) == v@.chunk_data,
            chunk_sources@.map_values(|ns: Vec<String>| ns@.map_values(|n: String| n@)) == v@.chunk_sources,
            row_positions@.len() == v@.tracks.len(),
            forall|s2: int|
                0 <= s2 < v@.tracks.len() ==> #[trigger] row_positions@[s2] == file_position(
                    gen_grid(v@),
                    gen_base(v@),
                    c as int,
                    s2,
                ),
            s <= ns,
            headers@.len() == s,
            forall|s2: int| 0 <= s2 < s ==> (#[trigger] headers@[s2])@ == gen_lmc1_header(v@, c as int, s2),
            source_views(sources@) == sources_before(v@, c as int, s as int),
        decreases ns - s,
    {
        assert(v@.chunk_data[s as int].len() == v@.chunk_data[0].len());
        assert(chunk_data@[s as int]@[c as int]@ == v@.chunk_data[s as int][c as int]);
        assert(chunk_sources@[s as int]@[c as int]@ == v@.chunk_sources[s as int][c as int]);
        let data = chunk_data[s][c].as_slice();
        let lmc1 = make_lmc1_header(s as u8, c as u32, data);
        let source = chunk_sources[s][c].clone();
        let offset = row_positions[s];
        assert(offset == gen_starts(v@, s as int)[c as int]);
        let file = data_source_file(source, data, offset, v, Ghost(c as int), Ghost(s as int));
        let ghost before = sources@;
        sources.push(file);
        assert(source_views(sources@) =~= source_views(before).push(source_view(file)));
        headers.push(lmc1);
        s = s + 1;
    }
    headers
}

/// Builds the hybrid MP4: the init file (ftyp, a free box per init segment
/// holding its lmc1 header and bytes, the moov whose chunk offsets point at
/// the samples inside the embedded chunk files, and the sidx indexing the
/// data file), the header of the mdat that starts the data file, the lmc1
/// header written before each chunk file in the data file, and where every
/// source file was placed. `None` exactly where `generate_fits` fails: the
/// moov or the sidx cannot be built, a chunk offset or the end of the data
/// does not fit in 64 bits, or the init file does not fit in memory.
#[verifier::rlimit(50)]
pub fn assemble_hybrid(inp: GenerateInput) -> (r: Option<HybridOutput>)
    requires
        generate_shape(inp@),
    ensures
        r is Some <==> generate_fits(inp@),
        r matches Some(out) ==> {
            let nc = inp@.chunk_data[0].len();
            let ns = inp@.tracks.len();
            &&& out.init_segment@ == gen_init_segment(inp@)
            &&& out.mdat_header@ == spec_mdat_header(rows_total(gen_grid(inp@)))
            &&& out.lmc1_headers@.len() == nc
            &&& forall|c: int| 0 <= c < nc ==> (#[trigger] out.lmc1_headers@[c])@.len() == ns
            &&& forall|c: int, s: int|
                0 <= c < nc && 0 <= s < ns ==> (#[trigger] out.lmc1_headers@[c]@[s])@ == gen_lmc1_header(
                    inp@,
                    c,
                    s,
                )
            &&& source_views(out.sources@) == gen_sources(inp@)
        },
{
    let ghost v = inp@;
    proof {
        reveal(generate_fits);
    }
    let ns = inp.tracks.len();
    let nc = inp.chunk_data[0].len();
    let ftyp = generate_ftyp();

    // ===== Layout =====
    assert(inp.chunk_data@[0]@.len() == v.chunk_data[0].len());
    let grid = build_gen_grid(&inp);
    assert(grid_rows(grid@).len() == grid@.len());
    assert(grid@.len() == nc);
    let moov0 = match try_generate_hybrid_moov(inp.tracks.as_slice(), inp.tables.as_slice()) {
        Some(m) => m,
        None => return None,
    };
    proof {
        lemma_gen_filled_moov(v);
    }
    let payload = match try_entries_total(&grid, 0) {
        Some(t) => t,
        None => return None,
    };
    if payload > u64::MAX - 16 {
        return None;
    }
    let mdat_header = make_mdat_header(payload);
    let sidx = match make_sidx(&inp, &grid, mdat_header.len() as u64) {
        Some(b) => b,
        None => return None,
    };
    let (frees, init_files) = match build_free_boxes(&inp) {
        Some(x) => x,
        None => return None,
    };
    if frees.len() > usize::MAX - 28 || moov0.len() > usize::MAX - 28 - frees.len() || sidx.len()
        > usize::MAX - 28 - frees.len() - moov0.len() {
        return None;
    }
    let init_size = 28 + frees.len() + moov0.len() + sidx.len();
    let header_len = mdat_header.len() as u64;
    if init_size as u64 > u64::MAX - header_len {
        return None;
    }
    let base = init_size as u64 + header_len;
    assert(base == gen_base(v));
    match try_entries_total(&grid, base) {
        Some(_) => {},
        None => return None,
    }
    let positions = file_positions(&grid, base);
    assert forall|c: int| 0 <= c < nc implies (#[trigger] positions@[c])@.len() == ns by {
        assert(grid@[c]@ == grid_rows(grid@)[c]);
    }

    // ===== Chunk offsets and moov =====
    let GenerateInput { tracks, tables, chunks, chunk_data, chunk_sources, init_data: _, init_sources: _ } =
        inp;
    let ghost tv = tables@;
    assert forall|s: int| 0 <= s < tv.len() implies (#[trigger] tv[s])@.chunk_offsets.len()
        == tv[s]@.sub_chunks.len() by {
        assert(tv[s]@ == v.tables[s]);
    }
    let filled = match fill_all_offsets(tables, &chunks, &positions, Ghost(gen_grid(v)), Ghost(gen_base(v))) {
        Some(f) => f,
        None => {
            proof {
                let s = choose|s: int|
                    0 <= s < tv.len() && !offsets_computable(
                        (#[trigger] tv[s])@,
                        chunks@[s]@.map_values(|c: ChunkParseResult| c@),
                        starts_in(gen_grid(v), gen_base(v), positions@.len() as int, s),
                    );
                assert(tv[s]@ == v.tables[s]);
                assert(chunks@[s]@.map_values(|c: ChunkParseResult| c@) == v.chunks[s]);
                assert(!offsets_computable(v.tables[s], v.chunks[s], gen_starts(v, s)));
            }
            return None;
        },
    };
    assert forall|s: int| 0 <= s < ns implies #[trigger] table_views(filled@)[s] == gen_filled(v, s) by {
        assert(tv[s]@ == v.tables[s]);
        assert(chunks@[s]@.map_values(|c: ChunkParseResult| c@) == v.chunks[s]);
    }
    assert(table_views(filled@) =~= Seq::new(ns as nat, |s: int| gen_filled(v, s)));
    assert forall|s: int| 0 <= s < ns implies offsets_computable(
        #[trigger] v.tables[s],
        v.chunks[s],
        gen_starts(v, s),
    ) by {
        assert(tv[s]@ == v.tables[s]);
        assert(chunks@[s]@.map_values(|c: ChunkParseResult| c@) == v.chunks[s]);
    }
    let moov = generate_hybrid_moov(tracks.as_slice(), filled.as_slice());

    // ===== Init file =====
    let mut init_segment: Vec<u8> = Vec::new();
    write_bytes(&mut init_segment, ftyp.as_slice());
    write_bytes(&mut init_segment, frees.as_slice());
    write_bytes(&mut init_segment, moov.as_slice());
    write_bytes(&mut init_segment, sidx.as_slice());
    assert(init_segment@ =~= gen_init_segment(v));

    // ===== Data file: lmc1 headers and sources =====
    let mut sources = init_files;
    let mut lmc1_headers: Vec<Vec<[u8; 16]>> = Vec::new();
    let mut c: usize = 0;
    while c < nc
        invariant
            generate_shape(v),
            ns == v.tracks.len(),
            nc == v.chunk_data[0].len(),
            chunk_data@.map_values(|ds: Vec<Vec<u8>>| ds@.map_values(|d: Vec<u8>| d@)) == v.chunk_data,
            chunk_sources@.map_values(|ns: Vec<String>| ns@.map_values(|n: String| n@)) == v.chunk_sources,
            positions@.len() == nc,
            forall|c2: int| 0 <= c2 < nc ==> (#[trigger] positions@[c2])@.len() == ns,
            forall|c2: int, s2: int|
                0 <= c2 < nc && 0 <= s2 < ns ==> #[trigger] positions@[c2]@[s2] == file_position(
                    gen_grid(v),
                    gen_base(v),
                    c2,
                    s2,
                ),
            c <= nc,
            lmc1_headers@.len() == c,
            forall|c2: int| 0 <= c2 < c ==> (#[trigger] lmc1_headers@[c2])@.len() == ns,
            forall|c2: int, s2: int|
                0 <= c2 < c && 0 <= s2 < ns ==> (#[trigger] lmc1_headers@[c2]@[s2])@ == gen_lmc1_header(
                    v,
                    c2,
                    s2,
                ),
            source_views(sources@) == sources_before(v, c as int, 0),
        decreases nc - c,
    {
        let row = emit_data_row(&mut sources, &chunk_data, &chunk_sources, &positions[c], c, Ghost(v));
        lmc1_headers.push(row);
        c = c + 1;
    }
    Some(HybridOutput { init_segment, mdat_header, lmc1_headers, sources })
}

} // verus!

verus! {

// ===== Where the sources end up =====

/// Row `c` of the data file up to stream `s`: for each stream, the lmc1
/// header then the chunk file.
pub open spec fn data_row_bytes(v: GenerateView, c: int, s: int) -> Seq<u8>
    decreases s,
{
    if s <= 0 {
        Seq::empty()
    } else {
        data_row_bytes(v, c, s - 1) + gen_lmc1_header(v, c, s - 1) + v.chunk_data[s - 1][c]
    }
}

/// The first `c` rows of the data file, after its mdat header.
pub open spec fn data_rows_bytes(v: GenerateView, c: int) -> Seq<u8>
    decreases c,
{
    if c <= 0 {
        Seq::empty()
    } else {
        data_rows_bytes(v, c - 1) + data_row_bytes(v, c - 1, v.tracks.len() as int)
    }
}

/// The data file: the mdat header, then every row.
pub open spec fn gen_data_file(v: GenerateView) -> Seq<u8> {
    spec_mdat_header(rows_total(gen_grid(v))) + data_rows_bytes(v, v.chunk_data[0].len() as int)
}

/// Every chunk file can be held in memory.
pub open spec fn chunk_lens_fit(v: GenerateView) -> bool {
    forall|s: int, c: int|
        0 <= s < v.tracks.len() && 0 <= c < v.chunk_data[0].len() ==> (#[trigger] v.chunk_data[s][c]).len()
            <= usize::MAX
}

proof fn lemma_free_boxes_prefix(v: GenerateView, k: int, n: int)
    requires
        0 <= k <= n,
    ensures
        free_boxes(v, k).len() <= free_boxes(v, n).len(),
        free_boxes(v, n).subrange(0, free_boxes(v, k).len() as int) == free_boxes(v, k),
    decreases n - k,
{
    if k == n {
        assert(free_boxes(v, n).subrange(0, free_boxes(v, n).len() as int) =~= free_boxes(v, n));
    } else {
        lemma_free_boxes_prefix(v, k, n - 1);
        lemma_free_boxes_step(v, n - 1);
        let m = free_boxes(v, k).len() as int;
        assert(free_boxes(v, n).subrange(0, m) =~= free_boxes(v, n - 1).subrange(0, m));
    }
}

proof fn lemma_row_prefix(v: GenerateView, c: int, k: int, n: int)
    requires
        0 <= k <= n,
    ensures
        data_row_bytes(v, c, k).len() <= data_row_bytes(v, c, n).len(),
        data_row_bytes(v, c, n).subrange(0, data_row_bytes(v, c, k).len() as int) == data_row_bytes(v, c, k),
    decreases n - k,
{
    if k == n {
        assert(data_row_bytes(v, c, n).subrange(0, data_row_bytes(v, c, n).len() as int) =~= data_row_bytes(
            v,
            c,
            n,
        ));
    } else {
        lemma_row_prefix(v, c, k, n - 1);
        let m = data_row_bytes(v, c, k).len() as int;
        assert(data_row_bytes(v, c, n).subrange(0, m) =~= data_row_bytes(v, c, n - 1).subrange(0, m));
    }
}

proof fn lemma_rows_prefix(v: GenerateView, k: int, n: int)
    requires
        0 <= k <= n,
    ensures
        data_rows_bytes(v, k).len() <= data_rows_bytes(v, n).len(),
        data_rows_bytes(v, n).subrange(0, data_rows_bytes(v, k).len() as int) == data_rows_bytes(v, k),
    decreases n - k,
{
    if k == n {
        assert(data_rows_bytes(v, n).subrange(0, data_rows_bytes(v, n).len() as int) =~= data_rows_bytes(v, n));
    } else {
        lemma_rows_prefix(v, k, n - 1);
        let m = data_rows_bytes(v, k).len() as int;
        assert(data_rows_bytes(v, n).subrange(0, m) =~= data_rows_bytes(v, n - 1).subrange(0, m));
    }
}

/// The grid counts the bytes of the data rows.
proof fn lemma_row_len(v: GenerateView, c: int, s: int)
    requires
        generate_shape(v),
        chunk_lens_fit(v),
        0 <= c < v.chunk_data[0].len(),
        0 <= s <= v.tracks.len(),
    ensures
        row_total(gen_grid(v)[c].take(s)) == data_row_bytes(v, c, s).len(),
    decreases s,
{
    let row = gen_grid(v)[c];
    if s > 0 {
        lemma_row_len(v, c, s - 1);
        assert(row.take(s).drop_last() =~= row.take(s - 1));
        lemma_lmc1_len((s - 1) as u8, c as u32, v.chunk_data[s - 1][c]);
        assert(v.chunk_data[s - 1][c].len() <= usize::MAX);
    } else {
        assert(row.take(0) =~= Seq::<(u64, u64)>::empty());
    }
}

proof fn lemma_rows_len(v: GenerateView, c: int)
    requires
        generate_shape(v),
        chunk_lens_fit(v),
        0 <= c <= v.chunk_data[0].len(),
    ensures
        rows_total(gen_grid(v).take(c)) == data_rows_bytes(v, c).len(),
    decreases c,
{
    let g = gen_grid(v);
    if c > 0 {
        lemma_rows_len(v, c - 1);
        assert(g.take(c).drop_last() =~= g.take(c - 1));
        lemma_row_len(v, c - 1, v.tracks.len() as int);
        assert(g[c - 1].take(v.tracks.len() as int) =~= g[c - 1]);
    } else {
        assert(g.take(0) =~= Seq::<Seq<(u64, u64)>>::empty());
    }
}

/// Law: init segment `i` is found at its listed offset of the init file
/// followed by the data file, with its listed length: inside its free box,
/// right after the box header and its lmc1 header.
pub proof fn lemma_init_source_placed(v: GenerateView, i: int)
    requires
        generate_shape(v),
        generate_fits(v),
        0 <= i < v.tracks.len(),
    ensures
        ({
            let src = init_source(v, i);
            let f = gen_init_segment(v) + gen_data_file(v);
            &&& src.offset + src.length <= f.len()
            &&& f.subrange(src.offset as int, src.offset + src.length) == v.init_data[i]
        }),
{
    reveal(generate_fits);
    let ns = v.tracks.len() as int;
    let d = v.init_data[i];
    let fb = free_boxes(v, i).len() as int;
    lemma_free_boxes_step(v, i);
    lemma_free_boxes_prefix(v, i + 1, ns);
    assert(spec_ftyp().len() == 28);
    let big = free_boxes(v, ns);
    let f = gen_init_segment(v) + gen_data_file(v);
    assert(28 + fb + 24 + d.len() <= usize::MAX);
    assert(init_source(v, i).offset == 28 + fb + 24);
    assert(init_source(v, i).length == d.len());
    let step = free_boxes(v, i + 1);
    assert(step == free_boxes(v, i) + spec_free_header((16 + d.len()) as int) + spec_lmc1_header(
        i as u8,
        0x800000,
        d,
    ) + d);
    lemma_lmc1_len(i as u8, 0x800000, d);
    assert(step.subrange(fb + 24, fb + 24 + d.len()) =~= d);
    assert(big.subrange(fb + 24, fb + 24 + d.len()) =~= step.subrange(fb + 24, fb + 24 + d.len())) by {
        assert(big.subrange(0, step.len() as int) == step);
    }
    assert(f.subrange(28 + fb + 24, 28 + fb + 24 + d.len()) =~= big.subrange(fb + 24, fb + 24 + d.len()));
}

/// Law: chunk file `c` of stream `s` is found at its listed offset of the
/// init file followed by the data file, with its listed length: in the mdat,
/// right after its lmc1 header. The chunk offsets of the moov are computed
/// from the same position (`gen_starts`).
#[verifier::rlimit(40)]
pub proof fn lemma_data_source_placed(v: GenerateView, c: int, s: int)
    requires
        generate_shape(v),
        generate_fits(v),
        chunk_lens_fit(v),
        0 <= c < v.chunk_data[0].len(),
        0 <= s < v.tracks.len(),
    ensures
        ({
            let src = data_source(v, c, s);
            let f = gen_init_segment(v) + gen_data_file(v);
            &&& src.offset == gen_starts(v, s)[c]
            &&& src.offset + src.length <= f.len()
            &&& f.subrange(src.offset as int, src.offset + src.length) == v.chunk_data[s][c]
        }),
{
    reveal(generate_fits);
    let ns = v.tracks.len() as int;
    let nc = v.chunk_data[0].len() as int;
    let g = gen_grid(v);
    let d = v.chunk_data[s][c];
    assert(d.len() <= usize::MAX);
    lemma_gen_filled_moov(v);
    assert(spec_ftyp().len() == 28);
    let init = gen_init_segment(v);
    let header = spec_mdat_header(rows_total(g));
    assert(header.len() == spec_mdat_header_size(rows_total(g)));
    assert(init.len() + header.len() == gen_base(v));
    // position of the chunk file within the rows
    lemma_rows_len(v, c);
    lemma_rows_len(v, nc);
    assert(g.take(nc) =~= g);
    lemma_row_len(v, c, s);
    let before = data_rows_bytes(v, c).len() as int;
    let in_row = data_row_bytes(v, c, s).len() as int;
    let at = before + in_row + 16;
    assert(file_position(g, gen_base(v), c, s) == gen_base(v) + at);
    // the row holding it, and the rows up to there, begin the data
    lemma_lmc1_len(s as u8, c as u32, d);
    let row_s1 = data_row_bytes(v, c, s + 1);
    assert(row_s1.subrange(in_row + 16, in_row + 16 + d.len()) =~= d);
    lemma_row_prefix(v, c, s + 1, ns);
    let row = data_row_bytes(v, c, ns);
    assert(row.subrange(in_row + 16, in_row + 16 + d.len()) =~= d) by {
        assert(row.subrange(0, row_s1.len() as int) == row_s1);
        assert(row.subrange(in_row + 16, in_row + 16 + d.len()) =~= row_s1.subrange(
            in_row + 16,
            in_row + 16 + d.len(),
        ));
    }
    lemma_rows_prefix(v, c + 1, nc);
    let rows_c1 = data_rows_bytes(v, c + 1);
    let all = data_rows_bytes(v, nc);
    assert(rows_c1 == data_rows_bytes(v, c) + row);
    assert(rows_c1.subrange(at, at + d.len()) =~= d);
    assert(all.subrange(at, at + d.len()) =~= d) by {
        assert(all.subrange(0, rows_c1.len() as int) == rows_c1);
        assert(all.subrange(at, at + d.len()) =~= rows_c1.subrange(at, at + d.len()));
    }
    assert(gen_base(v) + at + d.len() <= gen_base(v) + rows_total(g));
    let f = init + gen_data_file(v);
    let off = gen_base(v) + at;
    assert(data_source(v, c, s).offset == off);
    assert(f.subrange(off, off + d.len()) =~= all.subrange(at, at + d.len()));
}

} // verus!

verus! {

// ===== What the sidx indexes =====

/// Law: the references of the sidx, which ends the init file, cover the data
/// file exactly and in order: the first `c` references cover the mdat header
/// and the first `c` rows of chunk files (each after its lmc1 header), and
/// all of them cover the whole data file.
#[verifier::rlimit(40)]
pub proof fn lemma_sidx_covers_data(v: GenerateView, c: int)
    requires
        generate_shape(v),
        chunk_lens_fit(v),
        1 <= c <= v.chunk_data[0].len(),
    ensures
        sidx_covered(v, c) == spec_mdat_header_size(rows_total(gen_grid(v))) + data_rows_bytes(v, c).len(),
        c == v.chunk_data[0].len() ==> sidx_covered(v, c) == gen_data_file(v).len(),
    decreases c,
{
    let g = gen_grid(v);
    let ns = v.tracks.len() as int;
    let h = spec_mdat_header_size(rows_total(g));
    lemma_row_len(v, c - 1, ns);
    assert(g[c - 1].take(ns) =~= g[c - 1]);
    assert(row_total(g[c - 1]) == data_row_bytes(v, c - 1, ns).len());
    assert(sidx_covered(v, c) == sidx_covered(v, c - 1) + sidx_ref_size(v, c - 1));
    assert(data_rows_bytes(v, c).len() == data_rows_bytes(v, c - 1).len() + data_row_bytes(v, c - 1, ns).len());
    if c > 1 {
        lemma_sidx_covers_data(v, c - 1);
        assert(sidx_ref_size(v, c - 1) == row_total(g[c - 1]));
    } else {
        assert(sidx_covered(v, 0) == 0);
        assert(data_rows_bytes(v, 0).len() == 0);
        assert(sidx_ref_size(v, 0) == row_total(g[0]) + h);
    }
    let header = spec_mdat_header(rows_total(g));
    assert(header.len() == h);
}

} // verus!
