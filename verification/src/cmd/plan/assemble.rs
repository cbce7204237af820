// Building the recipe of a hybrid MP4 that is also a ZIP archive.
//
// Layout of the described file:
//   [ftyp]
//   [moov with full stbl (co64 pointing into mdat)]
//   [mdat]
//     for each chunk_idx, stream_idx:
//       [zip_local_header][original_chunk_file_bytes]
//   [free: deflated generated.m3u8 (master playlist)]
//   [free: deflated streams.N/generated.m3u8 (per-stream playlists)]
//   [free: zip local header of streams.N/init.m4s][init file]
//   [free: zip central directory + zip64 eocd + zip64 locator + eocd]
use vstd::prelude::*;
use vstd::utf8::encode_utf8;

use crate::ascii::lemma_decimal_len_bound;

use crate::binary::write_bytes;
use crate::cmd::generate::boxes::{
    generate_ftyp, generate_hybrid_moov, lemma_moov_len_ignores_chunk_offsets, moov_computable,
    paired_count, same_but_chunk_offsets, spec_ftyp, spec_moov, table_views, track_views,
    trak_computable, try_generate_hybrid_moov,
};
use crate::cmd::generate::types::{ChunkParseResult, ChunkView};
use crate::digest::{crc32, crc32_hash, deflate_best, deflate_best_vec};
use crate::mp4_box::{make_free_header, spec_free_header};
use super::hls::{
    bandwidths_fit, bandwidths_ok, generate_master_playlist, spec_master_playlist, stream_views,
    StreamInfo, StreamInfoView,
};
use super::layout::{
    file_position, file_positions, fill_chunk_offsets, grid_rows, make_mdat_header, row_total,
    offsets_are_computable, offsets_computable, rows_total, spec_chunk_offset, try_entries_total, spec_mdat_header, spec_mdat_header_size,
};
use super::recipe::{make_data_chunk, make_file_chunk, ContentView, RecipeChunk, RecipeChunkView};
use super::types::{SampleTableView, TrackInfo, TrackInfoView, TrackSampleTable};
use super::zip::{
    chunk_name_bytes, init_name_bytes, make_end_records, make_local_file_header,
    master_playlist_name_bytes, media_playlist_name_bytes, spec_end_records,
    spec_entry_name_chunk, spec_entry_name_init, spec_local_file_header, spec_master_playlist_name,
    spec_media_playlist_name, spec_cd_bytes, entry_views, lemma_cd_entry_len, lemma_local_file_header_len, lemma_end_record_lengths, ZipEntryView, ZipFileEntry,
};

verus! {

// ===== Pieces of the described file =====

/// One piece of the described file: its bytes, and the path of the file that
/// holds them when they are taken from a source file.
pub ghost struct PieceView {
    pub bytes: Seq<u8>,
    pub path: Option<Seq<char>>,
}

/// Total length of `pieces`.
pub open spec fn pieces_len(pieces: Seq<PieceView>) -> int
    decreases pieces.len(),
{
    if pieces.len() == 0 {
        0
    } else {
        pieces_len(pieces.drop_last()) + pieces.last().bytes.len()
    }
}

/// The described file: its pieces one after another.
pub open spec fn pieces_bytes(pieces: Seq<PieceView>) -> Seq<u8>
    decreases pieces.len(),
{
    if pieces.len() == 0 {
        Seq::empty()
    } else {
        pieces_bytes(pieces.drop_last()) + pieces.last().bytes
    }
}

/// The recipe chunk for a piece placed at `offset`.
pub open spec fn chunk_for_piece(p: PieceView, offset: int) -> RecipeChunkView {
    RecipeChunkView {
        offset: offset as u64,
        size: p.bytes.len() as u64,
        crc32: crc32(p.bytes),
        content: match p.path {
            None => ContentView::Data(p.bytes),
            Some(path) => ContentView::File(path),
        },
    }
}

/// The recipe describes `pieces` placed one after another from offset 0.
pub open spec fn recipe_matches(r: Seq<RecipeChunkView>, pieces: Seq<PieceView>) -> bool {
    &&& r.len() == pieces.len()
    &&& forall|i: int|
        0 <= i < r.len() ==> #[trigger] r[i] == chunk_for_piece(pieces[i], pieces_len(pieces.take(i)))
}

/// Views of recipe chunks.
pub open spec fn recipe_views(r: Seq<RecipeChunk>) -> Seq<RecipeChunkView> {
    r.map_values(|c: RecipeChunk| c@)
}

/// A piece of inline data.
pub open spec fn data_piece(bytes: Seq<u8>) -> PieceView {
    PieceView { bytes, path: None }
}

/// A piece taken from the file at `path`, which holds `bytes`.
pub open spec fn file_piece(path: Seq<char>, bytes: Seq<u8>) -> PieceView {
    PieceView { bytes, path: Some(path) }
}

proof fn lemma_pieces_len_nonneg(pieces: Seq<PieceView>)
    ensures
        pieces_len(pieces) >= 0,
    decreases pieces.len(),
{
    if pieces.len() > 0 {
        lemma_pieces_len_nonneg(pieces.drop_last());
    }
}

proof fn lemma_recipe_push(r: Seq<RecipeChunkView>, pieces: Seq<PieceView>, c: RecipeChunkView, p: PieceView)
    requires
        recipe_matches(r, pieces),
        c == chunk_for_piece(p, pieces_len(pieces)),
    ensures
        recipe_matches(r.push(c), pieces.push(p)),
        pieces_len(pieces.push(p)) == pieces_len(pieces) + p.bytes.len(),
{
    let q = pieces.push(p);
    assert(q.drop_last() =~= pieces);
    assert(q.take(pieces.len() as int) =~= pieces);
    assert forall|i: int| 0 <= i < r.len() + 1 implies #[trigger] r.push(c)[i] == chunk_for_piece(
        q[i],
        pieces_len(q.take(i)),
    ) by {
        if i < r.len() {
            assert(q.take(i) =~= pieces.take(i));
        }
    }
}

/// Appends an inline data piece; `false` (and nothing appended) where its
/// end would not fit in 64 bits.
fn emit_data(
    recipe: &mut Vec<RecipeChunk>,
    offset: &mut u64,
    data: Vec<u8>,
    pieces: Ghost<Seq<PieceView>>,
) -> (ok: bool)
    requires
        recipe_matches(recipe_views(old(recipe)@), pieces@),
        *old(offset) == pieces_len(pieces@),
    ensures
        ok == (*old(offset) + data@.len() <= u64::MAX),
        ok ==> recipe_matches(recipe_views(final(recipe)@), pieces@.push(data_piece(data@))),
        ok ==> *final(offset) == pieces_len(pieces@.push(data_piece(data@))),
        !ok ==> final(recipe)@ == old(recipe)@ && *final(offset) == *old(offset),
{
    let ghost bytes = data@;
    let len = data.len() as u64;
    if len > u64::MAX - *offset {
        return false;
    }
    let chunk = make_data_chunk(*offset, data);
    let ghost before = recipe@;
    recipe.push(chunk);
    proof {
        assert(recipe_views(recipe@) =~= recipe_views(before).push(chunk@));
        lemma_recipe_push(recipe_views(before), pieces@, chunk@, data_piece(bytes));
    }
    *offset = *offset + len;
    true
}

/// Appends a piece taken from the file at `path`, which holds `file_data`;
/// `false` (and nothing appended) where its end would not fit in 64 bits.
fn emit_file(
    recipe: &mut Vec<RecipeChunk>,
    offset: &mut u64,
    path: String,
    file_data: &[u8],
    pieces: Ghost<Seq<PieceView>>,
) -> (ok: bool)
    requires
        recipe_matches(recipe_views(old(recipe)@), pieces@),
        *old(offset) == pieces_len(pieces@),
    ensures
        ok == (*old(offset) + file_data@.len() <= u64::MAX),
        ok ==> recipe_matches(
            recipe_views(final(recipe)@),
            pieces@.push(file_piece(path@, file_data@)),
        ),
        ok ==> *final(offset) == pieces_len(pieces@.push(file_piece(path@, file_data@))),
        !ok ==> final(recipe)@ == old(recipe)@ && *final(offset) == *old(offset),
{
    let ghost p = path@;
    let len = file_data.len() as u64;
    if len > u64::MAX - *offset {
        return false;
    }
    let chunk = make_file_chunk(*offset, path, file_data);
    let ghost before = recipe@;
    recipe.push(chunk);
    proof {
        assert(recipe_views(recipe@) =~= recipe_views(before).push(chunk@));
        lemma_recipe_push(recipe_views(before), pieces@, chunk@, file_piece(p, file_data@));
    }
    *offset = *offset + len;
    true
}

/// Law: a recipe that describes pieces tiles the described file: the first
/// chunk starts at 0, each next chunk starts where the previous one ends,
/// and the last one ends at the file's length.
pub proof fn lemma_recipe_tiles(r: Seq<RecipeChunkView>, pieces: Seq<PieceView>)
    requires
        recipe_matches(r, pieces),
        pieces_len(pieces) <= u64::MAX,
    ensures
        r.len() > 0 ==> r[0].offset == 0,
        forall|i: int| 0 <= i < r.len() - 1 ==> #[trigger] r[i + 1].offset == r[i].offset + r[i].size,
        r.len() > 0 ==> r[r.len() - 1].offset + r[r.len() - 1].size == pieces_len(pieces),
        pieces_len(pieces) == pieces_bytes(pieces).len(),
{
    lemma_pieces_prefix_lens(pieces);
    if r.len() > 0 {
        assert(pieces.take(0) =~= Seq::<PieceView>::empty());
        assert(pieces.take(r.len() - 1) =~= pieces.drop_last());
    }
    assert forall|i: int| 0 <= i < r.len() - 1 implies #[trigger] r[i + 1].offset == r[i].offset
        + r[i].size by {
        assert(pieces.take(i + 1).drop_last() =~= pieces.take(i));
    }
}

proof fn lemma_pieces_prefix_lens(pieces: Seq<PieceView>)
    ensures
        pieces_len(pieces) == pieces_bytes(pieces).len(),
        forall|i: int| 0 <= i <= pieces.len() ==> 0 <= #[trigger] pieces_len(pieces.take(i)) <= pieces_len(pieces),
    decreases pieces.len(),
{
    if pieces.len() > 0 {
        lemma_pieces_prefix_lens(pieces.drop_last());
        assert forall|i: int| 0 <= i <= pieces.len() implies 0 <= #[trigger] pieces_len(pieces.take(i))
            <= pieces_len(pieces) by {
            if i < pieces.len() {
                assert(pieces.take(i) =~= pieces.drop_last().take(i));
            } else {
                assert(pieces.take(i) =~= pieces);
            }
        }
    } else {
        assert forall|i: int| 0 <= i <= pieces.len() implies 0 <= #[trigger] pieces_len(pieces.take(i))
            <= pieces_len(pieces) by {
            assert(pieces.take(i) =~= pieces);
        }
    }
}

} // verus!

verus! {

// ===== What the recipe is built from =====

/// Everything the recipe is built from, read and prepared for each stream:
/// its track, its sample table (chunk offsets still to be filled in), its
/// parsed chunk files with their bytes and their paths relative to the
/// recipe, its init segment with its path, its codecs, its peak bandwidth
/// and its media playlist.
pub struct PlanInput {
    pub tracks: Vec<TrackInfo>,
    pub tables: Vec<TrackSampleTable>,
    pub chunks: Vec<Vec<ChunkParseResult>>,
    pub chunk_data: Vec<Vec<Vec<u8>>>,
    pub chunk_paths: Vec<Vec<String>>,
    pub init_data: Vec<Vec<u8>>,
    pub init_paths: Vec<String>,
    pub codecs: Vec<Vec<String>>,
    pub bandwidths: Vec<u64>,
    pub media_playlists: Vec<Vec<u8>>,
}

/// The inputs as mathematical values.
pub ghost struct PlanView {
    pub tracks: Seq<TrackInfoView>,
    pub tables: Seq<SampleTableView>,
    pub chunks: Seq<Seq<ChunkView>>,
    pub chunk_data: Seq<Seq<Seq<u8>>>,
    pub chunk_paths: Seq<Seq<Seq<char>>>,
    pub init_data: Seq<Seq<u8>>,
    pub init_paths: Seq<Seq<char>>,
    pub codecs: Seq<Seq<Seq<u8>>>,
    pub bandwidths: Seq<u64>,
    pub media_playlists: Seq<Seq<u8>>,
}

/// The bytes of each byte vector.
pub open spec fn byte_views(v: Seq<Vec<u8>>) -> Seq<Seq<u8>> {
    v.map_values(|b: Vec<u8>| b@)
}

/// The characters of each string.
pub open spec fn char_views(v: Seq<String>) -> Seq<Seq<char>> {
    v.map_values(|s: String| s@)
}

impl View for PlanInput {
    type V = PlanView;

    open spec fn view(&self) -> PlanView {
        PlanView {
            tracks: track_views(self.tracks@),
            tables: table_views(self.tables@),
            chunks: self.chunks@.map_values(
                |cs: Vec<ChunkParseResult>| cs@.map_values(|c: ChunkParseResult| c@),
            ),
            chunk_data: self.chunk_data@.map_values(|ds: Vec<Vec<u8>>| byte_views(ds@)),
            chunk_paths: self.chunk_paths@.map_values(|ps: Vec<String>| char_views(ps@)),
            init_data: byte_views(self.init_data@),
            init_paths: char_views(self.init_paths@),
            codecs: self.codecs@.map_values(
                |cs: Vec<String>| cs@.map_values(|c: String| encode_utf8(c@)),
            ),
            bandwidths: self.bandwidths@,
            media_playlists: byte_views(self.media_playlists@),
        }
    }
}

/// The inputs have one entry per stream everywhere, at least one stream,
/// the same number of chunk files in every stream, and sample tables with
/// one chunk offset per stbl chunk.
pub open spec fn plan_shape(v: PlanView) -> bool {
    let ns = v.tracks.len();
    let nc = v.chunk_data[0].len();
    &&& ns > 0
    &&& v.tables.len() == ns
    &&& v.chunks.len() == ns
    &&& v.chunk_data.len() == ns
    &&& v.chunk_paths.len() == ns
    &&& v.init_data.len() == ns
    &&& v.init_paths.len() == ns
    &&& v.codecs.len() == ns
    &&& v.bandwidths.len() == ns
    &&& v.media_playlists.len() == ns
    &&& forall|s: int| 0 <= s < ns ==> (#[trigger] v.chunks[s]).len() == nc
    &&& forall|s: int| 0 <= s < ns ==> (#[trigger] v.chunk_data[s]).len() == nc
    &&& forall|s: int| 0 <= s < ns ==> (#[trigger] v.chunk_paths[s]).len() == nc
    &&& forall|s: int|
        0 <= s < ns ==> (#[trigger] v.tables[s]).chunk_offsets.len() == v.tables[s].sub_chunks.len()
}

/// Number of streams.
pub open spec fn num_streams(v: PlanView) -> int {
    v.tracks.len() as int
}

/// Number of chunk files in each stream.
pub open spec fn num_chunks(v: PlanView) -> int {
    v.chunk_data[0].len() as int
}

/// Handler type `vide`.
pub open spec fn is_vide(h: [u8; 4]) -> bool {
    h@ == seq![0x76u8, 0x69u8, 0x64u8, 0x65u8]
}

/// Handler type `soun`.
pub open spec fn is_soun(h: [u8; 4]) -> bool {
    h@ == seq![0x73u8, 0x6fu8, 0x75u8, 0x6eu8]
}

/// What the master playlist is written from.
pub open spec fn stream_infos(v: PlanView) -> Seq<StreamInfoView> {
    Seq::new(
        v.tracks.len(),
        |s: int|
            StreamInfoView {
                codecs: v.codecs[s],
                bandwidth: v.bandwidths[s],
                is_video: is_vide(v.tracks[s].handler_type),
                is_audio: is_soun(v.tracks[s].handler_type),
            },
    )
}

/// The mdat entries, row by chunk index, column by stream: the size of the
/// ZIP local header (30 bytes, the name, a 20-byte extra field) and of the file.
#[verifier::opaque]
pub open spec fn spec_grid(v: PlanView) -> Seq<Seq<(u64, u64)>> {
    Seq::new(
        num_chunks(v) as nat,
        |c: int|
            Seq::new(
                num_streams(v) as nat,
                |s: int|
                    (
                        (50 + spec_entry_name_chunk(s as nat, c as nat).len()) as u64,
                        v.chunk_data[s][c].len() as u64,
                    ),
            ),
    )
}

/// Bytes in the mdat after its header.
pub open spec fn mdat_payload(v: PlanView) -> int {
    rows_total(spec_grid(v))
}

/// Where the mdat content starts: after the ftyp, the moov (whose size does
/// not depend on the chunk offsets) and the mdat header.
pub open spec fn mdat_base(v: PlanView) -> int {
    spec_ftyp().len() + spec_moov(v.tracks, v.tables).len() + spec_mdat_header_size(mdat_payload(v))
}

/// Where each chunk file of stream `s` starts in the described file.
pub open spec fn stream_starts(v: PlanView, s: int) -> Seq<u64> {
    Seq::new(num_chunks(v) as nat, |c: int| file_position(spec_grid(v), mdat_base(v), c, s) as u64)
}

/// The sample table of stream `s` with its chunk offsets filled in.
pub open spec fn filled_table(v: PlanView, s: int) -> SampleTableView {
    SampleTableView {
        chunk_offsets: Seq::new(
            v.tables[s].chunk_offsets.len(),
            |k: int| spec_chunk_offset(v.tables[s], v.chunks[s], stream_starts(v, s), k) as u64,
        ),
        ..v.tables[s]
    }
}

/// The moov of the described file, with the real chunk offsets.
pub open spec fn final_moov(v: PlanView) -> Seq<u8> {
    spec_moov(v.tracks, Seq::new(v.tracks.len(), |s: int| filled_table(v, s)))
}

/// What has been described so far: the pieces and the ZIP entries.
pub ghost struct Progress {
    pub pieces: Seq<PieceView>,
    pub entries: Seq<ZipEntryView>,
}

/// The ftyp, the moov and the mdat header.
pub open spec fn head_progress(v: PlanView) -> Progress {
    Progress {
        pieces: seq![
            data_piece(spec_ftyp()),
            data_piece(final_moov(v)),
            data_piece(spec_mdat_header(mdat_payload(v))),
        ],
        entries: Seq::empty(),
    }
}

/// A stored ZIP entry for `bytes` named `name` whose local header is at `loh`.
pub open spec fn stored_entry(name: Seq<u8>, bytes: Seq<u8>, loh: int) -> ZipEntryView {
    ZipEntryView {
        filename: name,
        crc32: crc32(bytes),
        compressed_size: bytes.len() as u64,
        uncompressed_size: bytes.len() as u64,
        compression_method: 0,
        local_header_offset: loh as u64,
    }
}

/// The local header of a stored entry.
pub open spec fn stored_header(name: Seq<u8>, bytes: Seq<u8>) -> Seq<u8> {
    spec_local_file_header(name, crc32(bytes), 0, bytes.len() as u64, bytes.len() as u64)
}

/// A stored entry added: its local header, then the file at `path` holding `d`.
pub open spec fn stored_step(p: Progress, name: Seq<u8>, d: Seq<u8>, path: Seq<char>) -> Progress {
    Progress {
        pieces: p.pieces.push(data_piece(stored_header(name, d))).push(file_piece(path, d)),
        entries: p.entries.push(stored_entry(name, d, pieces_len(p.pieces))),
    }
}

/// Chunk file `c` of stream `s` added to the mdat: its local header, then
/// the file itself.
pub open spec fn chunk_step(v: PlanView, p: Progress, s: int, c: int) -> Progress {
    stored_step(p, spec_entry_name_chunk(s as nat, c as nat), v.chunk_data[s][c], v.chunk_paths[s][c])
}

/// The head and the mdat entries of the chunk files before chunk file `c`
/// of stream `s` (all streams of the earlier chunk indices first).
pub open spec fn chunk_progress(v: PlanView, c: int, s: int) -> Progress
    decreases c, s,
{
    if c <= 0 && s <= 0 {
        head_progress(v)
    } else if s <= 0 {
        chunk_progress(v, c - 1, num_streams(v))
    } else {
        chunk_step(v, chunk_progress(v, c, s - 1), s - 1, c)
    }
}

/// A deflated ZIP entry in a free box: the box header, the local header and
/// the compressed bytes; the entry's local header is 8 bytes into the piece.
pub open spec fn zipped_step(p: Progress, name: Seq<u8>, payload: Seq<u8>) -> Progress {
    let z = deflate_best(payload);
    let hdr = spec_local_file_header(name, crc32(payload), 8, z.len() as u64, payload.len() as u64);
    Progress {
        pieces: p.pieces.push(data_piece(spec_free_header((hdr.len() + z.len()) as int) + hdr + z)),
        entries: p.entries.push(
            ZipEntryView {
                filename: name,
                crc32: crc32(payload),
                compressed_size: z.len() as u64,
                uncompressed_size: payload.len() as u64,
                compression_method: 8,
                local_header_offset: (pieces_len(p.pieces) + 8) as u64,
            },
        ),
    }
}

/// After the mdat: the master playlist.
pub open spec fn master_progress(v: PlanView) -> Progress {
    zipped_step(
        chunk_progress(v, num_chunks(v), 0),
        spec_master_playlist_name(),
        spec_master_playlist(stream_infos(v)),
    )
}

/// Then the media playlists of the first `k` streams.
pub open spec fn media_progress(v: PlanView, k: int) -> Progress
    decreases k,
{
    if k <= 0 {
        master_progress(v)
    } else {
        zipped_step(
            media_progress(v, k - 1),
            spec_media_playlist_name((k - 1) as nat),
            v.media_playlists[k - 1],
        )
    }
}

/// A stored entry in a free box: the box header and the local header as
/// one piece, then the file at `path` holding `d`.
pub open spec fn boxed_step(p: Progress, name: Seq<u8>, d: Seq<u8>, path: Seq<char>) -> Progress {
    let hdr = stored_header(name, d);
    Progress {
        pieces: p.pieces.push(data_piece(spec_free_header((hdr.len() + d.len()) as int) + hdr)).push(
            file_piece(path, d),
        ),
        entries: p.entries.push(stored_entry(name, d, pieces_len(p.pieces) + 8)),
    }
}

/// The init segment of stream `s` in a free box.
pub open spec fn init_step(v: PlanView, p: Progress, s: int) -> Progress {
    boxed_step(p, spec_entry_name_init(s as nat), v.init_data[s], v.init_paths[s])
}

/// Then the init segments of the first `k` streams.
pub open spec fn init_progress(v: PlanView, k: int) -> Progress
    decreases k,
{
    if k <= 0 {
        media_progress(v, num_streams(v))
    } else {
        init_step(v, init_progress(v, k - 1), k - 1)
    }
}

/// All pieces of the described file: the last is a free box holding the
/// ZIP central directory and end records, for a directory 8 bytes into it.
pub open spec fn spec_recipe_pieces(v: PlanView) -> Seq<PieceView> {
    let p = init_progress(v, num_streams(v));
    let records = spec_end_records(p.entries, pieces_len(p.pieces) + 8);
    p.pieces.push(data_piece(spec_free_header(records.len() as int) + records))
}

/// The ZIP entries of the described file, in directory order.
pub open spec fn spec_recipe_entries(v: PlanView) -> Seq<ZipEntryView> {
    init_progress(v, num_streams(v)).entries
}

} // verus!

verus! {

// ===== Writing the recipe =====

/// The recipe, the offset after it and the ZIP entries so far match `p`.
pub open spec fn at_progress(recipe: Seq<RecipeChunk>, offset: u64, entries: Seq<ZipFileEntry>, p: Progress) -> bool {
    &&& recipe_matches(recipe_views(recipe), p.pieces)
    &&& offset == pieces_len(p.pieces)
    &&& entry_views(entries) == p.entries
}

/// Adds a stored entry: its local header as inline data, then the file.
fn emit_stored(
    recipe: &mut Vec<RecipeChunk>,
    offset: &mut u64,
    entries: &mut Vec<ZipFileEntry>,
    name: Vec<u8>,
    data: &[u8],
    path: String,
    p: Ghost<Progress>,
) -> (ok: bool)
    requires
        at_progress(old(recipe)@, *old(offset), old(entries)@, p@),
    ensures
        ok ==> at_progress(
            final(recipe)@,
            *final(offset),
            final(entries)@,
            stored_step(p@, name@, data@, path@),
        ),
        !ok ==> pieces_len(stored_step(p@, name@, data@, path@).pieces) > usize::MAX,
{
    let ghost n = name@;
    let ghost pa = path@;
    let crc = crc32_hash(data);
    let size = data.len() as u64;
    let header = make_local_file_header(name.as_slice(), crc, 0, size, size);
    let loh = *offset;
    let ghost p1 = p@.pieces.push(data_piece(header@));
    let ghost p2 = p1.push(file_piece(pa, data@));
    proof {
        assert(p1.drop_last() =~= p@.pieces);
        assert(p2.drop_last() =~= p1);
    }
    assert(stored_step(p@, n, data@, pa).pieces == p2);
    if !emit_data(recipe, offset, header, Ghost(p@.pieces)) {
        assert(pieces_len(p1) > u64::MAX);
        assert(pieces_len(p2) >= pieces_len(p1));
        return false;
    }
    if !emit_file(recipe, offset, path, data, Ghost(p1)) {
        assert(pieces_len(p2) > u64::MAX);
        return false;
    }
    let ghost before = entries@;
    entries.push(
        ZipFileEntry {
            filename: name,
            crc32: crc,
            compressed_size: size,
            uncompressed_size: size,
            compression_method: 0,
            local_header_offset: loh,
        },
    );
    assert(entry_views(entries@) =~= entry_views(before).push(stored_entry(n, data@, pieces_len(p@.pieces))));
    true
}

/// Adds a stored entry in a free box: box header and local header as inline
/// data, then the file.
fn emit_boxed(
    recipe: &mut Vec<RecipeChunk>,
    offset: &mut u64,
    entries: &mut Vec<ZipFileEntry>,
    name: Vec<u8>,
    data: &[u8],
    path: String,
    p: Ghost<Progress>,
) -> (ok: bool)
    requires
        at_progress(old(recipe)@, *old(offset), old(entries)@, p@),
    ensures
        ok ==> at_progress(
            final(recipe)@,
            *final(offset),
            final(entries)@,
            boxed_step(p@, name@, data@, path@),
        ),
        !ok ==> pieces_len(boxed_step(p@, name@, data@, path@).pieces) > usize::MAX,
{
    let ghost n = name@;
    let crc = crc32_hash(data);
    let size = data.len() as u64;
    let header = make_local_file_header(name.as_slice(), crc, 0, size, size);
    let ghost pa = path@;
    let ghost hdr = stored_header(n, data@);
    let ghost head_bytes = spec_free_header((hdr.len() + data@.len()) as int) + hdr;
    let ghost q1 = p@.pieces.push(data_piece(head_bytes));
    let ghost q2 = q1.push(file_piece(pa, data@));
    proof {
        assert(q1.drop_last() =~= p@.pieces);
        assert(q2.drop_last() =~= q1);
        lemma_pieces_len_nonneg(p@.pieces);
    }
    assert(header@ == hdr);
    assert(boxed_step(p@, n, data@, pa).pieces == q2);
    assert(pieces_len(q1) == pieces_len(p@.pieces) + head_bytes.len());
    assert(pieces_len(q2) == pieces_len(q1) + data@.len());
    if header.len() > usize::MAX - data.len() {
        return false;
    }
    let free = make_free_header(header.len() + data.len());
    let mut head: Vec<u8> = Vec::new();
    write_bytes(&mut head, &free);
    write_bytes(&mut head, header.as_slice());
    assert(head@ == head_bytes);
    let loh_base = *offset;
    let ghost p1 = p@.pieces.push(data_piece(head@));
    if !emit_data(recipe, offset, head, Ghost(p@.pieces)) {
        return false;
    }
    if !emit_file(recipe, offset, path, data, Ghost(p1)) {
        return false;
    }
    proof {
        lemma_pieces_len_nonneg(p@.pieces);
    }
    let ghost before = entries@;
    entries.push(
        ZipFileEntry {
            filename: name,
            crc32: crc,
            compressed_size: size,
            uncompressed_size: size,
            compression_method: 0,
            local_header_offset: loh_base + 8,
        },
    );
    assert(entry_views(entries@) =~= entry_views(before).push(
        stored_entry(n, data@, pieces_len(p@.pieces) + 8),
    ));
    true
}

/// Adds a deflated entry in a free box, as one piece of inline data.
fn emit_zipped(
    recipe: &mut Vec<RecipeChunk>,
    offset: &mut u64,
    entries: &mut Vec<ZipFileEntry>,
    name: Vec<u8>,
    payload: &[u8],
    p: Ghost<Progress>,
) -> (ok: bool)
    requires
        at_progress(old(recipe)@, *old(offset), old(entries)@, p@),
    ensures
        ok ==> at_progress(final(recipe)@, *final(offset), final(entries)@, zipped_step(p@, name@, payload@)),
        !ok ==> pieces_len(zipped_step(p@, name@, payload@).pieces) > usize::MAX,
{
    let ghost n = name@;
    let crc = crc32_hash(payload);
    let uncompressed_size = payload.len() as u64;
    let compressed = deflate_best_vec(payload);
    let compressed_size = compressed.len() as u64;
    let header = make_local_file_header(name.as_slice(), crc, 8, compressed_size, uncompressed_size);
    proof {
        lemma_pieces_len_nonneg(p@.pieces);
        assert(zipped_step(p@, n, payload@).pieces.drop_last() =~= p@.pieces);
    }
    if header.len() > usize::MAX - compressed.len() {
        return false;
    }
    let free = make_free_header(header.len() + compressed.len());
    let mut piece: Vec<u8> = Vec::new();
    write_bytes(&mut piece, &free);
    write_bytes(&mut piece, header.as_slice());
    write_bytes(&mut piece, compressed.as_slice());
    let loh_base = *offset;
    if !emit_data(recipe, offset, piece, Ghost(p@.pieces)) {
        return false;
    }
    proof {
        lemma_pieces_len_nonneg(p@.pieces);
    }
    let ghost before = entries@;
    entries.push(
        ZipFileEntry {
            filename: name,
            crc32: crc,
            compressed_size,
            uncompressed_size,
            compression_method: 8,
            local_header_offset: loh_base + 8,
        },
    );
    assert(entry_views(entries@) =~= zipped_step(p@, n, payload@).entries);
    true
}

} // verus!

verus! {

// ===== Preparing the layout =====

fn handler_is(h: [u8; 4], a: u8, b: u8, c: u8, d: u8) -> (r: bool)
    ensures
        r == (h@ == seq![a, b, c, d]),
{
    let r = h[0] == a && h[1] == b && h[2] == c && h[3] == d;
    proof {
        if r {
            assert(h@ =~= seq![a, b, c, d]);
        } else if h@ == seq![a, b, c, d] {
            assert(h@[0] == a && h@[1] == b && h@[2] == c && h@[3] == d);
        }
    }
    r
}

/// The master playlist of the streams, where each paired bandwidth fits in
/// 64 bits (`None` otherwise).
fn master_playlist_of(inp: &PlanInput) -> (r: Option<Vec<u8>>)
    requires
        plan_shape(inp@),
    ensures
        match r {
            Some(m) => bandwidths_fit(stream_infos(inp@)) && m@ == spec_master_playlist(stream_infos(inp@)),
            None => !bandwidths_fit(stream_infos(inp@)),
        },
{
    let ghost v = inp@;
    let ns = inp.tracks.len();
    let mut infos: Vec<StreamInfo> = Vec::new();
    let mut s: usize = 0;
    while s < ns
        invariant
            v == inp@,
            plan_shape(v),
            ns == v.tracks.len(),
            s <= ns,
            infos@.len() == s,
            forall|j: int| 0 <= j < s ==> (#[trigger] infos@[j])@ == stream_infos(v)[j],
        decreases ns - s,
    {
        let h = inp.tracks[s].handler_type;
        assert(inp.tracks@[s as int]@ == v.tracks[s as int]);
        assert(inp.codecs@[s as int]@.map_values(|c: String| encode_utf8(c@)) == v.codecs[s as int]);
        let info = StreamInfo {
            codecs: inp.codecs[s].as_slice(),
            bandwidth: inp.bandwidths[s],
            is_video: handler_is(h, 0x76, 0x69, 0x64, 0x65),
            is_audio: handler_is(h, 0x73, 0x6f, 0x75, 0x6e),
        };
        infos.push(info);
        s = s + 1;
    }
    assert(stream_views(infos@) =~= stream_infos(v));
    if !bandwidths_ok(infos.as_slice()) {
        return None;
    }
    Some(generate_master_playlist(infos.as_slice()))
}

/// The mdat entries: for each chunk index, for each stream, the size of the
/// ZIP local header and of the chunk file.
fn build_grid(inp: &PlanInput) -> (r: Vec<Vec<(u64, u64)>>)
    requires
        plan_shape(inp@),
    ensures
        grid_rows(r@) == spec_grid(inp@),
        data_lens_fit(inp@),
{
    reveal(spec_grid);
    let ghost v = inp@;
    let ns = inp.tracks.len();
    let nc = inp.chunk_data[0].len();
    assert(nc == num_chunks(v));
    let mut grid: Vec<Vec<(u64, u64)>> = Vec::new();
    let mut c: usize = 0;
    while c < nc
        invariant
            v == inp@,
            plan_shape(v),
            ns == num_streams(v),
            nc == num_chunks(v),
            c <= nc,
            grid@.len() == c,
            forall|j: int| 0 <= j < c ==> (#[trigger] grid@[j])@ == spec_grid(v)[j],
            forall|s2: int, c2: int|
                0 <= s2 < ns && 0 <= c2 < c ==> (#[trigger] v.chunk_data[s2][c2]).len() <= usize::MAX,
        decreases nc - c,
    {
        let mut row: Vec<(u64, u64)> = Vec::new();
        let mut s: usize = 0;
        while s < ns
            invariant
                v == inp@,
                plan_shape(v),
                ns == num_streams(v),
                nc == num_chunks(v),
                c < nc,
                s <= ns,
                row@.len() == s,
                forall|j: int| 0 <= j < s ==> #[trigger] row@[j] == spec_grid(v)[c as int][j],
                forall|s2: int, c2: int|
                    0 <= s2 < ns && 0 <= c2 < c ==> (#[trigger] v.chunk_data[s2][c2]).len() <= usize::MAX,
                forall|s2: int| 0 <= s2 < s ==> (#[trigger] v.chunk_data[s2][c as int]).len() <= usize::MAX,
            decreases ns - s,
        {
            reveal(spec_grid);
            let name = chunk_name_bytes(s, c);
            assert(v.chunk_data[s as int].len() == nc);
            assert(inp.chunk_data@[s as int]@.len() == nc);
            assert(inp.chunk_data@[s as int]@[c as int]@ == v.chunk_data[s as int][c as int]);
            let header_size = 50 + name.len() as u64;
            let file_size = inp.chunk_data[s][c].len() as u64;
            row.push((header_size, file_size));
            s = s + 1;
        }
        assert(row@ =~= spec_grid(v)[c as int]) by {
            reveal(spec_grid);
        }
        grid.push(row);
        c = c + 1;
    }
    assert(grid_rows(grid@) =~= spec_grid(v));
    grid
}

} // verus!

verus! {

/// The positions of the chunk files of stream `s`.
fn stream_positions(positions: &Vec<Vec<u64>>, s: usize, v: Ghost<PlanView>) -> (r: Vec<u64>)
    requires
        positions@.len() == num_chunks(v@),
        forall|c: int| 0 <= c < num_chunks(v@) ==> s < (#[trigger] positions@[c])@.len(),
        forall|c: int|
            0 <= c < num_chunks(v@) ==> #[trigger] positions@[c]@[s as int] == file_position(
                spec_grid(v@),
                mdat_base(v@),
                c,
                s as int,
            ),
    ensures
        r@ == stream_starts(v@, s as int),
{
    let nc = positions.len();
    let mut starts: Vec<u64> = Vec::new();
    let mut c: usize = 0;
    while c < nc
        invariant
            nc == positions@.len(),
            nc == num_chunks(v@),
            forall|c2: int| 0 <= c2 < num_chunks(v@) ==> s < (#[trigger] positions@[c2])@.len(),
            forall|c2: int|
                0 <= c2 < num_chunks(v@) ==> #[trigger] positions@[c2]@[s as int] == file_position(
                    spec_grid(v@),
                    mdat_base(v@),
                    c2,
                    s as int,
                ),
            c <= nc,
            starts@ == stream_starts(v@, s as int).take(c as int),
        decreases nc - c,
    {
        let p = positions[c][s];
        starts.push(p);
        c = c + 1;
        assert(starts@ =~= stream_starts(v@, s as int).take(c as int));
    }
    assert(stream_starts(v@, s as int).take(c as int) =~= stream_starts(v@, s as int));
    starts
}

/// The sample tables with their chunk offsets filled in from the positions
/// of the chunk files, where every offset fits in 64 bits (`None` otherwise).
fn fill_tables(
    tables: Vec<TrackSampleTable>,
    chunks: &Vec<Vec<ChunkParseResult>>,
    positions: &Vec<Vec<u64>>,
    v: Ghost<PlanView>,
) -> (r: Option<Vec<TrackSampleTable>>)
    requires
        plan_shape(v@),
        table_views(tables@) == v@.tables,
        chunks@.map_values(|cs: Vec<ChunkParseResult>| cs@.map_values(|c: ChunkParseResult| c@))
            == v@.chunks,
        positions@.len() == num_chunks(v@),
        forall|c: int| 0 <= c < num_chunks(v@) ==> (#[trigger] positions@[c])@.len() == num_streams(v@),
        forall|c: int, s: int|
            0 <= c < num_chunks(v@) && 0 <= s < num_streams(v@) ==> #[trigger] positions@[c]@[s]
                == file_position(spec_grid(v@), mdat_base(v@), c, s),
    ensures
        match r {
            Some(f) => table_views(f@) == Seq::new(
                num_streams(v@) as nat,
                |s: int| filled_table(v@, s),
            ) && forall|s: int|
                0 <= s < num_streams(v@) ==> offsets_computable(
                    #[trigger] v@.tables[s],
                    v@.chunks[s],
                    stream_starts(v@, s),
                ),
            None => exists|s: int|
                0 <= s < num_streams(v@) && !offsets_computable(
                    #[trigger] v@.tables[s],
                    v@.chunks[s],
                    stream_starts(v@, s),
                ),
        },
{
    let ns = chunks.len();
    let mut rest = tables;
    let mut filled: Vec<TrackSampleTable> = Vec::new();
    let mut s: usize = 0;
    while s < ns
        invariant
            plan_shape(v@),
            ns == num_streams(v@),
            chunks@.map_values(|cs: Vec<ChunkParseResult>| cs@.map_values(|c: ChunkParseResult| c@))
                == v@.chunks,
            positions@.len() == num_chunks(v@),
            forall|c: int| 0 <= c < num_chunks(v@) ==> (#[trigger] positions@[c])@.len() == num_streams(v@),
            forall|c: int, s2: int|
                0 <= c < num_chunks(v@) && 0 <= s2 < num_streams(v@) ==> #[trigger] positions@[c]@[s2]
                    == file_position(spec_grid(v@), mdat_base(v@), c, s2),
            s <= ns,
            table_views(rest@) == v@.tables.skip(s as int),
            filled@.len() == s,
            table_views(filled@) == Seq::new(s as nat, |j: int| filled_table(v@, j)),
            forall|j: int|
                0 <= j < s ==> offsets_computable(#[trigger] v@.tables[j], v@.chunks[j], stream_starts(v@, j)),
        decreases ns - s,
    {
        let ghost old_rest = rest@;
        assert(table_views(old_rest).len() == old_rest.len());
        assert(old_rest.len() == ns - s);
        assert(table_views(old_rest)[0] == v@.tables[s as int]);
        let mut st = rest.remove(0);
        assert forall|i: int| 0 <= i < rest@.len() implies #[trigger] table_views(rest@)[i]
            == v@.tables.skip(s + 1)[i] by {
            assert(rest@[i] == old_rest[i + 1]);
            assert(table_views(old_rest)[i + 1] == v@.tables.skip(s as int)[i + 1]);
        }
        assert(table_views(rest@) =~= v@.tables.skip(s + 1));
        let starts = stream_positions(positions, s, v);
        let cs = &chunks[s];
        assert(cs@.map_values(|c: ChunkParseResult| c@) == v@.chunks[s as int]);
        if !offsets_are_computable(&st, cs.as_slice(), starts.as_slice()) {
            return None;
        }
        fill_chunk_offsets(&mut st, cs.as_slice(), starts.as_slice());
        assert(st@.chunk_offsets =~= filled_table(v@, s as int).chunk_offsets);
        assert(st@ == filled_table(v@, s as int));
        let ghost before = filled@;
        let ghost stv = st@;
        filled.push(st);
        assert(filled@ == before.push(st));
        assert forall|j: int| 0 <= j < s + 1 implies #[trigger] table_views(filled@)[j] == filled_table(v@, j) by {
            if j < s {
                assert(filled@[j] == before[j]);
                assert(table_views(before)[j] == filled_table(v@, j));
            } else {
                assert(filled@[j]@ == stv);
            }
        }
        assert(table_views(filled@) =~= Seq::new((s + 1) as nat, |j: int| filled_table(v@, j)));
        s = s + 1;
    }
    Some(filled)
}

} // verus!

verus! {

/// The filled tables differ from the given ones only in their chunk offsets,
/// so the moov stays buildable and keeps its size.
proof fn lemma_filled_moov(v: PlanView)
    requires
        plan_shape(v),
        moov_computable(v.tracks, v.tables),
    ensures
        moov_computable(v.tracks, Seq::new(v.tracks.len(), |s: int| filled_table(v, s))),
        spec_moov(v.tracks, Seq::new(v.tracks.len(), |s: int| filled_table(v, s))).len()
            == spec_moov(v.tracks, v.tables).len(),
{
    let t2 = Seq::new(v.tracks.len(), |s: int| filled_table(v, s));
    assert forall|i: int| 0 <= i < v.tables.len() implies same_but_chunk_offsets(
        #[trigger] v.tables[i],
        t2[i],
    ) by {}
    lemma_moov_len_ignores_chunk_offsets(v.tracks, v.tables, t2);
    assert forall|i: int| 0 <= i < paired_count(v.tracks, t2) implies trak_computable(
        #[trigger] v.tracks[i],
        t2[i],
        v.tracks[0].timescale,
    ) by {
        assert(trak_computable(v.tracks[i], v.tables[i], v.tracks[0].timescale));
    }
}

/// Length of the central directory for `entries`, where it fits in 64 bits.
fn cd_len(entries: &Vec<ZipFileEntry>) -> (r: Option<u64>)
    ensures
        match r {
            Some(n) => n == spec_cd_bytes(entry_views(entries@)).len(),
            None => spec_cd_bytes(entry_views(entries@)).len() > u64::MAX,
        },
{
    let ghost ev = entry_views(entries@);
    let mut total: u64 = 0;
    let mut i: usize = 0;
    while i < entries.len()
        invariant
            ev == entry_views(entries@),
            i <= entries@.len(),
            total == spec_cd_bytes(ev.take(i as int)).len(),
        decreases entries@.len() - i,
    {
        proof {
            assert(ev.take(i + 1).drop_last() =~= ev.take(i as int));
            assert(ev.take(i + 1).last() == entries@[i as int]@);
            lemma_cd_entry_len(entries@[i as int]@);
        }
        let n = entries[i].filename.len() as u64;
        if n > u64::MAX - 74 || total > u64::MAX - 74 - n {
            proof {
                lemma_cd_len_prefix(ev, i + 1);
            }
            return None;
        }
        total = total + 74 + n;
        i = i + 1;
    }
    assert(ev.take(i as int) =~= ev);
    Some(total)
}

proof fn lemma_cd_len_prefix(ev: Seq<ZipEntryView>, k: int)
    requires
        0 <= k <= ev.len(),
    ensures
        spec_cd_bytes(ev.take(k)).len() <= spec_cd_bytes(ev).len(),
    decreases ev.len(),
{
    if k < ev.len() {
        assert(ev.drop_last().take(k) =~= ev.take(k));
        lemma_cd_len_prefix(ev.drop_last(), k);
    } else {
        assert(ev.take(k) =~= ev);
    }
}

} // verus!

verus! {

/// Adds the mdat entries of chunk index `c`: for each stream, the local
/// header and the chunk file.
fn emit_chunk_row(
    recipe: &mut Vec<RecipeChunk>,
    offset: &mut u64,
    entries: &mut Vec<ZipFileEntry>,
    chunk_data: &Vec<Vec<Vec<u8>>>,
    chunk_paths: &Vec<Vec<String>>,
    c: usize,
    v: Ghost<PlanView>,
) -> (ok: bool)
    requires
        chunk_data@.map_values(|ds: Vec<Vec<u8>>| byte_views(ds@)) == v@.chunk_data,
        chunk_paths@.map_values(|ps: Vec<String>| char_views(ps@)) == v@.chunk_paths,
        plan_shape(v@),
        c < num_chunks(v@),
        at_progress(old(recipe)@, *old(offset), old(entries)@, chunk_progress(v@, c as int, 0)),
    ensures
        ok ==> at_progress(
            final(recipe)@,
            *final(offset),
            final(entries)@,
            chunk_progress(v@, c + 1, 0),
        ),
        !ok ==> pieces_len(chunk_progress(v@, c + 1, 0).pieces) > usize::MAX,
{
    let ns = chunk_data.len();
    let mut s: usize = 0;
    while s < ns
        invariant
            chunk_data@.map_values(|ds: Vec<Vec<u8>>| byte_views(ds@)) == v@.chunk_data,
            chunk_paths@.map_values(|ps: Vec<String>| char_views(ps@)) == v@.chunk_paths,
            plan_shape(v@),
            ns == num_streams(v@),
            c < num_chunks(v@),
            s <= ns,
            at_progress(recipe@, *offset, entries@, chunk_progress(v@, c as int, s as int)),
        decreases ns - s,
    {
        let name = chunk_name_bytes(s, c);
        assert(v@.chunk_data[s as int] == byte_views(chunk_data@[s as int]@));
        assert(v@.chunk_paths[s as int] == char_views(chunk_paths@[s as int]@));
        let data = chunk_data[s][c].as_slice();
        assert(data@ == v@.chunk_data[s as int][c as int]);
        let path = chunk_paths[s][c].clone();
        assert(path@ == v@.chunk_paths[s as int][c as int]);
        let ghost before = chunk_progress(v@, c as int, s as int);
        let ghost name_v = name@;
        let ghost path_v = path@;
        if !emit_stored(recipe, offset, entries, name, data, path, Ghost(before)) {
            proof {
                assert(chunk_progress(v@, c as int, s + 1) == stored_step(before, name_v, data@, path_v));
                lemma_row_mono(v@, c as int, s + 1);
                assert(chunk_progress(v@, c + 1, 0) == chunk_progress(v@, c as int, ns as int));
            }
            return false;
        }
        assert(chunk_progress(v@, c as int, s + 1) == chunk_step(v@, before, s as int, c as int));
        s = s + 1;
    }
    assert(chunk_progress(v@, c + 1, 0) == chunk_progress(v@, c as int, ns as int));
    true
}

/// Builds the recipe of the hybrid MP4 that is also a ZIP archive: ftyp,
/// moov (with chunk offsets pointing at the samples inside the embedded
/// chunk files), mdat with a stored ZIP entry per chunk file, then the
/// deflated playlists, the stored init segments and the ZIP directory, the
/// last three in free boxes. `None` exactly where one of the conditions of
/// `plan_fits` fails: a paired bandwidth overflows, the moov cannot be built,
/// a chunk offset does not fit in 64 bits, or the described file does not
/// fit in memory.
pub fn assemble_recipe(inp: PlanInput) -> (r: Option<Vec<RecipeChunk>>)
    requires
        plan_shape(inp@),
    ensures
        r matches Some(chunks) ==> recipe_matches(recipe_views(chunks@), spec_recipe_pieces(inp@)),
        r is Some <==> plan_fits(inp@),
{
    let ghost v = inp@;
    let ns = inp.tracks.len();
    let nc = inp.chunk_data[0].len();
    assert(ns == num_streams(v) && nc == num_chunks(v));
    let ghost total = pieces_len(spec_recipe_pieces(v));
    proof {
        lemma_stages_bounded(v);
        lemma_rows_mono(v, 0);
        lemma_pieces_len_nonneg(head_progress(v).pieces);
        reveal(plan_fits);
    }

    // ===== Layout =====
    let master = match master_playlist_of(&inp) {
        Some(m) => m,
        None => return None,
    };
    let grid = build_grid(&inp);
    proof {
        lemma_chunk_stage_len(v);
    }
    let moov0 = match try_generate_hybrid_moov(inp.tracks.as_slice(), inp.tables.as_slice()) {
        Some(m) => m,
        None => return None,
    };
    proof {
        lemma_filled_moov(v);
        lemma_head_len(v);
    }
    let payload = match try_entries_total(&grid, 0) {
        Some(t) => t,
        None => return None,
    };
    if payload > u64::MAX - 16 {
        return None;
    }
    let mdat_header = make_mdat_header(payload);
    let ftyp = generate_ftyp();
    let moov_len = moov0.len() as u64;
    let header_len = mdat_header.len() as u64;
    if moov_len > u64::MAX - 28 - header_len {
        return None;
    }
    let base = 28 + moov_len + header_len;
    assert(base == mdat_base(v));
    assert(base == pieces_len(head_progress(v).pieces));
    if try_entries_total(&grid, base).is_none() {
        return None;
    }
    let positions = file_positions(&grid, base);
    assert(positions@.len() == num_chunks(v)) by {
        reveal(spec_grid);
    }
    assert forall|c: int| 0 <= c < num_chunks(v) implies (#[trigger] positions@[c])@.len()
        == num_streams(v) by {
        reveal(spec_grid);
        assert(grid@[c]@ == grid_rows(grid@)[c]);
    }

    let PlanInput {
        tracks,
        tables,
        chunks,
        chunk_data,
        chunk_paths,
        init_data,
        init_paths,
        codecs: _,
        bandwidths: _,
        media_playlists,
    } = inp;
    let filled = match fill_tables(tables, &chunks, &positions, Ghost(v)) {
        Some(f) => f,
        None => return None,
    };
    let moov = generate_hybrid_moov(tracks.as_slice(), filled.as_slice());
    assert(moov@ == final_moov(v));

    // ===== ftyp, moov, mdat header =====
    let mut recipe: Vec<RecipeChunk> = Vec::new();
    let mut offset: u64 = 0;
    let mut entries: Vec<ZipFileEntry> = Vec::new();
    let ghost p0 = Seq::<PieceView>::empty();
    assert(recipe_matches(recipe_views(recipe@), p0));
    let ghost p1 = p0.push(data_piece(ftyp@));
    let ghost p2 = p1.push(data_piece(moov@));
    let ghost p3 = p2.push(data_piece(mdat_header@));
    assert(p3 =~= head_progress(v).pieces);
    proof {
        lemma_push_grows(p0, data_piece(ftyp@));
        lemma_push_grows(p1, data_piece(moov@));
        lemma_push_grows(p2, data_piece(mdat_header@));
    }
    if !emit_data(&mut recipe, &mut offset, ftyp, Ghost(p0)) {
        return None;
    }
    if !emit_data(&mut recipe, &mut offset, moov, Ghost(p1)) {
        return None;
    }
    if !emit_data(&mut recipe, &mut offset, mdat_header, Ghost(p2)) {
        return None;
    }
    assert(entry_views(entries@) =~= Seq::<ZipEntryView>::empty());
    assert(at_progress(recipe@, offset, entries@, chunk_progress(v, 0, 0)));

    // ===== mdat content: zip local headers + chunk files =====
    let mut c: usize = 0;
    while c < nc
        invariant
            chunk_data@.map_values(|ds: Vec<Vec<u8>>| byte_views(ds@)) == v.chunk_data,
            chunk_paths@.map_values(|ps: Vec<String>| char_views(ps@)) == v.chunk_paths,
            plan_shape(v),
            ns == num_streams(v),
            nc == num_chunks(v),
            c <= nc,
            at_progress(recipe@, offset, entries@, chunk_progress(v, c as int, 0)),
            pieces_len(chunk_progress(v, num_chunks(v), 0).pieces) <= total,
            plan_fits(v) ==> total <= usize::MAX,
            v == inp@,
        decreases nc - c,
    {
        if !emit_chunk_row(&mut recipe, &mut offset, &mut entries, &chunk_data, &chunk_paths, c, Ghost(v)) {
            proof {
                lemma_rows_mono(v, c + 1);
            }
            return None;
        }
        c = c + 1;
    }

    // ===== playlists =====
    if !emit_zipped(
        &mut recipe,
        &mut offset,
        &mut entries,
        master_playlist_name_bytes(),
        master.as_slice(),
        Ghost(chunk_progress(v, nc as int, 0)),
    ) {
        return None;
    }
    let mut s: usize = 0;
    while s < ns
        invariant
            v == (PlanView { media_playlists: byte_views(media_playlists@), ..v }),
            plan_shape(v),
            ns == num_streams(v),
            s <= ns,
            at_progress(recipe@, offset, entries@, media_progress(v, s as int)),
            pieces_len(media_progress(v, num_streams(v)).pieces) <= total,
            plan_fits(v) ==> total <= usize::MAX,
            v == inp@,
        decreases ns - s,
    {
        let playlist = media_playlists[s].as_slice();
        assert(playlist@ == v.media_playlists[s as int]);
        if !emit_zipped(
            &mut recipe,
            &mut offset,
            &mut entries,
            media_playlist_name_bytes(s),
            playlist,
            Ghost(media_progress(v, s as int)),
        ) {
            proof {
                lemma_media_mono(v, s + 1);
            }
            return None;
        }
        s = s + 1;
    }

    // ===== init segments =====
    let mut s: usize = 0;
    while s < ns
        invariant
            v == (PlanView {
                init_data: byte_views(init_data@),
                init_paths: char_views(init_paths@),
                ..v
            }),
            plan_shape(v),
            ns == num_streams(v),
            s <= ns,
            at_progress(recipe@, offset, entries@, init_progress(v, s as int)),
            pieces_len(init_progress(v, num_streams(v)).pieces) + 106 <= total,
            plan_fits(v) ==> total <= usize::MAX,
            v == inp@,
        decreases ns - s,
    {
        let data = init_data[s].as_slice();
        assert(data@ == v.init_data[s as int]);
        let path = init_paths[s].clone();
        assert(path@ == v.init_paths[s as int]);
        if !emit_boxed(
            &mut recipe,
            &mut offset,
            &mut entries,
            init_name_bytes(s),
            data,
            path,
            Ghost(init_progress(v, s as int)),
        ) {
            proof {
                lemma_init_mono(v, s + 1);
            }
            return None;
        }
        s = s + 1;
    }

    // ===== ZIP central directory and end records, in a free box =====
    let ghost last = init_progress(v, ns as int);
    proof {
        let records = spec_end_records(last.entries, pieces_len(last.pieces) + 8);
        lemma_end_records_len(last.entries, pieces_len(last.pieces) + 8);
        lemma_push_grows(last.pieces, data_piece(spec_free_header(records.len() as int) + records));
    }
    if offset > u64::MAX - 8 {
        return None;
    }
    let cd_offset = offset + 8;
    let cd_size = match cd_len(&entries) {
        Some(n) => n,
        None => return None,
    };
    if cd_size > u64::MAX - cd_offset {
        return None;
    }
    let records = make_end_records(entries.as_slice(), cd_offset);
    let mut tail: Vec<u8> = Vec::new();
    let free = make_free_header(records.len());
    write_bytes(&mut tail, &free);
    write_bytes(&mut tail, records.as_slice());
    if !emit_data(&mut recipe, &mut offset, tail, Ghost(last.pieces)) {
        return None;
    }
    // The described file must be addressable where it is served.
    if offset > usize::MAX as u64 {
        return None;
    }
    proof {
        reveal(plan_fits);
    }
    Some(recipe)
}

} // verus!

verus! {

// ===== Where the pieces fall =====

pub(crate) proof fn lemma_stored_header_len(name: Seq<u8>, d: Seq<u8>)
    ensures
        stored_header(name, d).len() == 50 + name.len(),
{
    lemma_local_file_header_len(name, crc32(d), 0, d.len() as u64, d.len() as u64);
}

/// Every chunk file's length fits in a `usize`.
pub open spec fn data_lens_fit(v: PlanView) -> bool {
    forall|s: int, c: int|
        0 <= s < num_streams(v) && 0 <= c < num_chunks(v) ==> (#[trigger] v.chunk_data[s][c]).len()
            <= usize::MAX
}

/// The shape and entries of the grid.
proof fn lemma_grid_entry(v: PlanView, c: int, s: int)
    requires
        plan_shape(v),
        data_lens_fit(v),
        0 <= c < num_chunks(v),
        0 <= s < num_streams(v),
        num_chunks(v) < 0x1_0000_0000_0000_0000,
        num_streams(v) < 0x1_0000_0000_0000_0000,
    ensures
        spec_grid(v).len() == num_chunks(v),
        spec_grid(v)[c].len() == num_streams(v),
        spec_grid(v)[c][s].0 == 50 + spec_entry_name_chunk(s as nat, c as nat).len(),
        spec_grid(v)[c][s].1 == v.chunk_data[s][c].len(),
{
    reveal(spec_grid);
    lemma_name_fits(s, c);
    assert(v.chunk_data[s].len() == num_chunks(v));
}

/// The length of the pieces after one chunk entry: its header and its file.
proof fn lemma_chunk_step_len(v: PlanView, p: Progress, s: int, c: int)
    ensures
        pieces_len(chunk_step(v, p, s, c).pieces) == pieces_len(p.pieces) + 50
            + spec_entry_name_chunk(s as nat, c as nat).len() + v.chunk_data[s][c].len(),
{
    let name = spec_entry_name_chunk(s as nat, c as nat);
    let d = v.chunk_data[s][c];
    lemma_stored_header_len(name, d);
    let q = p.pieces.push(data_piece(stored_header(name, d)));
    assert(q.drop_last() =~= p.pieces);
    assert(q.push(file_piece(v.chunk_paths[s][c], d)).drop_last() =~= q);
    assert(chunk_step(v, p, s, c).pieces == q.push(file_piece(v.chunk_paths[s][c], d)));
    assert(pieces_len(q) == pieces_len(p.pieces) + stored_header(name, d).len());
    assert(pieces_len(q.push(file_piece(v.chunk_paths[s][c], d))) == pieces_len(q) + d.len());
}

/// Before chunk file `c` of stream `s`, the pieces end where the grid says:
/// after the head, the rows before `c` and the first `s` entries of row `c`.
proof fn lemma_chunk_progress_len(v: PlanView, c: int, s: int)
    requires
        plan_shape(v),
        data_lens_fit(v),
        num_chunks(v) < 0x1_0000_0000_0000_0000,
        num_streams(v) < 0x1_0000_0000_0000_0000,
        0 <= c < num_chunks(v),
        0 <= s <= num_streams(v),
    ensures
        pieces_len(chunk_progress(v, c, s).pieces) == pieces_len(head_progress(v).pieces)
            + rows_total(spec_grid(v).take(c)) + row_total(spec_grid(v)[c].take(s)),
    decreases c, s,
{
    let g = spec_grid(v);
    if s == 0 {
        assert(g[c].take(0) =~= Seq::<(u64, u64)>::empty());
        if c == 0 {
            assert(g.take(0) =~= Seq::<Seq<(u64, u64)>>::empty());
        } else {
            lemma_chunk_progress_len(v, c - 1, num_streams(v));
            lemma_grid_entry(v, c - 1, 0);
            assert(g.take(c).drop_last() =~= g.take(c - 1));
            assert(g[c - 1].take(num_streams(v)) =~= g[c - 1]);
        }
    } else {
        lemma_chunk_progress_len(v, c, s - 1);
        lemma_chunk_step_len(v, chunk_progress(v, c, s - 1), s - 1, c);
        lemma_grid_entry(v, c, s - 1);
        assert(g[c].take(s).drop_last() =~= g[c].take(s - 1));
    }
}

pub(crate) proof fn lemma_name_fits(s: int, c: int)
    requires
        0 <= s < 0x1_0000_0000_0000_0000,
        0 <= c < 0x1_0000_0000_0000_0000,
    ensures
        spec_entry_name_chunk(s as nat, c as nat).len() <= 66,
{
    lemma_decimal_len_bound(s as nat);
    lemma_decimal_len_bound(c as nat);
    reveal_strlit("streams.");
    reveal_strlit("/chunks/chunk.");
    reveal_strlit(".m4s");
}

} // verus!

verus! {

// ===== Every stage ends before the whole =====

pub(crate) proof fn lemma_push_grows(p: Seq<PieceView>, x: PieceView)
    ensures
        pieces_len(p.push(x)) == pieces_len(p) + x.bytes.len(),
        pieces_len(p.push(x)) >= pieces_len(p),
{
    assert(p.push(x).drop_last() =~= p);
}

proof fn lemma_row_mono(v: PlanView, c: int, s: int)
    requires
        0 <= c,
        0 <= s <= num_streams(v),
    ensures
        pieces_len(chunk_progress(v, c, s).pieces) <= pieces_len(
            chunk_progress(v, c, num_streams(v)).pieces,
        ),
    decreases num_streams(v) - s,
{
    if s < num_streams(v) {
        let p = chunk_progress(v, c, s);
        let name = spec_entry_name_chunk(s as nat, c as nat);
        let d = v.chunk_data[s][c];
        let q = p.pieces.push(data_piece(stored_header(name, d)));
        lemma_push_grows(p.pieces, data_piece(stored_header(name, d)));
        lemma_push_grows(q, file_piece(v.chunk_paths[s][c], d));
        assert(chunk_progress(v, c, s + 1).pieces == q.push(file_piece(v.chunk_paths[s][c], d)));
        lemma_row_mono(v, c, s + 1);
    }
}

proof fn lemma_rows_mono(v: PlanView, c: int)
    requires
        0 <= c <= num_chunks(v),
    ensures
        pieces_len(chunk_progress(v, c, 0).pieces) <= pieces_len(
            chunk_progress(v, num_chunks(v), 0).pieces,
        ),
    decreases num_chunks(v) - c,
{
    if c < num_chunks(v) {
        lemma_row_mono(v, c, 0);
        assert(chunk_progress(v, c + 1, 0) == chunk_progress(v, c, num_streams(v)));
        lemma_rows_mono(v, c + 1);
    }
}

proof fn lemma_zipped_grows(p: Progress, name: Seq<u8>, payload: Seq<u8>)
    ensures
        pieces_len(zipped_step(p, name, payload).pieces) >= pieces_len(p.pieces),
{
    let z = deflate_best(payload);
    let hdr = spec_local_file_header(name, crc32(payload), 8, z.len() as u64, payload.len() as u64);
    lemma_push_grows(p.pieces, data_piece(spec_free_header((hdr.len() + z.len()) as int) + hdr + z));
}

proof fn lemma_media_mono(v: PlanView, k: int)
    requires
        0 <= k <= num_streams(v),
    ensures
        pieces_len(media_progress(v, k).pieces) <= pieces_len(
            media_progress(v, num_streams(v)).pieces,
        ),
    decreases num_streams(v) - k,
{
    if k < num_streams(v) {
        lemma_zipped_grows(media_progress(v, k), spec_media_playlist_name(k as nat), v.media_playlists[k]);
        lemma_media_mono(v, k + 1);
    }
}

proof fn lemma_init_mono(v: PlanView, k: int)
    requires
        0 <= k <= num_streams(v),
    ensures
        pieces_len(init_progress(v, k).pieces) <= pieces_len(
            init_progress(v, num_streams(v)).pieces,
        ),
    decreases num_streams(v) - k,
{
    if k < num_streams(v) {
        let p = init_progress(v, k);
        let name = spec_entry_name_init(k as nat);
        let d = v.init_data[k];
        let hdr = stored_header(name, d);
        let x = data_piece(spec_free_header((hdr.len() + d.len()) as int) + hdr);
        lemma_push_grows(p.pieces, x);
        lemma_push_grows(p.pieces.push(x), file_piece(v.init_paths[k], d));
        lemma_init_mono(v, k + 1);
    }
}

/// Each stage's pieces end no later than the whole described file.
proof fn lemma_stages_bounded(v: PlanView)
    requires
        plan_shape(v),
    ensures
        pieces_len(chunk_progress(v, num_chunks(v), 0).pieces) <= pieces_len(master_progress(v).pieces),
        pieces_len(master_progress(v).pieces) <= pieces_len(media_progress(v, num_streams(v)).pieces),
        pieces_len(media_progress(v, num_streams(v)).pieces) <= pieces_len(
            init_progress(v, num_streams(v)).pieces,
        ),
        pieces_len(init_progress(v, num_streams(v)).pieces) + 8 + 98 <= pieces_len(
            spec_recipe_pieces(v),
        ),
{
    lemma_zipped_grows(
        chunk_progress(v, num_chunks(v), 0),
        spec_master_playlist_name(),
        spec_master_playlist(stream_infos(v)),
    );
    lemma_media_mono(v, 0);
    lemma_init_mono(v, 0);
    let p = init_progress(v, num_streams(v));
    let records = spec_end_records(p.entries, pieces_len(p.pieces) + 8);
    lemma_push_grows(p.pieces, data_piece(spec_free_header(records.len() as int) + records));
    lemma_end_records_len(p.entries, pieces_len(p.pieces) + 8);
}

pub(crate) proof fn lemma_end_records_len(entries: Seq<ZipEntryView>, cd_offset: int)
    ensures
        spec_end_records(entries, cd_offset).len() == spec_cd_bytes(entries).len() + 98,
{
    reveal(spec_end_records);
    let cd = spec_cd_bytes(entries);
    lemma_end_record_lengths(entries.len() as int, cd.len() as int, cd_offset);
}

/// What the recipe can be built from: the paired bandwidths, the moov and
/// every chunk offset fit, and the described file fits in memory.
#[verifier::opaque]
pub open spec fn plan_fits(v: PlanView) -> bool {
    &&& bandwidths_fit(stream_infos(v))
    &&& moov_computable(v.tracks, v.tables)
    &&& forall|s: int|
        0 <= s < num_streams(v) ==> offsets_computable(
            #[trigger] v.tables[s],
            v.chunks[s],
            stream_starts(v, s),
        )
    &&& pieces_len(spec_recipe_pieces(v)) <= usize::MAX
}

/// The mdat entries end where the grid says: after the head, all rows.
proof fn lemma_chunk_stage_len(v: PlanView)
    requires
        plan_shape(v),
        data_lens_fit(v),
        num_chunks(v) < 0x1_0000_0000_0000_0000,
        num_streams(v) < 0x1_0000_0000_0000_0000,
    ensures
        pieces_len(chunk_progress(v, num_chunks(v), 0).pieces) == pieces_len(
            head_progress(v).pieces,
        ) + rows_total(spec_grid(v)),
{
    let nc = num_chunks(v);
    let g = spec_grid(v);
    if nc == 0 {
        assert(g =~= Seq::<Seq<(u64, u64)>>::empty()) by {
            reveal(spec_grid);
        }
    } else {
        lemma_chunk_progress_len(v, nc - 1, num_streams(v));
        lemma_grid_entry(v, nc - 1, 0);
        assert(g.take(nc) =~= g);
        assert(g.take(nc).drop_last() =~= g.take(nc - 1));
        assert(g[nc - 1].take(num_streams(v)) =~= g[nc - 1]);
        assert(chunk_progress(v, nc, 0) == chunk_progress(v, nc - 1, num_streams(v)));
    }
}

proof fn lemma_head_len(v: PlanView)
    ensures
        pieces_len(head_progress(v).pieces) == spec_ftyp().len() + final_moov(v).len()
            + spec_mdat_header(mdat_payload(v)).len(),
{
    let e = Seq::<PieceView>::empty();
    let a = data_piece(spec_ftyp());
    let b = data_piece(final_moov(v));
    let c = data_piece(spec_mdat_header(mdat_payload(v)));
    lemma_push_grows(e, a);
    lemma_push_grows(e.push(a), b);
    lemma_push_grows(e.push(a).push(b), c);
    assert(head_progress(v).pieces =~= e.push(a).push(b).push(c));
}

} // verus!

verus! {

// ===== Where the embedded chunk files land =====

/// `a` is the start of `b`.
pub open spec fn is_prefix(a: Seq<PieceView>, b: Seq<PieceView>) -> bool {
    a.len() <= b.len() && b.take(a.len() as int) == a
}

proof fn lemma_prefix_push(a: Seq<PieceView>, b: Seq<PieceView>, x: PieceView)
    requires
        is_prefix(a, b),
    ensures
        is_prefix(a, b.push(x)),
{
    assert(b.push(x).take(a.len() as int) =~= b.take(a.len() as int));
}

proof fn lemma_prefix_trans(a: Seq<PieceView>, b: Seq<PieceView>, c: Seq<PieceView>)
    requires
        is_prefix(a, b),
        is_prefix(b, c),
    ensures
        is_prefix(a, c),
{
    assert(c.take(a.len() as int) =~= c.take(b.len() as int).take(a.len() as int));
}

proof fn lemma_prefix_refl(a: Seq<PieceView>)
    ensures
        is_prefix(a, a),
{
    assert(a.take(a.len() as int) =~= a);
}

proof fn lemma_row_prefix(v: PlanView, c: int, s: int)
    requires
        0 <= c,
        0 <= s <= num_streams(v),
    ensures
        is_prefix(chunk_progress(v, c, s).pieces, chunk_progress(v, c, num_streams(v)).pieces),
    decreases num_streams(v) - s,
{
    if s < num_streams(v) {
        lemma_row_prefix(v, c, s + 1);
        let p = chunk_progress(v, c, s).pieces;
        let name = spec_entry_name_chunk(s as nat, c as nat);
        let d = v.chunk_data[s][c];
        let q = p.push(data_piece(stored_header(name, d)));
        lemma_prefix_refl(p);
        lemma_prefix_push(p, p, data_piece(stored_header(name, d)));
        lemma_prefix_push(p, q, file_piece(v.chunk_paths[s][c], d));
        assert(chunk_progress(v, c, s + 1).pieces == q.push(file_piece(v.chunk_paths[s][c], d)));
        lemma_prefix_trans(p, chunk_progress(v, c, s + 1).pieces, chunk_progress(v, c, num_streams(v)).pieces);
    } else {
        lemma_prefix_refl(chunk_progress(v, c, s).pieces);
    }
}

proof fn lemma_rows_prefix(v: PlanView, c: int)
    requires
        0 <= c <= num_chunks(v),
    ensures
        is_prefix(chunk_progress(v, c, 0).pieces, chunk_progress(v, num_chunks(v), 0).pieces),
    decreases num_chunks(v) - c,
{
    if c < num_chunks(v) {
        lemma_row_prefix(v, c, 0);
        assert(chunk_progress(v, c + 1, 0) == chunk_progress(v, c, num_streams(v)));
        lemma_rows_prefix(v, c + 1);
        lemma_prefix_trans(
            chunk_progress(v, c, 0).pieces,
            chunk_progress(v, c + 1, 0).pieces,
            chunk_progress(v, num_chunks(v), 0).pieces,
        );
    } else {
        lemma_prefix_refl(chunk_progress(v, c, 0).pieces);
    }
}

proof fn lemma_media_prefix(v: PlanView, k: int)
    requires
        0 <= k <= num_streams(v),
    ensures
        is_prefix(media_progress(v, k).pieces, media_progress(v, num_streams(v)).pieces),
    decreases num_streams(v) - k,
{
    lemma_prefix_refl(media_progress(v, k).pieces);
    if k < num_streams(v) {
        let p = media_progress(v, k);
        let name = spec_media_playlist_name(k as nat);
        let payload = v.media_playlists[k];
        let z = deflate_best(payload);
        let hdr = spec_local_file_header(name, crc32(payload), 8, z.len() as u64, payload.len() as u64);
        lemma_prefix_push(p.pieces, p.pieces, data_piece(spec_free_header((hdr.len() + z.len()) as int) + hdr + z));
        lemma_media_prefix(v, k + 1);
        lemma_prefix_trans(p.pieces, media_progress(v, k + 1).pieces, media_progress(v, num_streams(v)).pieces);
    }
}

proof fn lemma_init_prefix(v: PlanView, k: int)
    requires
        0 <= k <= num_streams(v),
    ensures
        is_prefix(init_progress(v, k).pieces, init_progress(v, num_streams(v)).pieces),
    decreases num_streams(v) - k,
{
    lemma_prefix_refl(init_progress(v, k).pieces);
    if k < num_streams(v) {
        let p = init_progress(v, k);
        let name = spec_entry_name_init(k as nat);
        let d = v.init_data[k];
        let hdr = stored_header(name, d);
        let x = data_piece(spec_free_header((hdr.len() + d.len()) as int) + hdr);
        lemma_prefix_push(p.pieces, p.pieces, x);
        lemma_prefix_push(p.pieces, p.pieces.push(x), file_piece(v.init_paths[k], d));
        lemma_init_prefix(v, k + 1);
        lemma_prefix_trans(p.pieces, init_progress(v, k + 1).pieces, init_progress(v, num_streams(v)).pieces);
    }
}

/// The mdat entries are the start of the whole described file.
proof fn lemma_chunk_stage_prefix(v: PlanView, c: int)
    requires
        0 <= c <= num_chunks(v),
    ensures
        is_prefix(chunk_progress(v, c, 0).pieces, spec_recipe_pieces(v)),
{
    lemma_rows_prefix(v, c);
    let m = chunk_progress(v, num_chunks(v), 0);
    let pl = spec_master_playlist(stream_infos(v));
    let z = deflate_best(pl);
    let hdr = spec_local_file_header(spec_master_playlist_name(), crc32(pl), 8, z.len() as u64, pl.len() as u64);
    lemma_prefix_refl(m.pieces);
    lemma_prefix_push(m.pieces, m.pieces, data_piece(spec_free_header((hdr.len() + z.len()) as int) + hdr + z));
    lemma_media_prefix(v, 0);
    lemma_init_prefix(v, 0);
    let last = init_progress(v, num_streams(v));
    let records = spec_end_records(last.entries, pieces_len(last.pieces) + 8);
    lemma_prefix_refl(last.pieces);
    lemma_prefix_push(last.pieces, last.pieces, data_piece(spec_free_header(records.len() as int) + records));
    lemma_prefix_trans(chunk_progress(v, c, 0).pieces, m.pieces, master_progress(v).pieces);
    lemma_prefix_trans(chunk_progress(v, c, 0).pieces, master_progress(v).pieces, media_progress(v, num_streams(v)).pieces);
    lemma_prefix_trans(chunk_progress(v, c, 0).pieces, init_progress(v, 0).pieces, last.pieces);
    lemma_prefix_trans(chunk_progress(v, c, 0).pieces, last.pieces, spec_recipe_pieces(v));
}

/// Law: chunk file `c` of stream `s` is embedded unchanged in the described
/// file, as a piece taken from its path, right after its ZIP local header,
/// and it starts exactly where the sample table's chunk offsets assume it
/// does (`stream_starts`, from which `filled_table` computes them).
#[verifier::rlimit(60)]
pub proof fn lemma_chunk_file_placed(v: PlanView, c: int, s: int)
    requires
        plan_shape(v),
        data_lens_fit(v),
        moov_computable(v.tracks, v.tables),
        num_chunks(v) < 0x1_0000_0000_0000_0000,
        num_streams(v) < 0x1_0000_0000_0000_0000,
        0 <= c < num_chunks(v),
        0 <= s < num_streams(v),
        pieces_len(spec_recipe_pieces(v)) <= u64::MAX,
    ensures
        ({
            let pieces = spec_recipe_pieces(v);
            let k = chunk_progress(v, c, s).pieces.len() + 1int;
            &&& 0 < k < pieces.len()
            &&& pieces[k - 1] == data_piece(
                stored_header(spec_entry_name_chunk(s as nat, c as nat), v.chunk_data[s][c]),
            )
            &&& pieces[k] == file_piece(v.chunk_paths[s][c], v.chunk_data[s][c])
            &&& pieces_len(pieces.take(k)) == file_position(spec_grid(v), mdat_base(v), c, s)
            &&& stream_starts(v, s)[c] == file_position(spec_grid(v), mdat_base(v), c, s)
        }),
{
    let pieces = spec_recipe_pieces(v);
    let p = chunk_progress(v, c, s).pieces;
    let name = spec_entry_name_chunk(s as nat, c as nat);
    let d = v.chunk_data[s][c];
    let q = p.push(data_piece(stored_header(name, d)));
    let after = q.push(file_piece(v.chunk_paths[s][c], d));
    assert(chunk_progress(v, c, s + 1).pieces == after);
    lemma_row_prefix(v, c, s + 1);
    assert(chunk_progress(v, c + 1, 0) == chunk_progress(v, c, num_streams(v)));
    lemma_chunk_stage_prefix(v, c + 1);
    lemma_prefix_trans(after, chunk_progress(v, c + 1, 0).pieces, pieces);
    let k = p.len() + 1int;
    assert(pieces.take(after.len() as int) == after);
    assert(pieces[k - 1] == after[k - 1]);
    assert(pieces[k] == after[k]);
    assert(pieces.take(k) =~= q);
    lemma_push_grows(p, data_piece(stored_header(name, d)));
    lemma_chunk_progress_len(v, c, s);
    lemma_grid_entry(v, c, s);
    lemma_stored_header_len(name, d);
    lemma_filled_moov(v);
    lemma_head_len(v);
    assert(spec_grid(v)[c].take(s + 1).drop_last() =~= spec_grid(v)[c].take(s));
    lemma_pieces_prefix_lens(pieces);
    assert(stream_starts(v, s)[c] == file_position(spec_grid(v), mdat_base(v), c, s) as u64);
}

} // verus!
