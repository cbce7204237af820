// The described file read as a ZIP archive: every entry's local header stands
// where the central directory says, so a reader finds every entry in order.
use vstd::prelude::*;

use crate::ascii::lemma_decimal_len_bound;
use crate::cmd::validate::{
    entry_readable, holds_at, lemma_local_header_read_back, lemma_zip_directory_read_back,
    read_back_view, spec_read_zip_directory,
};
use crate::digest::{crc32, deflate_best};
use crate::mp4_box::spec_free_header;
use super::assemble::{
    boxed_step, chunk_progress, chunk_step, data_piece, file_piece, head_progress, init_progress,
    lemma_end_records_len, lemma_name_fits, lemma_push_grows, media_progress,
    num_chunks, num_streams, pieces_bytes, pieces_len, plan_shape, spec_recipe_entries,
    spec_recipe_pieces, stored_entry, stored_header, stored_step, stream_infos, zipped_step,
    PieceView, PlanView, Progress,
};
use super::hls::spec_master_playlist;
use super::zip::{
    lemma_local_file_header_len, spec_end_records, spec_entry_name_chunk,
    spec_entry_name_init, spec_local_file_header, spec_master_playlist_name, spec_media_playlist_name,
    ZipEntryView,
};

verus! {

/// The local header written for entry `e`.
pub open spec fn entry_header(e: ZipEntryView) -> Seq<u8> {
    spec_local_file_header(e.filename, e.crc32, e.compression_method, e.compressed_size, e.uncompressed_size)
}

/// Every entry's local header stands, as written, at its offset in `bytes`.
pub open spec fn headers_in_place(bytes: Seq<u8>, entries: Seq<ZipEntryView>) -> bool {
    forall|j: int|
        0 <= j < entries.len() ==> holds_at(
            bytes,
            (#[trigger] entries[j]).local_header_offset as int,
            entry_header(entries[j]),
        )
}

/// The pieces so far hold the local headers of the entries so far, whose
/// names are short, and there are no more entries than bytes.
pub open spec fn progress_ok(p: Progress) -> bool {
    &&& headers_in_place(pieces_bytes(p.pieces), p.entries)
    &&& forall|j: int| 0 <= j < p.entries.len() ==> (#[trigger] p.entries[j]).filename.len() <= 66
    &&& p.entries.len() <= pieces_len(p.pieces)
    &&& pieces_len(p.pieces) == pieces_bytes(p.pieces).len()
}

proof fn lemma_bytes_push(p: Seq<PieceView>, x: PieceView)
    ensures
        pieces_bytes(p.push(x)) == pieces_bytes(p) + x.bytes,
        pieces_len(p.push(x)) == pieces_len(p) + x.bytes.len(),
{
    assert(p.push(x).drop_last() =~= p);
}

proof fn lemma_headers_extend(b: Seq<u8>, t: Seq<u8>, entries: Seq<ZipEntryView>)
    requires
        headers_in_place(b, entries),
    ensures
        headers_in_place(b + t, entries),
{
    assert forall|j: int| 0 <= j < entries.len() implies holds_at(
        b + t,
        (#[trigger] entries[j]).local_header_offset as int,
        entry_header(entries[j]),
    ) by {
        let o = entries[j].local_header_offset as int;
        let w = entry_header(entries[j]);
        assert(holds_at(b, o, w));
        assert((b + t).subrange(o, o + w.len()) =~= b.subrange(o, o + w.len()));
    }
}

proof fn lemma_headers_push(b: Seq<u8>, entries: Seq<ZipEntryView>, e: ZipEntryView)
    requires
        headers_in_place(b, entries),
        holds_at(b, e.local_header_offset as int, entry_header(e)),
    ensures
        headers_in_place(b, entries.push(e)),
{
    assert forall|j: int| 0 <= j < entries.len() + 1 implies holds_at(
        b,
        (#[trigger] entries.push(e)[j]).local_header_offset as int,
        entry_header(entries.push(e)[j]),
    ) by {
        if j < entries.len() {
            assert(entries.push(e)[j] == entries[j]);
        }
    }
}

proof fn lemma_stored_ok(p: Progress, name: Seq<u8>, d: Seq<u8>, path: Seq<char>)
    requires
        progress_ok(p),
        name.len() <= 66,
        pieces_len(stored_step(p, name, d, path).pieces) <= u64::MAX,
    ensures
        progress_ok(stored_step(p, name, d, path)),
{
    let hdr = stored_header(name, d);
    let q = p.pieces.push(data_piece(hdr));
    lemma_bytes_push(p.pieces, data_piece(hdr));
    lemma_bytes_push(q, file_piece(path, d));
    lemma_local_file_header_len(name, crc32(d), 0, d.len() as u64, d.len() as u64);
    let b = pieces_bytes(p.pieces);
    let at = pieces_len(p.pieces);
    let e = stored_entry(name, d, at);
    assert(0 <= at);
    assert(e.local_header_offset == at);
    assert(entry_header(e) == hdr);
    let n = stored_step(p, name, d, path);
    assert(n.pieces == q.push(file_piece(path, d)));
    assert(pieces_bytes(n.pieces) == (b + hdr) + d);
    lemma_headers_extend(b, hdr, p.entries);
    lemma_headers_extend(b + hdr, d, p.entries);
    assert(((b + hdr) + d).subrange(at, at + hdr.len()) =~= hdr);
    lemma_headers_push((b + hdr) + d, p.entries, e);
    assert(n.entries == p.entries.push(e));
    assert forall|j: int| 0 <= j < n.entries.len() implies (#[trigger] n.entries[j]).filename.len() <= 66 by {
        if j < p.entries.len() {
            assert(n.entries[j] == p.entries[j]);
        }
    }
}

proof fn lemma_zipped_ok(p: Progress, name: Seq<u8>, payload: Seq<u8>)
    requires
        progress_ok(p),
        name.len() <= 66,
        pieces_len(zipped_step(p, name, payload).pieces) <= u64::MAX,
    ensures
        progress_ok(zipped_step(p, name, payload)),
{
    let z = deflate_best(payload);
    let hdr = spec_local_file_header(name, crc32(payload), 8, z.len() as u64, payload.len() as u64);
    let fh = spec_free_header((hdr.len() + z.len()) as int);
    let x = data_piece(fh + hdr + z);
    lemma_bytes_push(p.pieces, x);
    lemma_local_file_header_len(name, crc32(payload), 8, z.len() as u64, payload.len() as u64);
    let b = pieces_bytes(p.pieces);
    let at = pieces_len(p.pieces);
    let n = zipped_step(p, name, payload);
    let e = n.entries.last();
    assert(n.entries == p.entries.push(e));
    assert(0 <= at);
    assert(e.local_header_offset == at + 8);
    assert(entry_header(e) == hdr);
    assert(fh.len() == 8);
    assert(pieces_bytes(n.pieces) == b + (fh + hdr + z));
    lemma_headers_extend(b, fh + hdr + z, p.entries);
    assert((b + (fh + hdr + z)).subrange(at + 8, at + 8 + hdr.len()) =~= hdr);
    lemma_headers_push(b + (fh + hdr + z), p.entries, e);
    assert forall|j: int| 0 <= j < n.entries.len() implies (#[trigger] n.entries[j]).filename.len() <= 66 by {
        if j < p.entries.len() {
            assert(n.entries[j] == p.entries[j]);
        }
    }
}

proof fn lemma_boxed_ok(p: Progress, name: Seq<u8>, d: Seq<u8>, path: Seq<char>)
    requires
        progress_ok(p),
        name.len() <= 66,
        pieces_len(boxed_step(p, name, d, path).pieces) <= u64::MAX,
    ensures
        progress_ok(boxed_step(p, name, d, path)),
{
    let hdr = stored_header(name, d);
    let fh = spec_free_header((hdr.len() + d.len()) as int);
    let x = data_piece(fh + hdr);
    let q = p.pieces.push(x);
    lemma_bytes_push(p.pieces, x);
    lemma_bytes_push(q, file_piece(path, d));
    lemma_local_file_header_len(name, crc32(d), 0, d.len() as u64, d.len() as u64);
    let b = pieces_bytes(p.pieces);
    let at = pieces_len(p.pieces);
    let e = stored_entry(name, d, at + 8);
    let n = boxed_step(p, name, d, path);
    assert(n.entries == p.entries.push(e));
    assert(n.pieces == q.push(file_piece(path, d)));
    assert(0 <= at);
    assert(fh.len() == 8);
    assert(e.local_header_offset == at + 8);
    assert(entry_header(e) == hdr);
    assert(pieces_bytes(n.pieces) == (b + (fh + hdr)) + d);
    lemma_headers_extend(b, fh + hdr, p.entries);
    lemma_headers_extend(b + (fh + hdr), d, p.entries);
    assert(((b + (fh + hdr)) + d).subrange(at + 8, at + 8 + hdr.len()) =~= hdr);
    lemma_headers_push((b + (fh + hdr)) + d, p.entries, e);
    assert forall|j: int| 0 <= j < n.entries.len() implies (#[trigger] n.entries[j]).filename.len() <= 66 by {
        if j < p.entries.len() {
            assert(n.entries[j] == p.entries[j]);
        }
    }
}

proof fn lemma_short_names(s: int)
    requires
        0 <= s < 0x1_0000_0000_0000_0000,
    ensures
        spec_entry_name_init(s as nat).len() <= 66,
        spec_media_playlist_name(s as nat).len() <= 66,
        spec_master_playlist_name().len() <= 66,
{
    lemma_decimal_len_bound(s as nat);
    reveal_strlit("streams.");
    reveal_strlit("/init.m4s");
    reveal_strlit("/generated.m3u8");
    reveal_strlit("generated.m3u8");
}

proof fn lemma_head_ok(v: PlanView)
    ensures
        progress_ok(head_progress(v)),
{
    let e = Seq::<PieceView>::empty();
    let p = head_progress(v).pieces;
    lemma_bytes_push(p.take(0), p[0]);
    lemma_bytes_push(p.take(1), p[1]);
    lemma_bytes_push(p.take(2), p[2]);
    assert(p.take(0) =~= e);
    assert(p.take(0).push(p[0]) =~= p.take(1));
    assert(p.take(1).push(p[1]) =~= p.take(2));
    assert(p.take(2).push(p[2]) =~= p);
}

proof fn lemma_chunks_ok(v: PlanView, c: int, s: int)
    requires
        plan_shape(v),
        0 <= c,
        0 <= s <= num_streams(v),
        num_chunks(v) < 0x1_0000_0000_0000_0000,
        num_streams(v) < 0x1_0000_0000_0000_0000,
        c < num_chunks(v) || (c == num_chunks(v) && s == 0),
        pieces_len(chunk_progress(v, c, s).pieces) <= u64::MAX,
    ensures
        progress_ok(chunk_progress(v, c, s)),
    decreases c, s,
{
    if c <= 0 && s <= 0 {
        lemma_head_ok(v);
    } else if s <= 0 {
        assert(chunk_progress(v, c, s) == chunk_progress(v, c - 1, num_streams(v)));
        lemma_chunks_ok(v, c - 1, num_streams(v));
    } else {
        let prev = chunk_progress(v, c, s - 1);
        let name = spec_entry_name_chunk((s - 1) as nat, c as nat);
        let d = v.chunk_data[s - 1][c];
        let hdr = stored_header(name, d);
        lemma_push_grows(prev.pieces, data_piece(hdr));
        lemma_push_grows(prev.pieces.push(data_piece(hdr)), file_piece(v.chunk_paths[s - 1][c], d));
        assert(chunk_progress(v, c, s) == chunk_step(v, prev, s - 1, c));
        lemma_chunks_ok(v, c, s - 1);
        lemma_name_fits(s - 1, c);
        lemma_stored_ok(prev, name, d, v.chunk_paths[s - 1][c]);
    }
}

proof fn lemma_media_ok(v: PlanView, k: int)
    requires
        plan_shape(v),
        0 <= k <= num_streams(v),
        num_chunks(v) < 0x1_0000_0000_0000_0000,
        num_streams(v) < 0x1_0000_0000_0000_0000,
        pieces_len(media_progress(v, k).pieces) <= u64::MAX,
    ensures
        progress_ok(media_progress(v, k)),
    decreases k,
{
    if k <= 0 {
        let p = chunk_progress(v, num_chunks(v), 0);
        let pl = spec_master_playlist(stream_infos(v));
        let z = deflate_best(pl);
        let hdr = spec_local_file_header(spec_master_playlist_name(), crc32(pl), 8, z.len() as u64, pl.len() as u64);
        lemma_push_grows(p.pieces, data_piece(spec_free_header((hdr.len() + z.len()) as int) + hdr + z));
        lemma_chunks_ok(v, num_chunks(v), 0);
        lemma_short_names(0);
        lemma_zipped_ok(p, spec_master_playlist_name(), pl);
    } else {
        let p = media_progress(v, k - 1);
        let name = spec_media_playlist_name((k - 1) as nat);
        let pl = v.media_playlists[k - 1];
        let z = deflate_best(pl);
        let hdr = spec_local_file_header(name, crc32(pl), 8, z.len() as u64, pl.len() as u64);
        lemma_push_grows(p.pieces, data_piece(spec_free_header((hdr.len() + z.len()) as int) + hdr + z));
        lemma_media_ok(v, k - 1);
        lemma_short_names(k - 1);
        lemma_zipped_ok(p, name, pl);
    }
}

proof fn lemma_inits_ok(v: PlanView, k: int)
    requires
        plan_shape(v),
        0 <= k <= num_streams(v),
        num_chunks(v) < 0x1_0000_0000_0000_0000,
        num_streams(v) < 0x1_0000_0000_0000_0000,
        pieces_len(init_progress(v, k).pieces) <= u64::MAX,
    ensures
        progress_ok(init_progress(v, k)),
    decreases k,
{
    if k <= 0 {
        lemma_media_ok(v, num_streams(v));
    } else {
        let p = init_progress(v, k - 1);
        let name = spec_entry_name_init((k - 1) as nat);
        let d = v.init_data[k - 1];
        let hdr = stored_header(name, d);
        let x = data_piece(spec_free_header((hdr.len() + d.len()) as int) + hdr);
        lemma_push_grows(p.pieces, x);
        lemma_push_grows(p.pieces.push(x), file_piece(v.init_paths[k - 1], d));
        lemma_inits_ok(v, k - 1);
        lemma_short_names(k - 1);
        lemma_boxed_ok(p, name, d, v.init_paths[k - 1]);
    }
}

/// Law: the described file is a ZIP archive. Read from its end records, its
/// central directory lists every entry of the recipe in order (the chunk
/// files, the master and media playlists, the init segments), each with
/// its data just past its local header, which stands where the entry says.
pub proof fn lemma_recipe_is_zip(v: PlanView)
    requires
        plan_shape(v),
        num_chunks(v) <= usize::MAX,
        num_streams(v) <= usize::MAX,
        pieces_len(spec_recipe_pieces(v)) <= u64::MAX,
    ensures
        spec_read_zip_directory(pieces_bytes(spec_recipe_pieces(v))) == Some(
            spec_recipe_entries(v).map_values(|e: ZipEntryView| read_back_view(e)),
        ),
{
    let p = init_progress(v, num_streams(v));
    let entries = p.entries;
    let cd_offset = pieces_len(p.pieces) + 8;
    let records = spec_end_records(entries, cd_offset);
    let fh = spec_free_header(records.len() as int);
    let last = data_piece(fh + records);
    lemma_push_grows(p.pieces, last);
    lemma_bytes_push(p.pieces, last);
    assert(spec_recipe_pieces(v) == p.pieces.push(last));
    lemma_inits_ok(v, num_streams(v));
    lemma_end_records_len(entries, cd_offset);
    let prefix = pieces_bytes(p.pieces) + fh;
    assert(fh.len() == 8);
    assert(prefix.len() == cd_offset);
    let file = pieces_bytes(spec_recipe_pieces(v));
    assert(file =~= prefix + spec_end_records(entries, prefix.len() as int));
    lemma_headers_extend(pieces_bytes(p.pieces), fh + records, entries);
    assert forall|j: int| 0 <= j < entries.len() implies entry_readable(
        prefix + spec_end_records(entries, prefix.len() as int),
        #[trigger] entries[j],
    ) by {
        let e = entries[j];
        lemma_local_file_header_len(
            e.filename,
            e.crc32,
            e.compression_method,
            e.compressed_size,
            e.uncompressed_size,
        );
        assert(holds_at(file, e.local_header_offset as int, entry_header(e)));
        lemma_local_header_read_back(
            file,
            e.local_header_offset as int,
            e.filename,
            e.crc32,
            e.compression_method,
            e.compressed_size,
            e.uncompressed_size,
        );
    }
    lemma_zip_directory_read_back(prefix, entries);
}

} // verus!
