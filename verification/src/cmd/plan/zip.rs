// ZIP format helpers for generating PKZIP-compatible entries with ZIP64 extensions.
use vstd::prelude::*;

use crate::ascii::{
    lemma_decimal_len_bound, all_ascii, ascii_bytes, ascii_chars, decimal, lemma_decimal_ascii, push_ascii, push_decimal,
    push_zero_padded, string_from_ascii, zero_padded,
};
use crate::binary::{
    u16_le_bytes, u32_le_bytes, u64_le_bytes, write_bytes, write_u16_le, write_u32_le,
    write_u64_le,
};

verus! {

/// Information about a ZIP file entry, collected for central directory generation.
pub struct ZipFileEntry {
    pub filename: Vec<u8>,
    pub crc32: u32,
    pub compressed_size: u64,
    pub uncompressed_size: u64,
    pub compression_method: u16,
    pub local_header_offset: u64,
}

/// A ZIP entry as a mathematical value.
pub ghost struct ZipEntryView {
    pub filename: Seq<u8>,
    pub crc32: u32,
    pub compressed_size: u64,
    pub uncompressed_size: u64,
    pub compression_method: u16,
    pub local_header_offset: u64,
}

impl View for ZipFileEntry {
    type V = ZipEntryView;

    open spec fn view(&self) -> ZipEntryView {
        ZipEntryView {
            filename: self.filename@,
            crc32: self.crc32,
            compressed_size: self.compressed_size,
            uncompressed_size: self.uncompressed_size,
            compression_method: self.compression_method,
            local_header_offset: self.local_header_offset,
        }
    }
}

// ===== Entry names =====

/// `streams.{stream_idx}/init.m4s`
pub open spec fn spec_entry_name_init(stream_idx: nat) -> Seq<u8> {
    ascii_bytes("streams."@) + decimal(stream_idx) + ascii_bytes("/init.m4s"@)
}

/// `streams.{stream_idx}/chunks/chunk.{chunk_idx:06}.m4s`
pub open spec fn spec_entry_name_chunk(stream_idx: nat, chunk_idx: nat) -> Seq<u8> {
    ascii_bytes("streams."@) + decimal(stream_idx) + ascii_bytes("/chunks/chunk."@) + zero_padded(
        chunk_idx,
        6,
    ) + ascii_bytes(".m4s"@)
}

proof fn lemma_ascii_pieces(s: Seq<u8>, t: Seq<u8>)
    requires
        all_ascii(s),
        all_ascii(t),
    ensures
        all_ascii(s + t),
{
    assert forall|i: int| 0 <= i < (s + t).len() implies #[trigger] (s + t)[i] < 128 by {
        if i < s.len() {
            assert((s + t)[i] == s[i]);
        } else {
            assert((s + t)[i] == t[i - s.len()]);
        }
    }
}

proof fn lemma_ascii_literal(chars: Seq<char>)
    requires
        vstd::utf8::is_ascii_chars(chars),
    ensures
        all_ascii(ascii_bytes(chars)),
{
    assert forall|i: int| 0 <= i < ascii_bytes(chars).len() implies #[trigger] ascii_bytes(
        chars,
    )[i] < 128 by {
        assert(chars[i] as u32 <= 0x7f);
    }
}

proof fn lemma_zero_padded_ascii(n: nat, width: nat)
    ensures
        all_ascii(zero_padded(n, width)),
{
    lemma_decimal_ascii(n);
    let d = decimal(n);
    if d.len() < width {
        lemma_ascii_pieces(Seq::new((width - d.len()) as nat, |i: int| 48u8), d);
    }
}

/// Appends `streams.{stream_idx}`.
fn push_stream_dir(buf: &mut Vec<u8>, stream_idx: usize)
    ensures
        final(buf)@ == old(buf)@ + ascii_bytes("streams."@) + decimal(stream_idx as nat),
{
    proof {
        reveal_strlit("streams.");
    }
    push_ascii(buf, "streams.");
    push_decimal(buf, stream_idx as u64);
}

/// The bytes of the name of a stream's init segment entry.
pub(crate) fn init_name_bytes(stream_idx: usize) -> (r: Vec<u8>)
    ensures
        r@ == spec_entry_name_init(stream_idx as nat),
        all_ascii(r@),
        r@.len() <= 37,
{
    proof {
        lemma_decimal_len_bound(stream_idx as nat);
    }
    let mut buf: Vec<u8> = Vec::new();
    push_stream_dir(&mut buf, stream_idx);
    proof {
        reveal_strlit("/init.m4s");
    }
    push_ascii(&mut buf, "/init.m4s");
    proof {
        assert(buf@ =~= spec_entry_name_init(stream_idx as nat));
        lemma_decimal_ascii(stream_idx as nat);
        reveal_strlit("streams.");
        lemma_ascii_literal("streams."@);
        lemma_ascii_literal("/init.m4s"@);
        lemma_ascii_pieces(ascii_bytes("streams."@), decimal(stream_idx as nat));
        lemma_ascii_pieces(
            ascii_bytes("streams."@) + decimal(stream_idx as nat),
            ascii_bytes("/init.m4s"@),
        );
    }
    buf
}

/// Name of the ZIP entry holding a stream's init segment.
pub fn entry_name_init(stream_idx: usize) -> (r: String)
    ensures
        r@ == ascii_chars(spec_entry_name_init(stream_idx as nat)),
{
    string_from_ascii(init_name_bytes(stream_idx))
}

/// The bytes of the name of a chunk file's entry.
pub(crate) fn chunk_name_bytes(stream_idx: usize, chunk_idx: usize) -> (r: Vec<u8>)
    ensures
        r@ == spec_entry_name_chunk(stream_idx as nat, chunk_idx as nat),
        all_ascii(r@),
        r@.len() <= 66,
{
    proof {
        lemma_decimal_len_bound(stream_idx as nat);
        lemma_decimal_len_bound(chunk_idx as nat);
    }
    let mut buf: Vec<u8> = Vec::new();
    push_stream_dir(&mut buf, stream_idx);
    proof {
        reveal_strlit("/chunks/chunk.");
        reveal_strlit(".m4s");
    }
    push_ascii(&mut buf, "/chunks/chunk.");
    push_zero_padded(&mut buf, chunk_idx as u64, 6);
    push_ascii(&mut buf, ".m4s");
    proof {
        let a = ascii_bytes("streams."@);
        let b = decimal(stream_idx as nat);
        let c = ascii_bytes("/chunks/chunk."@);
        let d = zero_padded(chunk_idx as nat, 6);
        let e = ascii_bytes(".m4s"@);
        assert(buf@ =~= spec_entry_name_chunk(stream_idx as nat, chunk_idx as nat));
        lemma_decimal_ascii(stream_idx as nat);
        lemma_zero_padded_ascii(chunk_idx as nat, 6);
        reveal_strlit("streams.");
        lemma_ascii_literal("streams."@);
        lemma_ascii_literal("/chunks/chunk."@);
        lemma_ascii_literal(".m4s"@);
        lemma_ascii_pieces(a, b);
        lemma_ascii_pieces(a + b, c);
        lemma_ascii_pieces(a + b + c, d);
        lemma_ascii_pieces(a + b + c + d, e);
    }
    buf
}

/// Name of the ZIP entry holding one chunk file of a stream.
pub fn entry_name_chunk(stream_idx: usize, chunk_idx: usize) -> (r: String)
    ensures
        r@ == ascii_chars(spec_entry_name_chunk(stream_idx as nat, chunk_idx as nat)),
{
    string_from_ascii(chunk_name_bytes(stream_idx, chunk_idx))
}

/// `generated.m3u8`
pub open spec fn spec_master_playlist_name() -> Seq<u8> {
    ascii_bytes("generated.m3u8"@)
}

/// `streams.{stream_idx}/generated.m3u8`
pub open spec fn spec_media_playlist_name(stream_idx: nat) -> Seq<u8> {
    ascii_bytes("streams."@) + decimal(stream_idx) + ascii_bytes("/generated.m3u8"@)
}

/// The bytes of the name of the master playlist's entry.
pub(crate) fn master_playlist_name_bytes() -> (r: Vec<u8>)
    ensures
        r@ == spec_master_playlist_name(),
{
    let mut buf: Vec<u8> = Vec::new();
    proof {
        reveal_strlit("generated.m3u8");
    }
    push_ascii(&mut buf, "generated.m3u8");
    assert(buf@ =~= spec_master_playlist_name());
    buf
}

/// The bytes of the name of a stream's media playlist entry.
pub(crate) fn media_playlist_name_bytes(stream_idx: usize) -> (r: Vec<u8>)
    ensures
        r@ == spec_media_playlist_name(stream_idx as nat),
{
    let mut buf: Vec<u8> = Vec::new();
    push_stream_dir(&mut buf, stream_idx);
    proof {
        reveal_strlit("/generated.m3u8");
    }
    push_ascii(&mut buf, "/generated.m3u8");
    assert(buf@ =~= spec_media_playlist_name(stream_idx as nat));
    buf
}

// ===== Local file header =====

/// Size of a ZIP local file header with ZIP64 extra field.
pub fn local_file_header_size(filename_len: usize) -> (r: usize)
    requires
        filename_len <= usize::MAX - 50,
    ensures
        r == 30 + filename_len + 20,
{
    30 + filename_len + 20  // 20 = ZIP64 extra field (4 byte header + 16 byte data)

}

/// The fixed 30-byte part of a local file header, before the file name.
pub open spec fn spec_local_fixed(name_len: int, crc32: u32, method: u16) -> Seq<u8> {
    u32_le_bytes(0x04034b50) + u16_le_bytes(45) + u16_le_bytes(0) + u16_le_bytes(method as int)
        + u16_le_bytes(0) + u16_le_bytes(0) + u32_le_bytes(crc32 as int) + u32_le_bytes(0xFFFFFFFF)
        + u32_le_bytes(0xFFFFFFFF) + u16_le_bytes(name_len) + u16_le_bytes(20)
}

/// A ZIP local file header: the fixed part, the name, and a ZIP64 extra field
/// with the uncompressed and compressed sizes.
#[verifier::opaque]
pub open spec fn spec_local_file_header(
    filename: Seq<u8>,
    crc32: u32,
    method: u16,
    compressed_size: u64,
    uncompressed_size: u64,
) -> Seq<u8> {
    spec_local_fixed(filename.len() as int, crc32, method) + filename + u16_le_bytes(1)
        + u16_le_bytes(16) + u64_le_bytes(uncompressed_size as int) + u64_le_bytes(
        compressed_size as int,
    )
}

/// A local file header is 30 bytes, the name, and a 20-byte extra field.
pub proof fn lemma_local_file_header_len(
    filename: Seq<u8>,
    crc32: u32,
    method: u16,
    compressed_size: u64,
    uncompressed_size: u64,
)
    ensures
        spec_local_file_header(filename, crc32, method, compressed_size, uncompressed_size).len()
            == 30 + filename.len() + 20,
{
    reveal(spec_local_file_header);
}

/// Generate a ZIP local file header with ZIP64 extensions.
pub fn make_local_file_header(
    filename: &[u8],
    crc32: u32,
    compression_method: u16,
    compressed_size: u64,
    uncompressed_size: u64,
) -> (r: Vec<u8>)
    ensures
        r@ == spec_local_file_header(
            filename@,
            crc32,
            compression_method,
            compressed_size,
            uncompressed_size,
        ),
        r@.len() == 30 + filename@.len() + 20,
{
    let mut buf: Vec<u8> = Vec::new();
    write_u32_le(&mut buf, 0x04034b50);  // signature
    write_u16_le(&mut buf, 45);  // version needed (4.5 for ZIP64)
    write_u16_le(&mut buf, 0);  // general purpose bit flag
    write_u16_le(&mut buf, compression_method);  // compression method
    write_u16_le(&mut buf, 0);  // last mod file time
    write_u16_le(&mut buf, 0);  // last mod file date
    write_u32_le(&mut buf, crc32);  // crc-32
    write_u32_le(&mut buf, 0xFFFFFFFF);  // compressed size (ZIP64)
    write_u32_le(&mut buf, 0xFFFFFFFF);  // uncompressed size (ZIP64)
    write_u16_le(&mut buf, len_u16(filename.len()));  // file name length
    write_u16_le(&mut buf, 20);  // extra field length
    write_bytes(&mut buf, filename);  // file name
    // ZIP64 extended information extra field
    write_u16_le(&mut buf, 0x0001);  // header id
    write_u16_le(&mut buf, 16);  // data size
    write_u64_le(&mut buf, uncompressed_size);  // original uncompressed size
    write_u64_le(&mut buf, compressed_size);  // compressed size
    proof {
        lemma_u16_le_mod(filename@.len() as int);
        reveal(spec_local_file_header);
    }
    assert(buf@ =~= spec_local_file_header(
        filename@,
        crc32,
        compression_method,
        compressed_size,
        uncompressed_size,
    ));
    buf
}

/// A length truncated to 16 bits, as a 16-bit length field stores it.
fn len_u16(len: usize) -> (r: u16)
    ensures
        r == len % 0x1_0000,
{
    (len % 0x1_0000) as u16
}

/// A 16-bit little-endian field holds its value modulo 2^16.
proof fn lemma_u16_le_mod(x: int)
    requires
        0 <= x,
    ensures
        u16_le_bytes(x % 0x1_0000) == u16_le_bytes(x),
{
    let y = x % 0x1_0000;
    assert(y % 256 == x % 256 && y / 256 % 256 == x / 256 % 256) by (nonlinear_arith)
        requires
            y == x % 0x1_0000,
            0 <= x,
    ;
    assert(u16_le_bytes(y) =~= u16_le_bytes(x));
}

// ===== Central directory and end records =====

/// `version made by`: UNIX, 4.5.
pub open spec fn version_made_by() -> int {
    0x032D
}

/// The fixed 46-byte part of a central directory file header, before the name.
#[verifier::opaque]
pub open spec fn spec_cd_fixed(e: ZipEntryView) -> Seq<u8> {
    u32_le_bytes(0x02014b50) + u16_le_bytes(version_made_by()) + u16_le_bytes(45) + u16_le_bytes(
        0,
    ) + u16_le_bytes(e.compression_method as int) + u16_le_bytes(0) + u16_le_bytes(0)
        + u32_le_bytes(e.crc32 as int) + u32_le_bytes(0xFFFFFFFF) + u32_le_bytes(0xFFFFFFFF)
        + u16_le_bytes(e.filename.len() as int) + u16_le_bytes(28) + u16_le_bytes(0)
        + u16_le_bytes(0) + u16_le_bytes(0) + u32_le_bytes(0) + u32_le_bytes(0xFFFFFFFF)
}

/// The ZIP64 extra field of a central directory file header: sizes and the
/// local header's offset.
#[verifier::opaque]
pub open spec fn spec_cd_extra(e: ZipEntryView) -> Seq<u8> {
    u16_le_bytes(1) + u16_le_bytes(24) + u64_le_bytes(e.uncompressed_size as int) + u64_le_bytes(
        e.compressed_size as int,
    ) + u64_le_bytes(e.local_header_offset as int)
}

/// A central directory file header for one entry.
#[verifier::opaque]
pub open spec fn spec_cd_entry(e: ZipEntryView) -> Seq<u8> {
    spec_cd_fixed(e) + e.filename + spec_cd_extra(e)
}

/// A central directory file header is 46 bytes, the name, and 28 bytes.
#[verifier::rlimit(40)]
pub proof fn lemma_cd_entry_len(e: ZipEntryView)
    ensures
        spec_cd_entry(e).len() == 46 + e.filename.len() + 28,
        spec_cd_fixed(e).len() == 46,
        spec_cd_extra(e).len() == 28,
{
    reveal(spec_cd_entry);
    reveal(spec_cd_fixed);
    reveal(spec_cd_extra);
}

/// The central directory: the entries' headers, in order.
pub open spec fn spec_cd_bytes(entries: Seq<ZipEntryView>) -> Seq<u8>
    decreases entries.len(),
{
    if entries.len() == 0 {
        Seq::empty()
    } else {
        spec_cd_bytes(entries.drop_last()) + spec_cd_entry(entries.last())
    }
}

/// The ZIP64 end of central directory record.
#[verifier::opaque]
pub open spec fn spec_zip64_eocd(count: int, cd_size: int, cd_offset: int) -> Seq<u8> {
    u32_le_bytes(0x06064b50) + u64_le_bytes(44) + u16_le_bytes(version_made_by()) + u16_le_bytes(
        45,
    ) + u32_le_bytes(0) + u32_le_bytes(0) + u64_le_bytes(count) + u64_le_bytes(count)
        + u64_le_bytes(cd_size) + u64_le_bytes(cd_offset)
}

/// The ZIP64 end of central directory locator.
#[verifier::opaque]
pub open spec fn spec_zip64_locator(zip64_eocd_offset: int) -> Seq<u8> {
    u32_le_bytes(0x07064b50) + u32_le_bytes(0) + u64_le_bytes(zip64_eocd_offset) + u32_le_bytes(1)
}

/// `x`, or `cap` where `x` exceeds it.
pub open spec fn capped(x: int, cap: int) -> int {
    if x > cap {
        cap
    } else {
        x
    }
}

/// The classic end of central directory record, its fields capped at their
/// widths (a reader then turns to the ZIP64 record).
#[verifier::opaque]
pub open spec fn spec_eocd(count: int, cd_size: int, cd_offset: int) -> Seq<u8> {
    u32_le_bytes(0x06054b50) + u16_le_bytes(0) + u16_le_bytes(0) + u16_le_bytes(
        capped(count, 0xFFFF),
    ) + u16_le_bytes(capped(count, 0xFFFF)) + u32_le_bytes(capped(cd_size, 0xFFFFFFFF))
        + u32_le_bytes(capped(cd_offset, 0xFFFFFFFF)) + u16_le_bytes(0)
}

/// Central directory, ZIP64 end record, ZIP64 locator and end record, for a
/// central directory placed at `cd_offset`.
#[verifier::opaque]
pub open spec fn spec_end_records(entries: Seq<ZipEntryView>, cd_offset: int) -> Seq<u8> {
    let cd = spec_cd_bytes(entries);
    cd + spec_zip64_eocd(entries.len() as int, cd.len() as int, cd_offset) + spec_zip64_locator(
        cd_offset + cd.len(),
    ) + spec_eocd(entries.len() as int, cd.len() as int, cd_offset)
}

/// The end records have a fixed length after the central directory.
pub proof fn lemma_end_record_lengths(count: int, cd_size: int, cd_offset: int)
    ensures
        spec_zip64_eocd(count, cd_size, cd_offset).len() == 56,
        spec_zip64_locator(cd_offset + cd_size).len() == 20,
        spec_eocd(count, cd_size, cd_offset).len() == 22,
{
    reveal(spec_zip64_eocd);
    reveal(spec_zip64_locator);
    reveal(spec_eocd);
}

/// Views of a slice of entries.
pub open spec fn entry_views(entries: Seq<ZipFileEntry>) -> Seq<ZipEntryView> {
    entries.map_values(|e: ZipFileEntry| e@)
}

/// Generate a ZIP central directory file header entry.
fn make_cd_entry(entry: &ZipFileEntry) -> (r: Vec<u8>)
    ensures
        r@ == spec_cd_entry(entry@),
{
    let mut buf: Vec<u8> = Vec::new();
    write_u32_le(&mut buf, 0x02014b50);  // signature
    write_u16_le(&mut buf, 0x032D);  // version made by (UNIX, 4.5)
    write_u16_le(&mut buf, 45);  // version needed
    write_u16_le(&mut buf, 0);  // general purpose bit flag
    write_u16_le(&mut buf, entry.compression_method);  // compression method
    write_u16_le(&mut buf, 0);  // last mod file time
    write_u16_le(&mut buf, 0);  // last mod file date
    write_u32_le(&mut buf, entry.crc32);  // crc-32
    write_u32_le(&mut buf, 0xFFFFFFFF);  // compressed size (ZIP64)
    write_u32_le(&mut buf, 0xFFFFFFFF);  // uncompressed size (ZIP64)
    write_u16_le(&mut buf, len_u16(entry.filename.len()));  // file name length
    write_u16_le(&mut buf, 28);  // extra field length (ZIP64 with offset)
    write_u16_le(&mut buf, 0);  // file comment length
    write_u16_le(&mut buf, 0);  // disk number start
    write_u16_le(&mut buf, 0);  // internal file attributes
    write_u32_le(&mut buf, 0);  // external file attributes
    write_u32_le(&mut buf, 0xFFFFFFFF);  // relative offset (ZIP64)
    write_bytes(&mut buf, entry.filename.as_slice());  // file name
    // ZIP64 extended information extra field
    write_u16_le(&mut buf, 0x0001);  // header id
    write_u16_le(&mut buf, 24);  // data size (8+8+8)
    write_u64_le(&mut buf, entry.uncompressed_size);  // original uncompressed size
    write_u64_le(&mut buf, entry.compressed_size);  // compressed size
    write_u64_le(&mut buf, entry.local_header_offset);  // offset of local header
    proof {
        lemma_u16_le_mod(entry.filename@.len() as int);
        reveal(spec_cd_entry);
        reveal(spec_cd_fixed);
        reveal(spec_cd_extra);
    }
    assert(buf@ =~= spec_cd_entry(entry@));
    buf
}

/// `x` capped at `cap`.
fn cap_u64(x: u64, cap: u64) -> (r: u64)
    ensures
        r == capped(x as int, cap as int),
{
    if x > cap {
        cap
    } else {
        x
    }
}

/// Appends the ZIP64 End of Central Directory Record.
fn write_zip64_eocd(buf: &mut Vec<u8>, count: u64, cd_size: u64, cd_offset: u64)
    ensures
        final(buf)@ == old(buf)@ + spec_zip64_eocd(count as int, cd_size as int, cd_offset as int),
{
    reveal(spec_zip64_eocd);
    let ghost start = buf@;
    write_u32_le(buf, 0x06064b50);  // signature
    write_u64_le(buf, 44);  // size of remaining record
    write_u16_le(buf, 0x032D);  // version made by
    write_u16_le(buf, 45);  // version needed
    write_u32_le(buf, 0);  // disk number
    write_u32_le(buf, 0);  // disk with CD start
    write_u64_le(buf, count);  // entries on this disk
    write_u64_le(buf, count);  // total entries
    write_u64_le(buf, cd_size);  // size of central directory
    write_u64_le(buf, cd_offset);  // offset of central directory
    assert(buf@ =~= start + spec_zip64_eocd(count as int, cd_size as int, cd_offset as int));
}

/// Appends the ZIP64 End of Central Directory Locator.
fn write_zip64_locator(buf: &mut Vec<u8>, zip64_eocd_offset: u64)
    ensures
        final(buf)@ == old(buf)@ + spec_zip64_locator(zip64_eocd_offset as int),
{
    reveal(spec_zip64_locator);
    let ghost start = buf@;
    write_u32_le(buf, 0x07064b50);  // signature
    write_u32_le(buf, 0);  // disk with ZIP64 EOCD
    write_u64_le(buf, zip64_eocd_offset);  // offset of ZIP64 EOCD
    write_u32_le(buf, 1);  // total disks
    assert(buf@ =~= start + spec_zip64_locator(zip64_eocd_offset as int));
}

/// Appends the End of Central Directory Record.
fn write_eocd(buf: &mut Vec<u8>, count: u64, cd_size: u64, cd_offset: u64)
    ensures
        final(buf)@ == old(buf)@ + spec_eocd(count as int, cd_size as int, cd_offset as int),
{
    reveal(spec_eocd);
    let ghost start = buf@;
    let entries_16 = cap_u64(count, 0xFFFF) as u16;
    let cd_size_32 = cap_u64(cd_size, 0xFFFFFFFF) as u32;
    let cd_offset_32 = cap_u64(cd_offset, 0xFFFFFFFF) as u32;
    write_u32_le(buf, 0x06054b50);  // signature
    write_u16_le(buf, 0);  // disk number
    write_u16_le(buf, 0);  // disk with CD start
    write_u16_le(buf, entries_16);  // entries on this disk
    write_u16_le(buf, entries_16);  // total entries
    write_u32_le(buf, cd_size_32);  // size of central directory
    write_u32_le(buf, cd_offset_32);  // offset of central directory
    write_u16_le(buf, 0);  // comment length
    assert(buf@ =~= start + spec_eocd(count as int, cd_size as int, cd_offset as int));
}

/// Generate ZIP end-of-archive records: central directory + ZIP64 EOCD + locator + EOCD.
pub fn make_end_records(entries: &[ZipFileEntry], cd_offset: u64) -> (r: Vec<u8>)
    requires
        cd_offset + spec_cd_bytes(entry_views(entries@)).len() <= u64::MAX,
    ensures
        r@ == spec_end_records(entry_views(entries@), cd_offset as int),
{
    let ghost views = entry_views(entries@);
    let mut buf: Vec<u8> = Vec::new();
    // Central directory entries
    let mut i: usize = 0;
    while i < entries.len()
        invariant
            i <= entries@.len(),
            views == entry_views(entries@),
            buf@ == spec_cd_bytes(views.take(i as int)),
        decreases entries@.len() - i,
    {
        let entry_bytes = make_cd_entry(&entries[i]);
        write_bytes(&mut buf, entry_bytes.as_slice());
        proof {
            assert(views.take(i + 1).drop_last() =~= views.take(i as int));
            assert(views.take(i + 1).last() == entries@[i as int]@);
        }
        i = i + 1;
    }
    assert(views.take(i as int) =~= views);
    let cd_size = buf.len() as u64;
    let count = entries.len() as u64;
    write_zip64_eocd(&mut buf, count, cd_size, cd_offset);
    write_zip64_locator(&mut buf, cd_offset + cd_size);
    write_eocd(&mut buf, count, cd_size, cd_offset);
    reveal(spec_end_records);
    assert(buf@ =~= spec_end_records(views, cd_offset as int));
    buf
}

} // verus!
