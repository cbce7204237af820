// Validation of embedded source files in a combined MP4/ZIP.
//
// The output file is a polyglot MP4/ZIP. Source files are stored as ZIP
// entries (method 0 = stored) with ZIP64 extensions. This module parses the
// ZIP central directory from the end of the file and checks each listed
// source against it: size, CRC-32 and SHA-256.
use vstd::prelude::*;

use crate::binary::{
    le16, le32, le64, lemma_le16_of, lemma_le32_of, lemma_le64_of, read_u16_le, read_u32_le,
    read_u64_le, u16_le_bytes, u32_le_bytes, u64_le_bytes,
};
use crate::cmd::plan::zip::{
    capped, spec_cd_bytes, spec_cd_entry, spec_end_records, spec_eocd, spec_local_file_header,
    spec_zip64_eocd, spec_zip64_locator, lemma_end_record_lengths, ZipEntryView, spec_cd_fixed,
    spec_cd_extra, lemma_cd_entry_len,
};
use crate::digest::{crc32, crc32_hash, lower_hex, sha256, sha256_digest, to_lower_hex};
use crate::ascii::ascii_chars;

verus! {

// ===== Signatures =====

/// Signature of the end of central directory record.
pub open spec fn eocd_signature() -> int {
    0x06054b50
}

/// Signature of the ZIP64 end of central directory locator.
pub open spec fn zip64_locator_signature() -> int {
    0x07064b50
}

/// Signature of the ZIP64 end of central directory record.
pub open spec fn zip64_eocd_signature() -> int {
    0x06064b50
}

/// Signature of a central directory file header.
pub open spec fn cd_entry_signature() -> int {
    0x02014b50
}

/// Signature of a local file header.
pub open spec fn local_header_signature() -> int {
    0x04034b50
}

// ===== End of central directory =====

/// Lowest offset at which the end record is looked for: it is at least 22
/// bytes long and its comment at most 65535.
pub open spec fn eocd_scan_start(len: int) -> int {
    if len > 22 + 65535 {
        len - (22 + 65535)
    } else {
        0
    }
}

/// The highest offset `j` with `start <= j <= i` holding the end record signature.
pub open spec fn scan_back(data: Seq<u8>, i: int, start: int) -> Option<int>
    decreases i - start + 1,
{
    if i < start {
        None
    } else if le32(data, i) == eocd_signature() {
        Some(i)
    } else {
        scan_back(data, i - 1, start)
    }
}

/// Where the end of central directory record starts: the last signature
/// in the file's final 22 + 65535 bytes that leaves room for 22 bytes.
pub open spec fn spec_find_eocd(data: Seq<u8>) -> Option<int> {
    if data.len() < 22 {
        None
    } else {
        scan_back(data, data.len() - 22, eocd_scan_start(data.len() as int))
    }
}

/// Scan backward from EOF for the EOCD signature (0x06054b50).
pub fn find_eocd(data: &[u8]) -> (r: Option<usize>)
    ensures
        match r {
            Some(i) => spec_find_eocd(data@) == Some(i as int),
            None => spec_find_eocd(data@) is None,
        },
{
    let len = data.len();
    if len < 22 {
        return None;
    }
    // EOCD is at least 22 bytes. Max comment = 65535, so scan at most 22+65535 bytes.
    let start = if len > 22 + 65535 {
        len - (22 + 65535)
    } else {
        0
    };
    let mut k: usize = len - 21;
    while k > start
        invariant
            len == data@.len(),
            22 <= len,
            start == eocd_scan_start(len as int),
            start <= k <= len - 21,
            spec_find_eocd(data@) == scan_back(data@, k - 1, start as int),
        decreases k,
    {
        let i = k - 1;
        if read_u32_le(data, i) == 0x06054b50 {
            return Some(i);
        }
        k = i;
    }
    None
}

/// Central directory offset, size and entry count from the end records at
/// `eocd`, taken from the ZIP64 record when a classic field is saturated;
/// `None` where a signature is missing or a field lies past the end.
pub open spec fn spec_parse_eocd(data: Seq<u8>, eocd: int) -> Option<(u64, u64, u64)> {
    if eocd < 0 || eocd + 20 > data.len() {
        None
    } else {
        let total_entries_16 = le16(data, eocd + 8);
        let cd_size_32 = le32(data, eocd + 12);
        let cd_offset_32 = le32(data, eocd + 16);
        if total_entries_16 == 0xFFFF || cd_size_32 == 0xFFFFFFFF || cd_offset_32 == 0xFFFFFFFF {
            let locator = eocd - 20;
            if locator < 0 || le32(data, locator) != zip64_locator_signature() {
                None
            } else {
                let z = le64(data, locator + 8);
                if z + 56 > data.len() || le32(data, z) != zip64_eocd_signature() {
                    None
                } else {
                    Some(
                        (
                            le64(data, z + 48) as u64,
                            le64(data, z + 40) as u64,
                            le64(data, z + 32) as u64,
                        ),
                    )
                }
            }
        } else {
            Some((cd_offset_32 as u64, cd_size_32 as u64, total_entries_16 as u64))
        }
    }
}

/// Parse EOCD (and ZIP64 EOCD if present) to get CD offset, size, and entry
/// count, or `None` where the records are malformed.
pub fn try_parse_eocd(data: &[u8], eocd_offset: usize) -> (r: Option<(u64, u64, u64)>)
    ensures
        r == spec_parse_eocd(data@, eocd_offset as int),
{
    let len = data.len();
    if eocd_offset > len || len - eocd_offset < 20 {
        return None;
    }
    let total_entries_16 = read_u16_le(data, eocd_offset + 8);
    let cd_size_32 = read_u32_le(data, eocd_offset + 12);
    let cd_offset_32 = read_u32_le(data, eocd_offset + 16);

    let need_zip64 = total_entries_16 == 0xFFFF || cd_size_32 == 0xFFFFFFFF || cd_offset_32
        == 0xFFFFFFFF;

    if need_zip64 {
        // ZIP64 EOCD locator is 20 bytes before EOCD
        if eocd_offset < 20 {
            return None;
        }
        let locator_offset = eocd_offset - 20;
        if read_u32_le(data, locator_offset) != 0x07064b50 {
            return None;
        }
        let zip64_eocd_offset = read_u64_le(data, locator_offset + 8);
        if zip64_eocd_offset > len as u64 || (len as u64) - zip64_eocd_offset < 56 {
            return None;
        }
        let z = zip64_eocd_offset as usize;
        if read_u32_le(data, z) != 0x06064b50 {
            return None;
        }
        let total_entries = read_u64_le(data, z + 32);
        let cd_size = read_u64_le(data, z + 40);
        let cd_offset = read_u64_le(data, z + 48);
        Some((cd_offset, cd_size, total_entries))
    } else {
        Some((cd_offset_32 as u64, cd_size_32 as u64, total_entries_16 as u64))
    }
}

/// Parse EOCD (and ZIP64 EOCD if present) to get CD offset, size, and entry count.
pub fn parse_eocd(data: &[u8], eocd_offset: usize) -> (r: (u64, u64, u64))
    requires
        spec_parse_eocd(data@, eocd_offset as int) is Some,
    ensures
        r == spec_parse_eocd(data@, eocd_offset as int).unwrap(),
{
    try_parse_eocd(data, eocd_offset).unwrap()
}

// ===== Central directory =====

/// A central directory entry, with the offset of its data found through its
/// local header.
pub struct ZipParsedEntry {
    pub filename: Vec<u8>,
    pub crc32: u32,
    pub uncompressed_size: u64,
    pub local_header_offset: u64,
    pub data_offset: u64,
}

/// A parsed entry as a mathematical value.
pub ghost struct ParsedEntryView {
    pub filename: Seq<u8>,
    pub crc32: u32,
    pub uncompressed_size: u64,
    pub local_header_offset: u64,
    pub data_offset: u64,
}

impl View for ZipParsedEntry {
    type V = ParsedEntryView;

    open spec fn view(&self) -> ParsedEntryView {
        ParsedEntryView {
            filename: self.filename@,
            crc32: self.crc32,
            uncompressed_size: self.uncompressed_size,
            local_header_offset: self.local_header_offset,
            data_offset: self.data_offset,
        }
    }
}

/// Uncompressed size, compressed size and local header offset, taking the
/// 64-bit values of a ZIP64 extra field (header id 1) in place of each
/// saturated 32-bit one that it has room for; `None` where the field claims
/// more data than the extra block holds.
pub open spec fn spec_zip64_extra(
    extra: Seq<u8>,
    epos: int,
    uncompressed_32: u32,
    compressed_32: u32,
    offset_32: u32,
) -> Option<(u64, u64, u64)>
    decreases extra.len() - epos,
{
    if epos < 0 || epos + 4 > extra.len() {
        Some((uncompressed_32 as u64, compressed_32 as u64, offset_32 as u64))
    } else {
        let header_id = le16(extra, epos);
        let data_size = le16(extra, epos + 2);
        let end = epos + 4 + data_size;
        if header_id == 1 {
            let z0 = epos + 4;
            let take_u = uncompressed_32 == 0xFFFFFFFF && z0 + 8 <= end;
            let z1 = if take_u {
                z0 + 8
            } else {
                z0
            };
            let take_c = compressed_32 == 0xFFFFFFFF && z1 + 8 <= end;
            let z2 = if take_c {
                z1 + 8
            } else {
                z1
            };
            let take_o = offset_32 == 0xFFFFFFFF && z2 + 8 <= end;
            if (take_u && z0 + 8 > extra.len()) || (take_c && z1 + 8 > extra.len()) || (take_o
                && z2 + 8 > extra.len()) {
                None
            } else {
                Some(
                    (
                        if take_u {
                            le64(extra, z0) as u64
                        } else {
                            uncompressed_32 as u64
                        },
                        if take_c {
                            le64(extra, z1) as u64
                        } else {
                            compressed_32 as u64
                        },
                        if take_o {
                            le64(extra, z2) as u64
                        } else {
                            offset_32 as u64
                        },
                    ),
                )
            }
        } else if end + 4 > extra.len() {
            Some((uncompressed_32 as u64, compressed_32 as u64, offset_32 as u64))
        } else {
            spec_zip64_extra(extra, end, uncompressed_32, compressed_32, offset_32)
        }
    }
}

/// Offset of an entry's data: past the local header at `loh`, its name and
/// its extra field; `None` where no local header is there.
pub open spec fn spec_local_data_offset(file: Seq<u8>, loh: int) -> Option<u64> {
    if loh + 30 > file.len() || le32(file, loh) != local_header_signature() {
        None
    } else {
        let data_offset = loh + 30 + le16(file, loh + 26) + le16(file, loh + 28);
        if data_offset > u64::MAX {
            None
        } else {
            Some(data_offset as u64)
        }
    }
}

/// The central directory entry at `pos` of `cd`, and the position after it.
#[verifier::opaque]
pub open spec fn spec_cd_entry_at(file: Seq<u8>, cd: Seq<u8>, pos: int) -> Option<
    (ParsedEntryView, int),
> {
    if pos < 0 || pos + 46 > cd.len() || le32(cd, pos) != cd_entry_signature() {
        None
    } else {
        let filename_len = le16(cd, pos + 28);
        let extra_len = le16(cd, pos + 30);
        let comment_len = le16(cd, pos + 32);
        let name_end = pos + 46 + filename_len;
        let extra_end = name_end + extra_len;
        if extra_end > cd.len() {
            None
        } else {
            match spec_zip64_extra(
                cd.subrange(name_end, extra_end),
                0,
                le32(cd, pos + 24) as u32,
                le32(cd, pos + 20) as u32,
                le32(cd, pos + 42) as u32,
            ) {
                None => None,
                Some(sizes) => match spec_local_data_offset(file, sizes.2 as int) {
                    None => None,
                    Some(data_offset) => Some(
                        (
                            ParsedEntryView {
                                filename: cd.subrange(pos + 46, name_end),
                                crc32: le32(cd, pos + 16) as u32,
                                uncompressed_size: sizes.0,
                                local_header_offset: sizes.2,
                                data_offset,
                            },
                            extra_end + comment_len,
                        ),
                    ),
                },
            }
        }
    }
}

/// `count` consecutive central directory entries from `pos` of `cd`.
#[verifier::opaque]
pub open spec fn spec_cd_entries(file: Seq<u8>, cd: Seq<u8>, pos: int, count: nat) -> Option<
    Seq<ParsedEntryView>,
>
    decreases count,
{
    if count == 0 {
        Some(Seq::empty())
    } else {
        match spec_cd_entry_at(file, cd, pos) {
            None => None,
            Some((e, next)) => match spec_cd_entries(file, cd, next, (count - 1) as nat) {
                None => None,
                Some(rest) => Some(seq![e] + rest),
            },
        }
    }
}

/// The entries of the central directory of `cd_size` bytes at `cd_offset`.
pub open spec fn spec_parse_central_directory(
    file: Seq<u8>,
    cd_offset: int,
    cd_size: int,
    total_entries: nat,
) -> Option<Seq<ParsedEntryView>> {
    if cd_offset + cd_size > file.len() {
        None
    } else {
        spec_cd_entries(file, file.subrange(cd_offset, cd_offset + cd_size), 0, total_entries)
    }
}

/// Views of parsed entries.
pub open spec fn parsed_views(entries: Seq<ZipParsedEntry>) -> Seq<ParsedEntryView> {
    entries.map_values(|e: ZipParsedEntry| e@)
}

/// Reads the ZIP64 extra field of a central directory entry.
fn parse_zip64_extra(
    extra: &[u8],
    uncompressed_32: u32,
    compressed_32: u32,
    offset_32: u32,
) -> (r: Option<(u64, u64, u64)>)
    ensures
        r == spec_zip64_extra(extra@, 0, uncompressed_32, compressed_32, offset_32),
{
    let len = extra.len();
    let mut epos: usize = 0;
    while epos <= len && len - epos >= 4
        invariant
            len == extra@.len(),
            epos <= len,
            spec_zip64_extra(extra@, 0, uncompressed_32, compressed_32, offset_32)
                == spec_zip64_extra(extra@, epos as int, uncompressed_32, compressed_32, offset_32),
        decreases len - epos,
    {
        let header_id = read_u16_le(extra, epos);
        let data_size = read_u16_le(extra, epos + 2) as usize;
        if header_id == 0x0001 {
            let room = if len - epos - 4 < data_size {
                len - epos - 4
            } else {
                data_size
            };
            let mut zpos = epos + 4;
            let mut uncompressed_size = uncompressed_32 as u64;
            let mut compressed_size = compressed_32 as u64;
            let mut local_header_offset = offset_32 as u64;
            let mut used: usize = 0;
            if uncompressed_32 == 0xFFFFFFFF && 8 <= data_size {
                if room < 8 {
                    return None;
                }
                uncompressed_size = read_u64_le(extra, zpos);
                zpos = zpos + 8;
                used = 8;
            }
            if compressed_32 == 0xFFFFFFFF && used + 8 <= data_size {
                if room < used + 8 {
                    return None;
                }
                compressed_size = read_u64_le(extra, zpos);
                zpos = zpos + 8;
                used = used + 8;
            }
            if offset_32 == 0xFFFFFFFF && used + 8 <= data_size {
                if room < used + 8 {
                    return None;
                }
                local_header_offset = read_u64_le(extra, zpos);
            }
            return Some((uncompressed_size, compressed_size, local_header_offset));
        }
        if len - epos - 4 < data_size || len - epos - 4 - data_size < 4 {
            return Some((uncompressed_32 as u64, compressed_32 as u64, offset_32 as u64));
        }
        epos = epos + 4 + data_size;
    }
    Some((uncompressed_32 as u64, compressed_32 as u64, offset_32 as u64))
}

/// Offset of an entry's data, read from its local header.
fn local_data_offset(file: &[u8], local_header_offset: u64) -> (r: Option<u64>)
    ensures
        r == spec_local_data_offset(file@, local_header_offset as int),
{
    let len = file.len();
    if local_header_offset > len as u64 || (len as u64) - local_header_offset < 30 {
        return None;
    }
    let loh = local_header_offset as usize;
    if read_u32_le(file, loh) != 0x04034b50 {
        return None;
    }
    let local_filename_len = read_u16_le(file, loh + 26) as u64;
    let local_extra_len = read_u16_le(file, loh + 28) as u64;
    if u64::MAX - local_header_offset - 30 < local_filename_len + local_extra_len {
        return None;
    }
    Some(local_header_offset + 30 + local_filename_len + local_extra_len)
}

/// The central directory entry at `pos`, and the position after it (`None`
/// for a position past any `usize`).
fn parse_cd_entry_at(file: &[u8], cd: &[u8], pos: usize) -> (r: Option<
    (ZipParsedEntry, Option<usize>),
>)
    ensures
        match spec_cd_entry_at(file@, cd@, pos as int) {
            None => r is None,
            Some((e, next)) => r matches Some((pe, n)) && pe@ == e && match n {
                Some(k) => k == next,
                None => next > cd@.len(),
            },
        },
{
    reveal(spec_cd_entry_at);
    let len = cd.len();
    if pos > len || len - pos < 46 {
        return None;
    }
    if read_u32_le(cd, pos) != 0x02014b50 {
        return None;
    }
    let crc32 = read_u32_le(cd, pos + 16);
    let compressed_size_32 = read_u32_le(cd, pos + 20);
    let uncompressed_size_32 = read_u32_le(cd, pos + 24);
    let filename_len = read_u16_le(cd, pos + 28) as usize;
    let extra_len = read_u16_le(cd, pos + 30) as usize;
    let comment_len = read_u16_le(cd, pos + 32) as usize;
    let local_offset_32 = read_u32_le(cd, pos + 42);

    if len - pos - 46 < filename_len || len - pos - 46 - filename_len < extra_len {
        return None;
    }
    let name_end = pos + 46 + filename_len;
    let extra_end = name_end + extra_len;
    let filename = vstd::slice::slice_to_vec(vstd::slice::slice_subrange(cd, pos + 46, name_end));
    let extra_data = vstd::slice::slice_subrange(cd, name_end, extra_end);

    let sizes = parse_zip64_extra(extra_data, uncompressed_size_32, compressed_size_32, local_offset_32);
    match sizes {
        None => None,
        Some((uncompressed_size, _compressed_size, local_header_offset)) => {
            match local_data_offset(file, local_header_offset) {
                None => None,
                Some(data_offset) => {
                    let next = if comment_len <= len - extra_end {
                        Some(extra_end + comment_len)
                    } else {
                        None
                    };
                    Some(
                        (
                            ZipParsedEntry {
                                filename,
                                crc32,
                                uncompressed_size,
                                local_header_offset,
                                data_offset,
                            },
                            next,
                        ),
                    )
                },
            }
        },
    }
}

/// One entry, then the rest: how `count` entries unfold from `pos`.
proof fn lemma_cd_entries_step(file: Seq<u8>, cd: Seq<u8>, pos: int, count: nat)
    requires
        count > 0,
    ensures
        spec_cd_entry_at(file, cd, pos) matches Some((e, next)) ==> spec_cd_entries(
            file,
            cd,
            pos,
            count,
        ) == prepend_entries(
            seq![e],
            spec_cd_entries(file, cd, next, (count - 1) as nat),
        ),
        spec_cd_entry_at(file, cd, pos) is None ==> spec_cd_entries(file, cd, pos, count) is None,
{
    reveal(spec_cd_entries);
}

/// Nothing is read past the end of the directory.
proof fn lemma_cd_entries_past_end(file: Seq<u8>, cd: Seq<u8>, pos: int, count: nat)
    requires
        count > 0,
        pos > cd.len(),
    ensures
        spec_cd_entries(file, cd, pos, count) is None,
{
    reveal(spec_cd_entry_at);
    lemma_cd_entries_step(file, cd, pos, count);
}

/// `count` consecutive central directory entries from the start of `cd`.
fn parse_cd_entries(file_data: &[u8], cd: &[u8], count: u64) -> (r: Option<Vec<ZipParsedEntry>>)
    ensures
        match r {
            Some(v) => spec_cd_entries(file_data@, cd@, 0, count as nat) == Some(parsed_views(v@)),
            None => spec_cd_entries(file_data@, cd@, 0, count as nat) is None,
        },
{
    let mut entries: Vec<ZipParsedEntry> = Vec::new();
    let mut pos: usize = 0;
    let mut past_end = false;
    let mut done: u64 = 0;
    let ghost cur: int = 0;
    assert forall|r: Seq<ParsedEntryView>| Seq::<ParsedEntryView>::empty() + r == r by {
        assert(Seq::<ParsedEntryView>::empty() + r =~= r);
    }

    while done < count
        invariant
            done <= count,
            cur == if past_end { cd@.len() + 1int } else { pos as int },
            spec_cd_entries(file_data@, cd@, 0, count as nat) == prepend_entries(
                parsed_views(entries@),
                spec_cd_entries(file_data@, cd@, cur, (count - done) as nat),
            ),
        decreases count - done,
    {
        if past_end {
            proof {
                lemma_cd_entries_past_end(file_data@, cd@, cur, (count - done) as nat);
            }
            return None;
        }
        proof {
            lemma_cd_entries_step(file_data@, cd@, cur, (count - done) as nat);
        }
        match parse_cd_entry_at(file_data, cd, pos) {
            None => {
                return None;
            },
            Some((entry, next)) => {
                let ghost before = parsed_views(entries@);
                let ghost after = spec_cd_entry_at(file_data@, cd@, cur).unwrap().1;
                entries.push(entry);
                proof {
                    assert(parsed_views(entries@) =~= before.push(entry@));
                    let rest = spec_cd_entries(file_data@, cd@, after, (count - done - 1) as nat);
                    if let Some(r) = rest {
                        assert(before + (seq![entry@] + r) =~= before.push(entry@) + r);
                    }
                    cur = after;
                }
                match next {
                    Some(k) => {
                        pos = k;
                    },
                    None => {
                        pos = cd.len();
                        past_end = true;
                        proof {
                            if count - done - 1 > 0 {
                                lemma_cd_entries_past_end(
                                    file_data@,
                                    cd@,
                                    cur,
                                    (count - done - 1) as nat,
                                );
                                lemma_cd_entries_past_end(
                                    file_data@,
                                    cd@,
                                    cd@.len() + 1int,
                                    (count - done - 1) as nat,
                                );
                            } else {
                                reveal(spec_cd_entries);
                            }
                            cur = cd@.len() + 1int;
                        }
                    },
                }
                done = done + 1;
            },
        }
    }
    proof {
        reveal(spec_cd_entries);
        assert(parsed_views(entries@) + Seq::<ParsedEntryView>::empty() =~= parsed_views(entries@));
    }
    Some(entries)
}

/// Parse central directory entries and compute data offsets from local
/// headers, or `None` where the directory is malformed.
pub fn try_parse_central_directory(
    file_data: &[u8],
    cd_offset: u64,
    cd_size: u64,
    total_entries: u64,
) -> (r: Option<Vec<ZipParsedEntry>>)
    ensures
        match r {
            Some(v) => spec_parse_central_directory(
                file_data@,
                cd_offset as int,
                cd_size as int,
                total_entries as nat,
            ) == Some(parsed_views(v@)),
            None => spec_parse_central_directory(
                file_data@,
                cd_offset as int,
                cd_size as int,
                total_entries as nat,
            ) is None,
        },
{
    let len = file_data.len();
    if cd_offset > len as u64 || (len as u64) - cd_offset < cd_size {
        return None;
    }
    let cd = vstd::slice::slice_subrange(
        file_data,
        cd_offset as usize,
        (cd_offset + cd_size) as usize,
    );
    parse_cd_entries(file_data, cd, total_entries)
}

/// `acc` followed by the entries of `rest`, where there are any.
pub open spec fn prepend_entries(acc: Seq<ParsedEntryView>, rest: Option<Seq<ParsedEntryView>>) -> Option<
    Seq<ParsedEntryView>,
> {
    match rest {
        None => None,
        Some(r) => Some(acc + r),
    }
}

/// Parse central directory entries and compute data offsets from local headers.
pub fn parse_central_directory(
    file_data: &[u8],
    cd_offset: u64,
    cd_size: u64,
    total_entries: u64,
) -> (r: Vec<ZipParsedEntry>)
    requires
        spec_parse_central_directory(
            file_data@,
            cd_offset as int,
            cd_size as int,
            total_entries as nat,
        ) is Some,
    ensures
        spec_parse_central_directory(
            file_data@,
            cd_offset as int,
            cd_size as int,
            total_entries as nat,
        ) == Some(parsed_views(r@)),
{
    try_parse_central_directory(file_data, cd_offset, cd_size, total_entries).unwrap()
}

// ===== Reading back the records that the planner writes =====

/// `piece` sits in `s` at `off`.
pub open spec fn holds_at(s: Seq<u8>, off: int, piece: Seq<u8>) -> bool {
    0 <= off && off + piece.len() <= s.len() && s.subrange(off, off + piece.len()) == piece
}

proof fn lemma_holds_le16(s: Seq<u8>, off: int, whole: Seq<u8>, k: int, x: int)
    requires
        holds_at(s, off, whole),
        0 <= k,
        k + 2 <= whole.len(),
        whole.subrange(k, k + 2) == u16_le_bytes(x),
        0 <= x < 0x1_0000,
    ensures
        le16(s, off + k) == x,
{
    assert(s.subrange(off + k, off + k + 2) =~= whole.subrange(k, k + 2));
    lemma_le16_of(s, off + k, x);
}

proof fn lemma_holds_le32(s: Seq<u8>, off: int, whole: Seq<u8>, k: int, x: int)
    requires
        holds_at(s, off, whole),
        0 <= k,
        k + 4 <= whole.len(),
        whole.subrange(k, k + 4) == u32_le_bytes(x),
        0 <= x < 0x1_0000_0000,
    ensures
        le32(s, off + k) == x,
{
    assert(s.subrange(off + k, off + k + 4) =~= whole.subrange(k, k + 4));
    lemma_le32_of(s, off + k, x);
}

proof fn lemma_holds_le64(s: Seq<u8>, off: int, whole: Seq<u8>, k: int, x: int)
    requires
        holds_at(s, off, whole),
        0 <= k,
        k + 8 <= whole.len(),
        whole.subrange(k, k + 8) == u64_le_bytes(x),
        0 <= x < 0x1_0000_0000_0000_0000,
    ensures
        le64(s, off + k) == x,
{
    assert(s.subrange(off + k, off + k + 8) =~= whole.subrange(k, k + 8));
    lemma_le64_of(s, off + k, x);
}

/// The fields that a reader takes from an end of central directory record.
proof fn lemma_eocd_fields(s: Seq<u8>, at: int, count: int, cd_size: int, cd_offset: int)
    requires
        holds_at(s, at, spec_eocd(count, cd_size, cd_offset)),
        0 <= count,
        0 <= cd_size,
        0 <= cd_offset,
    ensures
        le32(s, at) == eocd_signature(),
        le16(s, at + 8) == capped(count, 0xFFFF),
        le32(s, at + 12) == capped(cd_size, 0xFFFFFFFF),
        le32(s, at + 16) == capped(cd_offset, 0xFFFFFFFF),
{
    reveal(spec_eocd);
    let w = spec_eocd(count, cd_size, cd_offset);
    assert(w.subrange(0, 4) =~= u32_le_bytes(0x06054b50));
    assert(w.subrange(8, 10) =~= u16_le_bytes(capped(count, 0xFFFF)));
    assert(w.subrange(12, 16) =~= u32_le_bytes(capped(cd_size, 0xFFFFFFFF)));
    assert(w.subrange(16, 20) =~= u32_le_bytes(capped(cd_offset, 0xFFFFFFFF)));
    lemma_holds_le32(s, at, w, 0, 0x06054b50);
    lemma_holds_le16(s, at, w, 8, capped(count, 0xFFFF));
    lemma_holds_le32(s, at, w, 12, capped(cd_size, 0xFFFFFFFF));
    lemma_holds_le32(s, at, w, 16, capped(cd_offset, 0xFFFFFFFF));
}

/// The fields that a reader takes from a ZIP64 locator.
proof fn lemma_locator_fields(s: Seq<u8>, at: int, zip64_eocd_offset: int)
    requires
        holds_at(s, at, spec_zip64_locator(zip64_eocd_offset)),
        0 <= zip64_eocd_offset <= u64::MAX,
    ensures
        le32(s, at) == zip64_locator_signature(),
        le64(s, at + 8) == zip64_eocd_offset,
{
    reveal(spec_zip64_locator);
    let w = spec_zip64_locator(zip64_eocd_offset);
    assert(w.subrange(0, 4) =~= u32_le_bytes(0x07064b50));
    assert(w.subrange(8, 16) =~= u64_le_bytes(zip64_eocd_offset));
    lemma_holds_le32(s, at, w, 0, 0x07064b50);
    lemma_holds_le64(s, at, w, 8, zip64_eocd_offset);
}

/// The fields that a reader takes from a ZIP64 end of central directory record.
proof fn lemma_zip64_eocd_fields(s: Seq<u8>, at: int, count: int, cd_size: int, cd_offset: int)
    requires
        holds_at(s, at, spec_zip64_eocd(count, cd_size, cd_offset)),
        0 <= count <= u64::MAX,
        0 <= cd_size <= u64::MAX,
        0 <= cd_offset <= u64::MAX,
    ensures
        le32(s, at) == zip64_eocd_signature(),
        le64(s, at + 32) == count,
        le64(s, at + 40) == cd_size,
        le64(s, at + 48) == cd_offset,
{
    reveal(spec_zip64_eocd);
    let w = spec_zip64_eocd(count, cd_size, cd_offset);
    assert(w.subrange(0, 4) =~= u32_le_bytes(0x06064b50));
    assert(w.subrange(32, 40) =~= u64_le_bytes(count));
    assert(w.subrange(40, 48) =~= u64_le_bytes(cd_size));
    assert(w.subrange(48, 56) =~= u64_le_bytes(cd_offset));
    lemma_holds_le32(s, at, w, 0, 0x06064b50);
    lemma_holds_le64(s, at, w, 32, count);
    lemma_holds_le64(s, at, w, 40, cd_size);
    lemma_holds_le64(s, at, w, 48, cd_offset);
}

/// Law: in a file that ends with the end records written for a central
/// directory at `cd_offset` (the length of what precedes them), a reader
/// finds the end record in the last 22 bytes and reads back the directory's
/// offset, size and entry count, whichever record it has to take them from.
pub proof fn lemma_end_records_read_back(prefix: Seq<u8>, entries: Seq<ZipEntryView>)
    requires
        entries.len() <= u64::MAX,
        prefix.len() + spec_cd_bytes(entries).len() <= u64::MAX,
    ensures
        ({
            let file = prefix + spec_end_records(entries, prefix.len() as int);
            &&& spec_find_eocd(file) == Some(file.len() - 22)
            &&& spec_parse_eocd(file, file.len() - 22) == Some(
                (
                    prefix.len() as u64,
                    spec_cd_bytes(entries).len() as u64,
                    entries.len() as u64,
                ),
            )
        }),
{
    let cd = spec_cd_bytes(entries);
    let n = entries.len() as int;
    let cd_offset = prefix.len() as int;
    let cd_size = cd.len() as int;
    let file = prefix + spec_end_records(entries, cd_offset);
    assert(file == (prefix + cd) + spec_zip64_eocd(n, cd_size, cd_offset) + spec_zip64_locator(
        cd_offset + cd_size,
    ) + spec_eocd(n, cd_size, cd_offset)) by {
        reveal(spec_end_records);
        assert(prefix + spec_end_records(entries, cd_offset) =~= (prefix + cd) + spec_zip64_eocd(
            n,
            cd_size,
            cd_offset,
        ) + spec_zip64_locator(cd_offset + cd_size) + spec_eocd(n, cd_size, cd_offset));
    }
    lemma_end_records_layout(prefix, cd, n, cd_offset, cd_size, file);
    let e_at = file.len() - 22;
    lemma_eocd_fields(file, e_at, n, cd_size, cd_offset);
    lemma_locator_fields(file, e_at - 20, cd_offset + cd_size);
    lemma_zip64_eocd_fields(file, cd_offset + cd_size, n, cd_size, cd_offset);
    assert(spec_find_eocd(file) == Some(e_at)) by {
        assert(eocd_scan_start(file.len() as int) <= e_at);
    }
    lemma_parse_eocd_from_fields(file, e_at, n, cd_size, cd_offset);
}

proof fn lemma_end_records_layout(
    prefix: Seq<u8>,
    cd: Seq<u8>,
    n: int,
    cd_offset: int,
    cd_size: int,
    file: Seq<u8>,
)
    requires
        cd_offset == prefix.len(),
        cd_size == cd.len(),
        file == (prefix + cd) + spec_zip64_eocd(n, cd_size, cd_offset) + spec_zip64_locator(
            cd_offset + cd_size,
        ) + spec_eocd(n, cd_size, cd_offset),
    ensures
        file.len() == cd_offset + cd_size + 98,
        holds_at(file, file.len() - 22, spec_eocd(n, cd_size, cd_offset)),
        holds_at(file, file.len() - 42, spec_zip64_locator(cd_offset + cd_size)),
        holds_at(file, cd_offset + cd_size, spec_zip64_eocd(n, cd_size, cd_offset)),
{
    lemma_end_record_lengths(n, cd_size, cd_offset);
    lemma_tail_pieces(
        prefix + cd,
        spec_zip64_eocd(n, cd_size, cd_offset),
        spec_zip64_locator(cd_offset + cd_size),
        spec_eocd(n, cd_size, cd_offset),
    );
}

/// Where the last three pieces of a concatenation sit.
proof fn lemma_tail_pieces(a: Seq<u8>, b: Seq<u8>, c: Seq<u8>, d: Seq<u8>)
    ensures
        holds_at(a + b + c + d, a.len() as int, b),
        holds_at(a + b + c + d, (a.len() + b.len()) as int, c),
        holds_at(a + b + c + d, (a.len() + b.len() + c.len()) as int, d),
{
    let s = a + b + c + d;
    let i = a.len() as int;
    let j = i + b.len();
    let k = j + c.len();
    assert(s.subrange(i, j) =~= b);
    assert(s.subrange(j, k) =~= c);
    assert(s.subrange(k, s.len() as int) =~= d);
}

proof fn lemma_parse_eocd_from_fields(file: Seq<u8>, e_at: int, n: int, cd_size: int, cd_offset: int)
    requires
        0 <= n <= u64::MAX,
        0 <= cd_size,
        0 <= cd_offset,
        cd_offset + cd_size <= u64::MAX,
        e_at == file.len() - 22,
        e_at == cd_offset + cd_size + 76,
        le16(file, e_at + 8) == capped(n, 0xFFFF),
        le32(file, e_at + 12) == capped(cd_size, 0xFFFFFFFF),
        le32(file, e_at + 16) == capped(cd_offset, 0xFFFFFFFF),
        le32(file, e_at - 20) == zip64_locator_signature(),
        le64(file, e_at - 12) == cd_offset + cd_size,
        le32(file, cd_offset + cd_size) == zip64_eocd_signature(),
        le64(file, cd_offset + cd_size + 32) == n,
        le64(file, cd_offset + cd_size + 40) == cd_size,
        le64(file, cd_offset + cd_size + 48) == cd_offset,
    ensures
        spec_parse_eocd(file, e_at) == Some((cd_offset as u64, cd_size as u64, n as u64)),
{
}


/// What a reader gets back for an entry written to the central directory:
/// its data follows a local header of 30 bytes, the name and a 20-byte extra field.
pub open spec fn read_back_view(e: ZipEntryView) -> ParsedEntryView {
    ParsedEntryView {
        filename: e.filename,
        crc32: e.crc32,
        uncompressed_size: e.uncompressed_size,
        local_header_offset: e.local_header_offset,
        data_offset: (e.local_header_offset + 30 + e.filename.len() + 20) as u64,
    }
}

/// A local file header at `loh` of `file` for a name of `name_len` bytes and
/// a 20-byte extra field.
pub open spec fn local_header_at(file: Seq<u8>, loh: int, name_len: int) -> bool {
    &&& loh + 30 <= file.len()
    &&& le32(file, loh) == local_header_signature()
    &&& le16(file, loh + 26) == name_len
    &&& le16(file, loh + 28) == 20
}

/// An entry whose local header a reader can find in `file`.
pub open spec fn entry_readable(file: Seq<u8>, e: ZipEntryView) -> bool {
    &&& e.filename.len() < 0x1_0000
    &&& local_header_at(file, e.local_header_offset as int, e.filename.len() as int)
    &&& e.local_header_offset + 30 + e.filename.len() + 20 <= u64::MAX
}

/// Law: a local file header written for a name shorter than 2^16 bytes is
/// recognised where it stands, with that name's length and a 20-byte extra field.
pub proof fn lemma_local_header_read_back(
    file: Seq<u8>,
    loh: int,
    filename: Seq<u8>,
    crc32: u32,
    method: u16,
    compressed_size: u64,
    uncompressed_size: u64,
)
    requires
        holds_at(
            file,
            loh,
            spec_local_file_header(filename, crc32, method, compressed_size, uncompressed_size),
        ),
        filename.len() < 0x1_0000,
    ensures
        local_header_at(file, loh, filename.len() as int),
{
    reveal(spec_local_file_header);
    let w = spec_local_file_header(filename, crc32, method, compressed_size, uncompressed_size);
    assert(w.subrange(0, 4) =~= u32_le_bytes(0x04034b50));
    assert(w.subrange(26, 28) =~= u16_le_bytes(filename.len() as int));
    assert(w.subrange(28, 30) =~= u16_le_bytes(20));
    lemma_holds_le32(file, loh, w, 0, 0x04034b50);
    lemma_holds_le16(file, loh, w, 26, filename.len() as int);
    lemma_holds_le16(file, loh, w, 28, 20);
}

/// The central directory, taken from its first entry on.
proof fn lemma_cd_bytes_front(entries: Seq<ZipEntryView>)
    requires
        entries.len() > 0,
    ensures
        spec_cd_bytes(entries) == spec_cd_entry(entries[0]) + spec_cd_bytes(entries.drop_first()),
    decreases entries.len(),
{
    if entries.len() == 1 {
        assert(entries.drop_last() =~= Seq::<ZipEntryView>::empty());
        assert(entries.drop_first() =~= Seq::<ZipEntryView>::empty());
        assert(spec_cd_bytes(entries) =~= spec_cd_entry(entries[0]) + spec_cd_bytes(
            entries.drop_first(),
        ));
    } else {
        let init = entries.drop_last();
        lemma_cd_bytes_front(init);
        assert(init.drop_first() =~= entries.drop_first().drop_last());
        assert(entries.drop_first().last() == entries.last());
        assert(init[0] == entries[0]);
        assert(spec_cd_bytes(entries) =~= spec_cd_entry(entries[0]) + spec_cd_bytes(
            entries.drop_first(),
        ));
    }
}

/// The fixed part of one written central directory entry, as a reader takes it.
#[verifier::rlimit(40)]
proof fn lemma_cd_fixed_fields(cd: Seq<u8>, pos: int, e: ZipEntryView)
    requires
        holds_at(cd, pos, spec_cd_fixed(e)),
        e.filename.len() < 0x1_0000,
    ensures
        pos + 46 <= cd.len(),
        le32(cd, pos) == cd_entry_signature(),
        le32(cd, pos + 16) == e.crc32,
        le32(cd, pos + 20) == 0xFFFFFFFF,
        le32(cd, pos + 24) == 0xFFFFFFFF,
        le16(cd, pos + 28) == e.filename.len(),
        le16(cd, pos + 30) == 28,
        le16(cd, pos + 32) == 0,
        le32(cd, pos + 42) == 0xFFFFFFFF,
{
    let f = spec_cd_fixed(e);
    reveal(spec_cd_fixed);
    let n = e.filename.len() as int;
    assert(f.subrange(0, 4) =~= u32_le_bytes(0x02014b50));
    assert(f.subrange(16, 20) =~= u32_le_bytes(e.crc32 as int));
    assert(f.subrange(20, 24) =~= u32_le_bytes(0xFFFFFFFF));
    assert(f.subrange(24, 28) =~= u32_le_bytes(0xFFFFFFFF));
    assert(f.subrange(28, 30) =~= u16_le_bytes(n));
    assert(f.subrange(30, 32) =~= u16_le_bytes(28));
    assert(f.subrange(32, 34) =~= u16_le_bytes(0));
    assert(f.subrange(42, 46) =~= u32_le_bytes(0xFFFFFFFF));
    lemma_holds_le32(cd, pos, f, 0, 0x02014b50);
    lemma_holds_le32(cd, pos, f, 16, e.crc32 as int);
    lemma_holds_le32(cd, pos, f, 20, 0xFFFFFFFF);
    lemma_holds_le32(cd, pos, f, 24, 0xFFFFFFFF);
    lemma_holds_le16(cd, pos, f, 28, n);
    lemma_holds_le16(cd, pos, f, 30, 28);
    lemma_holds_le16(cd, pos, f, 32, 0);
    lemma_holds_le32(cd, pos, f, 42, 0xFFFFFFFF);
}

/// The fields of one written central directory entry, as a reader takes them.
proof fn lemma_cd_entry_fields(cd: Seq<u8>, pos: int, e: ZipEntryView)
    requires
        holds_at(cd, pos, spec_cd_entry(e)),
        e.filename.len() < 0x1_0000,
    ensures
        pos + 46 <= cd.len(),
        le32(cd, pos) == cd_entry_signature(),
        le32(cd, pos + 16) == e.crc32,
        le32(cd, pos + 20) == 0xFFFFFFFF,
        le32(cd, pos + 24) == 0xFFFFFFFF,
        le16(cd, pos + 28) == e.filename.len(),
        le16(cd, pos + 30) == 28,
        le16(cd, pos + 32) == 0,
        le32(cd, pos + 42) == 0xFFFFFFFF,
        cd.subrange(pos + 46, pos + 46 + e.filename.len()) == e.filename,
        cd.subrange(pos + 46 + e.filename.len(), pos + 74 + e.filename.len()) == spec_cd_extra(e),
{
    lemma_cd_entry_len(e);
    reveal(spec_cd_entry);
    let w = spec_cd_entry(e);
    let f = spec_cd_fixed(e);
    let n = e.filename.len() as int;
    assert(w.subrange(0, 46) =~= f);
    assert(holds_at(cd, pos, f)) by {
        assert(cd.subrange(pos, pos + 46) =~= w.subrange(0, 46));
    }
    lemma_cd_fixed_fields(cd, pos, e);
    assert(cd.subrange(pos + 46, pos + 46 + n) =~= w.subrange(46, 46 + n));
    assert(w.subrange(46, 46 + n) =~= e.filename);
    assert(cd.subrange(pos + 46 + n, pos + 74 + n) =~= w.subrange(46 + n, 74 + n));
    assert(w.subrange(46 + n, 74 + n) =~= spec_cd_extra(e));
}

/// The ZIP64 extra field written for an entry gives back its sizes and offset.
#[verifier::rlimit(40)]
proof fn lemma_cd_extra_read_back(e: ZipEntryView)
    ensures
        spec_zip64_extra(spec_cd_extra(e), 0, 0xFFFFFFFF, 0xFFFFFFFF, 0xFFFFFFFF) == Some(
            (e.uncompressed_size, e.compressed_size, e.local_header_offset),
        ),
{
    reveal(spec_cd_extra);
    let x = spec_cd_extra(e);
    assert(x.subrange(0, 2) =~= u16_le_bytes(1));
    assert(x.subrange(2, 4) =~= u16_le_bytes(24));
    assert(x.subrange(4, 12) =~= u64_le_bytes(e.uncompressed_size as int));
    assert(x.subrange(12, 20) =~= u64_le_bytes(e.compressed_size as int));
    assert(x.subrange(20, 28) =~= u64_le_bytes(e.local_header_offset as int));
    lemma_le16_of(x, 0, 1);
    lemma_le16_of(x, 2, 24);
    lemma_le64_of(x, 4, e.uncompressed_size as int);
    lemma_le64_of(x, 12, e.compressed_size as int);
    lemma_le64_of(x, 20, e.local_header_offset as int);
}

/// One written central directory entry reads back as `read_back_view`.
proof fn lemma_cd_entry_read_back(file: Seq<u8>, cd: Seq<u8>, pos: int, e: ZipEntryView)
    requires
        holds_at(cd, pos, spec_cd_entry(e)),
        entry_readable(file, e),
    ensures
        spec_cd_entry_at(file, cd, pos) == Some(
            (read_back_view(e), pos + 74 + e.filename.len()),
        ),
{
    lemma_cd_entry_len(e);
    lemma_cd_entry_fields(cd, pos, e);
    lemma_cd_extra_read_back(e);
    reveal(spec_cd_entry_at);
    let n = e.filename.len() as int;
    let name_end = pos + 46 + n;
    let extra_end = name_end + 28;
    assert(extra_end <= cd.len());
    assert(le32(cd, pos + 24) as u32 == 0xFFFFFFFFu32);
    assert(le32(cd, pos + 20) as u32 == 0xFFFFFFFFu32);
    assert(le32(cd, pos + 42) as u32 == 0xFFFFFFFFu32);
    assert(spec_zip64_extra(
        cd.subrange(name_end, extra_end),
        0,
        le32(cd, pos + 24) as u32,
        le32(cd, pos + 20) as u32,
        le32(cd, pos + 42) as u32,
    ) == Some((e.uncompressed_size, e.compressed_size, e.local_header_offset)));
    assert(spec_local_data_offset(file, e.local_header_offset as int) == Some(
        (e.local_header_offset + 30 + n + 20) as u64,
    ));
}

/// Entries written one after another from `pos` read back in order.
proof fn lemma_cd_entries_read_back(
    file: Seq<u8>,
    cd: Seq<u8>,
    pos: int,
    entries: Seq<ZipEntryView>,
)
    requires
        holds_at(cd, pos, spec_cd_bytes(entries)),
        forall|i: int| 0 <= i < entries.len() ==> entry_readable(file, #[trigger] entries[i]),
    ensures
        spec_cd_entries(file, cd, pos, entries.len()) == Some(
            entries.map_values(|e: ZipEntryView| read_back_view(e)),
        ),
    decreases entries.len(),
{
    reveal(spec_cd_entries);
    if entries.len() == 0 {
        assert(entries.map_values(|e: ZipEntryView| read_back_view(e)) =~= Seq::<
            ParsedEntryView,
        >::empty());
    } else {
        let e = entries[0];
        let rest = entries.drop_first();
        lemma_cd_bytes_front(entries);
        lemma_cd_entry_len(e);
        let l = spec_cd_entry(e).len() as int;
        let whole = spec_cd_bytes(entries);
        assert(whole.len() == l + spec_cd_bytes(rest).len());
        assert(holds_at(cd, pos, spec_cd_entry(e))) by {
            assert(cd.subrange(pos, pos + l) =~= whole.subrange(0, l));
            assert(whole.subrange(0, l) =~= spec_cd_entry(e));
        }
        assert(holds_at(cd, pos + l, spec_cd_bytes(rest))) by {
            assert(cd.subrange(pos + l, pos + whole.len()) =~= whole.subrange(
                l,
                whole.len() as int,
            ));
            assert(whole.subrange(l, whole.len() as int) =~= spec_cd_bytes(rest));
        }
        assert(entry_readable(file, entries[0]));
        lemma_cd_entry_read_back(file, cd, pos, e);
        assert forall|i: int| 0 <= i < rest.len() implies entry_readable(file, #[trigger] rest[i]) by {
            assert(rest[i] == entries[i + 1]);
        }
        lemma_cd_entries_read_back(file, cd, pos + l, rest);
        assert(entries.map_values(|e: ZipEntryView| read_back_view(e)) =~= seq![read_back_view(e)]
            + rest.map_values(|e: ZipEntryView| read_back_view(e)));
    }
}

/// Law: in a file made of what precedes the central directory and the end
/// records written after it, the central directory found at the offset and
/// size the end records give reads back every entry in order: name, CRC-32,
/// uncompressed size, local header offset, and the data offset just past its
/// local header. This holds for entries whose names are shorter than 2^16
/// bytes and whose local headers stand at the offsets the entries record.
pub proof fn lemma_central_directory_read_back(prefix: Seq<u8>, entries: Seq<ZipEntryView>)
    requires
        entries.len() <= u64::MAX,
        prefix.len() + spec_cd_bytes(entries).len() <= u64::MAX,
        forall|i: int|
            0 <= i < entries.len() ==> entry_readable(
                prefix + spec_end_records(entries, prefix.len() as int),
                #[trigger] entries[i],
            ),
    ensures
        spec_parse_central_directory(
            prefix + spec_end_records(entries, prefix.len() as int),
            prefix.len() as int,
            spec_cd_bytes(entries).len() as int,
            entries.len(),
        ) == Some(entries.map_values(|e: ZipEntryView| read_back_view(e))),
{
    let file = prefix + spec_end_records(entries, prefix.len() as int);
    let cd = spec_cd_bytes(entries);
    let n = entries.len() as int;
    assert(file == (prefix + cd) + spec_zip64_eocd(n, cd.len() as int, prefix.len() as int)
        + spec_zip64_locator((prefix.len() + cd.len()) as int) + spec_eocd(
        n,
        cd.len() as int,
        prefix.len() as int,
    )) by {
        reveal(spec_end_records);
        assert(file =~= (prefix + cd) + spec_zip64_eocd(n, cd.len() as int, prefix.len() as int)
            + spec_zip64_locator((prefix.len() + cd.len()) as int) + spec_eocd(
            n,
            cd.len() as int,
            prefix.len() as int,
        ));
    }
    let start = prefix.len() as int;
    let stop = start + cd.len();
    assert(file.subrange(start, stop) =~= cd);
    assert(holds_at(cd, 0, cd)) by {
        assert(cd.subrange(0, cd.len() as int) =~= cd);
    }
    lemma_cd_entries_read_back(file, file.subrange(start, stop), 0, entries);
}


// ===== Reading a whole directory =====

/// The entries of the ZIP directory at the end of `file`, found through its
/// end records; `None` where any step fails.
pub open spec fn spec_read_zip_directory(file: Seq<u8>) -> Option<Seq<ParsedEntryView>> {
    match spec_find_eocd(file) {
        None => None,
        Some(eocd) => match spec_parse_eocd(file, eocd) {
            None => None,
            Some((cd_offset, cd_size, total_entries)) => spec_parse_central_directory(
                file,
                cd_offset as int,
                cd_size as int,
                total_entries as nat,
            ),
        },
    }
}

/// Finds the end records, then the central directory, and reads its entries.
pub fn read_zip_directory(file_data: &[u8]) -> (r: Option<Vec<ZipParsedEntry>>)
    ensures
        match r {
            Some(v) => spec_read_zip_directory(file_data@) == Some(parsed_views(v@)),
            None => spec_read_zip_directory(file_data@) is None,
        },
{
    let eocd_offset = match find_eocd(file_data) {
        Some(i) => i,
        None => {
            return None;
        },
    };
    let (cd_offset, cd_size, total_entries) = match try_parse_eocd(file_data, eocd_offset) {
        Some(t) => t,
        None => {
            return None;
        },
    };
    try_parse_central_directory(file_data, cd_offset, cd_size, total_entries)
}

/// Law: a reader of a file that ends with the end records written for a
/// central directory placed right after `prefix` gets back every entry in
/// order, each with the data offset just past its local header; this holds
/// for entries whose names are shorter than 2^16 bytes and whose local
/// headers stand at the offsets that the entries record.
pub proof fn lemma_zip_directory_read_back(prefix: Seq<u8>, entries: Seq<ZipEntryView>)
    requires
        entries.len() <= u64::MAX,
        prefix.len() + spec_cd_bytes(entries).len() <= u64::MAX,
        forall|i: int|
            0 <= i < entries.len() ==> entry_readable(
                prefix + spec_end_records(entries, prefix.len() as int),
                #[trigger] entries[i],
            ),
    ensures
        spec_read_zip_directory(prefix + spec_end_records(entries, prefix.len() as int)) == Some(
            entries.map_values(|e: ZipEntryView| read_back_view(e)),
        ),
{
    lemma_end_records_read_back(prefix, entries);
    lemma_central_directory_read_back(prefix, entries);
}

// ===== Checking listed sources against the directory =====

/// What checking one listed source file found.
pub enum SourceCheck {
    /// Size, CRC-32 and SHA-256 all agree.
    Valid,
    /// No ZIP entry has its data at the listed offset.
    NoEntry,
    /// The ZIP entry's size differs from the listed length.
    SizeMismatch { zip_size: u64 },
    /// The data's CRC-32 differs from the ZIP entry's.
    CrcMismatch { zip_crc32: u32, actual_crc32: u32 },
    /// The data's SHA-256 differs from the listed one.
    ShaMismatch { actual_sha256: String },
}

/// The last entry whose data starts at `offset` (a later entry at the same
/// offset replaces an earlier one).
pub open spec fn spec_entry_at_offset(entries: Seq<ParsedEntryView>, offset: u64) -> Option<
    ParsedEntryView,
>
    decreases entries.len(),
{
    if entries.len() == 0 {
        None
    } else if entries.last().data_offset == offset {
        Some(entries.last())
    } else {
        spec_entry_at_offset(entries.drop_last(), offset)
    }
}

/// The listed range must lie in the file once an entry of that size matches
/// (elsewhere the range is never read).
pub open spec fn source_range_ok(
    file: Seq<u8>,
    entries: Seq<ParsedEntryView>,
    offset: u64,
    length: u64,
) -> bool {
    spec_entry_at_offset(entries, offset) matches Some(e) && e.uncompressed_size == length
        ==> offset + length <= file.len()
}

/// The outcome of checking the source listed at `offset` with `length` and
/// SHA-256 `sha256_hex` against the directory `entries` of `file`.
pub open spec fn spec_check_source(
    file: Seq<u8>,
    entries: Seq<ParsedEntryView>,
    offset: u64,
    length: u64,
    sha256_hex: Seq<char>,
    r: SourceCheck,
) -> bool {
    match spec_entry_at_offset(entries, offset) {
        None => r is NoEntry,
        Some(e) => if e.uncompressed_size != length {
            r == SourceCheck::SizeMismatch { zip_size: e.uncompressed_size }
        } else {
            let data = file.subrange(offset as int, offset + length);
            if crc32(data) != e.crc32 {
                r == SourceCheck::CrcMismatch { zip_crc32: e.crc32, actual_crc32: crc32(data) }
            } else if ascii_chars(lower_hex(sha256(data))) != sha256_hex {
                r matches SourceCheck::ShaMismatch { actual_sha256 } && actual_sha256@
                    == ascii_chars(lower_hex(sha256(data)))
            } else {
                r is Valid
            }
        },
    }
}

/// Index of the last entry whose data starts at `offset`.
fn entry_at_offset(entries: &[ZipParsedEntry], offset: u64) -> (r: Option<usize>)
    ensures
        match r {
            Some(i) => i < entries@.len() && spec_entry_at_offset(parsed_views(entries@), offset)
                == Some(entries@[i as int]@),
            None => spec_entry_at_offset(parsed_views(entries@), offset) is None,
        },
{
    let mut k: usize = entries.len();
    assert(parsed_views(entries@).take(k as int) =~= parsed_views(entries@));
    while k > 0
        invariant
            k <= entries@.len(),
            spec_entry_at_offset(parsed_views(entries@), offset) == spec_entry_at_offset(
                parsed_views(entries@).take(k as int),
                offset,
            ),
        decreases k,
    {
        let i = k - 1;
        proof {
            let t = parsed_views(entries@).take(k as int);
            assert(t.drop_last() =~= parsed_views(entries@).take(i as int));
            assert(t.last() == entries@[i as int]@);
        }
        if entries[i].data_offset == offset {
            return Some(i);
        }
        k = i;
    }
    None
}

/// Checks one listed source file (its data offset, length and SHA-256 in
/// lower-case hex) against the directory entries read from `file_data`.
pub fn check_source(
    file_data: &[u8],
    entries: &[ZipParsedEntry],
    offset: u64,
    length: u64,
    sha256_hex: &String,
) -> (r: SourceCheck)
    requires
        source_range_ok(file_data@, parsed_views(entries@), offset, length),
    ensures
        spec_check_source(file_data@, parsed_views(entries@), offset, length, sha256_hex@, r),
{
    let idx = match entry_at_offset(entries, offset) {
        Some(i) => i,
        None => {
            return SourceCheck::NoEntry;
        },
    };
    let zip_entry = &entries[idx];
    // Verify size
    if zip_entry.uncompressed_size != length {
        return SourceCheck::SizeMismatch { zip_size: zip_entry.uncompressed_size };
    }
    // Verify CRC-32 of the listed bytes
    let _len = file_data.len();
    assert(offset + length <= file_data@.len());
    let data = vstd::slice::slice_subrange(file_data, offset as usize, (offset + length) as usize);
    let actual_crc32 = crc32_hash(data);
    if actual_crc32 != zip_entry.crc32 {
        return SourceCheck::CrcMismatch { zip_crc32: zip_entry.crc32, actual_crc32 };
    }
    // Verify SHA-256
    let digest = sha256_digest(data);
    let actual_sha256 = to_lower_hex(&digest);
    if actual_sha256 != *sha256_hex {
        return SourceCheck::ShaMismatch { actual_sha256 };
    }
    SourceCheck::Valid
}


/// Whether the listed range can be checked: it lies in the file wherever an
/// entry of that size starts at `offset` (elsewhere it is never read).
pub fn source_range_is_ok(file_data: &[u8], entries: &[ZipParsedEntry], offset: u64, length: u64) -> (r:
    bool)
    ensures
        r == source_range_ok(file_data@, parsed_views(entries@), offset, length),
{
    match entry_at_offset(entries, offset) {
        None => true,
        Some(i) => {
            if entries[i].uncompressed_size != length {
                true
            } else {
                (offset as u128) + (length as u128) <= file_data.len() as u128
            }
        },
    }
}

} // verus!
