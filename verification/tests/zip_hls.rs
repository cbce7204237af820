use loomovie::cmd::plan::hls::{bandwidths_ok, generate_master_playlist, StreamInfo};
use loomovie::cmd::plan::zip::{
    entry_name_chunk, entry_name_init, local_file_header_size, make_end_records, make_local_file_header,
    ZipFileEntry,
};
use loomovie::cmd::validate::{
    check_source, find_eocd, parse_central_directory, parse_eocd, read_zip_directory, SourceCheck,
};
use loomovie::cmd::generate::compute_sha256;

fn le16(b: &[u8], at: usize) -> u16 {
    u16::from_le_bytes([b[at], b[at + 1]])
}

fn le32(b: &[u8], at: usize) -> u32 {
    u32::from_le_bytes([b[at], b[at + 1], b[at + 2], b[at + 3]])
}

fn le64(b: &[u8], at: usize) -> u64 {
    let mut a = [0u8; 8];
    a.copy_from_slice(&b[at..at + 8]);
    u64::from_le_bytes(a)
}

#[test]
fn entry_names() {
    assert_eq!(entry_name_init(3), "streams.3/init.m4s");
    assert_eq!(entry_name_chunk(1, 42), "streams.1/chunks/chunk.000042.m4s");
    assert_eq!(entry_name_chunk(0, 0), "streams.0/chunks/chunk.000000.m4s");
    assert_eq!(entry_name_chunk(12, 1234567), "streams.12/chunks/chunk.1234567.m4s");
}

#[test]
fn local_header_size_and_fields() {
    assert_eq!(local_file_header_size(5), 55);
    let h = make_local_file_header(b"a.txt", 0xdeadbeef, 8, 3, 5);
    assert_eq!(h.len(), 55);
    assert_eq!(le32(&h, 0), 0x04034b50);
    assert_eq!(le16(&h, 4), 45);
    assert_eq!(le16(&h, 8), 8);
    assert_eq!(le32(&h, 14), 0xdeadbeef);
    assert_eq!(le32(&h, 18), 0xffff_ffff);
    assert_eq!(le32(&h, 22), 0xffff_ffff);
    assert_eq!(le16(&h, 26), 5);
    assert_eq!(le16(&h, 28), 20);
    assert_eq!(&h[30..35], b"a.txt");
    assert_eq!(le16(&h, 35), 1);
    assert_eq!(le16(&h, 37), 16);
    assert_eq!(le64(&h, 39), 5);
    assert_eq!(le64(&h, 47), 3);
}

fn small_archive() -> (Vec<u8>, Vec<u8>, Vec<u8>) {
    let a = b"hello".to_vec();
    let b = b"zip world!".to_vec();
    let crc_a = 0x3610a686u32;
    let crc_b = 0x1234_5678u32;
    let mut file = Vec::new();
    file.extend_from_slice(&make_local_file_header(b"a.txt", crc_a, 0, 5, 5));
    file.extend_from_slice(&a);
    let second = file.len() as u64;
    file.extend_from_slice(&make_local_file_header(b"dir/b.bin", crc_b, 0, 10, 10));
    file.extend_from_slice(&b);
    let entries = vec![
        ZipFileEntry {
            filename: b"a.txt".to_vec(),
            crc32: crc_a,
            compressed_size: 5,
            uncompressed_size: 5,
            compression_method: 0,
            local_header_offset: 0,
        },
        ZipFileEntry {
            filename: b"dir/b.bin".to_vec(),
            crc32: crc_b,
            compressed_size: 10,
            uncompressed_size: 10,
            compression_method: 0,
            local_header_offset: second,
        },
    ];
    let cd_offset = file.len() as u64;
    let end = make_end_records(&entries, cd_offset);
    file.extend_from_slice(&end);
    (file, a, b)
}

#[test]
fn end_records_read_back() {
    let (file, _, _) = small_archive();
    let eocd = find_eocd(&file).unwrap();
    assert_eq!(eocd, file.len() - 22);
    let (cd_offset, cd_size, total) = parse_eocd(&file, eocd);
    assert_eq!(total, 2);
    // two central directory entries with their ZIP64 extra fields
    assert_eq!(cd_size, (46 + 5 + 28) + (46 + 9 + 28));
    let entries = parse_central_directory(&file, cd_offset, cd_size, total);
    assert_eq!(entries.len(), 2);
    assert_eq!(entries[0].filename, b"a.txt".to_vec());
    assert_eq!(entries[0].uncompressed_size, 5);
    assert_eq!(entries[0].local_header_offset, 0);
    assert_eq!(entries[0].data_offset, 55);
    assert_eq!(entries[1].filename, b"dir/b.bin".to_vec());
    assert_eq!(entries[1].crc32, 0x1234_5678);
    assert_eq!(entries[1].data_offset, 60 + 59);
}

#[test]
fn read_zip_directory_matches_stepwise_reading() {
    let (file, _, _) = small_archive();
    let entries = read_zip_directory(&file).unwrap();
    assert_eq!(entries.len(), 2);
    assert_eq!(entries[1].local_header_offset, 60);
    assert!(read_zip_directory(b"no archive here").is_none());
    assert!(find_eocd(&[0u8; 30]).is_none());
}

#[test]
fn check_source_outcomes() {
    let (file, a, b) = small_archive();
    let entries = read_zip_directory(&file).unwrap();
    let sha_a = compute_sha256(&a);
    assert!(matches!(check_source(&file, &entries, 55, 5, &sha_a), SourceCheck::Valid));
    assert!(matches!(check_source(&file, &entries, 56, 5, &sha_a), SourceCheck::NoEntry));
    assert!(matches!(
        check_source(&file, &entries, 55, 4, &sha_a),
        SourceCheck::SizeMismatch { zip_size: 5 }
    ));
    // the CRC-32 recorded for the second entry is not that of its bytes
    let sha_b = compute_sha256(&b);
    match check_source(&file, &entries, 119, 10, &sha_b) {
        SourceCheck::CrcMismatch { zip_crc32, actual_crc32 } => {
            assert_eq!(zip_crc32, 0x1234_5678);
            assert_ne!(actual_crc32, 0x1234_5678);
        },
        _ => panic!("expected a CRC-32 mismatch"),
    }
    let wrong = String::from("00");
    match check_source(&file, &entries, 55, 5, &wrong) {
        SourceCheck::ShaMismatch { actual_sha256 } => assert_eq!(actual_sha256, sha_a),
        _ => panic!("expected a SHA-256 mismatch"),
    }
}

fn strs(v: &[&str]) -> Vec<String> {
    v.iter().map(|s| s.to_string()).collect()
}

#[test]
fn master_playlist_pairs_video_with_audio_group() {
    let vc = strs(&["avc1.64001f"]);
    let ac = strs(&["mp4a.40.2"]);
    let streams = vec![
        StreamInfo { codecs: &vc, bandwidth: 1000, is_video: true, is_audio: false },
        StreamInfo { codecs: &ac, bandwidth: 128, is_video: false, is_audio: true },
    ];
    let text = String::from_utf8(generate_master_playlist(&streams)).unwrap();
    let expected = "#EXTM3U\n#EXT-X-VERSION:6\n#EXT-X-INDEPENDENT-SEGMENTS\n\
#EXT-X-MEDIA:TYPE=AUDIO,GROUP-ID=\"streams.1\",NAME=\"streams.1\",DEFAULT=YES,AUTOSELECT=YES,URI=\"streams.1/generated.m3u8\"\n\
#EXT-X-STREAM-INF:BANDWIDTH=1128,CODECS=\"avc1.64001f,mp4a.40.2\",AUDIO=\"streams.1\"\n\
streams.0/generated.m3u8\n";
    assert_eq!(text, expected);
}

#[test]
fn master_playlist_without_video_lists_every_stream() {
    let ac = strs(&["mp4a.40.2"]);
    let oc = strs(&["opus"]);
    let streams = vec![
        StreamInfo { codecs: &ac, bandwidth: 128, is_video: false, is_audio: true },
        StreamInfo { codecs: &oc, bandwidth: 96, is_video: false, is_audio: true },
    ];
    let text = String::from_utf8(generate_master_playlist(&streams)).unwrap();
    let expected = "#EXTM3U\n#EXT-X-VERSION:6\n#EXT-X-INDEPENDENT-SEGMENTS\n\
#EXT-X-STREAM-INF:BANDWIDTH=128,CODECS=\"mp4a.40.2\"\nstreams.0/generated.m3u8\n\
#EXT-X-STREAM-INF:BANDWIDTH=96,CODECS=\"opus\"\nstreams.1/generated.m3u8\n";
    assert_eq!(text, expected);
}

#[test]
fn master_playlist_other_streams_keep_own_bandwidth() {
    let vc = strs(&["hvc1", "extra"]);
    let ac = strs(&["mp4a.40.2"]);
    let tc = strs(&["wvtt"]);
    let streams = vec![
        StreamInfo { codecs: &ac, bandwidth: 64, is_video: false, is_audio: true },
        StreamInfo { codecs: &vc, bandwidth: 2000, is_video: true, is_audio: false },
        StreamInfo { codecs: &tc, bandwidth: 5, is_video: false, is_audio: false },
    ];
    let text = String::from_utf8(generate_master_playlist(&streams)).unwrap();
    let expected = "#EXTM3U\n#EXT-X-VERSION:6\n#EXT-X-INDEPENDENT-SEGMENTS\n\
#EXT-X-MEDIA:TYPE=AUDIO,GROUP-ID=\"streams.0\",NAME=\"streams.0\",DEFAULT=YES,AUTOSELECT=YES,URI=\"streams.0/generated.m3u8\"\n\
#EXT-X-STREAM-INF:BANDWIDTH=2064,CODECS=\"hvc1,extra,mp4a.40.2\",AUDIO=\"streams.0\"\n\
streams.1/generated.m3u8\n\
#EXT-X-STREAM-INF:BANDWIDTH=5,CODECS=\"wvtt\"\nstreams.2/generated.m3u8\n";
    assert_eq!(text, expected);
}

#[test]
fn bandwidths_ok_rejects_overflowing_pair() {
    let vc = strs(&["avc1"]);
    let ac = strs(&["mp4a"]);
    let ok = vec![
        StreamInfo { codecs: &vc, bandwidth: 10, is_video: true, is_audio: false },
        StreamInfo { codecs: &ac, bandwidth: 1, is_video: false, is_audio: true },
    ];
    assert!(bandwidths_ok(&ok));
    let bad = vec![
        StreamInfo { codecs: &vc, bandwidth: u64::MAX, is_video: true, is_audio: false },
        StreamInfo { codecs: &ac, bandwidth: 1, is_video: false, is_audio: true },
    ];
    assert!(!bandwidths_ok(&bad));
}
