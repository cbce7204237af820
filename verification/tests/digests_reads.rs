use loomovie::ascii::{decimal_len, push_ascii, push_decimal, push_zero_padded};
use loomovie::binary::{read_i32_be, read_u16_le, read_u32_be, read_u64_be, write_i64_be, write_u16_be};
use loomovie::cmd::bin::{
    check_chunk, chunk_overlap, plan_reads, read_range, recipe_end, ChunkCheck, ChunkRead,
};
use loomovie::cmd::generate::{compute_sha256, make_lmc1_header};
use loomovie::cmd::plan::recipe::{make_data_chunk, make_file_chunk, ChunkContent};
use loomovie::cmd::plan::{relative_path, PathComponent};
use loomovie::digest::to_lower_hex;
use loomovie::helpers::{is_first_sample_sap, is_sync_flags, total_chunk_duration, total_sample_duration};
use loomovie::cmd::generate::types::{FragmentInfo, TfhdInfo, TrunInfo, TrunSample};

#[test]
fn sha256_known_vectors() {
    assert_eq!(
        compute_sha256(b""),
        "e3b0c44298fc1c149afbf4c8996fb92427ae41e4649b934ca495991b7852b855"
    );
    assert_eq!(
        compute_sha256(b"abc"),
        "ba7816bf8f01cfea414140de5dae2223b00361a396177a9cb410ff61f20015ad"
    );
}

#[test]
fn lower_hex_of_bytes() {
    assert_eq!(to_lower_hex(&[0x00, 0xab, 0x0f, 0xf0]), "00ab0ff0");
    assert_eq!(to_lower_hex(&[]), "");
}

#[test]
fn lmc1_header_layout() {
    let h = make_lmc1_header(1, 0x800000, b"123456789");
    assert_eq!(h, [b'l', b'm', b'c', b'1', 1, 0x80, 0, 0, 0xcb, 0xf4, 0x39, 0x26, 0, 0, 0, 9]);
    let d = make_lmc1_header(2, 0x012345, b"");
    assert_eq!(d, [b'l', b'm', b'c', b'1', 2, 0x01, 0x23, 0x45, 0, 0, 0, 0, 0, 0, 0, 0]);
}

#[test]
fn check_chunk_size_then_crc() {
    assert_eq!(check_chunk(9, 0xcbf43926, b"123456789"), ChunkCheck::Valid);
    assert_eq!(
        check_chunk(9, 0, b"123456789"),
        ChunkCheck::CrcMismatch { actual_crc32: 0xcbf43926 }
    );
    assert_eq!(check_chunk(5, 0, b"hell"), ChunkCheck::SizeMismatch { actual_size: 4 });
}

#[test]
fn recipe_chunks_record_size_and_crc() {
    let d = make_data_chunk(7, b"123456789".to_vec());
    assert_eq!(d.offset, 7);
    assert_eq!(d.size, 9);
    assert_eq!(d.crc32, 0xcbf43926);
    assert!(matches!(d.content, ChunkContent::Data(ref v) if v == b"123456789"));
    let f = make_file_chunk(16, String::from("a/b.m4s"), b"hello");
    assert_eq!(f.size, 5);
    assert_eq!(f.crc32, 0x3610a686);
    assert!(matches!(f.content, ChunkContent::File(ref p) if p == "a/b.m4s"));
}

#[test]
fn overlap_of_a_chunk_with_a_range() {
    assert_eq!(chunk_overlap(10, 5, 12, 20), Some((2, 5)));
    assert_eq!(chunk_overlap(10, 5, 0, 12), Some((0, 2)));
    assert_eq!(chunk_overlap(10, 5, 11, 13), Some((1, 3)));
    assert_eq!(chunk_overlap(10, 5, 15, 20), None);
    assert_eq!(chunk_overlap(10, 5, 0, 10), None);
}

#[test]
fn reads_cover_the_requested_range() {
    let chunks = vec![
        make_data_chunk(0, b"hello".to_vec()),
        make_file_chunk(5, String::from("w.bin"), b" world"),
    ];
    assert_eq!(recipe_end(&chunks), 11);
    let reads = plan_reads(&chunks, 3, 8);
    assert_eq!(
        reads,
        vec![
            ChunkRead { index: 0, read_start: 3, read_end: 5 },
            ChunkRead { index: 1, read_start: 0, read_end: 3 },
        ]
    );
    let sources: Vec<&[u8]> = vec![b"hello", b" world"];
    let mut out = Vec::new();
    for r in &reads {
        out.extend_from_slice(&read_range(sources[r.index], r.read_start, r.read_end));
    }
    assert_eq!(out, b"lo wo".to_vec());
    // the whole file
    let all = plan_reads(&chunks, 0, recipe_end(&chunks));
    assert_eq!(all.len(), 2);
    assert_eq!(all[1], ChunkRead { index: 1, read_start: 0, read_end: 6 });
}

#[test]
fn empty_ranges_and_early_stop() {
    let chunks = vec![
        make_data_chunk(0, b"hello".to_vec()),
        make_data_chunk(5, b" world".to_vec()),
    ];
    // inside a chunk: one empty read, then the walk stops
    assert_eq!(plan_reads(&chunks, 2, 2), vec![ChunkRead { index: 0, read_start: 2, read_end: 2 }]);
    // on a boundary: no chunk overlaps
    assert_eq!(plan_reads(&chunks, 5, 5), vec![]);
    // overlapping chunks: the walk stops once enough bytes were given
    let doubled = vec![make_data_chunk(0, b"abcd".to_vec()), make_data_chunk(0, b"abcd".to_vec())];
    assert_eq!(plan_reads(&doubled, 0, 4), vec![ChunkRead { index: 0, read_start: 0, read_end: 4 }]);
    assert_eq!(recipe_end(&[]), 0);
}

fn normal(s: &str) -> PathComponent {
    PathComponent::Normal(String::from(s))
}

#[test]
fn relative_path_goes_up_then_down() {
    let base = vec![PathComponent::RootDir, normal("a"), normal("b"), normal("c")];
    let target = vec![PathComponent::RootDir, normal("a"), normal("d"), normal("e.m4s")];
    assert_eq!(relative_path(&base, &target), vec!["..", "..", "d", "e.m4s"]);
    let inside = vec![PathComponent::RootDir, normal("a"), normal("b"), normal("c"), normal("x.m4s")];
    assert_eq!(relative_path(&base, &inside), vec!["x.m4s"]);
    assert_eq!(relative_path(&base, &base), Vec::<String>::new());
    // only normal components are kept on the way down
    let odd = vec![PathComponent::RootDir, normal("a"), PathComponent::ParentDir, normal("z")];
    assert_eq!(relative_path(&base, &odd), vec!["..", "..", "z"]);
}

#[test]
fn decimal_text() {
    let mut buf = Vec::new();
    push_decimal(&mut buf, 0);
    push_ascii(&mut buf, ",");
    push_decimal(&mut buf, 18446744073709551615);
    assert_eq!(String::from_utf8(buf).unwrap(), "0,18446744073709551615");
    assert_eq!(decimal_len(999), 3);
    assert_eq!(decimal_len(1000), 4);
    let mut p = Vec::new();
    push_zero_padded(&mut p, 42, 6);
    push_zero_padded(&mut p, 1234567, 6);
    assert_eq!(String::from_utf8(p).unwrap(), "0000421234567");
}

#[test]
fn binary_readers_and_writers() {
    let data = [0x12u8, 0x34, 0x56, 0x78, 0x9a, 0xbc, 0xde, 0xf0, 0xff, 0xff, 0xff, 0xfe];
    assert_eq!(read_u32_be(&data, 0), 0x12345678);
    assert_eq!(read_u64_be(&data, 0), 0x123456789abcdef0);
    assert_eq!(read_i32_be(&data, 8), -2);
    assert_eq!(read_u16_le(&data, 0), 0x3412);
    let mut buf = Vec::new();
    write_u16_be(&mut buf, 0x0102);
    write_i64_be(&mut buf, -1);
    assert_eq!(buf, vec![1, 2, 0xff, 0xff, 0xff, 0xff, 0xff, 0xff, 0xff, 0xff]);
}

fn tfhd(default_duration: Option<u32>, default_flags: Option<u32>) -> TfhdInfo {
    TfhdInfo {
        track_id: 1,
        flags: 0,
        base_data_offset: None,
        sample_description_index: None,
        default_sample_duration: default_duration,
        default_sample_size: None,
        default_sample_flags: default_flags,
    }
}

fn sample(duration: Option<u32>, flags: Option<u32>) -> TrunSample {
    TrunSample { duration, size: None, flags, composition_time_offset_raw: None }
}

fn trun(first_sample_flags: Option<u32>, samples: Vec<TrunSample>) -> TrunInfo {
    TrunInfo {
        version: 0,
        flags: 0,
        sample_count: samples.len() as u32,
        data_offset: Some(0),
        first_sample_flags,
        samples,
    }
}

#[test]
fn sync_flags() {
    assert!(is_sync_flags(0x0200_0000));
    assert!(is_sync_flags(0x0000_0000));
    assert!(!is_sync_flags(0x0101_0000));
}

#[test]
fn first_sample_sap_takes_flags_in_order() {
    let non_sync = 0x0101_0000u32;
    // first_sample_flags wins
    assert!(is_first_sample_sap(&trun(Some(0x0200_0000), vec![sample(None, Some(non_sync))]), &tfhd(None, None), non_sync));
    // then the sample's own flags
    assert!(!is_first_sample_sap(&trun(None, vec![sample(None, Some(non_sync))]), &tfhd(None, Some(0)), 0));
    // then the tfhd default, then the trex default
    assert!(!is_first_sample_sap(&trun(None, vec![sample(None, None)]), &tfhd(None, Some(non_sync)), 0));
    assert!(is_first_sample_sap(&trun(None, vec![]), &tfhd(None, None), 0));
    assert!(!is_first_sample_sap(&trun(None, vec![]), &tfhd(None, None), non_sync));
}

#[test]
fn durations_use_defaults() {
    let t = trun(None, vec![sample(Some(10), None), sample(None, None), sample(None, None)]);
    assert_eq!(total_sample_duration(&t, &tfhd(Some(7), None), 3), 24);
    assert_eq!(total_sample_duration(&t, &tfhd(None, None), 3), 16);
    let frags = vec![
        FragmentInfo { moof_offset: 0, original_data_offset: 0, tfhd: tfhd(Some(7), None), tfdt: None, trun: t },
        FragmentInfo {
            moof_offset: 100,
            original_data_offset: 0,
            tfhd: tfhd(None, None),
            tfdt: None,
            trun: trun(None, vec![sample(None, None)]),
        },
    ];
    assert_eq!(total_chunk_duration(&frags, 3), 27);
}
