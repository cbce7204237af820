use loomovie::cmd::generate::boxes::generate_ftyp;
use loomovie::cmd::plan::layout::{file_positions, make_mdat_header, mdat_header_size, try_entries_total};
use loomovie::cmd::plan::mp4_box::{start_box, start_fullbox};
use loomovie::mp4_box::{
    box_content, box_raw, find_box, fullbox_parse, iter_boxes, make_box, make_free_header, make_fullbox,
    parse_box_at,
};

#[test]
fn make_box_writes_size_type_and_content() {
    let b = make_box(b"free", &[1, 2]);
    assert_eq!(b, vec![0, 0, 0, 10, b'f', b'r', b'e', b'e', 1, 2]);
}

#[test]
fn make_fullbox_writes_version_and_flags() {
    let b = make_fullbox(b"mvhd", 1, 0x000102, &[9]);
    assert_eq!(b, vec![0, 0, 0, 13, b'm', b'v', b'h', b'd', 1, 0, 1, 2, 9]);
}

#[test]
fn make_free_header_counts_its_own_header() {
    assert_eq!(make_free_header(10), [0, 0, 0, 18, b'f', b'r', b'e', b'e']);
    assert_eq!(make_free_header(0), [0, 0, 0, 8, b'f', b'r', b'e', b'e']);
}

#[test]
fn started_box_finishes_as_make_box() {
    let mut buf: Vec<u8> = vec![7, 7];
    let token = start_box(&mut buf, b"moov");
    buf.extend_from_slice(&[1, 2, 3]);
    token.finish(&mut buf);
    let mut expected = vec![7, 7];
    expected.extend_from_slice(&make_box(b"moov", &[1, 2, 3]));
    assert_eq!(buf, expected);
}

#[test]
fn started_fullbox_finishes_as_make_fullbox() {
    let mut buf: Vec<u8> = Vec::new();
    let token = start_fullbox(&mut buf, b"stsd", 0, 0x010203);
    buf.extend_from_slice(&[0, 0, 0, 0]);
    token.finish(&mut buf);
    assert_eq!(buf, make_fullbox(b"stsd", 0, 0x010203, &[0, 0, 0, 0]));
}

#[test]
fn generate_ftyp_exact_bytes() {
    let f = generate_ftyp();
    let mut expected = vec![0u8, 0, 0, 28];
    expected.extend_from_slice(b"ftypisom");
    expected.extend_from_slice(&[0, 0, 2, 0]);
    expected.extend_from_slice(b"isomiso6mp41");
    assert_eq!(f, expected);
}

#[test]
fn parse_box_at_reads_plain_header() {
    let data = make_box(b"abcd", &[5, 6, 7]);
    let info = parse_box_at(&data, 0).unwrap();
    assert_eq!(info.offset, 0);
    assert_eq!(info.header_size, 8);
    assert_eq!(info.total_size, 11);
    assert_eq!(&info.box_type, b"abcd");
    assert_eq!(box_content(&data, &info), &[5, 6, 7]);
    assert_eq!(box_raw(&data, &info), &data[..]);
}

#[test]
fn parse_box_at_reads_64_bit_size() {
    let mut data = vec![0u8, 0, 0, 1];
    data.extend_from_slice(b"mdat");
    data.extend_from_slice(&[0, 0, 0, 0, 0, 0, 0, 18]);
    data.extend_from_slice(&[1, 2]);
    let info = parse_box_at(&data, 0).unwrap();
    assert_eq!(info.header_size, 16);
    assert_eq!(info.total_size, 18);
    assert_eq!(box_content(&data, &info), &[1, 2]);
}

#[test]
fn parse_box_at_size_zero_reaches_end() {
    let mut data = vec![9u8; 4];
    data.extend_from_slice(&[0, 0, 0, 0]);
    data.extend_from_slice(b"mdat");
    data.extend_from_slice(&[1, 2, 3]);
    let info = parse_box_at(&data, 4).unwrap();
    assert_eq!(info.header_size, 8);
    assert_eq!(info.total_size, 11);
}

#[test]
fn parse_box_at_short_header_is_none() {
    assert!(parse_box_at(&[0, 0, 0, 8, b'f', b'r', b'e'], 0).is_none());
    let mut data = vec![0u8, 0, 0, 1];
    data.extend_from_slice(b"mdat");
    data.extend_from_slice(&[0, 0, 0]);
    assert!(parse_box_at(&data, 0).is_none());
}

#[test]
fn iter_boxes_walks_top_level_and_stops_at_zero_size() {
    let mut data = make_box(b"aaaa", &[1]);
    data.extend_from_slice(&make_box(b"bbbb", &[]));
    let boxes = iter_boxes(&data);
    assert_eq!(boxes.len(), 2);
    assert_eq!(&boxes[0].box_type, b"aaaa");
    assert_eq!(boxes[1].offset, 9);
    // a 64-bit size of 0 would not advance: the walk stops there
    let mut stuck = vec![0u8, 0, 0, 1];
    stuck.extend_from_slice(b"xxxx");
    stuck.extend_from_slice(&[0u8; 8]);
    assert_eq!(iter_boxes(&stuck).len(), 0);
}

#[test]
fn find_box_returns_first_of_type() {
    let mut data = make_box(b"aaaa", &[1]);
    data.extend_from_slice(&make_box(b"bbbb", &[2]));
    data.extend_from_slice(&make_box(b"bbbb", &[3, 3]));
    let b = find_box(&data, b"bbbb").unwrap();
    assert_eq!(b.offset, 9);
    assert_eq!(box_content(&data, &b), &[2]);
    assert!(find_box(&data, b"cccc").is_none());
}

#[test]
fn fullbox_parse_splits_version_flags_body() {
    let content = [1u8, 0x0a, 0x0b, 0x0c, 42, 43];
    let (version, flags, body) = fullbox_parse(&content);
    assert_eq!(version, 1);
    assert_eq!(flags, 0x0a0b0c);
    assert_eq!(body, &[42, 43]);
}

#[test]
fn mdat_header_small_and_large() {
    assert_eq!(mdat_header_size(100), 8);
    assert_eq!(make_mdat_header(100), vec![0, 0, 0, 108, b'm', b'd', b'a', b't']);
    let large = 0xffff_fff8u64;
    assert_eq!(mdat_header_size(large), 16);
    let h = make_mdat_header(large);
    let mut expected = vec![0u8, 0, 0, 1];
    expected.extend_from_slice(b"mdat");
    expected.extend_from_slice(&(large + 16).to_be_bytes());
    assert_eq!(h, expected);
    // the largest payload that still fits a 32-bit box
    assert_eq!(mdat_header_size(0xffff_fff7), 8);
}

#[test]
fn file_positions_place_files_after_their_headers() {
    let grid = vec![vec![(10u64, 5u64), (20, 7)], vec![(10, 1), (20, 2)]];
    let p = file_positions(&grid, 100);
    assert_eq!(p, vec![vec![110, 135], vec![152, 173]]);
    assert_eq!(try_entries_total(&grid, 100), Some(75));
    assert_eq!(try_entries_total(&grid, u64::MAX - 74), None);
}
