use std::collections::HashMap;
use std::io::Read;

use loomovie::cmd::bin::{check_chunk, plan_reads, read_range, recipe_end, ChunkCheck};
use loomovie::cmd::generate::{assemble_hybrid, compute_sha256, make_lmc1_header, GenerateInput};
use loomovie::cmd::plan::assemble::{assemble_recipe, PlanInput};
use loomovie::cmd::plan::recipe::{ChunkContent, RecipeChunk};
use loomovie::cmd::plan::stream::{prepare_stream, PrepareError, PreparedStream};
use loomovie::cmd::validate::{check_source, read_zip_directory, SourceCheck};
use loomovie::mp4_box::{box_content, find_box, iter_boxes, make_box, make_fullbox};

// ===== Synthetic fragmented streams =====

fn init_segment(handler: &[u8; 4], timescale: u32, track_id: u32, default_duration: u32) -> Vec<u8> {
    let mut tkhd_body = vec![0u8; 80];
    tkhd_body[8..12].copy_from_slice(&track_id.to_be_bytes());
    let tkhd = make_fullbox(b"tkhd", 0, 3, &tkhd_body);
    let mut mdhd_body = vec![0u8; 20];
    mdhd_body[8..12].copy_from_slice(&timescale.to_be_bytes());
    let mdhd = make_fullbox(b"mdhd", 0, 0, &mdhd_body);
    let mut hdlr_body = vec![0u8; 4];
    hdlr_body.extend_from_slice(handler);
    hdlr_body.extend_from_slice(&[0u8; 13]);
    let hdlr = make_fullbox(b"hdlr", 0, 0, &hdlr_body);
    let media_header = if handler == b"vide" {
        make_fullbox(b"vmhd", 0, 1, &[0u8; 8])
    } else {
        make_fullbox(b"smhd", 0, 0, &[0u8; 4])
    };
    let dinf = make_box(b"dinf", &make_fullbox(b"dref", 0, 0, &[0, 0, 0, 0]));
    let stbl = make_box(b"stbl", &make_fullbox(b"stsd", 0, 0, &[0, 0, 0, 0]));
    let minf = make_box(b"minf", &[media_header, dinf, stbl].concat());
    let mdia = make_box(b"mdia", &[mdhd, hdlr, minf].concat());
    let trak = make_box(b"trak", &[tkhd, mdia].concat());
    let mut trex_body = Vec::new();
    trex_body.extend_from_slice(&track_id.to_be_bytes());
    trex_body.extend_from_slice(&1u32.to_be_bytes());
    trex_body.extend_from_slice(&default_duration.to_be_bytes());
    trex_body.extend_from_slice(&0u32.to_be_bytes());
    trex_body.extend_from_slice(&0x0101_0000u32.to_be_bytes());
    let mvex = make_box(b"mvex", &make_fullbox(b"trex", 0, 0, &trex_body));
    let mvhd = make_fullbox(b"mvhd", 0, 0, &[0u8; 96]);
    let moov = make_box(b"moov", &[mvhd, trak, mvex].concat());
    let ftyp = make_box(b"ftyp", b"iso6\0\0\0\0iso6");
    [ftyp, moov].concat()
}

fn moof(track_id: u32, decode_time: u64, samples: &[(u32, Vec<u8>)], data_offset: i32) -> Vec<u8> {
    let mfhd = make_fullbox(b"mfhd", 0, 0, &[0, 0, 0, 1]);
    let tfhd = make_fullbox(b"tfhd", 0, 0x020000, &track_id.to_be_bytes());
    let tfdt = make_fullbox(b"tfdt", 1, 0, &decode_time.to_be_bytes());
    let mut body = Vec::new();
    body.extend_from_slice(&(samples.len() as u32).to_be_bytes());
    body.extend_from_slice(&data_offset.to_be_bytes());
    body.extend_from_slice(&0x0200_0000u32.to_be_bytes());
    for (duration, data) in samples {
        body.extend_from_slice(&duration.to_be_bytes());
        body.extend_from_slice(&(data.len() as u32).to_be_bytes());
    }
    let trun = make_fullbox(b"trun", 0, 0x000001 | 0x000004 | 0x000100 | 0x000200, &body);
    let traf = make_box(b"traf", &[tfhd, tfdt, trun].concat());
    make_box(b"moof", &[mfhd, traf].concat())
}

fn chunk_file(track_id: u32, decode_time: u64, samples: &[(u32, Vec<u8>)]) -> Vec<u8> {
    let size = moof(track_id, decode_time, samples, 0).len();
    let moof_box = moof(track_id, decode_time, samples, (size + 8) as i32);
    let payload: Vec<u8> = samples.iter().flat_map(|(_, d)| d.clone()).collect();
    let styp = make_box(b"styp", b"msdh\0\0\0\0msdh");
    [styp, moof_box, make_box(b"mdat", &payload)].concat()
}

struct Fixture {
    init: Vec<Vec<u8>>,
    chunks: Vec<Vec<Vec<u8>>>,
    first_samples: Vec<Vec<Vec<u8>>>,
}

fn fixture() -> Fixture {
    let mut init = Vec::new();
    let mut chunks = Vec::new();
    let mut first_samples = Vec::new();
    for (s, handler) in [(0u32, b"vide"), (1u32, b"soun")] {
        init.push(init_segment(handler, 1000 * (s + 1), 7 + s, 40));
        let mut files = Vec::new();
        let mut firsts = Vec::new();
        for c in 0..3u32 {
            let samples: Vec<(u32, Vec<u8>)> = (0..2u32)
                .map(|k| (40 + k, vec![(s * 100 + c * 10 + k) as u8; (5 + c + k) as usize]))
                .collect();
            firsts.push(samples[0].1.clone());
            files.push(chunk_file(7 + s, 5 + 80 * c as u64, &samples));
        }
        chunks.push(files);
        first_samples.push(firsts);
    }
    Fixture { init, chunks, first_samples }
}

fn prepare_all(f: &Fixture) -> Vec<PreparedStream> {
    (0..f.init.len())
        .map(|s| prepare_stream(&f.init[s], &f.chunks[s], (s + 1) as u32).unwrap())
        .collect()
}

fn stbl_of(moov_content: &[u8], index: usize) -> Vec<u8> {
    let mut rest = moov_content;
    let mut seen = 0;
    loop {
        let t = find_box(rest, b"trak").unwrap();
        if seen == index {
            let trak = box_content(rest, &t);
            let mdia_b = find_box(trak, b"mdia").unwrap();
            let mdia = box_content(trak, &mdia_b);
            let minf_b = find_box(mdia, b"minf").unwrap();
            let minf = box_content(mdia, &minf_b);
            let stbl_b = find_box(minf, b"stbl").unwrap();
            return box_content(minf, &stbl_b).to_vec();
        }
        seen += 1;
        rest = &rest[t.offset + t.total_size..];
    }
}

fn co64_entries(stbl: &[u8]) -> Vec<u64> {
    let b = find_box(stbl, b"co64").unwrap();
    let c = box_content(stbl, &b);
    let n = u32::from_be_bytes([c[4], c[5], c[6], c[7]]) as usize;
    (0..n)
        .map(|i| {
            let mut a = [0u8; 8];
            a.copy_from_slice(&c[8 + 8 * i..16 + 8 * i]);
            u64::from_be_bytes(a)
        })
        .collect()
}

// ===== Streams =====

#[test]
fn prepare_stream_reads_track_chunks_and_table() {
    let f = fixture();
    let p = prepare_stream(&f.init[0], &f.chunks[0], 1).unwrap();
    assert_eq!(p.track.new_track_id, 1);
    assert_eq!(p.track.timescale, 1000);
    assert_eq!(&p.track.handler_type, b"vide");
    assert_eq!(p.track.trex_default_sample_duration, 40);
    // the tkhd keeps its place, with the new track id
    assert_eq!(&p.track.tkhd_raw[20..24], &1u32.to_be_bytes());
    assert_eq!(p.chunks.len(), 3);
    assert_eq!(p.chunks[1].fragments.len(), 1);
    assert_eq!(p.chunks[1].file_size, f.chunks[0][1].len());
    assert_eq!(p.table.sample_sizes, vec![5, 6, 6, 7, 7, 8]);
    assert_eq!(p.table.sample_durations, vec![40, 41, 40, 41, 40, 41]);
    assert_eq!(p.table.total_duration, 243);
    assert_eq!(p.table.media_start_time, 5);
    assert_eq!(p.table.samples_per_chunk, vec![2, 2, 2]);
    assert_eq!(p.table.sync_samples, vec![1, 3, 5]);
    assert_eq!(p.table.chunk_offsets, vec![0, 0, 0]);
    assert_eq!(p.chunk_ticks, vec![81, 81, 81]);
}

#[test]
fn prepare_stream_reports_first_failure() {
    let f = fixture();
    assert!(matches!(prepare_stream(b"not an mp4", &f.chunks[0], 1), Err(PrepareError::InitSegment)));
    let mut broken = f.chunks[0].clone();
    broken[1] = make_box(b"mdat", &[1, 2, 3]);
    broken[2] = Vec::new();
    assert!(matches!(prepare_stream(&f.init[0], &broken, 1), Err(PrepareError::Chunk { index: 1 })));
}

// ===== The planned recipe =====

fn plan_input(f: &Fixture) -> PlanInput {
    let prepared = prepare_all(f);
    let mut tracks = Vec::new();
    let mut tables = Vec::new();
    let mut parsed = Vec::new();
    for p in prepared {
        tracks.push(p.track);
        tables.push(p.table);
        parsed.push(p.chunks);
    }
    PlanInput {
        tracks,
        tables,
        chunks: parsed,
        chunk_data: f.chunks.clone(),
        chunk_paths: (0..2)
            .map(|s| (0..3).map(|c| format!("in/s{}/c{}.m4s", s, c)).collect())
            .collect(),
        init_data: f.init.clone(),
        init_paths: (0..2).map(|s| format!("in/s{}/init.mp4", s)).collect(),
        codecs: vec![vec![String::from("avc1.64001f")], vec![String::from("mp4a.40.2")]],
        bandwidths: vec![1000, 128],
        media_playlists: vec![b"#EXTM3U\nvideo\n".to_vec(), b"#EXTM3U\naudio\n".to_vec()],
    }
}

fn resolve(recipe: &[RecipeChunk], files: &HashMap<String, Vec<u8>>) -> Vec<Vec<u8>> {
    recipe
        .iter()
        .map(|c| match &c.content {
            ChunkContent::Data(d) => d.clone(),
            ChunkContent::File(p) => files[p].clone(),
        })
        .collect()
}

fn source_files(f: &Fixture) -> HashMap<String, Vec<u8>> {
    let mut files = HashMap::new();
    for s in 0..2 {
        files.insert(format!("in/s{}/init.mp4", s), f.init[s].clone());
        for c in 0..3 {
            files.insert(format!("in/s{}/c{}.m4s", s, c), f.chunks[s][c].clone());
        }
    }
    files
}

#[test]
fn planned_recipe_describes_mp4_and_zip() {
    let f = fixture();
    let recipe = assemble_recipe(plan_input(&f)).unwrap();
    let pieces = resolve(&recipe, &source_files(&f));
    let file: Vec<u8> = pieces.concat();

    // chunks lie one after another and pass their checks
    let mut pos = 0u64;
    for (c, bytes) in recipe.iter().zip(pieces.iter()) {
        assert_eq!(c.offset, pos);
        assert_eq!(check_chunk(c.size, c.crc32, bytes), ChunkCheck::Valid);
        pos += c.size;
    }
    assert_eq!(recipe_end(&recipe), file.len() as u64);

    // an MP4: ftyp, moov, mdat, then free boxes to the end
    let boxes = iter_boxes(&file);
    assert_eq!(&boxes[0].box_type, b"ftyp");
    assert_eq!(&boxes[1].box_type, b"moov");
    assert_eq!(&boxes[2].box_type, b"mdat");
    assert!(boxes[3..].iter().all(|b| &b.box_type == b"free"));
    let last = boxes.last().unwrap();
    assert_eq!(last.offset + last.total_size, file.len());

    // the chunk offsets point at the first sample of each chunk file
    let moov = box_content(&file, &boxes[1]);
    for s in 0..2 {
        let offsets = co64_entries(&stbl_of(moov, s));
        assert_eq!(offsets.len(), 3);
        for c in 0..3 {
            let want = &f.first_samples[s][c];
            let at = offsets[c] as usize;
            assert_eq!(&file[at..at + want.len()], &want[..]);
        }
    }

    // a ZIP: every entry is found with its data where the directory says
    let entries = read_zip_directory(&file).unwrap();
    let names: Vec<String> = entries.iter().map(|e| String::from_utf8(e.filename.clone()).unwrap()).collect();
    assert_eq!(names.len(), 6 + 1 + 2 + 2);
    assert_eq!(names[0], "streams.0/chunks/chunk.000000.m4s");
    assert_eq!(names[1], "streams.1/chunks/chunk.000000.m4s");
    assert_eq!(names[5], "streams.1/chunks/chunk.000002.m4s");
    assert_eq!(names[6], "generated.m3u8");
    assert_eq!(names[7], "streams.0/generated.m3u8");
    assert_eq!(names[9], "streams.0/init.m4s");
    for c in 0..3 {
        for s in 0..2 {
            let e = &entries[2 * c + s];
            let at = e.data_offset as usize;
            assert_eq!(&file[at..at + e.uncompressed_size as usize], &f.chunks[s][c][..]);
        }
    }
    let init1 = &entries[10];
    let at = init1.data_offset as usize;
    assert_eq!(&file[at..at + init1.uncompressed_size as usize], &f.init[1][..]);

    // the playlists are stored deflated
    let master = &entries[6];
    let next = entries[7].local_header_offset as usize;
    let mut inflated = Vec::new();
    flate2::read::DeflateDecoder::new(&file[master.data_offset as usize..next])
        .read_to_end(&mut inflated)
        .unwrap();
    assert_eq!(inflated.len() as u64, master.uncompressed_size);
    let text = String::from_utf8(inflated).unwrap();
    assert!(text.starts_with("#EXTM3U\n#EXT-X-VERSION:6\n"));
    assert!(text.contains("BANDWIDTH=1128,CODECS=\"avc1.64001f,mp4a.40.2\",AUDIO=\"streams.1\""));

    // reading a range through the recipe gives that range of the file
    let (start, end) = (30u64, file.len() as u64 - 17);
    let mut out = Vec::new();
    for r in plan_reads(&recipe, start, end) {
        out.extend_from_slice(&read_range(&pieces[r.index], r.read_start, r.read_end));
    }
    assert_eq!(out, file[start as usize..end as usize].to_vec());
}

// ===== The generated hybrid MP4 =====

#[test]
fn generated_hybrid_embeds_sources_where_listed() {
    let f = fixture();
    let prepared = prepare_all(&f);
    let mut tracks = Vec::new();
    let mut tables = Vec::new();
    let mut parsed = Vec::new();
    for p in prepared {
        tracks.push(p.track);
        tables.push(p.table);
        parsed.push(p.chunks);
    }
    let inp = GenerateInput {
        tracks,
        tables,
        chunks: parsed,
        chunk_data: f.chunks.clone(),
        chunk_sources: (0..2).map(|s| (0..3).map(|c| format!("s{}/c{}.m4s", s, c)).collect()).collect(),
        init_data: f.init.clone(),
        init_sources: (0..2).map(|s| format!("s{}/init.mp4", s)).collect(),
    };
    let out = assemble_hybrid(inp).unwrap();

    // init file + data file
    let mut file = out.init_segment.clone();
    file.extend_from_slice(&out.mdat_header);
    let mut payload = 0usize;
    for c in 0..3 {
        for s in 0..2 {
            let h = out.lmc1_headers[c][s];
            assert_eq!(h, make_lmc1_header(s as u8, c as u32, &f.chunks[s][c]));
            file.extend_from_slice(&h);
            file.extend_from_slice(&f.chunks[s][c]);
            payload += 16 + f.chunks[s][c].len();
        }
    }
    assert_eq!(out.mdat_header, loomovie::cmd::plan::layout::make_mdat_header(payload as u64));

    let boxes = iter_boxes(&file);
    let types: Vec<[u8; 4]> = boxes.iter().map(|b| b.box_type).collect();
    assert_eq!(types, vec![*b"ftyp", *b"free", *b"free", *b"moov", *b"sidx", *b"mdat"]);
    assert_eq!(boxes[5].offset + boxes[5].total_size, file.len());
    // the init file ends with the sidx
    assert_eq!(boxes[4].offset + boxes[4].total_size, out.init_segment.len());
    // each free box: lmc1 header of the init segment, then the segment
    for s in 0..2 {
        let content = box_content(&file, &boxes[1 + s]);
        assert_eq!(&content[..16], &make_lmc1_header(s as u8, 0x800000, &f.init[s]));
        assert_eq!(&content[16..], &f.init[s][..]);
    }

    // the chunk offsets point at the first sample of each chunk file
    let moov = box_content(&file, &boxes[3]);
    for s in 0..2 {
        let offsets = co64_entries(&stbl_of(moov, s));
        for c in 0..3 {
            let want = &f.first_samples[s][c];
            let at = offsets[c] as usize;
            assert_eq!(&file[at..at + want.len()], &want[..]);
        }
    }

    // every source is where the list says, with its SHA-256
    assert_eq!(out.sources.len(), 2 + 6);
    assert_eq!(out.sources[0].source, "s0/init.mp4");
    assert_eq!(out.sources[0].dest.dest_type, "init");
    assert_eq!(out.sources[2].source, "s0/c0.m4s");
    assert_eq!(out.sources[3].source, "s1/c0.m4s");
    assert_eq!(out.sources[7].dest.dest_type, "data");
    for src in &out.sources {
        let at = src.dest.offset as usize;
        let bytes = &file[at..at + src.dest.length as usize];
        assert_eq!(src.sha256, compute_sha256(bytes));
    }
    assert_eq!(&file[out.sources[1].dest.offset as usize..][..f.init[1].len()], &f.init[1][..]);
    assert_eq!(&file[out.sources[7].dest.offset as usize..][..f.chunks[1][2].len()], &f.chunks[1][2][..]);
}

#[test]
fn generated_output_is_refused_when_moov_cannot_be_built() {
    let f = fixture();
    let prepared = prepare_all(&f);
    let mut tracks = Vec::new();
    let mut tables = Vec::new();
    let mut parsed = Vec::new();
    for p in prepared {
        tracks.push(p.track);
        tables.push(p.table);
        parsed.push(p.chunks);
    }
    // a track id that leaves no next track id
    tracks[1].new_track_id = u32::MAX;
    let inp = GenerateInput {
        tracks,
        tables,
        chunks: parsed,
        chunk_data: f.chunks.clone(),
        chunk_sources: vec![vec![String::new(); 3]; 2],
        init_data: f.init.clone(),
        init_sources: vec![String::new(); 2],
    };
    assert!(assemble_hybrid(inp).is_none());
}

#[test]
fn validate_accepts_the_planned_file() {
    let f = fixture();
    let recipe = assemble_recipe(plan_input(&f)).unwrap();
    let file: Vec<u8> = resolve(&recipe, &source_files(&f)).concat();
    let entries = read_zip_directory(&file).unwrap();
    for c in 0..3 {
        for s in 0..2 {
            let e = &entries[2 * c + s];
            let sha = compute_sha256(&f.chunks[s][c]);
            assert!(matches!(
                check_source(&file, &entries, e.data_offset, f.chunks[s][c].len() as u64, &sha),
                SourceCheck::Valid
            ));
        }
    }
}

fn u32_at(b: &[u8], at: usize) -> u32 {
    u32::from_be_bytes([b[at], b[at + 1], b[at + 2], b[at + 3]])
}

#[test]
fn moov_sample_tables_expand_to_the_samples() {
    let f = fixture();
    let recipe = assemble_recipe(plan_input(&f)).unwrap();
    let file: Vec<u8> = resolve(&recipe, &source_files(&f)).concat();
    let boxes = iter_boxes(&file);
    let moov = box_content(&file, &boxes[1]);
    let stbl = stbl_of(moov, 0);

    // stts: (count, delta) runs expand to the durations
    let b = find_box(&stbl, b"stts").unwrap();
    let c = box_content(&stbl, &b);
    let mut durations = Vec::new();
    for i in 0..u32_at(c, 4) as usize {
        let (count, delta) = (u32_at(c, 8 + 8 * i), u32_at(c, 12 + 8 * i));
        durations.extend(std::iter::repeat(delta).take(count as usize));
    }
    assert_eq!(durations, vec![40, 41, 40, 41, 40, 41]);

    // stsz: one size per sample (they differ, so no uniform size)
    let b = find_box(&stbl, b"stsz").unwrap();
    let c = box_content(&stbl, &b);
    assert_eq!(u32_at(c, 4), 0);
    assert_eq!(u32_at(c, 8), 6);
    let sizes: Vec<u32> = (0..6).map(|i| u32_at(c, 12 + 4 * i)).collect();
    assert_eq!(sizes, vec![5, 6, 6, 7, 7, 8]);

    // stsc: a single run of two samples per chunk from chunk 1
    let b = find_box(&stbl, b"stsc").unwrap();
    let c = box_content(&stbl, &b);
    assert_eq!(u32_at(c, 4), 1);
    assert_eq!((u32_at(c, 8), u32_at(c, 12), u32_at(c, 16)), (1, 2, 1));

    // stss: the first sample of each fragment
    let b = find_box(&stbl, b"stss").unwrap();
    let c = box_content(&stbl, &b);
    let sync: Vec<u32> = (0..u32_at(c, 4) as usize).map(|i| u32_at(c, 8 + 4 * i)).collect();
    assert_eq!(sync, vec![1, 3, 5]);
}

#[test]
fn generated_sidx_indexes_the_data_file() {
    let f = fixture();
    let prepared = prepare_all(&f);
    let mut tracks = Vec::new();
    let mut tables = Vec::new();
    let mut parsed = Vec::new();
    for p in prepared {
        tracks.push(p.track);
        tables.push(p.table);
        parsed.push(p.chunks);
    }
    let inp = GenerateInput {
        tracks,
        tables,
        chunks: parsed,
        chunk_data: f.chunks.clone(),
        chunk_sources: vec![vec![String::new(); 3]; 2],
        init_data: f.init.clone(),
        init_sources: vec![String::new(); 2],
    };
    let out = assemble_hybrid(inp).unwrap();
    let boxes = iter_boxes(&out.init_segment);
    let sidx_box = boxes.last().unwrap();
    assert_eq!(&sidx_box.box_type, b"sidx");
    let c = box_content(&out.init_segment, sidx_box);
    assert_eq!(c.len(), 4 + 28 + 12 * 3);
    assert_eq!(c[0], 1); // version 1
    assert_eq!(u32_at(c, 4), 1); // track id of the first stream
    assert_eq!(u32_at(c, 8), 1000); // its timescale
    assert_eq!(&c[12..20], &5u64.to_be_bytes()); // first decode time
    assert_eq!(&c[20..28], &0u64.to_be_bytes()); // first offset: the data file follows
    assert_eq!(u16::from_be_bytes([c[30], c[31]]), 3);
    let mut covered = 0u64;
    for k in 0..3 {
        let r = 32 + 12 * k;
        let mut row: u64 = (0..2).map(|s| 16 + f.chunks[s][k].len() as u64).sum();
        if k == 0 {
            row += out.mdat_header.len() as u64;
        }
        assert_eq!(u32_at(c, r) as u64, row);
        assert_eq!(u32_at(c, r + 4), 81);
        assert_eq!(u32_at(c, r + 8), 0x9000_0000);
        covered += row;
    }
    let data_len = out.mdat_header.len() as u64
        + (0..3).map(|k| (0..2).map(|s| 16 + f.chunks[s][k].len() as u64).sum::<u64>()).sum::<u64>();
    assert_eq!(covered, data_len);
}
