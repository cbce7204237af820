// Parsing of init segments and chunk files
use vstd::prelude::*;

use crate::binary::{be32, be64, read_i32_be, read_u32_be, read_u64_be, u32_be_bytes};
use crate::mp4_box::{
    box_content, box_raw, box_within, find_box, flags24, fullbox_parse, iter_boxes, parse_box_at, same_type,
    box_type_at, spec_box_content, spec_box_raw, spec_find_box, spec_iter_boxes, spec_parse_box_at, BoxInfo,
};
use super::types::{
    fragment_views, ChunkParseResult, ChunkView, FragmentInfo, FragmentView, TfdtInfo, TfhdInfo,
    TrackInfo, TrackInfoView, TrunInfo, TrunSample, TrunView,
};

verus! {

// ===== Full-box helpers =====

/// The flags of a full box whose content is `c`.
pub open spec fn content_flags(c: Seq<u8>) -> u32 {
    flags24(c[1], c[2], c[3])
}

/// The fields of a full box whose content is `c`, after version and flags.
pub open spec fn content_body(c: Seq<u8>) -> Seq<u8> {
    c.subrange(4, c.len() as int)
}

/// 4 when `set`, else 0: the size of an optional 32-bit field.
pub open spec fn opt4(set: bool) -> int {
    if set { 4 } else { 0 }
}

// ===== tfhd =====

/// Position of `sample_description_index` in a tfhd body with flags `f`.
pub open spec fn tfhd_pos_sdi(f: u32) -> int {
    4 + (if f & 1 != 0 { 8int } else { 0int })
}

/// Position of `default_sample_duration` in a tfhd body with flags `f`.
pub open spec fn tfhd_pos_duration(f: u32) -> int {
    tfhd_pos_sdi(f) + opt4(f & 2 != 0)
}

/// Position of `default_sample_size` in a tfhd body with flags `f`.
pub open spec fn tfhd_pos_size(f: u32) -> int {
    tfhd_pos_duration(f) + opt4(f & 8 != 0)
}

/// Position of `default_sample_flags` in a tfhd body with flags `f`.
pub open spec fn tfhd_pos_flags(f: u32) -> int {
    tfhd_pos_size(f) + opt4(f & 0x10 != 0)
}

/// Length of a tfhd body with flags `f`.
pub open spec fn tfhd_body_len(f: u32) -> int {
    tfhd_pos_flags(f) + opt4(f & 0x20 != 0)
}

/// The tfhd content `c` holds every field its flags announce.
pub open spec fn tfhd_fits(c: Seq<u8>) -> bool {
    c.len() >= 4 && content_body(c).len() >= tfhd_body_len(content_flags(c))
}

/// The tfhd described by the content `c`.
pub open spec fn spec_parse_tfhd(c: Seq<u8>) -> TfhdInfo {
    let f = content_flags(c);
    let d = content_body(c);
    TfhdInfo {
        track_id: be32(d, 0) as u32,
        flags: f,
        base_data_offset: if f & 1 != 0 { Some(be64(d, 4) as u64) } else { None },
        sample_description_index: if f & 2 != 0 { Some(be32(d, tfhd_pos_sdi(f)) as u32) } else { None },
        default_sample_duration: if f & 8 != 0 { Some(be32(d, tfhd_pos_duration(f)) as u32) } else { None },
        default_sample_size: if f & 0x10 != 0 { Some(be32(d, tfhd_pos_size(f)) as u32) } else { None },
        default_sample_flags: if f & 0x20 != 0 { Some(be32(d, tfhd_pos_flags(f)) as u32) } else { None },
    }
}

fn check_tfhd(content: &[u8]) -> (b: bool)
    ensures
        b == tfhd_fits(content@),
{
    if content.len() < 4 {
        return false;
    }
    let (_, flags, data) = fullbox_parse(content);
    let mut need: usize = 4;
    if flags & 0x000001 != 0 {
        need = need + 8;
    }
    if flags & 0x000002 != 0 {
        need = need + 4;
    }
    if flags & 0x000008 != 0 {
        need = need + 4;
    }
    if flags & 0x000010 != 0 {
        need = need + 4;
    }
    if flags & 0x000020 != 0 {
        need = need + 4;
    }
    data.len() >= need
}

/// Reads a track fragment header from the content of a tfhd box.
pub fn parse_tfhd(content: &[u8]) -> (r: TfhdInfo)
    requires
        tfhd_fits(content@),
    ensures
        r == spec_parse_tfhd(content@),
{
    let (_, flags, data) = fullbox_parse(content);
    let track_id = read_u32_be(data, 0);
    let mut pos: usize = 4;

    let base_data_offset = if flags & 0x000001 != 0 {
        let v = read_u64_be(data, pos);
        pos = pos + 8;
        Some(v)
    } else {
        None
    };

    let sample_description_index = if flags & 0x000002 != 0 {
        let v = read_u32_be(data, pos);
        pos = pos + 4;
        Some(v)
    } else {
        None
    };

    let default_sample_duration = if flags & 0x000008 != 0 {
        let v = read_u32_be(data, pos);
        pos = pos + 4;
        Some(v)
    } else {
        None
    };

    let default_sample_size = if flags & 0x000010 != 0 {
        let v = read_u32_be(data, pos);
        pos = pos + 4;
        Some(v)
    } else {
        None
    };

    let default_sample_flags = if flags & 0x000020 != 0 {
        let v = read_u32_be(data, pos);
        Some(v)
    } else {
        None
    };

    TfhdInfo {
        track_id,
        flags,
        base_data_offset,
        sample_description_index,
        default_sample_duration,
        default_sample_size,
        default_sample_flags,
    }
}

// ===== tfdt =====

/// The tfdt content `c` holds its decode time.
pub open spec fn tfdt_fits(c: Seq<u8>) -> bool {
    c.len() >= 4 && content_body(c).len() >= (if c[0] == 0 { 4int } else { 8int })
}

/// The tfdt described by the content `c`.
pub open spec fn spec_parse_tfdt(c: Seq<u8>) -> TfdtInfo {
    let d = content_body(c);
    TfdtInfo {
        version: c[0],
        base_media_decode_time: if c[0] == 0 { be32(d, 0) as u64 } else { be64(d, 0) as u64 },
    }
}

fn check_tfdt(content: &[u8]) -> (b: bool)
    ensures
        b == tfdt_fits(content@),
{
    if content.len() < 4 {
        return false;
    }
    let (version, _, data) = fullbox_parse(content);
    if version == 0 {
        data.len() >= 4
    } else {
        data.len() >= 8
    }
}

/// Reads a track fragment decode time from the content of a tfdt box.
pub fn parse_tfdt(content: &[u8]) -> (r: TfdtInfo)
    requires
        tfdt_fits(content@),
    ensures
        r == spec_parse_tfdt(content@),
{
    let (version, _, data) = fullbox_parse(content);
    let base_media_decode_time = if version == 0 {
        read_u32_be(data, 0) as u64
    } else {
        read_u64_be(data, 0)
    };
    TfdtInfo { version, base_media_decode_time }
}

// ===== trun =====

/// Position of the first sample record in a trun body with flags `f`.
pub open spec fn trun_pos_samples(f: u32) -> int {
    4 + opt4(f & 1 != 0) + opt4(f & 4 != 0)
}

/// Size of one sample record in a trun with flags `f`.
pub open spec fn trun_record_len(f: u32) -> int {
    opt4(f & 0x100 != 0) + opt4(f & 0x200 != 0) + opt4(f & 0x400 != 0) + opt4(f & 0x800 != 0)
}

/// Offset of the size field within a sample record.
pub open spec fn trun_off_size(f: u32) -> int {
    opt4(f & 0x100 != 0)
}

/// Offset of the flags field within a sample record.
pub open spec fn trun_off_flags(f: u32) -> int {
    trun_off_size(f) + opt4(f & 0x200 != 0)
}

/// Offset of the composition time offset within a sample record.
pub open spec fn trun_off_cts(f: u32) -> int {
    trun_off_flags(f) + opt4(f & 0x400 != 0)
}

/// The sample record that starts at `base` in the trun body `d` with flags `f`.
pub open spec fn spec_trun_sample(d: Seq<u8>, f: u32, base: int) -> TrunSample {
    TrunSample {
        duration: if f & 0x100 != 0 { Some(be32(d, base) as u32) } else { None },
        size: if f & 0x200 != 0 { Some(be32(d, base + trun_off_size(f)) as u32) } else { None },
        flags: if f & 0x400 != 0 { Some(be32(d, base + trun_off_flags(f)) as u32) } else { None },
        composition_time_offset_raw: if f & 0x800 != 0 {
            Some(be32(d, base + trun_off_cts(f)) as u32)
        } else {
            None
        },
    }
}

/// The trun content `c` holds every field and sample record it announces.
pub open spec fn trun_fits(c: Seq<u8>) -> bool {
    let d = content_body(c);
    let f = content_flags(c);
    &&& c.len() >= 4
    &&& d.len() >= 4
    &&& d.len() >= trun_pos_samples(f) + be32(d, 0) * trun_record_len(f)
}

/// The trun described by the content `c`.
pub open spec fn spec_parse_trun(c: Seq<u8>) -> TrunView {
    let d = content_body(c);
    let f = content_flags(c);
    let count = be32(d, 0);
    TrunView {
        version: c[0],
        flags: f,
        sample_count: count as u32,
        data_offset: if f & 1 != 0 { Some((be32(d, 4) as u32) as i32) } else { None },
        first_sample_flags: if f & 4 != 0 {
            Some(be32(d, 4 + opt4(f & 1 != 0)) as u32)
        } else {
            None
        },
        samples: Seq::new(
            count as nat,
            |i: int| spec_trun_sample(d, f, trun_pos_samples(f) + i * trun_record_len(f)),
        ),
    }
}

/// Law: sample record `i` of a trun is read field by field in the order
/// duration, size, flags, composition time offset, each present field taking
/// the next four bytes; the records follow the sample count, the data offset
/// and the first sample flags that the trun's flags announce.
pub proof fn lemma_trun_record_fields(c: Seq<u8>, i: int)
    requires
        0 <= i < be32(content_body(c), 0),
    ensures
        ({
            let d = content_body(c);
            let f = content_flags(c);
            let has_dur: int = if f & 0x100 != 0 { 4 } else { 0 };
            let has_size: int = if f & 0x200 != 0 { 4 } else { 0 };
            let has_flags: int = if f & 0x400 != 0 { 4 } else { 0 };
            let has_cts: int = if f & 0x800 != 0 { 4 } else { 0 };
            let base = 4 + (if f & 1 != 0 { 4int } else { 0int }) + (if f & 4 != 0 { 4int } else { 0int }) + i * (
            has_dur + has_size + has_flags + has_cts);
            let t = spec_parse_trun(c);
            let s = t.samples[i];
            &&& f == (c[1] * 65536 + c[2] * 256 + c[3]) as u32
            &&& t.sample_count == be32(d, 0) as u32
            &&& t.data_offset == (if f & 1 != 0 { Some((be32(d, 4) as u32) as i32) } else { None })
            &&& t.first_sample_flags == (if f & 4 != 0 {
                Some(be32(d, if f & 1 != 0 { 8 } else { 4 }) as u32)
            } else {
                None
            })
            &&& s.duration == (if f & 0x100 != 0 { Some(be32(d, base) as u32) } else { None })
            &&& s.size == (if f & 0x200 != 0 { Some(be32(d, base + has_dur) as u32) } else { None })
            &&& s.flags == (if f & 0x400 != 0 { Some(be32(d, base + has_dur + has_size) as u32) } else { None })
            &&& s.composition_time_offset_raw == (if f & 0x800 != 0 {
                Some(be32(d, base + has_dur + has_size + has_flags) as u32)
            } else {
                None
            })
        }),
{
}

proof fn lemma_record_step(i: int, count: int, rec: int)
    requires
        0 <= i < count,
        0 <= rec,
    ensures
        (i + 1) * rec == i * rec + rec,
        (i + 1) * rec <= count * rec,
        0 <= i * rec,
{
    assert((i + 1) * rec == i * rec + rec) by (nonlinear_arith);
    assert((i + 1) * rec <= count * rec) by (nonlinear_arith)
        requires
            i + 1 <= count,
            0 <= rec,
    ;
    assert(0 <= i * rec) by (nonlinear_arith)
        requires
            0 <= i,
            0 <= rec,
    ;
}

fn check_trun(content: &[u8]) -> (b: bool)
    ensures
        b == trun_fits(content@),
{
    if content.len() < 4 {
        return false;
    }
    let (_, flags, data) = fullbox_parse(content);
    if data.len() < 4 {
        return false;
    }
    let count = read_u32_be(data, 0) as u64;
    let mut pos: u64 = 4;
    if flags & 0x000001 != 0 {
        pos = pos + 4;
    }
    if flags & 0x000004 != 0 {
        pos = pos + 4;
    }
    let mut rec: u64 = 0;
    if flags & 0x000100 != 0 {
        rec = rec + 4;
    }
    if flags & 0x000200 != 0 {
        rec = rec + 4;
    }
    if flags & 0x000400 != 0 {
        rec = rec + 4;
    }
    if flags & 0x000800 != 0 {
        rec = rec + 4;
    }
    assert(count * rec <= 0xffff_ffff * 16) by (nonlinear_arith)
        requires
            count <= 0xffff_ffff,
            rec <= 16,
    ;
    (data.len() as u64) >= pos + count * rec
}

/// Reads a track fragment run, with all its sample records, from the content
/// of a trun box.
pub fn parse_trun(content: &[u8]) -> (r: TrunInfo)
    requires
        trun_fits(content@),
    ensures
        r@ == spec_parse_trun(content@),
{
    let (version, flags, data) = fullbox_parse(content);
    let ghost d = data@;
    let ghost f = flags;
    let sample_count = read_u32_be(data, 0);
    let mut pos: usize = 4;

    let data_offset = if flags & 0x000001 != 0 {
        let v = read_i32_be(data, pos);
        pos = pos + 4;
        Some(v)
    } else {
        None
    };

    let first_sample_flags = if flags & 0x000004 != 0 {
        let v = read_u32_be(data, pos);
        pos = pos + 4;
        Some(v)
    } else {
        None
    };

    let has_duration = flags & 0x000100 != 0;
    let has_size = flags & 0x000200 != 0;
    let has_flags = flags & 0x000400 != 0;
    let has_cts = flags & 0x000800 != 0;

    let ghost rec = trun_record_len(f);
    let ghost p0 = trun_pos_samples(f);
    let ghost target = Seq::new(
        sample_count as nat,
        |i: int| spec_trun_sample(d, f, trun_pos_samples(f) + i * trun_record_len(f)),
    );
    assert(pos == p0);

    let _len = data.len();
    let mut samples: Vec<TrunSample> = Vec::new();
    let mut i: u32 = 0;
    while i < sample_count
        invariant
            d == data@,
            d.len() <= usize::MAX,
            f == flags,
            rec == trun_record_len(f),
            p0 == trun_pos_samples(f),
            has_duration == (f & 0x100 != 0),
            has_size == (f & 0x200 != 0),
            has_flags == (f & 0x400 != 0),
            has_cts == (f & 0x800 != 0),
            d.len() >= p0 + sample_count * rec,
            sample_count == be32(d, 0),
            target.len() == sample_count,
            forall|j: int|
                0 <= j < sample_count ==> #[trigger] target[j] == spec_trun_sample(
                    d,
                    f,
                    p0 + j * rec,
                ),
            i <= sample_count,
            pos == p0 + i * rec,
            samples@ == target.subrange(0, i as int),
        decreases sample_count - i,
    {
        proof {
            lemma_record_step(i as int, sample_count as int, rec);
        }
        let base = pos;
        let duration = if has_duration {
            let v = read_u32_be(data, pos);
            pos = pos + 4;
            Some(v)
        } else {
            None
        };
        let size = if has_size {
            let v = read_u32_be(data, pos);
            pos = pos + 4;
            Some(v)
        } else {
            None
        };
        let sample_flags = if has_flags {
            let v = read_u32_be(data, pos);
            pos = pos + 4;
            Some(v)
        } else {
            None
        };
        let composition_time_offset_raw = if has_cts {
            let v = read_u32_be(data, pos);
            pos = pos + 4;
            Some(v)
        } else {
            None
        };
        let s = TrunSample { duration, size, flags: sample_flags, composition_time_offset_raw };
        assert(s == spec_trun_sample(d, f, base as int));
        samples.push(s);
        i = i + 1;
        assert(samples@ =~= target.subrange(0, i as int));
    }
    assert(target.subrange(0, sample_count as int) =~= target);

    TrunInfo { version, flags, sample_count, data_offset, first_sample_flags, samples }
}

} // verus!

verus! {

// ===== Box types =====

/// `moof`
pub open spec fn moof_type() -> Seq<u8> {
    seq![0x6du8, 0x6fu8, 0x6fu8, 0x66u8]
}

/// `mdat`
pub open spec fn mdat_type() -> Seq<u8> {
    seq![0x6du8, 0x64u8, 0x61u8, 0x74u8]
}

/// `traf`
pub open spec fn traf_type() -> Seq<u8> {
    seq![0x74u8, 0x72u8, 0x61u8, 0x66u8]
}

/// `tfhd`
pub open spec fn tfhd_type() -> Seq<u8> {
    seq![0x74u8, 0x66u8, 0x68u8, 0x64u8]
}

/// `tfdt`
pub open spec fn tfdt_type() -> Seq<u8> {
    seq![0x74u8, 0x66u8, 0x64u8, 0x74u8]
}

/// `trun`
pub open spec fn trun_type() -> Seq<u8> {
    seq![0x74u8, 0x72u8, 0x75u8, 0x6eu8]
}

// ===== Chunk Parsing =====

/// The content of the first top-level box of type `t` in `data`; `None` when
/// there is no such box or it reaches past the end of `data`.
pub open spec fn spec_child_content(data: Seq<u8>, t: Seq<u8>) -> Option<Seq<u8>> {
    match spec_find_box(data, t) {
        None => None,
        Some(b) => if box_within(data, b) {
            Some(spec_box_content(data, b))
        } else {
            None
        },
    }
}

/// The tfdt of the track fragment content `tc`: `Some(None)` when it has no
/// tfdt, `None` when its tfdt is malformed.
pub open spec fn spec_optional_tfdt(tc: Seq<u8>) -> Option<Option<TfdtInfo>> {
    match spec_find_box(tc, tfdt_type()) {
        None => Some(None),
        Some(b) => if box_within(tc, b) && tfdt_fits(spec_box_content(tc, b)) {
            Some(Some(spec_parse_tfdt(spec_box_content(tc, b))))
        } else {
            None
        },
    }
}

/// The fragment described by the moof box `moof` of the chunk file `data`:
/// its first traf must hold a tfhd and a trun with a data offset.
pub open spec fn spec_fragment_of(data: Seq<u8>, moof: BoxInfo) -> Option<FragmentView> {
    if !box_within(data, moof) {
        None
    } else {
        let mc = spec_box_content(data, moof);
        match spec_child_content(mc, traf_type()) {
            None => None,
            Some(tc) => match spec_child_content(tc, tfhd_type()) {
                None => None,
                Some(hc) => if !tfhd_fits(hc) {
                    None
                } else {
                    match spec_optional_tfdt(tc) {
                        None => None,
                        Some(tfdt) => match spec_child_content(tc, trun_type()) {
                            None => None,
                            Some(rc) => if !trun_fits(rc) {
                                None
                            } else {
                                let trun = spec_parse_trun(rc);
                                match trun.data_offset {
                                    None => None,
                                    Some(off) => Some(
                                        FragmentView {
                                            moof_offset: moof.offset,
                                            original_data_offset: off,
                                            tfhd: spec_parse_tfhd(hc),
                                            tfdt,
                                            trun,
                                        },
                                    ),
                                }
                            },
                        },
                    }
                },
            },
        }
    }
}

/// The fragments described by the top-level `boxes` of a chunk file, reading
/// them in order with `cur` the last moof seen and not yet used. Each mdat
/// closes the pending moof into a fragment; an mdat with no pending moof, or
/// a malformed moof, makes the whole result `None`.
pub open spec fn spec_chunk_frags(data: Seq<u8>, boxes: Seq<BoxInfo>, cur: Option<BoxInfo>) -> Option<
    Seq<FragmentView>,
>
    decreases boxes.len(),
{
    if boxes.len() == 0 {
        Some(Seq::empty())
    } else {
        let b = boxes[0];
        let rest = boxes.drop_first();
        if b.box_type@ == moof_type() {
            spec_chunk_frags(data, rest, Some(b))
        } else if b.box_type@ == mdat_type() {
            match cur {
                None => None,
                Some(m) => match spec_fragment_of(data, m) {
                    None => None,
                    Some(f) => match spec_chunk_frags(data, rest, None) {
                        None => None,
                        Some(fs) => Some(seq![f] + fs),
                    },
                },
            }
        } else {
            spec_chunk_frags(data, rest, cur)
        }
    }
}

/// The parse of a chunk file: all its moof+mdat fragments, of which there must
/// be at least one.
pub open spec fn spec_parse_chunk(data: Seq<u8>) -> Option<ChunkView> {
    match spec_chunk_frags(data, spec_iter_boxes(data), None) {
        Some(fs) => if fs.len() > 0 {
            Some(ChunkView { file_size: data.len() as usize, fragments: fs })
        } else {
            None
        },
        None => None,
    }
}

/// `acc` followed by the fragments of `rest`, if `rest` has a parse.
pub open spec fn prepend_frags(acc: Seq<FragmentView>, rest: Option<Seq<FragmentView>>) -> Option<
    Seq<FragmentView>,
> {
    match rest {
        None => None,
        Some(fs) => Some(acc + fs),
    }
}

pub(crate) fn box_fits(data: &[u8], info: &BoxInfo) -> (b: bool)
    ensures
        b == box_within(data@, *info),
{
    info.header_size <= info.total_size && info.offset <= data.len() && info.total_size <= data.len()
        - info.offset
}

pub(crate) fn child_content<'a>(data: &'a [u8], t: &[u8; 4]) -> (r: Option<&'a [u8]>)
    ensures
        match r {
            Some(c) => spec_child_content(data@, t@) == Some(c@),
            None => spec_child_content(data@, t@) is None,
        },
{
    match find_box(data, t) {
        None => None,
        Some(b) => {
            if box_fits(data, &b) {
                Some(box_content(data, &b))
            } else {
                None
            }
        },
    }
}

fn parse_fragment(data: &[u8], moof: &BoxInfo) -> (r: Option<FragmentInfo>)
    ensures
        match r {
            Some(f) => spec_fragment_of(data@, *moof) == Some(f@),
            None => spec_fragment_of(data@, *moof) is None,
        },
{
    let traf_ty: [u8; 4] = [0x74u8, 0x72u8, 0x61u8, 0x66u8];
    let tfhd_ty: [u8; 4] = [0x74u8, 0x66u8, 0x68u8, 0x64u8];
    let tfdt_ty: [u8; 4] = [0x74u8, 0x66u8, 0x64u8, 0x74u8];
    let trun_ty: [u8; 4] = [0x74u8, 0x72u8, 0x75u8, 0x6eu8];
    assert(traf_ty@ =~= traf_type());
    assert(tfhd_ty@ =~= tfhd_type());
    assert(tfdt_ty@ =~= tfdt_type());
    assert(trun_ty@ =~= trun_type());
    if !box_fits(data, moof) {
        return None;
    }
    let moof_content = box_content(data, moof);
    let traf_content = match child_content(moof_content, &traf_ty) {
        Some(c) => c,
        None => return None,
    };
    let tfhd_content = match child_content(traf_content, &tfhd_ty) {
        Some(c) => c,
        None => return None,
    };
    if !check_tfhd(tfhd_content) {
        return None;
    }
    let tfhd = parse_tfhd(tfhd_content);
    let tfdt = match find_box(traf_content, &tfdt_ty) {
        None => None,
        Some(b) => {
            if !box_fits(traf_content, &b) {
                return None;
            }
            let c = box_content(traf_content, &b);
            if !check_tfdt(c) {
                return None;
            }
            Some(parse_tfdt(c))
        },
    };
    let trun_content = match child_content(traf_content, &trun_ty) {
        Some(c) => c,
        None => return None,
    };
    if !check_trun(trun_content) {
        return None;
    }
    let trun = parse_trun(trun_content);
    let original_data_offset = match trun.data_offset {
        Some(o) => o,
        None => return None,
    };
    Some(FragmentInfo { moof_offset: moof.offset, original_data_offset, tfhd, tfdt, trun })
}

/// Parses a chunk file that may contain several moof+mdat fragment pairs;
/// `None` exactly where the file is malformed.
pub fn try_parse_chunk(data: &[u8]) -> (r: Option<ChunkParseResult>)
    ensures
        match r {
            Some(c) => spec_parse_chunk(data@) == Some(c@),
            None => spec_parse_chunk(data@) is None,
        },
{
    let moof_ty: [u8; 4] = [0x6du8, 0x6fu8, 0x6fu8, 0x66u8];
    let mdat_ty: [u8; 4] = [0x6du8, 0x64u8, 0x61u8, 0x74u8];
    let file_size = data.len();
    let top_level_boxes = iter_boxes(data);
    let ghost boxes = top_level_boxes@;

    let mut fragments: Vec<FragmentInfo> = Vec::new();
    let mut current_moof: Option<BoxInfo> = None;
    let mut i: usize = 0;
    proof {
        assert(moof_ty@ =~= moof_type());
        assert(mdat_ty@ =~= mdat_type());
        assert(boxes.skip(0) =~= boxes);
        assert(fragment_views(fragments@) =~= Seq::<FragmentView>::empty());
        assert(prepend_frags(Seq::empty(), spec_chunk_frags(data@, boxes, None)) =~= spec_chunk_frags(
            data@,
            boxes,
            None,
        ));
    }
    while i < top_level_boxes.len()
        invariant
            boxes == top_level_boxes@,
            boxes == spec_iter_boxes(data@),
            i <= boxes.len(),
            moof_ty@ == moof_type(),
            mdat_ty@ == mdat_type(),
            spec_chunk_frags(data@, boxes, None) == prepend_frags(
                fragment_views(fragments@),
                spec_chunk_frags(data@, boxes.skip(i as int), current_moof),
            ),
        decreases boxes.len() - i,
    {
        let box_info = top_level_boxes[i];
        let ghost rest = boxes.skip(i + 1);
        assert(boxes.skip(i as int).drop_first() =~= rest);
        assert(boxes.skip(i as int)[0] == box_info);
        if same_type(&box_info.box_type, &moof_ty) {
            current_moof = Some(box_info);
        } else if same_type(&box_info.box_type, &mdat_ty) {
            let moof_box_info = match current_moof {
                Some(m) => m,
                None => return None,
            };
            current_moof = None;
            let frag = match parse_fragment(data, &moof_box_info) {
                Some(f) => f,
                None => return None,
            };
            let ghost before = fragment_views(fragments@);
            let ghost fv = frag@;
            fragments.push(frag);
            proof {
                assert(fragment_views(fragments@) =~= before + seq![fv]);
                match spec_chunk_frags(data@, rest, None) {
                    None => {},
                    Some(fs) => {
                        assert(before + (seq![fv] + fs) =~= (before + seq![fv]) + fs);
                    },
                }
            }
        }
        i = i + 1;
    }
    proof {
        assert(boxes.skip(i as int) =~= Seq::<BoxInfo>::empty());
        assert(fragment_views(fragments@) + Seq::<FragmentView>::empty() =~= fragment_views(
            fragments@,
        ));
    }
    if fragments.len() == 0 {
        return None;
    }
    Some(ChunkParseResult { file_size, fragments })
}

/// Parses a chunk file that may contain several moof+mdat fragment pairs.
pub fn parse_chunk(data: &[u8]) -> (r: ChunkParseResult)
    requires
        spec_parse_chunk(data@) is Some,
    ensures
        spec_parse_chunk(data@) == Some(r@),
{
    match try_parse_chunk(data) {
        Some(c) => c,
        None => {
            proof {
                assert(false);
            }
            ChunkParseResult { file_size: 0, fragments: Vec::new() }
        },
    }
}

} // verus!

verus! {

// ===== Init Segment Parsing =====

/// `moov`
pub open spec fn moov_type() -> Seq<u8> {
    seq![0x6du8, 0x6fu8, 0x6fu8, 0x76u8]
}

/// `trak`
pub open spec fn trak_type() -> Seq<u8> {
    seq![0x74u8, 0x72u8, 0x61u8, 0x6bu8]
}

/// `tkhd`
pub open spec fn tkhd_type() -> Seq<u8> {
    seq![0x74u8, 0x6bu8, 0x68u8, 0x64u8]
}

/// `mdia`
pub open spec fn mdia_type() -> Seq<u8> {
    seq![0x6du8, 0x64u8, 0x69u8, 0x61u8]
}

/// `mdhd`
pub open spec fn mdhd_type() -> Seq<u8> {
    seq![0x6du8, 0x64u8, 0x68u8, 0x64u8]
}

/// `hdlr`
pub open spec fn hdlr_type() -> Seq<u8> {
    seq![0x68u8, 0x64u8, 0x6cu8, 0x72u8]
}

/// `mvex`
pub open spec fn mvex_type() -> Seq<u8> {
    seq![0x6du8, 0x76u8, 0x65u8, 0x78u8]
}

/// `trex`
pub open spec fn trex_type() -> Seq<u8> {
    seq![0x74u8, 0x72u8, 0x65u8, 0x78u8]
}

/// Offset of the track_id field within the body of a tkhd of the given version.
pub open spec fn tkhd_track_id_offset(version: u8) -> int {
    if version == 0 { 8 } else { 16 }
}

/// Offset of the timescale field within the body of an mdhd of the given version.
pub open spec fn mdhd_timescale_offset(version: u8) -> int {
    if version == 0 { 8 } else { 16 }
}

/// Within trak content `tc`: where the content of its tkhd starts, and the
/// offset of the track_id field from there.
pub open spec fn spec_tkhd_position(tc: Seq<u8>) -> Option<(int, int)> {
    match spec_find_box(tc, tkhd_type()) {
        None => None,
        Some(tk) => if !box_within(tc, tk) || spec_box_content(tc, tk).len() < 4 {
            None
        } else {
            Some(
                (
                    tk.offset + tk.header_size,
                    4 + tkhd_track_id_offset(spec_box_content(tc, tk)[0]),
                ),
            )
        },
    }
}

/// Within trak content `tc`: the media timescale (from mdia/mdhd) and the
/// handler type (from mdia/hdlr).
pub open spec fn spec_mdia_fields(tc: Seq<u8>) -> Option<(u32, [u8; 4])> {
    match spec_child_content(tc, mdia_type()) {
        None => None,
        Some(mdia_c) => match spec_child_content(mdia_c, mdhd_type()) {
            None => None,
            Some(mdhd_c) => if mdhd_c.len() < 4 || content_body(mdhd_c).len() < mdhd_timescale_offset(
                mdhd_c[0],
            ) + 4 {
                None
            } else {
                let timescale = be32(content_body(mdhd_c), mdhd_timescale_offset(mdhd_c[0])) as u32;
                match spec_child_content(mdia_c, hdlr_type()) {
                    None => None,
                    Some(hc) => if hc.len() < 4 || content_body(hc).len() < 8 {
                        None
                    } else {
                        Some((timescale, box_type_at(content_body(hc), 4)))
                    },
                }
            },
        },
    }
}

/// From the raw bytes of a trak box: the position of its tkhd's track_id field
/// within those bytes (as a start and an offset from it), the media
/// timescale, and the handler type.
pub open spec fn spec_trak_fields(raw: Seq<u8>) -> Option<(int, int, u32, [u8; 4])> {
    match spec_parse_box_at(raw, 0) {
        None => None,
        Some(h) => if h.header_size > raw.len() {
            None
        } else {
            let tc = raw.subrange(h.header_size as int, raw.len() as int);
            match spec_tkhd_position(tc) {
                None => None,
                Some(pos) => match spec_mdia_fields(tc) {
                    None => None,
                    Some(m) => Some((h.header_size + pos.0, pos.1, m.0, m.1)),
                },
            }
        },
    }
}

/// The trex defaults of moov content `mc` (from mvex/trex): sample description
/// index, duration, size and flags.
pub open spec fn spec_trex_defaults(mc: Seq<u8>) -> Option<(u32, u32, u32, u32)> {
    match spec_child_content(mc, mvex_type()) {
        None => None,
        Some(xc) => match spec_child_content(xc, trex_type()) {
            None => None,
            Some(rc) => if rc.len() < 4 || content_body(rc).len() < 20 {
                None
            } else {
                let td = content_body(rc);
                Some(
                    (
                        be32(td, 4) as u32,
                        be32(td, 8) as u32,
                        be32(td, 12) as u32,
                        be32(td, 16) as u32,
                    ),
                )
            },
        },
    }
}

/// `raw` with the four bytes at `at` replaced by the big-endian encoding of `id`.
pub open spec fn patch_u32(raw: Seq<u8>, at: int, id: u32) -> Seq<u8> {
    raw.subrange(0, at) + u32_be_bytes(id as int) + raw.subrange(at + 4, raw.len() as int)
}

/// The track described by an init segment: its first trak (with the track_id
/// replaced by `new_track_id`), media timescale and handler, and the trex
/// defaults. `None` exactly where the segment is malformed.
pub open spec fn spec_parse_init_segment(data: Seq<u8>, new_track_id: u32) -> Option<TrackInfoView> {
    match spec_child_content(data, moov_type()) {
        None => None,
        Some(mc) => match spec_find_box(mc, trak_type()) {
            None => None,
            Some(t) => if t.offset + t.total_size > mc.len() {
                None
            } else {
                let raw = spec_box_raw(mc, t);
                match spec_trak_fields(raw) {
                    None => None,
                    Some(fields) => if fields.0 + fields.1 + 4 > raw.len() {
                        None
                    } else {
                        match spec_trex_defaults(mc) {
                            None => None,
                            Some(trex) => Some(
                                TrackInfoView {
                                    new_track_id,
                                    timescale: fields.2,
                                    handler_type: fields.3,
                                    trak_raw: patch_u32(raw, fields.0 + fields.1, new_track_id),
                                    trex_default_sample_description_index: trex.0,
                                    trex_default_sample_duration: trex.1,
                                    trex_default_sample_size: trex.2,
                                    trex_default_sample_flags: trex.3,
                                },
                            ),
                        }
                    },
                }
            },
        },
    }
}

fn tkhd_position(tc: &[u8]) -> (r: Option<(usize, usize)>)
    ensures
        match r {
            None => spec_tkhd_position(tc@) is None,
            Some(p) => spec_tkhd_position(tc@) == Some((p.0 as int, p.1 as int)) && p.0 <= tc@.len(),
        },
{
    let _len = tc.len();
    let tkhd_ty: [u8; 4] = [0x74u8, 0x6bu8, 0x68u8, 0x64u8];
    assert(tkhd_ty@ =~= tkhd_type());
    let tkhd_info = match find_box(tc, &tkhd_ty) {
        Some(b) => b,
        None => return None,
    };
    if !box_fits(tc, &tkhd_info) {
        return None;
    }
    let tkhd_content = box_content(tc, &tkhd_info);
    if tkhd_content.len() < 4 {
        return None;
    }
    let (tkhd_version, _, _) = fullbox_parse(tkhd_content);
    let track_id_field_offset: usize = if tkhd_version == 0 { 8 } else { 16 };
    Some((tkhd_info.offset + tkhd_info.header_size, 4 + track_id_field_offset))
}

fn mdia_fields(tc: &[u8]) -> (r: Option<(u32, [u8; 4])>)
    ensures
        r == spec_mdia_fields(tc@),
{
    let mdia_ty: [u8; 4] = [0x6du8, 0x64u8, 0x69u8, 0x61u8];
    let mdhd_ty: [u8; 4] = [0x6du8, 0x64u8, 0x68u8, 0x64u8];
    let hdlr_ty: [u8; 4] = [0x68u8, 0x64u8, 0x6cu8, 0x72u8];
    assert(mdia_ty@ =~= mdia_type());
    assert(mdhd_ty@ =~= mdhd_type());
    assert(hdlr_ty@ =~= hdlr_type());
    let mdia_content = match child_content(tc, &mdia_ty) {
        Some(c) => c,
        None => return None,
    };
    let mdhd_content = match child_content(mdia_content, &mdhd_ty) {
        Some(c) => c,
        None => return None,
    };
    if mdhd_content.len() < 4 {
        return None;
    }
    let (mdhd_version, _, mdhd_data) = fullbox_parse(mdhd_content);
    let ts_off: usize = if mdhd_version == 0 { 8 } else { 16 };
    if mdhd_data.len() < ts_off + 4 {
        return None;
    }
    let timescale = read_u32_be(mdhd_data, ts_off);
    let hdlr_content = match child_content(mdia_content, &hdlr_ty) {
        Some(c) => c,
        None => return None,
    };
    if hdlr_content.len() < 4 {
        return None;
    }
    let (_, _, hdlr_data) = fullbox_parse(hdlr_content);
    if hdlr_data.len() < 8 {
        return None;
    }
    let handler_type: [u8; 4] = [hdlr_data[4], hdlr_data[5], hdlr_data[6], hdlr_data[7]];
    Some((timescale, handler_type))
}

fn trex_defaults(mc: &[u8]) -> (r: Option<(u32, u32, u32, u32)>)
    ensures
        r == spec_trex_defaults(mc@),
{
    let mvex_ty: [u8; 4] = [0x6du8, 0x76u8, 0x65u8, 0x78u8];
    let trex_ty: [u8; 4] = [0x74u8, 0x72u8, 0x65u8, 0x78u8];
    assert(mvex_ty@ =~= mvex_type());
    assert(trex_ty@ =~= trex_type());
    let mvex_content = match child_content(mc, &mvex_ty) {
        Some(c) => c,
        None => return None,
    };
    let trex_content = match child_content(mvex_content, &trex_ty) {
        Some(c) => c,
        None => return None,
    };
    if trex_content.len() < 4 {
        return None;
    }
    let (_, _, trex_data) = fullbox_parse(trex_content);
    if trex_data.len() < 20 {
        return None;
    }
    Some(
        (
            read_u32_be(trex_data, 4),
            read_u32_be(trex_data, 8),
            read_u32_be(trex_data, 12),
            read_u32_be(trex_data, 16),
        ),
    )
}

fn trak_fields(raw: &[u8]) -> (r: Option<(usize, usize, u32, [u8; 4])>)
    ensures
        match r {
            None => spec_trak_fields(raw@) is None,
            Some(f) => spec_trak_fields(raw@) == Some((f.0 as int, f.1 as int, f.2, f.3)) && f.0
                <= raw@.len() && f.1 <= 20,
        },
{
    let trak_header_size = match parse_box_at(raw, 0) {
        Some(h) => h.header_size,
        None => return None,
    };
    if trak_header_size > raw.len() {
        return None;
    }
    let trak_content = vstd::slice::slice_subrange(raw, trak_header_size, raw.len());
    let pos = match tkhd_position(trak_content) {
        Some(p) => p,
        None => return None,
    };
    let (timescale, handler_type) = match mdia_fields(trak_content) {
        Some(m) => m,
        None => return None,
    };
    Some((trak_header_size + pos.0, pos.1, timescale, handler_type))
}

fn patch_track_id(raw: &mut Vec<u8>, at: usize, id: u32)
    requires
        at + 4 <= old(raw)@.len(),
    ensures
        final(raw)@ == patch_u32(old(raw)@, at as int, id),
{
    let _len = raw.len();
    raw.set(at, (id / 16777216) as u8);
    raw.set(at + 1, ((id / 65536) % 256) as u8);
    raw.set(at + 2, ((id / 256) % 256) as u8);
    raw.set(at + 3, (id % 256) as u8);
    assert(raw@ =~= patch_u32(old(raw)@, at as int, id));
}

/// Reads the track of an init segment; `None` exactly where the segment is
/// malformed.
pub fn try_parse_init_segment(data: &[u8], new_track_id: u32) -> (r: Option<TrackInfo>)
    ensures
        match r {
            Some(t) => spec_parse_init_segment(data@, new_track_id) == Some(t@),
            None => spec_parse_init_segment(data@, new_track_id) is None,
        },
{
    let moov_ty: [u8; 4] = [0x6du8, 0x6fu8, 0x6fu8, 0x76u8];
    let trak_ty: [u8; 4] = [0x74u8, 0x72u8, 0x61u8, 0x6bu8];
    assert(moov_ty@ =~= moov_type());
    assert(trak_ty@ =~= trak_type());

    let moov_content = match child_content(data, &moov_ty) {
        Some(c) => c,
        None => return None,
    };
    let trak_info = match find_box(moov_content, &trak_ty) {
        Some(b) => b,
        None => return None,
    };
    if trak_info.offset > moov_content.len() || trak_info.total_size > moov_content.len()
        - trak_info.offset {
        return None;
    }
    let mut trak_raw = vstd::slice::slice_to_vec(box_raw(moov_content, &trak_info));
    let ghost raw = trak_raw@;

    let (tkhd_start, field_offset, timescale, handler_type) = match trak_fields(
        trak_raw.as_slice(),
    ) {
        Some(f) => f,
        None => return None,
    };
    if trak_raw.len() - tkhd_start < field_offset + 4 {
        return None;
    }
    let track_id_abs_offset = tkhd_start + field_offset;

    patch_track_id(&mut trak_raw, track_id_abs_offset, new_track_id);

    let (trex_sdi, trex_duration, trex_size, trex_flags) = match trex_defaults(moov_content) {
        Some(t) => t,
        None => return None,
    };

    Some(
        TrackInfo {
            new_track_id,
            timescale,
            handler_type,
            trak_raw,
            trex_default_sample_description_index: trex_sdi,
            trex_default_sample_duration: trex_duration,
            trex_default_sample_size: trex_size,
            trex_default_sample_flags: trex_flags,
        },
    )
}

/// Reads the track of an init segment: its first trak, with the track_id
/// replaced by `new_track_id`, its media timescale and handler type, and the
/// trex defaults.
pub fn parse_init_segment(data: &[u8], new_track_id: u32) -> (r: TrackInfo)
    requires
        spec_parse_init_segment(data@, new_track_id) is Some,
    ensures
        spec_parse_init_segment(data@, new_track_id) == Some(r@),
{
    match try_parse_init_segment(data, new_track_id) {
        Some(t) => t,
        None => {
            proof {
                assert(false);
            }
            TrackInfo {
                new_track_id,
                timescale: 0,
                handler_type: [0u8; 4],
                trak_raw: Vec::new(),
                trex_default_sample_description_index: 0,
                trex_default_sample_duration: 0,
                trex_default_sample_size: 0,
                trex_default_sample_flags: 0,
            }
        },
    }
}

/// After the track id is patched, the trak bytes read back `new_track_id` at
/// the patched position and are unchanged everywhere else.
pub proof fn lemma_patch_u32(raw: Seq<u8>, at: int, id: u32)
    requires
        0 <= at,
        at + 4 <= raw.len(),
    ensures
        patch_u32(raw, at, id).len() == raw.len(),
        be32(patch_u32(raw, at, id), at) == id,
        forall|i: int|
            0 <= i < raw.len() && !(at <= i < at + 4) ==> #[trigger] patch_u32(raw, at, id)[i]
                == raw[i],
{
    let p = patch_u32(raw, at, id);
    assert(p.subrange(at, at + 4) =~= u32_be_bytes(id as int));
    crate::binary::lemma_be32_of(p, at, id as int);
}

} // verus!
