// Reading an init segment into the boxes that a hybrid trak is rebuilt from.
use vstd::prelude::*;

use crate::cmd::generate::parse::{
    box_fits, child_content, hdlr_type, mdhd_type, mdia_type, spec_child_content,
    spec_parse_init_segment, tkhd_type, try_parse_init_segment,
};
use crate::mp4_box::{box_raw, box_within, find_box, parse_box_at, spec_box_raw, spec_find_box, spec_parse_box_at};
use super::types::{TrackInfo, TrackInfoView};
use crate::cmd::generate::types::TrackInfoView as TrakView;

verus! {

/// `minf`
pub open spec fn minf_type() -> Seq<u8> {
    seq![0x6du8, 0x69u8, 0x6eu8, 0x66u8]
}

/// `vmhd`
pub open spec fn vmhd_type() -> Seq<u8> {
    seq![0x76u8, 0x6du8, 0x68u8, 0x64u8]
}

/// `smhd`
pub open spec fn smhd_type() -> Seq<u8> {
    seq![0x73u8, 0x6du8, 0x68u8, 0x64u8]
}

/// `nmhd`
pub open spec fn nmhd_type() -> Seq<u8> {
    seq![0x6eu8, 0x6du8, 0x68u8, 0x64u8]
}

/// `dinf`
pub open spec fn dinf_type() -> Seq<u8> {
    seq![0x64u8, 0x69u8, 0x6eu8, 0x66u8]
}

/// `stbl`
pub open spec fn stbl_type() -> Seq<u8> {
    seq![0x73u8, 0x74u8, 0x62u8, 0x6cu8]
}

/// `stsd`
pub open spec fn stsd_type() -> Seq<u8> {
    seq![0x73u8, 0x74u8, 0x73u8, 0x64u8]
}

/// All bytes of the first top-level box of type `t` in `data`; `None` when
/// there is no such box or it reaches past the end of `data`.
pub open spec fn spec_child_raw(data: Seq<u8>, t: Seq<u8>) -> Option<Seq<u8>> {
    match spec_find_box(data, t) {
        None => None,
        Some(b) => if box_within(data, b) {
            Some(spec_box_raw(data, b))
        } else {
            None
        },
    }
}

/// The media header of minf content `mc`: its vmhd, else its smhd, else its nmhd.
pub open spec fn spec_media_header(mc: Seq<u8>) -> Option<Seq<u8>> {
    match spec_child_raw(mc, vmhd_type()) {
        Some(r) => Some(r),
        None => match spec_child_raw(mc, smhd_type()) {
            Some(r) => Some(r),
            None => spec_child_raw(mc, nmhd_type()),
        },
    }
}

/// The boxes of minf content `mc` kept for the output: media header, dinf
/// and the stsd of its stbl.
pub open spec fn spec_minf_parts(mc: Seq<u8>) -> Option<(Seq<u8>, Seq<u8>, Seq<u8>)> {
    match spec_media_header(mc) {
        None => None,
        Some(mh) => match spec_child_raw(mc, dinf_type()) {
            None => None,
            Some(dinf) => match spec_child_content(mc, stbl_type()) {
                None => None,
                Some(sc) => match spec_child_raw(sc, stsd_type()) {
                    None => None,
                    Some(stsd) => Some((mh, dinf, stsd)),
                },
            },
        },
    }
}

/// The boxes of trak content `tc` kept for the output: tkhd, mdhd, hdlr,
/// media header, dinf and stsd.
pub open spec fn spec_trak_parts(tc: Seq<u8>) -> Option<
    (Seq<u8>, Seq<u8>, Seq<u8>, Seq<u8>, Seq<u8>, Seq<u8>),
> {
    match spec_child_raw(tc, tkhd_type()) {
        None => None,
        Some(tkhd) => match spec_child_content(tc, mdia_type()) {
            None => None,
            Some(ac) => match spec_child_raw(ac, mdhd_type()) {
                None => None,
                Some(mdhd) => match spec_child_raw(ac, hdlr_type()) {
                    None => None,
                    Some(hdlr) => match spec_child_content(ac, minf_type()) {
                        None => None,
                        Some(mc) => match spec_minf_parts(mc) {
                            None => None,
                            Some(p) => Some((tkhd, mdhd, hdlr, p.0, p.1, p.2)),
                        },
                    },
                },
            },
        },
    }
}

/// A track read whole from an init segment, split into the boxes that the
/// output trak is rebuilt from.
pub open spec fn spec_split_track(t: TrakView) -> Option<TrackInfoView> {
    match spec_parse_box_at(t.trak_raw, 0) {
        None => None,
        Some(h) => if h.header_size > t.trak_raw.len() {
            None
        } else {
            match spec_trak_parts(t.trak_raw.subrange(h.header_size as int, t.trak_raw.len() as int)) {
                None => None,
                Some(p) => Some(
                    TrackInfoView {
                        new_track_id: t.new_track_id,
                        timescale: t.timescale,
                        handler_type: t.handler_type,
                        tkhd_raw: p.0,
                        mdhd_raw: p.1,
                        hdlr_raw: p.2,
                        media_header_raw: p.3,
                        dinf_raw: p.4,
                        stsd_raw: p.5,
                        trex_default_sample_description_index: t.trex_default_sample_description_index,
                        trex_default_sample_duration: t.trex_default_sample_duration,
                        trex_default_sample_size: t.trex_default_sample_size,
                        trex_default_sample_flags: t.trex_default_sample_flags,
                    },
                ),
            }
        },
    }
}

/// The track of an init segment, split for rebuilding; `None` exactly where
/// the segment is malformed or lacks one of the boxes.
pub open spec fn spec_plan_init_segment(data: Seq<u8>, new_track_id: u32) -> Option<TrackInfoView> {
    match spec_parse_init_segment(data, new_track_id) {
        None => None,
        Some(t) => spec_split_track(t),
    }
}

fn child_raw(data: &[u8], t: &[u8; 4]) -> (r: Option<Vec<u8>>)
    ensures
        match r {
            Some(c) => spec_child_raw(data@, t@) == Some(c@),
            None => spec_child_raw(data@, t@) is None,
        },
{
    match find_box(data, t) {
        None => None,
        Some(b) => {
            if box_fits(data, &b) {
                Some(vstd::slice::slice_to_vec(box_raw(data, &b)))
            } else {
                None
            }
        },
    }
}

fn media_header(mc: &[u8]) -> (r: Option<Vec<u8>>)
    ensures
        match r {
            Some(c) => spec_media_header(mc@) == Some(c@),
            None => spec_media_header(mc@) is None,
        },
{
    let vmhd_ty: [u8; 4] = [0x76u8, 0x6du8, 0x68u8, 0x64u8];
    let smhd_ty: [u8; 4] = [0x73u8, 0x6du8, 0x68u8, 0x64u8];
    let nmhd_ty: [u8; 4] = [0x6eu8, 0x6du8, 0x68u8, 0x64u8];
    assert(vmhd_ty@ =~= vmhd_type());
    assert(smhd_ty@ =~= smhd_type());
    assert(nmhd_ty@ =~= nmhd_type());
    match child_raw(mc, &vmhd_ty) {
        Some(r) => Some(r),
        None => match child_raw(mc, &smhd_ty) {
            Some(r) => Some(r),
            None => child_raw(mc, &nmhd_ty),
        },
    }
}

fn minf_parts(mc: &[u8]) -> (r: Option<(Vec<u8>, Vec<u8>, Vec<u8>)>)
    ensures
        match r {
            Some(p) => spec_minf_parts(mc@) == Some((p.0@, p.1@, p.2@)),
            None => spec_minf_parts(mc@) is None,
        },
{
    let dinf_ty: [u8; 4] = [0x64u8, 0x69u8, 0x6eu8, 0x66u8];
    let stbl_ty: [u8; 4] = [0x73u8, 0x74u8, 0x62u8, 0x6cu8];
    let stsd_ty: [u8; 4] = [0x73u8, 0x74u8, 0x73u8, 0x64u8];
    assert(dinf_ty@ =~= dinf_type());
    assert(stbl_ty@ =~= stbl_type());
    assert(stsd_ty@ =~= stsd_type());
    let mh = match media_header(mc) {
        Some(r) => r,
        None => return None,
    };
    let dinf = match child_raw(mc, &dinf_ty) {
        Some(r) => r,
        None => return None,
    };
    let sc = match child_content(mc, &stbl_ty) {
        Some(c) => c,
        None => return None,
    };
    let stsd = match child_raw(sc, &stsd_ty) {
        Some(r) => r,
        None => return None,
    };
    Some((mh, dinf, stsd))
}

fn trak_parts(tc: &[u8]) -> (r: Option<(Vec<u8>, Vec<u8>, Vec<u8>, Vec<u8>, Vec<u8>, Vec<u8>)>)
    ensures
        match r {
            Some(p) => spec_trak_parts(tc@) == Some((p.0@, p.1@, p.2@, p.3@, p.4@, p.5@)),
            None => spec_trak_parts(tc@) is None,
        },
{
    let tkhd_ty: [u8; 4] = [0x74u8, 0x6bu8, 0x68u8, 0x64u8];
    let mdia_ty: [u8; 4] = [0x6du8, 0x64u8, 0x69u8, 0x61u8];
    let mdhd_ty: [u8; 4] = [0x6du8, 0x64u8, 0x68u8, 0x64u8];
    let hdlr_ty: [u8; 4] = [0x68u8, 0x64u8, 0x6cu8, 0x72u8];
    let minf_ty: [u8; 4] = [0x6du8, 0x69u8, 0x6eu8, 0x66u8];
    assert(tkhd_ty@ =~= tkhd_type());
    assert(mdia_ty@ =~= mdia_type());
    assert(mdhd_ty@ =~= mdhd_type());
    assert(hdlr_ty@ =~= hdlr_type());
    assert(minf_ty@ =~= minf_type());
    let tkhd = match child_raw(tc, &tkhd_ty) {
        Some(r) => r,
        None => return None,
    };
    let ac = match child_content(tc, &mdia_ty) {
        Some(c) => c,
        None => return None,
    };
    let mdhd = match child_raw(ac, &mdhd_ty) {
        Some(r) => r,
        None => return None,
    };
    let hdlr = match child_raw(ac, &hdlr_ty) {
        Some(r) => r,
        None => return None,
    };
    let mc = match child_content(ac, &minf_ty) {
        Some(c) => c,
        None => return None,
    };
    let (mh, dinf, stsd) = match minf_parts(mc) {
        Some(p) => p,
        None => return None,
    };
    Some((tkhd, mdhd, hdlr, mh, dinf, stsd))
}

/// Reads the track of an init segment and splits it into the boxes that the
/// output trak is rebuilt from; `None` exactly where the segment is malformed
/// or lacks one of those boxes.
pub fn try_parse_init_segment_parts(data: &[u8], new_track_id: u32) -> (r: Option<TrackInfo>)
    ensures
        match r {
            Some(t) => spec_plan_init_segment(data@, new_track_id) == Some(t@),
            None => spec_plan_init_segment(data@, new_track_id) is None,
        },
{
    let whole = match try_parse_init_segment(data, new_track_id) {
        Some(t) => t,
        None => return None,
    };
    let raw = whole.trak_raw.as_slice();
    let header_size = match parse_box_at(raw, 0) {
        Some(h) => h.header_size,
        None => return None,
    };
    if header_size > raw.len() {
        return None;
    }
    let tc = vstd::slice::slice_subrange(raw, header_size, raw.len());
    let (tkhd, mdhd, hdlr, mh, dinf, stsd) = match trak_parts(tc) {
        Some(p) => p,
        None => return None,
    };
    Some(
        TrackInfo {
            new_track_id: whole.new_track_id,
            timescale: whole.timescale,
            handler_type: whole.handler_type,
            tkhd_raw: tkhd,
            mdhd_raw: mdhd,
            hdlr_raw: hdlr,
            media_header_raw: mh,
            dinf_raw: dinf,
            stsd_raw: stsd,
            trex_default_sample_description_index: whole.trex_default_sample_description_index,
            trex_default_sample_duration: whole.trex_default_sample_duration,
            trex_default_sample_size: whole.trex_default_sample_size,
            trex_default_sample_flags: whole.trex_default_sample_flags,
        },
    )
}

} // verus!
