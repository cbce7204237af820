// Data types for building a progressive moov from fragmented streams.
use vstd::prelude::*;

pub use crate::cmd::generate::types::{
    ChunkParseResult, FragmentInfo, InputConfig, StreamConfig, TfdtInfo, TfhdInfo, TrunInfo,
    TrunSample,
};

verus! {

/// Track information read from an init segment, split into the boxes that are
/// copied into the output trak.
#[derive(Debug)]
pub struct TrackInfo {
    pub new_track_id: u32,
    pub timescale: u32,
    pub handler_type: [u8; 4],
    /// Raw tkhd box (with track_id already patched)
    pub tkhd_raw: Vec<u8>,
    /// Raw mdhd box
    pub mdhd_raw: Vec<u8>,
    /// Raw hdlr box
    pub hdlr_raw: Vec<u8>,
    /// Raw media header box (vmhd, smhd, or nmhd)
    pub media_header_raw: Vec<u8>,
    /// Raw dinf box
    pub dinf_raw: Vec<u8>,
    /// Raw stsd box
    pub stsd_raw: Vec<u8>,
    pub trex_default_sample_description_index: u32,
    pub trex_default_sample_duration: u32,
    pub trex_default_sample_size: u32,
    pub trex_default_sample_flags: u32,
}

/// Track information as a mathematical value.
pub ghost struct TrackInfoView {
    pub new_track_id: u32,
    pub timescale: u32,
    pub handler_type: [u8; 4],
    pub tkhd_raw: Seq<u8>,
    pub mdhd_raw: Seq<u8>,
    pub hdlr_raw: Seq<u8>,
    pub media_header_raw: Seq<u8>,
    pub dinf_raw: Seq<u8>,
    pub stsd_raw: Seq<u8>,
    pub trex_default_sample_description_index: u32,
    pub trex_default_sample_duration: u32,
    pub trex_default_sample_size: u32,
    pub trex_default_sample_flags: u32,
}

impl View for TrackInfo {
    type V = TrackInfoView;

    open spec fn view(&self) -> TrackInfoView {
        TrackInfoView {
            new_track_id: self.new_track_id,
            timescale: self.timescale,
            handler_type: self.handler_type,
            tkhd_raw: self.tkhd_raw@,
            mdhd_raw: self.mdhd_raw@,
            hdlr_raw: self.hdlr_raw@,
            media_header_raw: self.media_header_raw@,
            dinf_raw: self.dinf_raw@,
            stsd_raw: self.stsd_raw@,
            trex_default_sample_description_index: self.trex_default_sample_description_index,
            trex_default_sample_duration: self.trex_default_sample_duration,
            trex_default_sample_size: self.trex_default_sample_size,
            trex_default_sample_flags: self.trex_default_sample_flags,
        }
    }
}

/// Per-track sample table data collected from all chunks (for Hybrid MP4 moov)
pub struct TrackSampleTable {
    /// base_media_decode_time of first fragment (from tfdt), in track timescale.
    /// Non-zero when media doesn't start at time 0 (e.g. audio with initial offset).
    pub media_start_time: u64,
    /// Total media duration in track timescale
    pub total_duration: u64,
    /// Size of each sample in bytes
    pub sample_sizes: Vec<u32>,
    /// Duration of each sample in track timescale
    pub sample_durations: Vec<u32>,
    /// Whether any sample has composition time offsets
    pub has_cts: bool,
    /// CTS version (0=unsigned, 1=signed)
    pub cts_version: u8,
    /// Composition time offset for each sample (empty if !has_cts)
    pub cts_offsets: Vec<i32>,
    /// 1-based sample indices of sync (key) samples
    pub sync_samples: Vec<u32>,
    /// Number of samples in each stbl "chunk" (one per source fragment).
    pub samples_per_chunk: Vec<u32>,
    /// Absolute file offset of first sample in each stbl "chunk".
    /// Same length as `samples_per_chunk`.
    pub chunk_offsets: Vec<u64>,
    /// Where each stbl chunk comes from, used to fill in `chunk_offsets` once
    /// the moov size (and thus mdat start) is known. Same length as `chunk_offsets`.
    pub sub_chunks: Vec<SubChunkInfo>,
}

/// A sample table as a mathematical value.
pub ghost struct SampleTableView {
    pub media_start_time: u64,
    pub total_duration: u64,
    pub sample_sizes: Seq<u32>,
    pub sample_durations: Seq<u32>,
    pub has_cts: bool,
    pub cts_version: u8,
    pub cts_offsets: Seq<i32>,
    pub sync_samples: Seq<u32>,
    pub samples_per_chunk: Seq<u32>,
    pub chunk_offsets: Seq<u64>,
    pub sub_chunks: Seq<SubChunkInfo>,
}

impl View for TrackSampleTable {
    type V = SampleTableView;

    open spec fn view(&self) -> SampleTableView {
        SampleTableView {
            media_start_time: self.media_start_time,
            total_duration: self.total_duration,
            sample_sizes: self.sample_sizes@,
            sample_durations: self.sample_durations@,
            has_cts: self.has_cts,
            cts_version: self.cts_version,
            cts_offsets: self.cts_offsets@,
            sync_samples: self.sync_samples@,
            samples_per_chunk: self.samples_per_chunk@,
            chunk_offsets: self.chunk_offsets@,
            sub_chunks: self.sub_chunks@,
        }
    }
}

/// Locates a stbl chunk within the original input layout so its absolute byte
/// offset can be computed once the mdat position is finalized.
#[derive(Debug, Clone, Copy)]
pub struct SubChunkInfo {
    /// 0-based index of the source m4s file within its stream.
    pub chunk_file_idx: u32,
    /// 0-based index of the fragment within that m4s file.
    pub fragment_idx: u16,
    /// Byte offset from the start of the fragment's sample data to this
    /// chunk's first sample.
    pub byte_offset_in_fragment: u32,
}

} // verus!
