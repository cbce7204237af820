// Data types for parsed fragmented-MP4 structures and for the merge job.
use vstd::prelude::*;

verus! {

// ===== Parsed MP4 Structures =====

/// Track fragment header (`tfhd`). Optional fields are present when the
/// corresponding flag bit is set.
#[derive(Debug, Clone, Copy)]
pub struct TfhdInfo {
    pub track_id: u32,
    pub flags: u32,
    pub base_data_offset: Option<u64>,
    pub sample_description_index: Option<u32>,
    pub default_sample_duration: Option<u32>,
    pub default_sample_size: Option<u32>,
    pub default_sample_flags: Option<u32>,
}

/// Track fragment decode time (`tfdt`).
#[derive(Debug, Clone, Copy)]
pub struct TfdtInfo {
    pub version: u8,
    pub base_media_decode_time: u64,
}

/// One sample record of a track run.
#[derive(Debug, Clone, Copy)]
pub struct TrunSample {
    pub duration: Option<u32>,
    pub size: Option<u32>,
    pub flags: Option<u32>,
    pub composition_time_offset_raw: Option<u32>,
}

/// Track fragment run (`trun`).
#[derive(Debug, Clone)]
pub struct TrunInfo {
    pub version: u8,
    pub flags: u32,
    pub sample_count: u32,
    pub data_offset: Option<i32>,
    pub first_sample_flags: Option<u32>,
    pub samples: Vec<TrunSample>,
}

/// A track run as a mathematical value.
pub ghost struct TrunView {
    pub version: u8,
    pub flags: u32,
    pub sample_count: u32,
    pub data_offset: Option<i32>,
    pub first_sample_flags: Option<u32>,
    pub samples: Seq<TrunSample>,
}

impl View for TrunInfo {
    type V = TrunView;

    open spec fn view(&self) -> TrunView {
        TrunView {
            version: self.version,
            flags: self.flags,
            sample_count: self.sample_count,
            data_offset: self.data_offset,
            first_sample_flags: self.first_sample_flags,
            samples: self.samples@,
        }
    }
}

/// Track information read from an init segment.
#[derive(Debug)]
pub struct TrackInfo {
    pub new_track_id: u32,
    pub timescale: u32,
    pub handler_type: [u8; 4],
    /// Raw trak box, with its track_id patched to `new_track_id`
    pub trak_raw: Vec<u8>,
    pub trex_default_sample_description_index: u32,
    pub trex_default_sample_duration: u32,
    pub trex_default_sample_size: u32,
    pub trex_default_sample_flags: u32,
}

/// Track information as a mathematical value.
pub ghost struct TrackInfoView {
    pub new_track_id: u32,
    pub timescale: u32,
    pub handler_type: [u8; 4],
    pub trak_raw: Seq<u8>,
    pub trex_default_sample_description_index: u32,
    pub trex_default_sample_duration: u32,
    pub trex_default_sample_size: u32,
    pub trex_default_sample_flags: u32,
}

impl View for TrackInfo {
    type V = TrackInfoView;

    open spec fn view(&self) -> TrackInfoView {
        TrackInfoView {
            new_track_id: self.new_track_id,
            timescale: self.timescale,
            handler_type: self.handler_type,
            trak_raw: self.trak_raw@,
            trex_default_sample_description_index: self.trex_default_sample_description_index,
            trex_default_sample_duration: self.trex_default_sample_duration,
            trex_default_sample_size: self.trex_default_sample_size,
            trex_default_sample_flags: self.trex_default_sample_flags,
        }
    }
}

/// A single moof+mdat fragment within a chunk file
#[derive(Debug)]
pub struct FragmentInfo {
    /// Offset of the moof box within the original chunk file
    pub moof_offset: usize,
    /// Data offset from original trun (offset from moof start to first sample)
    pub original_data_offset: i32,
    /// Parsed tfhd
    pub tfhd: TfhdInfo,
    /// Parsed tfdt
    pub tfdt: Option<TfdtInfo>,
    /// Parsed trun
    pub trun: TrunInfo,
}

/// A fragment as a mathematical value.
pub ghost struct FragmentView {
    pub moof_offset: usize,
    pub original_data_offset: i32,
    pub tfhd: TfhdInfo,
    pub tfdt: Option<TfdtInfo>,
    pub trun: TrunView,
}

impl View for FragmentInfo {
    type V = FragmentView;

    open spec fn view(&self) -> FragmentView {
        FragmentView {
            moof_offset: self.moof_offset,
            original_data_offset: self.original_data_offset,
            tfhd: self.tfhd,
            tfdt: self.tfdt,
            trun: self.trun@,
        }
    }
}

/// Result of parsing a chunk file — may contain multiple fragments
#[derive(Debug)]
pub struct ChunkParseResult {
    /// Total file size
    pub file_size: usize,
    /// All moof+mdat fragment pairs in this chunk file
    pub fragments: Vec<FragmentInfo>,
}

/// A parsed chunk file as a mathematical value.
pub ghost struct ChunkView {
    pub file_size: usize,
    pub fragments: Seq<FragmentView>,
}

/// The views of a sequence of fragments.
pub open spec fn fragment_views(fragments: Seq<FragmentInfo>) -> Seq<FragmentView> {
    fragments.map_values(|f: FragmentInfo| f@)
}

impl View for ChunkParseResult {
    type V = ChunkView;

    open spec fn view(&self) -> ChunkView {
        ChunkView { file_size: self.file_size, fragments: fragment_views(self.fragments@) }
    }
}

// ===== Sidx =====

/// One reference entry of a segment index (`sidx`).
pub struct SidxReference {
    pub referenced_size: u32,
    pub subsegment_duration: u32,
    pub starts_with_sap: bool,
    pub sap_type: u8,
}

// ===== Job description and the list of placed sources =====

/// One input stream: its init segment and its media chunks.
pub struct StreamConfig {
    pub format: String,
    pub codecs: Vec<String>,
    pub init: String,
    pub chunks: Vec<String>,
}

/// The streams to merge.
pub struct InputConfig {
    pub streams: Vec<StreamConfig>,
}

/// Where a source file was placed in the output (`dest_type` is "init" or "data").
pub struct SourceDest {
    pub dest_type: String,
    pub offset: u64,
    pub length: u64,
}

/// A source file, its SHA-256 in lower-case hex, and where it was placed.
pub struct SourceFile {
    pub source: String,
    pub sha256: String,
    pub dest: SourceDest,
}

/// All source files placed in the output.
pub struct SourcesOutput {
    pub files: Vec<SourceFile>,
}

} // verus!
