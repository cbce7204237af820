// Reading one input stream: its init segment, its chunk files, and the
// sample table they make.
use vstd::prelude::*;

use crate::cmd::generate::parse::{spec_parse_chunk, try_parse_chunk};
use crate::cmd::generate::types::{ChunkParseResult, ChunkView};
use super::parse::{spec_plan_init_segment, try_parse_init_segment_parts};
use super::sample_table::{
    chunk_ticks, chunk_views, chunks_recs, spec_sample_table, try_collect_sample_table, TrexDefaults,
};
use super::types::{TrackInfo, TrackInfoView, TrackSampleTable};

verus! {

/// One stream read and prepared: its track, its parsed chunk files, its
/// sample table (chunk offsets not yet known) and the duration in ticks of
/// each chunk file.
pub struct PreparedStream {
    pub track: TrackInfo,
    pub chunks: Vec<ChunkParseResult>,
    pub table: TrackSampleTable,
    pub chunk_ticks: Vec<u64>,
}

/// Why a stream could not be prepared.
#[derive(Debug, Clone, Copy, PartialEq, Eq, Structural)]
pub enum PrepareError {
    /// The init segment is malformed or lacks a box the output needs.
    InitSegment,
    /// Chunk file `index` is malformed.
    Chunk { index: usize },
    /// The stream has more samples than 32 bits can number.
    TooManySamples,
}

/// The track defaults of a track.
pub open spec fn trex_defaults(t: TrackInfoView) -> TrexDefaults {
    TrexDefaults {
        duration: t.trex_default_sample_duration,
        size: t.trex_default_sample_size,
        flags: t.trex_default_sample_flags,
    }
}

/// A chunk file parsed (kept folded in the proofs here).
#[verifier::opaque]
pub open spec fn chunk_parse(data: Seq<u8>) -> Option<ChunkView> {
    spec_parse_chunk(data)
}

/// Parses one chunk file.
fn parse_one_chunk(data: &[u8]) -> (r: Option<ChunkParseResult>)
    ensures
        match r {
            Some(c) => chunk_parse(data@) == Some(c@),
            None => chunk_parse(data@) is None,
        },
{
    reveal(chunk_parse);
    try_parse_chunk(data)
}

/// Every chunk file before `k` parses.
pub open spec fn chunks_parse_before(chunk_data: Seq<Seq<u8>>, k: int) -> bool {
    forall|j: int| 0 <= j < k ==> (#[trigger] chunk_parse(chunk_data[j])) is Some
}

/// The parsed chunk files.
pub open spec fn parsed_chunks(chunk_data: Seq<Seq<u8>>) -> Seq<ChunkView> {
    Seq::new(chunk_data.len(), |j: int| chunk_parse(chunk_data[j]).unwrap())
}

/// The bytes of each chunk file.
pub open spec fn chunk_bytes(chunk_data: Seq<Vec<u8>>) -> Seq<Seq<u8>> {
    chunk_data.map_values(|d: Vec<u8>| d@)
}

/// Parses each chunk file in order; `Err` with the index of the first that
/// is malformed.
fn parse_chunks(chunk_data: &Vec<Vec<u8>>) -> (r: Result<Vec<ChunkParseResult>, usize>)
    ensures
        ({
            let cd = chunk_bytes(chunk_data@);
            match r {
                Ok(chunks) => chunks_parse_before(cd, cd.len() as int) && chunk_views(chunks@)
                    == parsed_chunks(cd),
                Err(index) => index < cd.len() && chunks_parse_before(cd, index as int) && chunk_parse(
                    cd[index as int],
                ) is None,
            }
        }),
{
    let ghost cd = chunk_bytes(chunk_data@);
    let mut chunks: Vec<ChunkParseResult> = Vec::new();
    let mut k: usize = 0;
    while k < chunk_data.len()
        invariant
            cd == chunk_bytes(chunk_data@),
            k <= cd.len(),
            chunks_parse_before(cd, k as int),
            chunk_views(chunks@) == parsed_chunks(cd).take(k as int),
        decreases cd.len() - k,
    {
        assert(cd[k as int] == chunk_data@[k as int]@);
        let parsed = match parse_one_chunk(chunk_data[k].as_slice()) {
            Some(c) => c,
            None => return Err(k),
        };
        let ghost before = chunks@;
        let ghost pc = parsed_chunks(cd);
        assert(pc[k as int] == parsed@);
        chunks.push(parsed);
        proof {
            assert(chunk_views(chunks@) =~= chunk_views(before).push(parsed@));
            assert(pc.take(k + 1) =~= pc.take(k as int).push(pc[k as int]));
            assert forall|j: int| 0 <= j < k + 1 implies (#[trigger] chunk_parse(cd[j])) is Some by {
                if j < k {
                    assert(chunks_parse_before(cd, k as int));
                }
            }
        }
        k = k + 1;
    }
    assert(parsed_chunks(cd).take(k as int) =~= parsed_chunks(cd));
    Ok(chunks)
}

/// Reads a stream: parses its init segment (giving the track `new_track_id`)
/// and each of its chunk files, then collects its sample table. The first
/// failure is reported: the init segment, then the chunk files in order,
/// then a sample count beyond 32 bits.
pub fn prepare_stream(init_data: &[u8], chunk_data: &Vec<Vec<u8>>, new_track_id: u32) -> (r: Result<
    PreparedStream,
    PrepareError,
>)
    ensures
        ({
            let cd = chunk_bytes(chunk_data@);
            match r {
                Ok(p) => {
                    &&& spec_plan_init_segment(init_data@, new_track_id) == Some(p.track@)
                    &&& chunks_parse_before(cd, cd.len() as int)
                    &&& chunk_views(p.chunks@) == parsed_chunks(cd)
                    &&& spec_sample_table(parsed_chunks(cd), trex_defaults(p.track@), p.table@)
                    &&& p.chunk_ticks@ == chunk_ticks(parsed_chunks(cd), trex_defaults(p.track@))
                },
                Err(PrepareError::InitSegment) => spec_plan_init_segment(init_data@, new_track_id) is None,
                Err(PrepareError::Chunk { index }) => {
                    &&& spec_plan_init_segment(init_data@, new_track_id) is Some
                    &&& index < cd.len()
                    &&& chunks_parse_before(cd, index as int)
                    &&& chunk_parse(cd[index as int]) is None
                },
                Err(PrepareError::TooManySamples) => {
                    &&& spec_plan_init_segment(init_data@, new_track_id) is Some
                    &&& chunks_parse_before(cd, cd.len() as int)
                    &&& chunks_recs(
                        parsed_chunks(cd),
                        trex_defaults(spec_plan_init_segment(init_data@, new_track_id).unwrap()),
                    ).len() > u32::MAX
                },
            }
        }),
{
    let ghost cd = chunk_bytes(chunk_data@);
    let track = match try_parse_init_segment_parts(init_data, new_track_id) {
        Some(t) => t,
        None => return Err(PrepareError::InitSegment),
    };
    let chunks = match parse_chunks(chunk_data) {
        Ok(c) => c,
        Err(index) => return Err(PrepareError::Chunk { index }),
    };
    match try_collect_sample_table(
        chunks.as_slice(),
        track.trex_default_sample_duration,
        track.trex_default_sample_size,
        track.trex_default_sample_flags,
    ) {
        Some((table, ticks)) => Ok(PreparedStream { track, chunks, table, chunk_ticks: ticks }),
        None => Err(PrepareError::TooManySamples),
    }
}

} // verus!
