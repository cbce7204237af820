// Collection of per-track sample tables from parsed chunk files.
use vstd::prelude::*;

use crate::cmd::generate::types::{fragment_views, ChunkParseResult, ChunkView, FragmentView};
use crate::helpers::{effective_duration, effective_size, flags_mark_sync, is_sync_flags, record_flags};
use super::types::{SampleTableView, SubChunkInfo, TrackSampleTable};

verus! {

/// What the sample table keeps of one sample.
pub ghost struct SampleRec {
    pub duration: u32,
    pub size: u32,
    pub flags: u32,
    pub cts: Option<u32>,
    pub version: u8,
}

/// The track defaults (trex) for duration, size and flags.
pub ghost struct TrexDefaults {
    pub duration: u32,
    pub size: u32,
    pub flags: u32,
}

/// Sample `i` of fragment `f`, with defaults applied. The first sample of the
/// run takes the run's first_sample_flags when present.
pub open spec fn sample_rec(f: FragmentView, i: int, d: TrexDefaults) -> SampleRec {
    let s = f.trun.samples[i];
    SampleRec {
        duration: effective_duration(s, f.tfhd, d.duration),
        size: effective_size(s, f.tfhd, d.size),
        flags: if i == 0 {
            match f.trun.first_sample_flags {
                Some(x) => x,
                None => record_flags(s, f.tfhd, d.flags),
            }
        } else {
            record_flags(s, f.tfhd, d.flags)
        },
        cts: s.composition_time_offset_raw,
        version: f.trun.version,
    }
}

/// The samples of one fragment.
pub open spec fn fragment_recs(f: FragmentView, d: TrexDefaults) -> Seq<SampleRec> {
    Seq::new(f.trun.samples.len(), |i: int| sample_rec(f, i, d))
}

/// The samples of a sequence of fragments, in order.
pub open spec fn fragments_recs(frags: Seq<FragmentView>, d: TrexDefaults) -> Seq<SampleRec>
    decreases frags.len(),
{
    if frags.len() == 0 {
        Seq::empty()
    } else {
        fragments_recs(frags.drop_last(), d) + fragment_recs(frags.last(), d)
    }
}

/// The samples of a sequence of chunk files, in order.
pub open spec fn chunks_recs(chunks: Seq<ChunkView>, d: TrexDefaults) -> Seq<SampleRec>
    decreases chunks.len(),
{
    if chunks.len() == 0 {
        Seq::empty()
    } else {
        chunks_recs(chunks.drop_last(), d) + fragments_recs(chunks.last().fragments, d)
    }
}

/// The fragments of a sequence of chunk files, in order.
pub open spec fn chunks_fragments(chunks: Seq<ChunkView>) -> Seq<FragmentView>
    decreases chunks.len(),
{
    if chunks.len() == 0 {
        Seq::empty()
    } else {
        chunks_fragments(chunks.drop_last()) + chunks.last().fragments
    }
}

/// Where each fragment of chunk file `k` comes from.
pub open spec fn chunk_sub_chunks(k: int, n: int) -> Seq<SubChunkInfo> {
    Seq::new(
        n as nat,
        |j: int| SubChunkInfo { chunk_file_idx: k as u32, fragment_idx: j as u16, byte_offset_in_fragment: 0 },
    )
}

/// Where each fragment of a sequence of chunk files comes from, in order.
pub open spec fn chunks_sub_chunks(chunks: Seq<ChunkView>) -> Seq<SubChunkInfo>
    decreases chunks.len(),
{
    if chunks.len() == 0 {
        Seq::empty()
    } else {
        chunks_sub_chunks(chunks.drop_last()) + chunk_sub_chunks(
            chunks.len() - 1,
            chunks.last().fragments.len() as int,
        )
    }
}

/// Sum of the durations of `recs`.
pub open spec fn sum_rec_durations(recs: Seq<SampleRec>) -> int
    decreases recs.len(),
{
    if recs.len() == 0 {
        0
    } else {
        sum_rec_durations(recs.drop_last()) + recs.last().duration
    }
}

/// The 1-based numbers of the sync samples among `recs`, in increasing order.
pub open spec fn sync_numbers(recs: Seq<SampleRec>) -> Seq<u32>
    decreases recs.len(),
{
    if recs.len() == 0 {
        Seq::empty()
    } else if flags_mark_sync(recs.last().flags) {
        sync_numbers(recs.drop_last()).push(recs.len() as u32)
    } else {
        sync_numbers(recs.drop_last())
    }
}

/// Whether some sample of `recs` has a composition offset, and the run version
/// of the first one that has.
pub open spec fn cts_state(recs: Seq<SampleRec>) -> (bool, u8)
    decreases recs.len(),
{
    if recs.len() == 0 {
        (false, 0)
    } else {
        let prev = cts_state(recs.drop_last());
        if prev.0 {
            prev
        } else if recs.last().cts is Some {
            (true, recs.last().version)
        } else {
            (false, 0)
        }
    }
}

/// A sample's composition offset, 0 when it has none.
pub open spec fn cts_value(r: SampleRec) -> i32 {
    match r.cts {
        Some(c) => c as i32,
        None => 0,
    }
}

/// The composition offsets of `recs`: one per sample when some sample has
/// one, else none.
pub open spec fn cts_offsets_of(recs: Seq<SampleRec>) -> Seq<i32> {
    if cts_state(recs).0 {
        recs.map_values(|r: SampleRec| cts_value(r))
    } else {
        Seq::empty()
    }
}

/// The sample-level fields of `st` describe exactly the samples `recs`.
pub open spec fn sample_fields_match(st: SampleTableView, recs: Seq<SampleRec>) -> bool {
    &&& st.sample_durations == recs.map_values(|r: SampleRec| r.duration)
    &&& st.sample_sizes == recs.map_values(|r: SampleRec| r.size)
    &&& st.total_duration == sum_rec_durations(recs)
    &&& st.sync_samples == sync_numbers(recs)
    &&& st.has_cts == cts_state(recs).0
    &&& st.cts_version == cts_state(recs).1
    &&& st.cts_offsets == cts_offsets_of(recs)
}

/// The fragment-level fields of `st` describe exactly the fragments `frags`
/// coming from `subs`: one stbl chunk per fragment, offsets not yet known,
/// and the media start time of the first fragment.
pub open spec fn fragment_fields_match(
    st: SampleTableView,
    frags: Seq<FragmentView>,
    subs: Seq<SubChunkInfo>,
) -> bool {
    &&& st.samples_per_chunk == frags.map_values(|f: FragmentView| f.trun.sample_count)
    &&& st.chunk_offsets == Seq::new(frags.len(), |_i: int| 0u64)
    &&& st.sub_chunks == subs
    &&& st.media_start_time == first_decode_time(frags)
}

/// The decode time of the first fragment, 0 when it has no tfdt or there are
/// no fragments.
pub open spec fn first_decode_time(frags: Seq<FragmentView>) -> u64 {
    if frags.len() > 0 {
        match frags[0].tfdt {
            Some(t) => t.base_media_decode_time,
            None => 0,
        }
    } else {
        0
    }
}

/// The sample table of a track made of the chunk files `chunks`.
pub open spec fn spec_sample_table(chunks: Seq<ChunkView>, d: TrexDefaults, st: SampleTableView) -> bool {
    &&& sample_fields_match(st, chunks_recs(chunks, d))
    &&& fragment_fields_match(st, chunks_fragments(chunks), chunks_sub_chunks(chunks))
}

/// Duration in ticks of each chunk file.
pub open spec fn chunk_ticks(chunks: Seq<ChunkView>, d: TrexDefaults) -> Seq<u64> {
    chunks.map_values(|c: ChunkView| sum_rec_durations(fragments_recs(c.fragments, d)) as u64)
}

/// The views of a sequence of chunk parse results.
pub open spec fn chunk_views(chunks: Seq<ChunkParseResult>) -> Seq<ChunkView> {
    chunks.map_values(|c: ChunkParseResult| c@)
}

// ===== Step lemmas =====

proof fn lemma_sum_bound(recs: Seq<SampleRec>)
    ensures
        0 <= sum_rec_durations(recs) <= recs.len() * 0xffff_ffff,
    decreases recs.len(),
{
    if recs.len() > 0 {
        lemma_sum_bound(recs.drop_last());
    }
}

proof fn lemma_cts_none_before(recs: Seq<SampleRec>, i: int)
    requires
        !cts_state(recs).0,
        0 <= i < recs.len(),
    ensures
        recs[i].cts is None,
    decreases recs.len(),
{
    let p = recs.drop_last();
    if cts_state(p).0 {
    } else if i < recs.len() - 1 {
        lemma_cts_none_before(p, i);
    }
}

proof fn lemma_sync_bounded(recs: Seq<SampleRec>)
    requires
        recs.len() <= u32::MAX,
    ensures
        forall|j: int| 0 <= j < sync_numbers(recs).len() ==> 1 <= #[trigger] sync_numbers(recs)[j] <= recs.len(),
        forall|j: int, k: int|
            0 <= j < k < sync_numbers(recs).len() ==> #[trigger] sync_numbers(recs)[j] < #[trigger] sync_numbers(recs)[k],
        sync_numbers(recs).len() <= recs.len(),
    decreases recs.len(),
{
    if recs.len() > 0 {
        lemma_sync_bounded(recs.drop_last());
    }
}

/// Appends one sample to the sample-level fields of `st`.
fn push_sample(
    st: &mut TrackSampleTable,
    Ghost(recs): Ghost<Seq<SampleRec>>,
    sample_number: u32,
    duration: u32,
    size: u32,
    flags: u32,
    cts: Option<u32>,
    version: u8,
)
    requires
        sample_fields_match(old(st)@, recs),
        sample_number == recs.len() + 1,
    ensures
        sample_fields_match(
            final(st)@,
            recs.push(SampleRec { duration, size, flags, cts, version }),
        ),
        final(st)@.samples_per_chunk == old(st)@.samples_per_chunk,
        final(st)@.chunk_offsets == old(st)@.chunk_offsets,
        final(st)@.sub_chunks == old(st)@.sub_chunks,
        final(st)@.media_start_time == old(st)@.media_start_time,
{
    let ghost r = SampleRec { duration, size, flags, cts, version };
    let ghost recs2 = recs.push(r);
    assert(recs2.drop_last() =~= recs);
    proof {
        lemma_sum_bound(recs);
        assert(recs.len() * 0xffff_ffff + 0xffff_ffff <= u64::MAX) by (nonlinear_arith)
            requires
                recs.len() + 1 <= u32::MAX,
        ;
    }
    st.sample_durations.push(duration);
    st.total_duration = st.total_duration + duration as u64;
    st.sample_sizes.push(size);
    assert(st.sample_durations@ =~= recs2.map_values(|r: SampleRec| r.duration));
    assert(st.sample_sizes@ =~= recs2.map_values(|r: SampleRec| r.size));

    // Check sync: sample_depends_on==2 means I-frame, sample_is_non_sync==0 means sync
    if is_sync_flags(flags) {
        st.sync_samples.push(sample_number);
    }

    // Composition time offset
    if let Some(raw) = cts {
        if !st.has_cts {
            st.has_cts = true;
            st.cts_version = version;  // v0=unsigned, v1=signed
            // Back-fill zeros for samples already processed
            let n = st.sample_sizes.len() - 1;
            st.cts_offsets.resize(n, 0);
            proof {
                assert forall|i: int| 0 <= i < recs.len() implies recs[i].cts is None by {
                    lemma_cts_none_before(recs, i);
                }
            }
        }
        st.cts_offsets.push(raw as i32);
    } else if st.has_cts {
        st.cts_offsets.push(0);
    }
    assert(st.cts_offsets@ =~= cts_offsets_of(recs2));
}

proof fn lemma_chunks_recs_prefix(cv: Seq<ChunkView>, d: TrexDefaults, k: int)
    requires
        0 <= k < cv.len(),
    ensures
        chunks_recs(cv.take(k), d).len() + fragments_recs(cv[k].fragments, d).len() <= chunks_recs(cv, d).len(),
    decreases cv.len(),
{
    assert(cv.take(k + 1).drop_last() =~= cv.take(k));
    if k + 1 < cv.len() {
        assert(cv.drop_last().take(k) =~= cv.take(k));
        lemma_chunks_recs_prefix(cv.drop_last(), d, k);
    } else {
        assert(cv.take(k + 1) =~= cv);
    }
}

proof fn lemma_fragments_recs_prefix(fv: Seq<FragmentView>, d: TrexDefaults, k: int)
    requires
        0 <= k < fv.len(),
    ensures
        fragments_recs(fv.take(k), d).len() + fragment_recs(fv[k], d).len() <= fragments_recs(fv, d).len(),
    decreases fv.len(),
{
    assert(fv.take(k + 1).drop_last() =~= fv.take(k));
    if k + 1 < fv.len() {
        assert(fv.drop_last().take(k) =~= fv.take(k));
        lemma_fragments_recs_prefix(fv.drop_last(), d, k);
    } else {
        assert(fv.take(k + 1) =~= fv);
    }
}

/// Collects the sample table of one track from its chunk files, and the
/// duration in ticks of each chunk file. Each fragment becomes one stbl
/// chunk; the chunk offsets are left at 0 until the layout is known.
pub fn collect_sample_table(
    chunks: &[ChunkParseResult],
    trex_default_sample_duration: u32,
    trex_default_sample_size: u32,
    trex_default_sample_flags: u32,
) -> (r: (TrackSampleTable, Vec<u64>))
    requires
        chunks_recs(
            chunk_views(chunks@),
            TrexDefaults {
                duration: trex_default_sample_duration,
                size: trex_default_sample_size,
                flags: trex_default_sample_flags,
            },
        ).len() <= u32::MAX,
    ensures
        spec_sample_table(
            chunk_views(chunks@),
            TrexDefaults {
                duration: trex_default_sample_duration,
                size: trex_default_sample_size,
                flags: trex_default_sample_flags,
            },
            r.0@,
        ),
        r.1@ == chunk_ticks(
            chunk_views(chunks@),
            TrexDefaults {
                duration: trex_default_sample_duration,
                size: trex_default_sample_size,
                flags: trex_default_sample_flags,
            },
        ),
{
    let ghost d = TrexDefaults {
        duration: trex_default_sample_duration,
        size: trex_default_sample_size,
        flags: trex_default_sample_flags,
    };
    let ghost cv = chunk_views(chunks@);
    let mut st = TrackSampleTable {
        media_start_time: 0,
        total_duration: 0,
        sample_sizes: Vec::new(),
        sample_durations: Vec::new(),
        has_cts: false,
        cts_version: 0,
        cts_offsets: Vec::new(),
        sync_samples: Vec::new(),
        samples_per_chunk: Vec::new(),
        chunk_offsets: Vec::new(),
        sub_chunks: Vec::new(),
    };
    let mut ticks: Vec<u64> = Vec::new();
    let mut sample_number: u32 = 0;
    let mut is_first_fragment = true;

    proof {
        assert(cv.take(0) =~= Seq::<ChunkView>::empty());
        assert(st@.sample_durations =~= chunks_recs(cv.take(0), d).map_values(|r: SampleRec| r.duration));
        assert(st@.sample_sizes =~= chunks_recs(cv.take(0), d).map_values(|r: SampleRec| r.size));
        assert(st@.samples_per_chunk =~= chunks_fragments(cv.take(0)).map_values(
            |f: FragmentView| f.trun.sample_count,
        ));
        assert(st@.chunk_offsets =~= Seq::new(0, |_i: int| 0u64));
        assert(ticks@ =~= chunk_ticks(cv.take(0), d));
    }

    let mut ci: usize = 0;
    while ci < chunks.len()
        invariant
            cv == chunk_views(chunks@),
            chunks_recs(cv, d).len() <= u32::MAX,
            ci <= cv.len(),
            sample_fields_match(st@, chunks_recs(cv.take(ci as int), d)),
            fragment_fields_match(st@, chunks_fragments(cv.take(ci as int)), chunks_sub_chunks(cv.take(ci as int))),
            is_first_fragment == (chunks_fragments(cv.take(ci as int)).len() == 0),
            sample_number == chunks_recs(cv.take(ci as int), d).len(),
            ticks@ == chunk_ticks(cv.take(ci as int), d),
            d.duration == trex_default_sample_duration,
            d.size == trex_default_sample_size,
            d.flags == trex_default_sample_flags,
        decreases cv.len() - ci,
    {
        let parsed = &chunks[ci];
        let ghost c = cv[ci as int];
        let ghost fv = c.fragments;
        let ghost base_recs = chunks_recs(cv.take(ci as int), d);
        let ghost base_frags = chunks_fragments(cv.take(ci as int));
        let ghost base_subs = chunks_sub_chunks(cv.take(ci as int));
        assert(c == parsed@);
        assert(fv == fragment_views(parsed.fragments@));
        proof {
            lemma_chunks_recs_prefix(cv, d, ci as int);
            assert(fv.take(0) =~= Seq::<FragmentView>::empty());
            assert(base_recs + fragments_recs(fv.take(0), d) =~= base_recs);
            assert(base_frags + fv.take(0) =~= base_frags);
            assert(base_subs + chunk_sub_chunks(ci as int, 0) =~= base_subs);
        }
        let mut chunk_duration_ticks: u64 = 0;
        let mut fi: usize = 0;
        while fi < parsed.fragments.len()
            invariant
                cv == chunk_views(chunks@),
                ci < cv.len(),
                c == cv[ci as int],
                c == parsed@,
                fv == c.fragments,
                fv == fragment_views(parsed.fragments@),
                base_recs == chunks_recs(cv.take(ci as int), d),
                base_frags == chunks_fragments(cv.take(ci as int)),
                base_subs == chunks_sub_chunks(cv.take(ci as int)),
                base_recs.len() + fragments_recs(fv, d).len() <= u32::MAX,
                fi <= fv.len(),
                sample_fields_match(st@, base_recs + fragments_recs(fv.take(fi as int), d)),
                fragment_fields_match(st@, base_frags + fv.take(fi as int), base_subs + chunk_sub_chunks(ci as int, fi as int)),
                is_first_fragment == ((base_frags + fv.take(fi as int)).len() == 0),
                sample_number == (base_recs + fragments_recs(fv.take(fi as int), d)).len(),
                chunk_duration_ticks == sum_rec_durations(fragments_recs(fv.take(fi as int), d)),
                ticks@ == chunk_ticks(cv.take(ci as int), d),
                d.duration == trex_default_sample_duration,
                d.size == trex_default_sample_size,
                d.flags == trex_default_sample_flags,
            decreases fv.len() - fi,
        {
            let frag = &parsed.fragments[fi];
            let ghost f = fv[fi as int];
            assert(f == frag@);
            proof {
                lemma_fragments_recs_prefix(fv, d, fi as int);
            }
            let ghost frag_base = base_recs + fragments_recs(fv.take(fi as int), d);
            let ghost local_base = fragments_recs(fv.take(fi as int), d);

            // Record base_media_decode_time from the very first fragment
            if is_first_fragment {
                if let Some(tfdt) = frag.tfdt {
                    st.media_start_time = tfdt.base_media_decode_time;
                }
                is_first_fragment = false;
            }
            st.samples_per_chunk.push(frag.trun.sample_count);
            st.chunk_offsets.push(0);  // placeholder — filled in once the layout is known
            st.sub_chunks.push(
                SubChunkInfo { chunk_file_idx: ci as u32, fragment_idx: fi as u16, byte_offset_in_fragment: 0 },
            );
            proof {
                let fr2 = base_frags + fv.take(fi + 1);
                assert(fr2 =~= (base_frags + fv.take(fi as int)).push(f));
                assert(st@.samples_per_chunk =~= fr2.map_values(|f: FragmentView| f.trun.sample_count));
                assert(st@.chunk_offsets =~= Seq::new(fr2.len(), |_i: int| 0u64));
                assert(st@.sub_chunks =~= base_subs + chunk_sub_chunks(ci as int, fi + 1));
                assert(fr2[0] == (base_frags + fv.take(fi as int)).push(f)[0]);
                assert(fragment_recs(f, d).take(0) =~= Seq::<SampleRec>::empty());
                assert(frag_base + fragment_recs(f, d).take(0) =~= frag_base);
                assert(local_base + fragment_recs(f, d).take(0) =~= local_base);
            }

            let ghost fr = fragment_recs(f, d);
            let mut i: usize = 0;
            while i < frag.trun.samples.len()
                invariant
                    f == frag@,
                    fr == fragment_recs(f, d),
                    i <= f.trun.samples.len(),
                    frag_base.len() + fr.len() <= u32::MAX,
                    sample_fields_match(st@, frag_base + fr.take(i as int)),
                    sample_number == (frag_base + fr.take(i as int)).len(),
                    chunk_duration_ticks == sum_rec_durations(local_base + fr.take(i as int)),
                    local_base.len() <= frag_base.len(),
                    fragment_fields_match(st@, base_frags + fv.take(fi + 1), base_subs + chunk_sub_chunks(ci as int, fi + 1)),
                    d.duration == trex_default_sample_duration,
                    d.size == trex_default_sample_size,
                    d.flags == trex_default_sample_flags,
                decreases f.trun.samples.len() - i,
            {
                let sample = frag.trun.samples[i];
                sample_number = sample_number + 1;

                // Duration: sample > tfhd default > trex default
                let duration = match sample.duration {
                    Some(x) => x,
                    None => match frag.tfhd.default_sample_duration {
                        Some(x) => x,
                        None => trex_default_sample_duration,
                    },
                };

                // Size: sample > tfhd default > trex default
                let size = match sample.size {
                    Some(x) => x,
                    None => match frag.tfhd.default_sample_size {
                        Some(x) => x,
                        None => trex_default_sample_size,
                    },
                };

                // Flags (for sync sample detection)
                let record_flags_value = match sample.flags {
                    Some(x) => x,
                    None => match frag.tfhd.default_sample_flags {
                        Some(x) => x,
                        None => trex_default_sample_flags,
                    },
                };
                let flags = if i == 0 {
                    match frag.trun.first_sample_flags {
                        Some(x) => x,
                        None => record_flags_value,
                    }
                } else {
                    record_flags_value
                };

                let ghost r = sample_rec(f, i as int, d);
                assert(r == SampleRec {
                    duration,
                    size,
                    flags,
                    cts: sample.composition_time_offset_raw,
                    version: frag.trun.version,
                });
                push_sample(
                    &mut st,
                    Ghost(frag_base + fr.take(i as int)),
                    sample_number,
                    duration,
                    size,
                    flags,
                    sample.composition_time_offset_raw,
                    frag.trun.version,
                );
                proof {
                    lemma_sum_bound(local_base + fr.take(i as int));
                    assert((local_base + fr.take(i as int)).len() * 0xffff_ffff + 0xffff_ffff <= u64::MAX) by (nonlinear_arith)
                        requires
                            (local_base + fr.take(i as int)).len() + 1 <= u32::MAX,
                    ;
                    assert(fr.take(i + 1) =~= fr.take(i as int).push(r));
                    assert(frag_base + fr.take(i + 1) =~= (frag_base + fr.take(i as int)).push(r));
                    assert(local_base + fr.take(i + 1) =~= (local_base + fr.take(i as int)).push(r));
                    assert((local_base + fr.take(i + 1)).drop_last() =~= local_base + fr.take(i as int));
                }
                chunk_duration_ticks = chunk_duration_ticks + duration as u64;
                i = i + 1;
            }
            proof {
                assert(fr.take(i as int) =~= fr);
                assert(fv.take(fi + 1).drop_last() =~= fv.take(fi as int));
                assert(fragments_recs(fv.take(fi + 1), d) == local_base + fr);
                assert(base_recs + fragments_recs(fv.take(fi + 1), d) =~= frag_base + fr);
            }
            fi = fi + 1;
        }
        ticks.push(chunk_duration_ticks);
        proof {
            assert(fv.take(fi as int) =~= fv);
            assert(cv.take(ci + 1).drop_last() =~= cv.take(ci as int));
            assert(cv.take(ci + 1).last() == c);
            assert(chunks_recs(cv.take(ci + 1), d) == base_recs + fragments_recs(fv, d));
            assert(chunks_fragments(cv.take(ci + 1)) == base_frags + fv);
            assert(chunks_sub_chunks(cv.take(ci + 1)) == base_subs + chunk_sub_chunks(ci as int, fv.len() as int));
            assert(ticks@ =~= chunk_ticks(cv.take(ci + 1), d));
        }
        ci = ci + 1;
    }
    proof {
        assert(cv.take(ci as int) =~= cv);
    }
    (st, ticks)
}

} // verus!

verus! {

/// Number of samples of `chunks`, or `None` once it passes `u32::MAX`.
fn count_samples(chunks: &[ChunkParseResult], d: Ghost<TrexDefaults>) -> (r: Option<u32>)
    ensures
        match r {
            Some(n) => chunks_recs(chunk_views(chunks@), d@).len() == n,
            None => chunks_recs(chunk_views(chunks@), d@).len() > u32::MAX,
        },
{
    let ghost cv = chunk_views(chunks@);
    let mut total: u64 = 0;
    let mut c: usize = 0;
    while c < chunks.len()
        invariant
            cv == chunk_views(chunks@),
            c <= chunks@.len(),
            total <= u32::MAX,
            total == chunks_recs(cv.take(c as int), d@).len(),
        decreases chunks@.len() - c,
    {
        let frags = &chunks[c].fragments;
        let ghost fv = cv[c as int].fragments;
        assert(fv == fragment_views(frags@));
        let mut f: usize = 0;
        let ghost before = total;
        while f < frags.len()
            invariant
                cv == chunk_views(chunks@),
                c < chunks@.len(),
                fv == cv[c as int].fragments,
                before == chunks_recs(cv.take(c as int), d@).len(),
                fv == fragment_views(frags@),
                f <= frags@.len(),
                total <= u32::MAX,
                total == before + fragments_recs(fv.take(f as int), d@).len(),
            decreases frags@.len() - f,
        {
            assert(fv.take(f + 1).drop_last() =~= fv.take(f as int));
            assert(fv[f as int] == frags@[f as int]@);
            let n = frags[f].trun.samples.len() as u64;
            assert(fragments_recs(fv.take(f + 1), d@).len() == fragments_recs(fv.take(f as int), d@).len() + n);
            if n > u32::MAX as u64 - total {
                proof {
                    lemma_recs_prefix_le(cv, d@, c as int, fv, f as int);
                }
                return None;
            }
            total = total + n;
            f = f + 1;
        }
        assert(fv.take(f as int) =~= fv);
        assert(cv.take(c + 1).drop_last() =~= cv.take(c as int));
        c = c + 1;
    }
    assert(cv.take(c as int) =~= cv);
    Some(total as u32)
}

proof fn lemma_recs_prefix_le(
    cv: Seq<ChunkView>,
    d: TrexDefaults,
    c: int,
    fv: Seq<FragmentView>,
    f: int,
)
    requires
        0 <= c < cv.len(),
        fv == cv[c].fragments,
        0 <= f < fv.len(),
    ensures
        chunks_recs(cv.take(c), d).len() + fragments_recs(fv.take(f + 1), d).len() <= chunks_recs(
            cv,
            d,
        ).len(),
    decreases cv.len(),
{
    lemma_fragments_recs_take_le(fv, d, f + 1);
    lemma_chunks_recs_take_le(cv, d, c);
}

proof fn lemma_fragments_recs_take_le(fv: Seq<FragmentView>, d: TrexDefaults, k: int)
    requires
        0 <= k <= fv.len(),
    ensures
        fragments_recs(fv.take(k), d).len() <= fragments_recs(fv, d).len(),
    decreases fv.len(),
{
    if k < fv.len() {
        assert(fv.drop_last().take(k) =~= fv.take(k));
        lemma_fragments_recs_take_le(fv.drop_last(), d, k);
    } else {
        assert(fv.take(k) =~= fv);
    }
}

proof fn lemma_chunks_recs_take_le(cv: Seq<ChunkView>, d: TrexDefaults, c: int)
    requires
        0 <= c < cv.len(),
    ensures
        chunks_recs(cv.take(c), d).len() + fragments_recs(cv[c].fragments, d).len()
            <= chunks_recs(cv, d).len(),
    decreases cv.len(),
{
    if c + 1 < cv.len() {
        assert(cv.drop_last().take(c) =~= cv.take(c));
        lemma_chunks_recs_take_le(cv.drop_last(), d, c);
    } else {
        assert(cv.take(c + 1).drop_last() =~= cv.take(c));
        assert(cv.take(c + 1) =~= cv);
    }
}

/// Collects the sample table of one track, where its samples can be
/// numbered in 32 bits (`None` otherwise).
pub fn try_collect_sample_table(
    chunks: &[ChunkParseResult],
    trex_default_sample_duration: u32,
    trex_default_sample_size: u32,
    trex_default_sample_flags: u32,
) -> (r: Option<(TrackSampleTable, Vec<u64>)>)
    ensures
        ({
            let d = TrexDefaults {
                duration: trex_default_sample_duration,
                size: trex_default_sample_size,
                flags: trex_default_sample_flags,
            };
            match r {
                Some(t) => spec_sample_table(chunk_views(chunks@), d, t.0@) && t.1@ == chunk_ticks(
                    chunk_views(chunks@),
                    d,
                ),
                None => chunks_recs(chunk_views(chunks@), d).len() > u32::MAX,
            }
        }),
{
    let ghost d = TrexDefaults {
        duration: trex_default_sample_duration,
        size: trex_default_sample_size,
        flags: trex_default_sample_flags,
    };
    match count_samples(chunks, Ghost(d)) {
        None => None,
        Some(_) => Some(
            collect_sample_table(
                chunks,
                trex_default_sample_duration,
                trex_default_sample_size,
                trex_default_sample_flags,
            ),
        ),
    }
}

} // verus!

verus! {

/// Number of samples in the first `k` fragments of `frags`.
pub open spec fn samples_before(frags: Seq<FragmentView>, k: int) -> int
    decreases k,
{
    if k <= 0 {
        0
    } else {
        samples_before(frags, k - 1) + frags[k - 1].trun.samples.len()
    }
}

proof fn lemma_samples_before_nonneg(frags: Seq<FragmentView>, k: int)
    ensures
        0 <= samples_before(frags, k),
    decreases k,
{
    if k > 0 {
        lemma_samples_before_nonneg(frags, k - 1);
    }
}

proof fn lemma_samples_before_drop_last(frags: Seq<FragmentView>, k: int)
    requires
        0 <= k < frags.len(),
    ensures
        samples_before(frags.drop_last(), k) == samples_before(frags, k),
    decreases k,
{
    if k > 0 {
        lemma_samples_before_drop_last(frags, k - 1);
    }
}

proof fn lemma_fragments_recs_len(frags: Seq<FragmentView>, d: TrexDefaults)
    ensures
        fragments_recs(frags, d).len() == samples_before(frags, frags.len() as int),
    decreases frags.len(),
{
    if frags.len() > 0 {
        lemma_fragments_recs_len(frags.drop_last(), d);
        lemma_samples_before_drop_last(frags, frags.len() - 1);
    }
}

proof fn lemma_fragments_recs_concat(a: Seq<FragmentView>, b: Seq<FragmentView>, d: TrexDefaults)
    ensures
        fragments_recs(a + b, d) == fragments_recs(a, d) + fragments_recs(b, d),
    decreases b.len(),
{
    if b.len() == 0 {
        assert(a + b =~= a);
        assert(fragments_recs(a, d) + fragments_recs(b, d) =~= fragments_recs(a, d));
    } else {
        assert((a + b).drop_last() =~= a + b.drop_last());
        assert((a + b).last() == b.last());
        lemma_fragments_recs_concat(a, b.drop_last(), d);
        assert(fragments_recs(a + b, d) =~= fragments_recs(a, d) + fragments_recs(b, d));
    }
}

proof fn lemma_chunks_recs_flat(cv: Seq<ChunkView>, d: TrexDefaults)
    ensures
        chunks_recs(cv, d) == fragments_recs(chunks_fragments(cv), d),
    decreases cv.len(),
{
    if cv.len() > 0 {
        lemma_chunks_recs_flat(cv.drop_last(), d);
        lemma_fragments_recs_concat(chunks_fragments(cv.drop_last()), cv.last().fragments, d);
    }
}

proof fn lemma_fragments_recs_index(frags: Seq<FragmentView>, d: TrexDefaults, fi: int, i: int)
    requires
        0 <= fi < frags.len(),
        0 <= i < frags[fi].trun.samples.len(),
    ensures
        samples_before(frags, fi) + i < fragments_recs(frags, d).len(),
        fragments_recs(frags, d)[samples_before(frags, fi) + i] == sample_rec(frags[fi], i, d),
    decreases frags.len(),
{
    let p = frags.drop_last();
    lemma_fragments_recs_len(p, d);
    lemma_samples_before_drop_last(frags, frags.len() - 1);
    let whole = fragments_recs(frags, d);
    let head = fragments_recs(p, d);
    let tail = fragment_recs(frags.last(), d);
    assert(whole == head + tail);
    if fi == frags.len() - 1 {
        assert(samples_before(frags, fi) == head.len());
        assert(tail[i] == sample_rec(frags[fi], i, d));
        assert(whole[head.len() + i] == tail[i]);
    } else {
        assert(p[fi] == frags[fi]);
        lemma_fragments_recs_index(p, d, fi, i);
        lemma_samples_before_drop_last(frags, fi);
        lemma_samples_before_nonneg(frags, fi);
        assert(whole[samples_before(frags, fi) + i] == head[samples_before(frags, fi) + i]);
    }
}

/// Each sample of each fragment of a track has its place in the sample
/// table, after all samples of the fragments before it, and there the size
/// and duration that the table lists are those of the sample's own trun
/// record when it carries them, else the fragment's tfhd default when the
/// tfhd carries one, and only else the track's trex default.
pub proof fn lemma_sample_sizes_follow_defaults(
    chunks: Seq<ChunkView>,
    d: TrexDefaults,
    st: SampleTableView,
    fi: int,
    i: int,
)
    requires
        spec_sample_table(chunks, d, st),
        0 <= fi < chunks_fragments(chunks).len(),
        0 <= i < chunks_fragments(chunks)[fi].trun.samples.len(),
    ensures
        ({
            let f = chunks_fragments(chunks)[fi];
            let s = f.trun.samples[i];
            let k = samples_before(chunks_fragments(chunks), fi) + i;
            &&& 0 <= k < st.sample_sizes.len()
            &&& k < st.sample_durations.len()
            &&& st.sample_sizes[k] == match s.size {
                Some(x) => x,
                None => match f.tfhd.default_sample_size {
                    Some(x) => x,
                    None => d.size,
                },
            }
            &&& st.sample_durations[k] == match s.duration {
                Some(x) => x,
                None => match f.tfhd.default_sample_duration {
                    Some(x) => x,
                    None => d.duration,
                },
            }
        }),
{
    let frags = chunks_fragments(chunks);
    lemma_chunks_recs_flat(chunks, d);
    lemma_fragments_recs_index(frags, d, fi, i);
    lemma_samples_before_nonneg(frags, fi);
    let recs = chunks_recs(chunks, d);
    let k = samples_before(frags, fi) + i;
    assert(st.sample_sizes[k] == recs[k].size);
    assert(st.sample_durations[k] == recs[k].duration);
}

} // verus!

verus! {

proof fn lemma_sync_numbers_member(recs: Seq<SampleRec>, k: int)
    requires
        recs.len() <= u32::MAX,
        0 <= k < recs.len(),
    ensures
        sync_numbers(recs).contains((k + 1) as u32) == flags_mark_sync(recs[k].flags),
    decreases recs.len(),
{
    let p = recs.drop_last();
    lemma_sync_bounded(p);
    let sp = sync_numbers(p);
    if k == recs.len() - 1 {
        assert(!sp.contains((k + 1) as u32)) by {
            if sp.contains((k + 1) as u32) {
                let j = choose|j: int| 0 <= j < sp.len() && sp[j] == (k + 1) as u32;
                assert(sp[j] <= p.len());
            }
        }
        if flags_mark_sync(recs.last().flags) {
            assert(sync_numbers(recs) == sp.push(recs.len() as u32));
            assert(sync_numbers(recs)[sp.len() as int] == (k + 1) as u32);
        }
    } else {
        lemma_sync_numbers_member(p, k);
        assert(p[k] == recs[k]);
        if flags_mark_sync(recs.last().flags) {
            let s = sp.push(recs.len() as u32);
            assert(sync_numbers(recs) == s);
            if sp.contains((k + 1) as u32) {
                let j = choose|j: int| 0 <= j < sp.len() && sp[j] == (k + 1) as u32;
                assert(s[j] == (k + 1) as u32);
            }
            if s.contains((k + 1) as u32) {
                let j = choose|j: int| 0 <= j < s.len() && s[j] == (k + 1) as u32;
                assert(j < sp.len());
                assert(sp[j] == (k + 1) as u32);
            }
        }
    }
}

/// Sample number `k + 1` (1-based), where `k` is the place in the sample
/// table of sample `i` of fragment `fi`, is listed among the sync samples
/// exactly when that sample's flags mark it as one: sample_depends_on is 2,
/// or sample_is_non_sync_sample is 0. Its flags are the run's
/// first_sample_flags for the run's first sample when the run has them,
/// else its own record's, else the tfhd default, else the trex default. Its
/// composition offset, where the table keeps them, is the record's own, or 0
/// where the record has none.
pub proof fn lemma_sync_samples_follow_flags(
    chunks: Seq<ChunkView>,
    d: TrexDefaults,
    st: SampleTableView,
    fi: int,
    i: int,
)
    requires
        spec_sample_table(chunks, d, st),
        st.sample_sizes.len() <= u32::MAX,
        0 <= fi < chunks_fragments(chunks).len(),
        0 <= i < chunks_fragments(chunks)[fi].trun.samples.len(),
    ensures
        ({
            let f = chunks_fragments(chunks)[fi];
            let s = f.trun.samples[i];
            let k = samples_before(chunks_fragments(chunks), fi) + i;
            let own = match s.flags {
                Some(x) => x,
                None => match f.tfhd.default_sample_flags {
                    Some(x) => x,
                    None => d.flags,
                },
            };
            let flags = if i == 0 {
                match f.trun.first_sample_flags {
                    Some(x) => x,
                    None => own,
                }
            } else {
                own
            };
            &&& 0 <= k < st.sample_sizes.len()
            &&& st.sync_samples.contains((k + 1) as u32) == ((flags >> 24) & 0x3 == 2 || (flags >> 16)
                & 0x1 == 0)
            &&& st.has_cts ==> k < st.cts_offsets.len() && st.cts_offsets[k] == match s.composition_time_offset_raw {
                Some(c) => c as i32,
                None => 0i32,
            }
        }),
{
    let frags = chunks_fragments(chunks);
    lemma_chunks_recs_flat(chunks, d);
    lemma_fragments_recs_index(frags, d, fi, i);
    lemma_samples_before_nonneg(frags, fi);
    let recs = chunks_recs(chunks, d);
    let k = samples_before(frags, fi) + i;
    assert(st.sample_sizes.len() == recs.len());
    lemma_sync_numbers_member(recs, k);
    if st.has_cts {
        assert(st.cts_offsets[k] == cts_value(recs[k]));
    }
}

} // verus!

verus! {

proof fn lemma_sum_is_fold(recs: Seq<SampleRec>)
    ensures
        sum_rec_durations(recs) == recs.map_values(|r: SampleRec| r.duration).fold_left(
            0int,
            |acc: int, x: u32| acc + x,
        ),
    decreases recs.len(),
{
    let ds = recs.map_values(|r: SampleRec| r.duration);
    if recs.len() > 0 {
        lemma_sum_is_fold(recs.drop_last());
        assert(ds.drop_last() =~= recs.drop_last().map_values(|r: SampleRec| r.duration));
    }
}

/// The track's total duration is the sum of its sample durations, and the
/// table holds one duration per sample size, and one sample count, chunk
/// offset and origin per stbl chunk.
pub proof fn lemma_total_duration_is_sum(chunks: Seq<ChunkView>, d: TrexDefaults, st: SampleTableView)
    requires
        spec_sample_table(chunks, d, st),
    ensures
        st.total_duration == st.sample_durations.fold_left(0int, |acc: int, x: u32| acc + x),
        st.sample_durations.len() == st.sample_sizes.len(),
        st.samples_per_chunk.len() == st.chunk_offsets.len(),
        st.samples_per_chunk.len() == st.sub_chunks.len(),
{
    let recs = chunks_recs(chunks, d);
    lemma_sum_is_fold(recs);
    assert(st.sub_chunks.len() == chunks_fragments(chunks).len()) by {
        lemma_sub_chunks_len(chunks);
    }
}

proof fn lemma_sub_chunks_len(chunks: Seq<ChunkView>)
    ensures
        chunks_sub_chunks(chunks).len() == chunks_fragments(chunks).len(),
    decreases chunks.len(),
{
    if chunks.len() > 0 {
        lemma_sub_chunks_len(chunks.drop_last());
    }
}

} // verus!

verus! {

proof fn lemma_sub_chunk_origin(chunks: Seq<ChunkView>, j: int)
    requires
        chunks.len() <= 0x1_0000_0000,
        forall|c: int| 0 <= c < chunks.len() ==> (#[trigger] chunks[c]).fragments.len() <= 0x1_0000,
        0 <= j < chunks_fragments(chunks).len(),
    ensures
        ({
            let sc = chunks_sub_chunks(chunks)[j];
            &&& j < chunks_sub_chunks(chunks).len()
            &&& sc.chunk_file_idx < chunks.len()
            &&& sc.fragment_idx < chunks[sc.chunk_file_idx as int].fragments.len()
            &&& chunks[sc.chunk_file_idx as int].fragments[sc.fragment_idx as int]
                == chunks_fragments(chunks)[j]
            &&& sc.byte_offset_in_fragment == 0
        }),
    decreases chunks.len(),
{
    let p = chunks.drop_last();
    lemma_sub_chunks_len(p);
    lemma_sub_chunks_len(chunks);
    let cf = chunks_fragments(p);
    let last = chunks.last();
    assert(chunks_fragments(chunks) == cf + last.fragments);
    assert(chunks_sub_chunks(chunks) == chunks_sub_chunks(p) + chunk_sub_chunks(
        chunks.len() - 1,
        last.fragments.len() as int,
    ));
    if j < cf.len() {
        assert forall|c: int| 0 <= c < p.len() implies (#[trigger] p[c]).fragments.len() <= 0x1_0000 by {
            assert(p[c] == chunks[c]);
        }
        lemma_sub_chunk_origin(p, j);
        let sc = chunks_sub_chunks(p)[j];
        assert(p[sc.chunk_file_idx as int] == chunks[sc.chunk_file_idx as int]);
    } else {
        let jj = j - cf.len();
        assert(chunks[chunks.len() - 1] == last);
        assert(chunk_sub_chunks(chunks.len() - 1, last.fragments.len() as int)[jj] == SubChunkInfo {
            chunk_file_idx: (chunks.len() - 1) as u32,
            fragment_idx: jj as u16,
            byte_offset_in_fragment: 0,
        });
    }
}

/// Each stbl chunk of the table comes from one fragment: its origin names a
/// chunk file and a fragment in it, with no byte offset, and that fragment
/// is the one the stbl chunk stands for, in the order of the fragments over
/// all the chunk files; its sample count is that fragment's.
pub proof fn lemma_stbl_chunks_name_their_fragment(
    chunks: Seq<ChunkView>,
    d: TrexDefaults,
    st: SampleTableView,
    j: int,
)
    requires
        spec_sample_table(chunks, d, st),
        chunks.len() <= 0x1_0000_0000,
        forall|c: int| 0 <= c < chunks.len() ==> (#[trigger] chunks[c]).fragments.len() <= 0x1_0000,
        0 <= j < st.sub_chunks.len(),
    ensures
        ({
            let sc = st.sub_chunks[j];
            &&& sc.chunk_file_idx < chunks.len()
            &&& sc.fragment_idx < chunks[sc.chunk_file_idx as int].fragments.len()
            &&& sc.byte_offset_in_fragment == 0
            &&& j < chunks_fragments(chunks).len()
            &&& chunks[sc.chunk_file_idx as int].fragments[sc.fragment_idx as int]
                == chunks_fragments(chunks)[j]
            &&& j < st.samples_per_chunk.len()
            &&& st.samples_per_chunk[j]
                == chunks[sc.chunk_file_idx as int].fragments[sc.fragment_idx as int].trun.sample_count
        }),
{
    lemma_sub_chunks_len(chunks);
    lemma_sub_chunk_origin(chunks, j);
}

} // verus!
