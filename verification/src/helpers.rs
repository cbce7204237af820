// Sample defaults and sample analysis.
use vstd::prelude::*;

use crate::cmd::generate::types::{FragmentInfo, FragmentView, TfhdInfo, TrunInfo, TrunSample, TrunView};

verus! {

// ===== Sample defaults: sample record > tfhd default > trex default =====

/// A sample's duration: its own, else the fragment default, else the track default.
pub open spec fn effective_duration(s: TrunSample, tfhd: TfhdInfo, trex_default_duration: u32) -> u32 {
    match s.duration {
        Some(d) => d,
        None => match tfhd.default_sample_duration {
            Some(d) => d,
            None => trex_default_duration,
        },
    }
}

/// A sample's size: its own, else the fragment default, else the track default.
pub open spec fn effective_size(s: TrunSample, tfhd: TfhdInfo, trex_default_size: u32) -> u32 {
    match s.size {
        Some(d) => d,
        None => match tfhd.default_sample_size {
            Some(d) => d,
            None => trex_default_size,
        },
    }
}

/// A sample's flags from its record: its own, else the fragment default, else
/// the track default.
pub open spec fn record_flags(s: TrunSample, tfhd: TfhdInfo, trex_default_flags: u32) -> u32 {
    match s.flags {
        Some(f) => f,
        None => match tfhd.default_sample_flags {
            Some(f) => f,
            None => trex_default_flags,
        },
    }
}

/// The flags that apply to the first sample of a run: the run's
/// first_sample_flags, else the first record's flags (with defaults), else
/// the defaults when the run has no records.
pub open spec fn first_sample_flags(trun: TrunView, tfhd: TfhdInfo, trex_default_flags: u32) -> u32 {
    match trun.first_sample_flags {
        Some(f) => f,
        None => if trun.samples.len() > 0 {
            record_flags(trun.samples[0], tfhd, trex_default_flags)
        } else {
            match tfhd.default_sample_flags {
                Some(f) => f,
                None => trex_default_flags,
            }
        },
    }
}

/// Sample flags mark a sync sample (stream access point): sample_depends_on
/// is 2 (depends on no other sample), or sample_is_non_sync_sample is 0.
pub open spec fn flags_mark_sync(flags: u32) -> bool {
    (flags >> 24) & 0x3 == 2 || (flags >> 16) & 0x1 == 0
}

/// Whether `flags` mark a sync sample.
pub fn is_sync_flags(flags: u32) -> (r: bool)
    ensures
        r == flags_mark_sync(flags),
{
    let sample_depends_on = (flags >> 24) & 0x3;
    let sample_is_non_sync = (flags >> 16) & 0x1;
    sample_depends_on == 2 || sample_is_non_sync == 0
}

/// Check if the first sample is a SAP (Stream Access Point / keyframe)
pub fn is_first_sample_sap(trun: &TrunInfo, tfhd: &TfhdInfo, trex_default_flags: u32) -> (r: bool)
    ensures
        r == flags_mark_sync(first_sample_flags(trun@, *tfhd, trex_default_flags)),
{
    let first_flags = if let Some(fsf) = trun.first_sample_flags {
        fsf
    } else if trun.samples.len() > 0 {
        let sample = trun.samples[0];
        if let Some(f) = sample.flags {
            f
        } else {
            match tfhd.default_sample_flags {
                Some(f) => f,
                None => trex_default_flags,
            }
        }
    } else {
        match tfhd.default_sample_flags {
            Some(f) => f,
            None => trex_default_flags,
        }
    };
    is_sync_flags(first_flags)
}

/// Sum of the effective durations of `samples`.
pub open spec fn sum_durations(samples: Seq<TrunSample>, tfhd: TfhdInfo, trex_default_duration: u32) -> int
    decreases samples.len(),
{
    if samples.len() == 0 {
        0
    } else {
        sum_durations(samples.drop_last(), tfhd, trex_default_duration) + effective_duration(
            samples.last(),
            tfhd,
            trex_default_duration,
        )
    }
}

/// Sum of the fragment durations of `fragments`.
pub open spec fn sum_fragment_durations(fragments: Seq<FragmentView>, trex_default_duration: u32) -> int
    decreases fragments.len(),
{
    if fragments.len() == 0 {
        0
    } else {
        sum_fragment_durations(fragments.drop_last(), trex_default_duration) + sum_durations(
            fragments.last().trun.samples,
            fragments.last().tfhd,
            trex_default_duration,
        )
    }
}

pub(crate) proof fn lemma_sum_durations_mono(samples: Seq<TrunSample>, tfhd: TfhdInfo, d: u32, i: int)
    requires
        0 <= i <= samples.len(),
    ensures
        0 <= sum_durations(samples.take(i), tfhd, d) <= sum_durations(samples, tfhd, d),
    decreases samples.len(),
{
    if i < samples.len() {
        assert(samples.drop_last().take(i) =~= samples.take(i));
        lemma_sum_durations_mono(samples.drop_last(), tfhd, d, i);
    } else {
        assert(samples.take(i) =~= samples);
        lemma_sum_durations_nonneg(samples, tfhd, d);
    }
}

proof fn lemma_sum_durations_nonneg(samples: Seq<TrunSample>, tfhd: TfhdInfo, d: u32)
    ensures
        0 <= sum_durations(samples, tfhd, d),
    decreases samples.len(),
{
    if samples.len() > 0 {
        lemma_sum_durations_nonneg(samples.drop_last(), tfhd, d);
    }
}

/// Calculate total sample duration for a single fragment's trun
pub fn total_sample_duration(trun: &TrunInfo, tfhd: &TfhdInfo, trex_default_duration: u32) -> (r: u64)
    requires
        sum_durations(trun@.samples, *tfhd, trex_default_duration) <= u64::MAX,
    ensures
        r == sum_durations(trun@.samples, *tfhd, trex_default_duration),
{
    let default_duration = match tfhd.default_sample_duration {
        Some(d) => d,
        None => trex_default_duration,
    };
    let ghost samples = trun.samples@;
    let mut total: u64 = 0;
    let mut i: usize = 0;
    while i < trun.samples.len()
        invariant
            samples == trun.samples@,
            sum_durations(samples, *tfhd, trex_default_duration) <= u64::MAX,
            default_duration == (match tfhd.default_sample_duration {
                Some(d) => d,
                None => trex_default_duration,
            }),
            i <= samples.len(),
            total == sum_durations(samples.take(i as int), *tfhd, trex_default_duration),
        decreases samples.len() - i,
    {
        proof {
            assert(samples.take(i + 1).drop_last() =~= samples.take(i as int));
            lemma_sum_durations_mono(samples, *tfhd, trex_default_duration, i + 1);
        }
        let s = trun.samples[i];
        let d = match s.duration {
            Some(d) => d,
            None => default_duration,
        };
        total = total + d as u64;
        i = i + 1;
    }
    assert(samples.take(i as int) =~= samples);
    total
}

pub(crate) proof fn lemma_sum_fragments_mono(fragments: Seq<FragmentView>, d: u32, i: int)
    requires
        0 <= i <= fragments.len(),
    ensures
        0 <= sum_fragment_durations(fragments.take(i), d) <= sum_fragment_durations(fragments, d),
    decreases fragments.len(),
{
    if i < fragments.len() {
        assert(fragments.drop_last().take(i) =~= fragments.take(i));
        lemma_sum_fragments_mono(fragments.drop_last(), d, i);
        lemma_sum_durations_nonneg(fragments.last().trun.samples, fragments.last().tfhd, d);
    } else {
        assert(fragments.take(i) =~= fragments);
        lemma_sum_fragments_nonneg(fragments, d);
    }
}

proof fn lemma_sum_fragments_nonneg(fragments: Seq<FragmentView>, d: u32)
    ensures
        0 <= sum_fragment_durations(fragments, d),
    decreases fragments.len(),
{
    if fragments.len() > 0 {
        lemma_sum_fragments_nonneg(fragments.drop_last(), d);
        lemma_sum_durations_nonneg(fragments.last().trun.samples, fragments.last().tfhd, d);
    }
}

/// Calculate total duration across all fragments in a chunk for a given track
pub fn total_chunk_duration(fragments: &[FragmentInfo], trex_default_duration: u32) -> (r: u64)
    requires
        sum_fragment_durations(fragments@.map_values(|f: FragmentInfo| f@), trex_default_duration)
            <= u64::MAX,
    ensures
        r == sum_fragment_durations(fragments@.map_values(|f: FragmentInfo| f@), trex_default_duration),
{
    let ghost fv = fragments@.map_values(|f: FragmentInfo| f@);
    let mut total: u64 = 0;
    let mut i: usize = 0;
    while i < fragments.len()
        invariant
            fv == fragments@.map_values(|f: FragmentInfo| f@),
            sum_fragment_durations(fv, trex_default_duration) <= u64::MAX,
            i <= fragments@.len(),
            total == sum_fragment_durations(fv.take(i as int), trex_default_duration),
        decreases fragments@.len() - i,
    {
        proof {
            assert(fv.take(i + 1).drop_last() =~= fv.take(i as int));
            lemma_sum_fragments_mono(fv, trex_default_duration, i + 1);
            lemma_sum_durations_nonneg(fv[i as int].trun.samples, fv[i as int].tfhd, trex_default_duration);
        }
        let frag = &fragments[i];
        let d = total_sample_duration(&frag.trun, &frag.tfhd, trex_default_duration);
        total = total + d;
        i = i + 1;
    }
    assert(fv.take(i as int) =~= fv);
    total
}

/// The total duration of a chunk's fragments where it fits in 32 bits
/// (`None` otherwise).
pub fn chunk_duration_u32(fragments: &[FragmentInfo], trex_default_duration: u32) -> (r: Option<u32>)
    ensures
        match r {
            Some(x) => x == sum_fragment_durations(
                fragments@.map_values(|f: FragmentInfo| f@),
                trex_default_duration,
            ),
            None => sum_fragment_durations(fragments@.map_values(|f: FragmentInfo| f@), trex_default_duration)
                > u32::MAX,
        },
{
    let ghost fv = fragments@.map_values(|f: FragmentInfo| f@);
    let ghost d = trex_default_duration;
    let mut total: u64 = 0;
    let mut i: usize = 0;
    while i < fragments.len()
        invariant
            fv == fragments@.map_values(|f: FragmentInfo| f@),
            d == trex_default_duration,
            i <= fragments@.len(),
            total == sum_fragment_durations(fv.take(i as int), d),
            total <= u32::MAX,
        decreases fragments@.len() - i,
    {
        let frag = &fragments[i];
        assert(fv[i as int] == frag@);
        let ghost samples = frag.trun.samples@;
        let ghost tfhd = frag.tfhd;
        let ghost base = total as int;
        proof {
            assert(fv.take(i + 1).drop_last() =~= fv.take(i as int));
            lemma_sum_fragments_mono(fv, d, i + 1);
        }
        let default_duration = match frag.tfhd.default_sample_duration {
            Some(x) => x,
            None => trex_default_duration,
        };
        let mut k: usize = 0;
        assert(samples.take(0) =~= Seq::<TrunSample>::empty());
        while k < frag.trun.samples.len()
            invariant
                fv == fragments@.map_values(|f: FragmentInfo| f@),
                d == trex_default_duration,
                samples == frag.trun.samples@,
                tfhd == frag.tfhd,
                default_duration == (match tfhd.default_sample_duration {
                    Some(x) => x,
                    None => d,
                }),
                k <= samples.len(),
                total == base + sum_durations(samples.take(k as int), tfhd, d),
                total <= u32::MAX,
                base + sum_durations(samples, tfhd, d) <= sum_fragment_durations(fv, d),
            decreases samples.len() - k,
        {
            proof {
                assert(samples.take(k + 1).drop_last() =~= samples.take(k as int));
                assert(samples.take(k + 1).last() == samples[k as int]);
                lemma_sum_durations_mono(samples, tfhd, d, k + 1);
            }
            let ghost before = total as int;
            let dur = match frag.trun.samples[k].duration {
                Some(x) => x,
                None => default_duration,
            };
            total = total + dur as u64;
            assert(total == base + sum_durations(samples.take(k + 1), tfhd, d));
            k = k + 1;
            if total > 0xffff_ffff {
                return None;
            }
        }
        assert(samples.take(k as int) =~= samples);
        i = i + 1;
    }
    assert(fv.take(i as int) =~= fv);
    Some(total as u32)
}

} // verus!
