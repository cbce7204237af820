// Generation of MP4 boxes for Hybrid MP4 output
//
// The Hybrid MP4 wraps original fragmented MP4 source files inside a single mdat,
// with a moov containing full sample tables (stbl) whose chunk offsets skip over
// the fMP4 headers embedded in the source files.
use vstd::prelude::*;

use crate::binary::{
    be32, be64, lemma_be32_of, lemma_be64_of, u16_be_bytes, u32_be_bytes, u64_be_bytes, write_bytes, write_i32_be, write_i64_be, write_u16_be,
    write_u32_be, write_u64_be,
};
use crate::mp4_box::{make_box, make_fullbox, spec_make_box, spec_make_fullbox};
use crate::cmd::plan::types::{SampleTableView, TrackInfo, TrackInfoView, TrackSampleTable};

verus! {

// ===== Run-length encoding =====

/// Runs of equal consecutive values, as (count, value) pairs, built left to
/// right: a value equal to the last run's extends it, any other starts a run.
pub open spec fn spec_run_lengths<T>(s: Seq<T>) -> Seq<(u32, T)>
    decreases s.len(),
{
    if s.len() == 0 {
        Seq::empty()
    } else {
        let prev = spec_run_lengths(s.drop_last());
        if prev.len() > 0 && prev.last().1 == s.last() {
            prev.update(prev.len() - 1, ((prev.last().0 + 1) as u32, s.last()))
        } else {
            prev.push((1u32, s.last()))
        }
    }
}

/// The values that the runs stand for, in order.
pub open spec fn spec_expand_runs<T>(runs: Seq<(u32, T)>) -> Seq<T>
    decreases runs.len(),
{
    if runs.len() == 0 {
        Seq::empty()
    } else {
        spec_expand_runs(runs.drop_last()) + Seq::new(runs.last().0 as nat, |_i: int| runs.last().1)
    }
}

/// Run-length encoding keeps everything: expanding the runs gives back the
/// values; every run is non-empty; adjacent runs hold different values; there
/// are no more runs than values.
pub proof fn lemma_run_lengths<T>(s: Seq<T>)
    requires
        s.len() <= u32::MAX,
    ensures
        spec_expand_runs(spec_run_lengths(s)) == s,
        spec_run_lengths(s).len() <= s.len(),
        s.len() > 0 ==> spec_run_lengths(s).len() > 0,
        forall|j: int|
            0 <= j < spec_run_lengths(s).len() ==> 1 <= #[trigger] spec_run_lengths(s)[j].0 <= s.len(),
        forall|j: int|
            0 <= j < spec_run_lengths(s).len() - 1 ==> #[trigger] spec_run_lengths(s)[j].1
                != spec_run_lengths(s)[j + 1].1,
        s.len() > 0 ==> spec_run_lengths(s).last().1 == s.last(),
    decreases s.len(),
{
    if s.len() > 0 {
        let p = s.drop_last();
        let x = s.last();
        lemma_run_lengths(p);
        let r = spec_run_lengths(p);
        let r2 = spec_run_lengths(s);
        if r.len() > 0 && r.last().1 == x {
            let c = r.last().0;
            assert(r2.drop_last() =~= r.drop_last());
            assert(Seq::new((c + 1) as u32 as nat, |_i: int| x) =~= Seq::new(c as nat, |_i: int| x).push(
                x,
            ));
            assert(spec_expand_runs(r) == spec_expand_runs(r.drop_last()) + Seq::new(
                c as nat,
                |_i: int| x,
            ));
            assert(spec_expand_runs(r2) =~= spec_expand_runs(r) + seq![x]);
            assert(p.push(x) =~= s);
            assert forall|j: int| 0 <= j < r2.len() - 1 implies #[trigger] r2[j].1 != r2[j + 1].1 by {
                assert(r2[j] == r[j]);
                assert(r2[j + 1].1 == r[j + 1].1);
            }
        } else {
            assert(r2.drop_last() =~= r);
            assert(Seq::new(1u32 as nat, |_i: int| x) =~= seq![x]);
            assert(spec_expand_runs(r2) =~= spec_expand_runs(r) + seq![x]);
            assert(p.push(x) =~= s);
            assert forall|j: int| 0 <= j < r2.len() - 1 implies #[trigger] r2[j].1 != r2[j + 1].1 by {
                if j + 1 < r.len() {
                    assert(r2[j] == r[j]);
                    assert(r2[j + 1] == r[j + 1]);
                } else {
                    assert(r2[j] == r.last());
                }
            }
        }
    }
}

fn run_lengths_u32(values: &[u32]) -> (r: Vec<(u32, u32)>)
    requires
        values@.len() <= u32::MAX,
    ensures
        r@ == spec_run_lengths(values@),
{
    let mut entries: Vec<(u32, u32)> = Vec::new();
    let mut i: usize = 0;
    assert(values@.subrange(0, 0) =~= Seq::<u32>::empty());
    while i < values.len()
        invariant
            i <= values@.len(),
            values@.len() <= u32::MAX,
            entries@ == spec_run_lengths(values@.subrange(0, i as int)),
        decreases values@.len() - i,
    {
        proof {
            lemma_run_lengths(values@.subrange(0, i as int));
        }
        let d = values[i];
        let n = entries.len();
        if n > 0 && entries[n - 1].1 == d {
            let c = entries[n - 1].0;
            entries.set(n - 1, (c + 1, d));
        } else {
            entries.push((1, d));
        }
        assert(values@.subrange(0, i + 1).drop_last() =~= values@.subrange(0, i as int));
        i = i + 1;
    }
    assert(values@.subrange(0, i as int) =~= values@);
    entries
}

fn run_lengths_i32(values: &[i32]) -> (r: Vec<(u32, i32)>)
    requires
        values@.len() <= u32::MAX,
    ensures
        r@ == spec_run_lengths(values@),
{
    let mut entries: Vec<(u32, i32)> = Vec::new();
    let mut i: usize = 0;
    assert(values@.subrange(0, 0) =~= Seq::<i32>::empty());
    while i < values.len()
        invariant
            i <= values@.len(),
            values@.len() <= u32::MAX,
            entries@ == spec_run_lengths(values@.subrange(0, i as int)),
        decreases values@.len() - i,
    {
        proof {
            lemma_run_lengths(values@.subrange(0, i as int));
        }
        let o = values[i];
        let n = entries.len();
        if n > 0 && entries[n - 1].1 == o {
            let c = entries[n - 1].0;
            entries.set(n - 1, (c + 1, o));
        } else {
            entries.push((1, o));
        }
        assert(values@.subrange(0, i + 1).drop_last() =~= values@.subrange(0, i as int));
        i = i + 1;
    }
    assert(values@.subrange(0, i as int) =~= values@);
    entries
}

/// Runs of chunks with the same number of samples, as (first chunk, 1-based;
/// samples per chunk): an entry is recorded only where the count changes.
pub open spec fn spec_chunk_runs(s: Seq<u32>) -> Seq<(u32, u32)>
    decreases s.len(),
{
    if s.len() == 0 {
        Seq::empty()
    } else {
        let prev = spec_chunk_runs(s.drop_last());
        if prev.len() > 0 && prev.last().1 == s.last() {
            prev
        } else {
            prev.push((s.len() as u32, s.last()))
        }
    }
}

/// Samples per chunk for `n` chunks, as stated by stsc entries: each entry
/// holds from its first chunk up to the next entry's first chunk, the last
/// one up to chunk `n`.
pub open spec fn spec_expand_chunk_runs(runs: Seq<(u32, u32)>, n: int) -> Seq<u32>
    decreases runs.len(),
{
    if runs.len() == 0 {
        Seq::empty()
    } else {
        spec_expand_chunk_runs(runs.drop_last(), runs.last().0 - 1) + Seq::new(
            (n - (runs.last().0 - 1)) as nat,
            |_i: int| runs.last().1,
        )
    }
}

/// The stsc entries state the samples-per-chunk list exactly: the first entry
/// starts at chunk 1, first chunks strictly increase, and expanding the
/// entries over all chunks gives back the list.
pub proof fn lemma_chunk_runs(s: Seq<u32>)
    requires
        s.len() <= u32::MAX,
    ensures
        spec_expand_chunk_runs(spec_chunk_runs(s), s.len() as int) == s,
        spec_chunk_runs(s).len() <= s.len(),
        s.len() > 0 ==> spec_chunk_runs(s).len() > 0 && spec_chunk_runs(s)[0].0 == 1,
        s.len() > 0 ==> spec_chunk_runs(s).last().1 == s.last(),
        forall|j: int|
            0 <= j < spec_chunk_runs(s).len() ==> 1 <= #[trigger] spec_chunk_runs(s)[j].0 <= s.len(),
        forall|j: int|
            0 <= j < spec_chunk_runs(s).len() - 1 ==> #[trigger] spec_chunk_runs(s)[j].0 < spec_chunk_runs(
                s,
            )[j + 1].0,
    decreases s.len(),
{
    if s.len() > 0 {
        let p = s.drop_last();
        let x = s.last();
        lemma_chunk_runs(p);
        let r = spec_chunk_runs(p);
        let n = s.len() as int;
        if r.len() > 0 && r.last().1 == x {
            let f = r.last().0;
            assert(Seq::new((n - (f - 1)) as nat, |_i: int| x) =~= Seq::new(
                ((n - 1) - (f - 1)) as nat,
                |_i: int| x,
            ).push(x));
            assert(spec_expand_chunk_runs(r, n) =~= spec_expand_chunk_runs(r, n - 1) + seq![x]);
            assert(p.push(x) =~= s);
        } else {
            let r2 = r.push((n as u32, x));
            assert(r2.drop_last() =~= r);
            assert(Seq::new((n - (n - 1)) as nat, |_i: int| x) =~= seq![x]);
            assert(spec_expand_chunk_runs(r2, n) =~= spec_expand_chunk_runs(r, n - 1) + seq![x]);
            assert(p.push(x) =~= s);
            if r.len() == 0 {
                assert(p.len() == 0);
            }
        }
    }
}

fn chunk_runs(values: &[u32]) -> (r: Vec<(u32, u32)>)
    ensures
        r@ == spec_chunk_runs(values@),
{
    let mut entries: Vec<(u32, u32)> = Vec::new();
    let mut i: usize = 0;
    assert(values@.subrange(0, 0) =~= Seq::<u32>::empty());
    while i < values.len()
        invariant
            i <= values@.len(),
            entries@ == spec_chunk_runs(values@.subrange(0, i as int)),
        decreases values@.len() - i,
    {
        let count = values[i];
        let chunk_1based = (i + 1) as u32;
        let n = entries.len();
        if n > 0 && entries[n - 1].1 == count {
        } else {
            entries.push((chunk_1based, count));
        }
        assert(values@.subrange(0, i + 1).drop_last() =~= values@.subrange(0, i as int));
        i = i + 1;
    }
    assert(values@.subrange(0, i as int) =~= values@);
    entries
}

// ===== Field lists =====

/// Each value as four big-endian bytes, in order.
pub open spec fn u32s_be(s: Seq<u32>) -> Seq<u8>
    decreases s.len(),
{
    if s.len() == 0 {
        Seq::empty()
    } else {
        u32s_be(s.drop_last()) + u32_be_bytes(s.last() as int)
    }
}

/// Each value as eight big-endian bytes, in order.
pub open spec fn u64s_be(s: Seq<u64>) -> Seq<u8>
    decreases s.len(),
{
    if s.len() == 0 {
        Seq::empty()
    } else {
        u64s_be(s.drop_last()) + u64_be_bytes(s.last() as int)
    }
}

/// Each (count, value) pair as two big-endian 32-bit fields, in order.
pub open spec fn pairs_be(s: Seq<(u32, u32)>) -> Seq<u8>
    decreases s.len(),
{
    if s.len() == 0 {
        Seq::empty()
    } else {
        pairs_be(s.drop_last()) + u32_be_bytes(s.last().0 as int) + u32_be_bytes(s.last().1 as int)
    }
}

/// Each (count, offset) pair as two big-endian 32-bit fields, the offset in
/// two's complement, in order.
pub open spec fn signed_pairs_be(s: Seq<(u32, i32)>) -> Seq<u8>
    decreases s.len(),
{
    if s.len() == 0 {
        Seq::empty()
    } else {
        signed_pairs_be(s.drop_last()) + u32_be_bytes(s.last().0 as int) + u32_be_bytes(
            (s.last().1 as u32) as int,
        )
    }
}

/// Each stsc entry as (first chunk, samples per chunk, sample description
/// index 1), big-endian, in order.
pub open spec fn stsc_entries_be(s: Seq<(u32, u32)>) -> Seq<u8>
    decreases s.len(),
{
    if s.len() == 0 {
        Seq::empty()
    } else {
        stsc_entries_be(s.drop_last()) + u32_be_bytes(s.last().0 as int) + u32_be_bytes(
            s.last().1 as int,
        ) + u32_be_bytes(1)
    }
}

pub proof fn lemma_u32s_be_len(s: Seq<u32>)
    ensures
        u32s_be(s).len() == 4 * s.len(),
    decreases s.len(),
{
    if s.len() > 0 {
        lemma_u32s_be_len(s.drop_last());
    }
}

pub proof fn lemma_u64s_be_len(s: Seq<u64>)
    ensures
        u64s_be(s).len() == 8 * s.len(),
    decreases s.len(),
{
    if s.len() > 0 {
        lemma_u64s_be_len(s.drop_last());
    }
}

pub proof fn lemma_pairs_be_len(s: Seq<(u32, u32)>)
    ensures
        pairs_be(s).len() == 8 * s.len(),
    decreases s.len(),
{
    if s.len() > 0 {
        lemma_pairs_be_len(s.drop_last());
    }
}

pub proof fn lemma_signed_pairs_be_len(s: Seq<(u32, i32)>)
    ensures
        signed_pairs_be(s).len() == 8 * s.len(),
    decreases s.len(),
{
    if s.len() > 0 {
        lemma_signed_pairs_be_len(s.drop_last());
    }
}

pub proof fn lemma_stsc_entries_be_len(s: Seq<(u32, u32)>)
    ensures
        stsc_entries_be(s).len() == 12 * s.len(),
    decreases s.len(),
{
    if s.len() > 0 {
        lemma_stsc_entries_be_len(s.drop_last());
    }
}

fn write_u32s(buf: &mut Vec<u8>, values: &[u32])
    ensures
        final(buf)@ == old(buf)@ + u32s_be(values@),
{
    let mut i: usize = 0;
    assert(values@.subrange(0, 0) =~= Seq::<u32>::empty());
    assert(buf@ =~= old(buf)@ + u32s_be(values@.subrange(0, 0)));
    while i < values.len()
        invariant
            i <= values@.len(),
            buf@ == old(buf)@ + u32s_be(values@.subrange(0, i as int)),
        decreases values@.len() - i,
    {
        write_u32_be(buf, values[i]);
        assert(values@.subrange(0, i + 1).drop_last() =~= values@.subrange(0, i as int));
        i = i + 1;
        assert(buf@ =~= old(buf)@ + u32s_be(values@.subrange(0, i as int)));
    }
    assert(values@.subrange(0, i as int) =~= values@);
}

fn write_u64s(buf: &mut Vec<u8>, values: &[u64])
    ensures
        final(buf)@ == old(buf)@ + u64s_be(values@),
{
    let mut i: usize = 0;
    assert(values@.subrange(0, 0) =~= Seq::<u64>::empty());
    assert(buf@ =~= old(buf)@ + u64s_be(values@.subrange(0, 0)));
    while i < values.len()
        invariant
            i <= values@.len(),
            buf@ == old(buf)@ + u64s_be(values@.subrange(0, i as int)),
        decreases values@.len() - i,
    {
        write_u64_be(buf, values[i]);
        assert(values@.subrange(0, i + 1).drop_last() =~= values@.subrange(0, i as int));
        i = i + 1;
        assert(buf@ =~= old(buf)@ + u64s_be(values@.subrange(0, i as int)));
    }
    assert(values@.subrange(0, i as int) =~= values@);
}

fn write_pairs(buf: &mut Vec<u8>, entries: &Vec<(u32, u32)>)
    ensures
        final(buf)@ == old(buf)@ + pairs_be(entries@),
{
    let mut i: usize = 0;
    assert(entries@.subrange(0, 0) =~= Seq::<(u32, u32)>::empty());
    assert(buf@ =~= old(buf)@ + pairs_be(entries@.subrange(0, 0)));
    while i < entries.len()
        invariant
            i <= entries@.len(),
            buf@ == old(buf)@ + pairs_be(entries@.subrange(0, i as int)),
        decreases entries@.len() - i,
    {
        let (count, delta) = entries[i];
        write_u32_be(buf, count);
        write_u32_be(buf, delta);
        assert(entries@.subrange(0, i + 1).drop_last() =~= entries@.subrange(0, i as int));
        i = i + 1;
        assert(buf@ =~= old(buf)@ + pairs_be(entries@.subrange(0, i as int)));
    }
    assert(entries@.subrange(0, i as int) =~= entries@);
}

fn write_signed_pairs(buf: &mut Vec<u8>, entries: &Vec<(u32, i32)>, version: u8)
    ensures
        final(buf)@ == old(buf)@ + signed_pairs_be(entries@),
{
    let mut i: usize = 0;
    assert(entries@.subrange(0, 0) =~= Seq::<(u32, i32)>::empty());
    assert(buf@ =~= old(buf)@ + signed_pairs_be(entries@.subrange(0, 0)));
    while i < entries.len()
        invariant
            i <= entries@.len(),
            buf@ == old(buf)@ + signed_pairs_be(entries@.subrange(0, i as int)),
        decreases entries@.len() - i,
    {
        let (count, offset) = entries[i];
        write_u32_be(buf, count);
        if version == 0 {
            write_u32_be(buf, offset as u32);
        } else {
            write_i32_be(buf, offset);
        }
        assert(entries@.subrange(0, i + 1).drop_last() =~= entries@.subrange(0, i as int));
        i = i + 1;
        assert(buf@ =~= old(buf)@ + signed_pairs_be(entries@.subrange(0, i as int)));
    }
    assert(entries@.subrange(0, i as int) =~= entries@);
}

fn write_stsc_entries(buf: &mut Vec<u8>, entries: &Vec<(u32, u32)>)
    ensures
        final(buf)@ == old(buf)@ + stsc_entries_be(entries@),
{
    let mut i: usize = 0;
    assert(entries@.subrange(0, 0) =~= Seq::<(u32, u32)>::empty());
    assert(buf@ =~= old(buf)@ + stsc_entries_be(entries@.subrange(0, 0)));
    while i < entries.len()
        invariant
            i <= entries@.len(),
            buf@ == old(buf)@ + stsc_entries_be(entries@.subrange(0, i as int)),
        decreases entries@.len() - i,
    {
        let (first_chunk, spc) = entries[i];
        write_u32_be(buf, first_chunk);
        write_u32_be(buf, spc);
        write_u32_be(buf, 1);
        assert(entries@.subrange(0, i + 1).drop_last() =~= entries@.subrange(0, i as int));
        i = i + 1;
        assert(buf@ =~= old(buf)@ + stsc_entries_be(entries@.subrange(0, i as int)));
    }
    assert(entries@.subrange(0, i as int) =~= entries@);
}


// ===== Box types =====

/// The four ASCII bytes of a box type.
pub open spec fn fourcc(a: u8, b: u8, c: u8, d: u8) -> Seq<u8> {
    seq![a, b, c, d]
}

// ===== moov children =====

/// The mvhd box: version 1 (64-bit times) when the duration does not fit in
/// 32 bits; rate 1.0, volume 1.0, identity matrix.
#[verifier::opaque]
pub open spec fn spec_mvhd(timescale: u32, duration: u64, next_track_id: u32) -> Seq<u8> {
    let use_v1 = duration > u32::MAX;
    let times = if use_v1 {
        u64_be_bytes(0) + u64_be_bytes(0) + u32_be_bytes(timescale as int) + u64_be_bytes(duration as int)
    } else {
        u32_be_bytes(0) + u32_be_bytes(0) + u32_be_bytes(timescale as int) + u32_be_bytes(duration as int)
    };
    let data = times + u32_be_bytes(0x00010000) + seq![0x01u8, 0x00u8] + Seq::new(10, |_i: int| 0u8)
        + u32_be_bytes(0x00010000) + u32_be_bytes(0) + u32_be_bytes(0) + u32_be_bytes(0)
        + u32_be_bytes(0x00010000) + u32_be_bytes(0) + u32_be_bytes(0) + u32_be_bytes(0)
        + u32_be_bytes(0x40000000) + Seq::new(24, |_i: int| 0u8) + u32_be_bytes(next_track_id as int);
    spec_make_fullbox(fourcc(0x6d, 0x76, 0x68, 0x64), if use_v1 { 1 } else { 0 }, 0, data)
}

fn write_zeros(buf: &mut Vec<u8>, n: usize)
    ensures
        final(buf)@ == old(buf)@ + Seq::new(n as nat, |_i: int| 0u8),
{
    let mut i: usize = 0;
    while i < n
        invariant
            i <= n,
            buf@ == old(buf)@ + Seq::new(i as nat, |_i: int| 0u8),
        decreases n - i,
    {
        buf.push(0u8);
        i = i + 1;
        assert(buf@ =~= old(buf)@ + Seq::new(i as nat, |_i: int| 0u8));
    }
}

fn generate_mvhd(timescale: u32, duration: u64, next_track_id: u32) -> (r: Vec<u8>)
    ensures
        r@ == spec_mvhd(timescale, duration, next_track_id),
{
    reveal(spec_mvhd);
    // Use version 1 (64-bit times) when duration overflows u32
    let use_v1 = duration > 0xffff_ffffu64;
    let mut data: Vec<u8> = Vec::new();
    if use_v1 {
        write_u64_be(&mut data, 0);  // creation_time
        write_u64_be(&mut data, 0);  // modification_time
        write_u32_be(&mut data, timescale);
        write_u64_be(&mut data, duration);
    } else {
        write_u32_be(&mut data, 0);  // creation_time
        write_u32_be(&mut data, 0);  // modification_time
        write_u32_be(&mut data, timescale);
        write_u32_be(&mut data, duration as u32);
    }
    write_u32_be(&mut data, 0x00010000);  // rate = 1.0
    data.push(0x01);  // volume = 1.0
    data.push(0x00);
    write_zeros(&mut data, 10);  // reserved
    // Identity matrix
    write_u32_be(&mut data, 0x00010000);
    write_u32_be(&mut data, 0);
    write_u32_be(&mut data, 0);
    write_u32_be(&mut data, 0);
    write_u32_be(&mut data, 0x00010000);
    write_u32_be(&mut data, 0);
    write_u32_be(&mut data, 0);
    write_u32_be(&mut data, 0);
    write_u32_be(&mut data, 0x40000000);
    write_zeros(&mut data, 24);  // pre_defined
    write_u32_be(&mut data, next_track_id);
    let ty: [u8; 4] = [0x6d, 0x76, 0x68, 0x64];
    assert(ty@ =~= fourcc(0x6d, 0x76, 0x68, 0x64));
    let ghost times_v1 = u64_be_bytes(0) + u64_be_bytes(0) + u32_be_bytes(timescale as int) + u64_be_bytes(duration as int);
    assert(data@ =~= (if use_v1 { times_v1 } else {
        u32_be_bytes(0) + u32_be_bytes(0) + u32_be_bytes(timescale as int) + u32_be_bytes(duration as int)
    }) + u32_be_bytes(0x00010000) + seq![0x01u8, 0x00u8] + Seq::new(10, |_i: int| 0u8)
        + u32_be_bytes(0x00010000) + u32_be_bytes(0) + u32_be_bytes(0) + u32_be_bytes(0)
        + u32_be_bytes(0x00010000) + u32_be_bytes(0) + u32_be_bytes(0) + u32_be_bytes(0)
        + u32_be_bytes(0x40000000) + Seq::new(24, |_i: int| 0u8) + u32_be_bytes(next_track_id as int));
    make_fullbox(&ty, if use_v1 { 1 } else { 0 }, 0, &data)
}

// ===== stbl children =====

/// The stts box: durations run-length encoded.
#[verifier::opaque]
pub open spec fn spec_stts(durations: Seq<u32>) -> Seq<u8> {
    let e = spec_run_lengths(durations);
    spec_make_fullbox(fourcc(0x73, 0x74, 0x74, 0x73), 0, 0, u32_be_bytes(e.len() as u32 as int) + pairs_be(e))
}

fn generate_stts(durations: &[u32]) -> (r: Vec<u8>)
    requires
        durations@.len() <= u32::MAX,
    ensures
        r@ == spec_stts(durations@),
{
    reveal(spec_stts);
    // Run-length encode consecutive equal durations
    let entries = run_lengths_u32(durations);
    let mut data: Vec<u8> = Vec::new();
    write_u32_be(&mut data, entries.len() as u32);
    write_pairs(&mut data, &entries);
    let ty: [u8; 4] = [0x73, 0x74, 0x74, 0x73];
    assert(ty@ =~= fourcc(0x73, 0x74, 0x74, 0x73));
    make_fullbox(&ty, 0, 0, &data)
}

/// The ctts box: composition offsets run-length encoded, each offset written
/// as 32 bits (two's complement).
#[verifier::opaque]
pub open spec fn spec_ctts(offsets: Seq<i32>, version: u8) -> Seq<u8> {
    let e = spec_run_lengths(offsets);
    spec_make_fullbox(
        fourcc(0x63, 0x74, 0x74, 0x73),
        version,
        0,
        u32_be_bytes(e.len() as u32 as int) + signed_pairs_be(e),
    )
}

fn generate_ctts(offsets: &[i32], version: u8) -> (r: Vec<u8>)
    requires
        offsets@.len() <= u32::MAX,
    ensures
        r@ == spec_ctts(offsets@, version),
{
    reveal(spec_ctts);
    // Run-length encode consecutive equal offsets
    let entries = run_lengths_i32(offsets);
    let mut data: Vec<u8> = Vec::new();
    write_u32_be(&mut data, entries.len() as u32);
    write_signed_pairs(&mut data, &entries, version);
    let ty: [u8; 4] = [0x63, 0x74, 0x74, 0x73];
    assert(ty@ =~= fourcc(0x63, 0x74, 0x74, 0x73));
    make_fullbox(&ty, version, 0, &data)
}

/// The common size when all sizes are equal and there is at least one, else 0.
pub open spec fn uniform_size(sizes: Seq<u32>) -> u32 {
    if sizes.len() > 0 && (forall|i: int| 0 <= i < sizes.len() ==> #[trigger] sizes[i] == sizes[0]) {
        sizes[0]
    } else {
        0
    }
}

/// The stsz box: the compact form (one common size) when all sizes are equal,
/// else every size.
#[verifier::opaque]
pub open spec fn spec_stsz(sizes: Seq<u32>) -> Seq<u8> {
    let uniform = uniform_size(sizes);
    spec_make_fullbox(
        fourcc(0x73, 0x74, 0x73, 0x7a),
        0,
        0,
        u32_be_bytes(uniform as int) + u32_be_bytes(sizes.len() as u32 as int) + (if uniform == 0 {
            u32s_be(sizes)
        } else {
            Seq::empty()
        }),
    )
}

fn generate_stsz(sizes: &[u32]) -> (r: Vec<u8>)
    ensures
        r@ == spec_stsz(sizes@),
{
    reveal(spec_stsz);
    // If all sizes are equal, use the compact form (sample_size != 0)
    let mut all_equal = true;
    let mut i: usize = 0;
    while i < sizes.len()
        invariant
            i <= sizes@.len(),
            all_equal == (forall|j: int| 0 <= j < i ==> #[trigger] sizes@[j] == sizes@[0]),
        decreases sizes@.len() - i,
    {
        if sizes[i] != sizes[0] {
            all_equal = false;
        }
        i = i + 1;
    }
    let uniform = if sizes.len() > 0 && all_equal {
        sizes[0]
    } else {
        0
    };
    assert(uniform == uniform_size(sizes@));

    let mut data: Vec<u8> = Vec::new();
    write_u32_be(&mut data, uniform);
    write_u32_be(&mut data, sizes.len() as u32);
    if uniform == 0 {
        write_u32s(&mut data, sizes);
    }
    let ty: [u8; 4] = [0x73, 0x74, 0x73, 0x7a];
    assert(ty@ =~= fourcc(0x73, 0x74, 0x73, 0x7a));
    assert(data@ =~= u32_be_bytes(uniform as int) + u32_be_bytes(sizes@.len() as u32 as int) + (
    if uniform == 0 {
        u32s_be(sizes@)
    } else {
        Seq::empty()
    }));
    make_fullbox(&ty, 0, 0, &data)
}

/// The stsc box: one entry per run of chunks with the same sample count.
#[verifier::opaque]
pub open spec fn spec_stsc(samples_per_chunk: Seq<u32>) -> Seq<u8> {
    let e = spec_chunk_runs(samples_per_chunk);
    spec_make_fullbox(
        fourcc(0x73, 0x74, 0x73, 0x63),
        0,
        0,
        u32_be_bytes(e.len() as u32 as int) + stsc_entries_be(e),
    )
}

fn generate_stsc(samples_per_chunk: &[u32]) -> (r: Vec<u8>)
    ensures
        r@ == spec_stsc(samples_per_chunk@),
{
    reveal(spec_stsc);
    // Run-length encode: record an entry only when samples_per_chunk changes
    let entries = chunk_runs(samples_per_chunk);
    let mut data: Vec<u8> = Vec::new();
    write_u32_be(&mut data, entries.len() as u32);
    write_stsc_entries(&mut data, &entries);
    let ty: [u8; 4] = [0x73, 0x74, 0x73, 0x63];
    assert(ty@ =~= fourcc(0x73, 0x74, 0x73, 0x63));
    make_fullbox(&ty, 0, 0, &data)
}

/// The co64 box: every chunk offset as 64 bits.
#[verifier::opaque]
pub open spec fn spec_co64(offsets: Seq<u64>) -> Seq<u8> {
    spec_make_fullbox(
        fourcc(0x63, 0x6f, 0x36, 0x34),
        0,
        0,
        u32_be_bytes(offsets.len() as u32 as int) + u64s_be(offsets),
    )
}

fn generate_co64(offsets: &[u64]) -> (r: Vec<u8>)
    ensures
        r@ == spec_co64(offsets@),
{
    reveal(spec_co64);
    let mut data: Vec<u8> = Vec::new();
    write_u32_be(&mut data, offsets.len() as u32);
    write_u64s(&mut data, offsets);
    let ty: [u8; 4] = [0x63, 0x6f, 0x36, 0x34];
    assert(ty@ =~= fourcc(0x63, 0x6f, 0x36, 0x34));
    make_fullbox(&ty, 0, 0, &data)
}

/// The stss box: the 1-based numbers of the sync samples.
#[verifier::opaque]
pub open spec fn spec_stss(sync_samples: Seq<u32>) -> Seq<u8> {
    spec_make_fullbox(
        fourcc(0x73, 0x74, 0x73, 0x73),
        0,
        0,
        u32_be_bytes(sync_samples.len() as u32 as int) + u32s_be(sync_samples),
    )
}

fn generate_stss(sync_samples: &[u32]) -> (r: Vec<u8>)
    ensures
        r@ == spec_stss(sync_samples@),
{
    reveal(spec_stss);
    let mut data: Vec<u8> = Vec::new();
    write_u32_be(&mut data, sync_samples.len() as u32);
    write_u32s(&mut data, sync_samples);
    let ty: [u8; 4] = [0x73, 0x74, 0x73, 0x73];
    assert(ty@ =~= fourcc(0x73, 0x74, 0x73, 0x73));
    make_fullbox(&ty, 0, 0, &data)
}


// ===== stbl =====

/// An stss box is written only when not every sample is a sync sample.
pub open spec fn stss_needed(st: SampleTableView) -> bool {
    st.sync_samples.len() > 0 && st.sync_samples.len() < st.sample_sizes.len()
}

/// The content of the stbl box: the original stsd followed by the sample
/// tables.
pub open spec fn spec_stbl_content(stsd: Seq<u8>, st: SampleTableView) -> Seq<u8> {
    stsd + spec_stts(st.sample_durations) + (if st.has_cts {
        spec_ctts(st.cts_offsets, st.cts_version)
    } else {
        Seq::empty()
    }) + spec_stsc(st.samples_per_chunk) + spec_stsz(st.sample_sizes) + spec_co64(st.chunk_offsets) + (
    if stss_needed(st) {
        spec_stss(st.sync_samples)
    } else {
        Seq::empty()
    })
}

/// The stbl box.
pub open spec fn spec_stbl(stsd: Seq<u8>, st: SampleTableView) -> Seq<u8> {
    spec_make_box(fourcc(0x73, 0x74, 0x62, 0x6c), spec_stbl_content(stsd, st))
}

/// The run-length counters of a sample table fit in 32 bits.
pub open spec fn sample_counts_fit(st: SampleTableView) -> bool {
    &&& st.sample_durations.len() <= u32::MAX
    &&& st.has_cts ==> st.cts_offsets.len() <= u32::MAX
}

fn generate_stbl(stsd_raw: &[u8], st: &TrackSampleTable) -> (r: Vec<u8>)
    requires
        sample_counts_fit(st@),
    ensures
        r@ == spec_stbl(stsd_raw@, st@),
{
    let mut content: Vec<u8> = Vec::new();
    write_bytes(&mut content, stsd_raw);
    let stts = generate_stts(st.sample_durations.as_slice());
    write_bytes(&mut content, stts.as_slice());
    if st.has_cts {
        let ctts = generate_ctts(st.cts_offsets.as_slice(), st.cts_version);
        write_bytes(&mut content, ctts.as_slice());
    }
    let stsc = generate_stsc(st.samples_per_chunk.as_slice());
    write_bytes(&mut content, stsc.as_slice());
    let stsz = generate_stsz(st.sample_sizes.as_slice());
    write_bytes(&mut content, stsz.as_slice());
    let co64 = generate_co64(st.chunk_offsets.as_slice());
    write_bytes(&mut content, co64.as_slice());

    // stss only needed when not every sample is a sync sample
    if !st.sync_samples.is_empty() && st.sync_samples.len() < st.sample_sizes.len() {
        let stss = generate_stss(st.sync_samples.as_slice());
        write_bytes(&mut content, stss.as_slice());
    }
    assert(content@ =~= spec_stbl_content(stsd_raw@, st@));
    let ty: [u8; 4] = [0x73, 0x74, 0x62, 0x6c];
    assert(ty@ =~= fourcc(0x73, 0x74, 0x62, 0x6c));
    make_box(&ty, content.as_slice())
}

// ===== trak (with full stbl) =====

/// `s` with the bytes from `at` on replaced by `b`.
pub open spec fn splice(s: Seq<u8>, at: int, b: Seq<u8>) -> Seq<u8> {
    s.subrange(0, at) + b + s.subrange(at + b.len(), s.len() as int)
}

/// The box `b` holds its version byte and a duration field (32 bits for
/// version 0, 64 bits otherwise) at the offset given for its version.
pub open spec fn duration_patchable(b: Seq<u8>, offset: int, offset_v1: int) -> bool {
    b.len() > 8 && (if b[8] == 0 { offset + 4 <= b.len() } else { offset_v1 + 8 <= b.len() })
}

/// The duration field of the box `b` set to `duration`: its low 32 bits for
/// version 0, all 64 bits otherwise.
pub open spec fn spec_patch_duration(b: Seq<u8>, offset: int, offset_v1: int, duration: u64) -> Seq<u8> {
    if b[8] == 0 {
        splice(b, offset, u32_be_bytes(duration as int))
    } else {
        splice(b, offset_v1, u64_be_bytes(duration as int))
    }
}

fn put_bytes_at(buf: &mut [u8], at: usize, bytes: &[u8])
    requires
        at + bytes@.len() <= old(buf)@.len(),
    ensures
        final(buf)@ == splice(old(buf)@, at as int, bytes@),
{
    let n = buf.len();
    let mut i: usize = 0;
    while i < bytes.len()
        invariant
            n == old(buf)@.len(),
            at + bytes@.len() <= old(buf)@.len(),
            buf@.len() == old(buf)@.len(),
            i <= bytes@.len(),
            forall|j: int| 0 <= j < at ==> buf@[j] == old(buf)@[j],
            forall|j: int| at <= j < at + i ==> buf@[j] == bytes@[j - at],
            forall|j: int| at + i <= j < buf@.len() ==> buf@[j] == old(buf)@[j],
        decreases bytes@.len() - i,
    {
        buf[at + i] = bytes[i];
        i = i + 1;
    }
    assert(buf@ =~= splice(old(buf)@, at as int, bytes@));
}

fn low32_be(x: u64) -> (r: Vec<u8>)
    ensures
        r@ == u32_be_bytes(x as int),
{
    let mut v: Vec<u8> = Vec::new();
    v.push(((x / 16777216) % 256) as u8);
    v.push(((x / 65536) % 256) as u8);
    v.push(((x / 256) % 256) as u8);
    v.push((x % 256) as u8);
    assert(v@ =~= u32_be_bytes(x as int));
    v
}

/// Patch the duration field in a raw tkhd box.
/// tkhd duration is in movie timescale.
fn patch_tkhd_duration(tkhd: &mut [u8], duration: u64)
    requires
        duration_patchable(old(tkhd)@, 28, 36),
    ensures
        final(tkhd)@ == spec_patch_duration(old(tkhd)@, 28, 36, duration),
{
    let version = tkhd[8];  // first byte after box header
    if version == 0 {
        // v0: header(8) + ver_flags(4) + creation(4) + modification(4) + track_id(4) + reserved(4) + duration(4)
        let off = 8 + 4 + 4 + 4 + 4 + 4;
        let bytes = low32_be(duration);
        put_bytes_at(tkhd, off, bytes.as_slice());
    } else {
        // v1: header(8) + ver_flags(4) + creation(8) + modification(8) + track_id(4) + reserved(4) + duration(8)
        let off = 8 + 4 + 8 + 8 + 4 + 4;
        let mut bytes: Vec<u8> = Vec::new();
        write_u64_be(&mut bytes, duration);
        put_bytes_at(tkhd, off, bytes.as_slice());
    }
}

/// Patch the duration field in a raw mdhd box.
/// mdhd duration is in the track's own timescale.
fn patch_mdhd_duration(mdhd: &mut [u8], duration: u64)
    requires
        duration_patchable(old(mdhd)@, 24, 32),
    ensures
        final(mdhd)@ == spec_patch_duration(old(mdhd)@, 24, 32, duration),
{
    let version = mdhd[8];
    if version == 0 {
        // v0: header(8) + ver_flags(4) + creation(4) + modification(4) + timescale(4) + duration(4)
        let off = 8 + 4 + 4 + 4 + 4;
        let bytes = low32_be(duration);
        put_bytes_at(mdhd, off, bytes.as_slice());
    } else {
        // v1: header(8) + ver_flags(4) + creation(8) + modification(8) + timescale(4) + duration(8)
        let off = 8 + 4 + 8 + 8 + 4;
        let mut bytes: Vec<u8> = Vec::new();
        write_u64_be(&mut bytes, duration);
        put_bytes_at(mdhd, off, bytes.as_slice());
    }
}

// ===== edts =====

/// `value` converted from `from_scale` ticks to `to_scale` ticks, rounding
/// down.
pub open spec fn rescale(value: int, to_scale: int, from_scale: int) -> int {
    value * to_scale / from_scale
}

/// One elst entry: segment duration, media time, media rate 1.0.
pub open spec fn elst_entry(use_v1: bool, segment_duration: int, media_time_v0: i32, media_time_v1: i64) -> Seq<u8> {
    (if use_v1 {
        u64_be_bytes(segment_duration) + u64_be_bytes((media_time_v1 as u64) as int)
    } else {
        u32_be_bytes(segment_duration) + u32_be_bytes((media_time_v0 as u32) as int)
    }) + u16_be_bytes(1) + u16_be_bytes(0)
}

/// The edts box for a track whose media starts at `media_start_time` (track
/// timescale): an empty edit for the initial offset, then the whole media.
/// No box when the media starts at time 0.
pub open spec fn spec_edts(
    media_start_time: u64,
    media_duration: u64,
    track_timescale: u32,
    movie_timescale: u32,
) -> Option<Seq<u8>> {
    if media_start_time == 0 {
        None
    } else {
        let empty_duration_movie = rescale(media_start_time as int, movie_timescale as int, track_timescale as int);
        let media_segment_duration_movie = rescale(media_duration as int, movie_timescale as int, track_timescale as int);
        let use_v1 = empty_duration_movie > u32::MAX || media_segment_duration_movie > u32::MAX
            || media_start_time > u32::MAX;
        let elst_data = u32_be_bytes(2) + elst_entry(use_v1, empty_duration_movie, -1i32, -1i64) + elst_entry(
            use_v1,
            media_segment_duration_movie,
            0i32,
            0i64,
        );
        Some(
            spec_make_box(
                fourcc(0x65, 0x64, 0x74, 0x73),
                spec_make_fullbox(fourcc(0x65, 0x6c, 0x73, 0x74), if use_v1 { 1 } else { 0 }, 0, elst_data),
            ),
        )
    }
}

/// The edit list can be computed without overflow or division by zero.
pub open spec fn edts_computable(
    media_start_time: u64,
    media_duration: u64,
    track_timescale: u32,
    movie_timescale: u32,
) -> bool {
    media_start_time > 0 ==> {
        &&& track_timescale > 0
        &&& media_start_time * movie_timescale <= u64::MAX
        &&& media_duration * movie_timescale <= u64::MAX
    }
}

fn write_elst_entry(buf: &mut Vec<u8>, use_v1: bool, segment_duration: u64, media_time_v0: i32, media_time_v1: i64)
    requires
        !use_v1 ==> segment_duration <= u32::MAX,
    ensures
        final(buf)@ == old(buf)@ + elst_entry(use_v1, segment_duration as int, media_time_v0, media_time_v1),
{
    if use_v1 {
        write_u64_be(buf, segment_duration);
        write_i64_be(buf, media_time_v1);
    } else {
        write_u32_be(buf, segment_duration as u32);
        write_i32_be(buf, media_time_v0);
    }
    write_u16_be(buf, 1);  // media_rate_integer
    write_u16_be(buf, 0);  // media_rate_fraction
    assert(buf@ =~= old(buf)@ + elst_entry(use_v1, segment_duration as int, media_time_v0, media_time_v1));
}

/// Generate an edts box with an elst entry for initial media time offset.
///
/// If media_start_time is 0, returns None (no edit list needed).
fn generate_edts(
    media_start_time: u64,
    media_duration: u64,
    track_timescale: u32,
    movie_timescale: u32,
) -> (r: Option<Vec<u8>>)
    requires
        edts_computable(media_start_time, media_duration, track_timescale, movie_timescale),
    ensures
        match r {
            None => spec_edts(media_start_time, media_duration, track_timescale, movie_timescale) is None,
            Some(v) => spec_edts(media_start_time, media_duration, track_timescale, movie_timescale)
                == Some(v@),
        },
{
    if media_start_time == 0 {
        return None;
    }

    // Convert media_start_time from track timescale to movie timescale for the empty edit
    let empty_duration_movie = media_start_time * movie_timescale as u64 / track_timescale as u64;

    // The media edit segment duration (in movie timescale)
    let media_segment_duration_movie = media_duration * movie_timescale as u64 / track_timescale as u64;

    // Use version 1 (64-bit) if any value overflows u32
    let use_v1 = empty_duration_movie > 0xffff_ffffu64 || media_segment_duration_movie > 0xffff_ffffu64
        || media_start_time > 0xffff_ffffu64;

    let mut elst_data: Vec<u8> = Vec::new();
    // Two entries: empty edit + media edit
    write_u32_be(&mut elst_data, 2);
    // Entry 1: empty edit (segment_duration, media_time=-1 means empty)
    write_elst_entry(&mut elst_data, use_v1, empty_duration_movie, -1, -1);
    // Entry 2: media edit (play all media from time 0)
    write_elst_entry(&mut elst_data, use_v1, media_segment_duration_movie, 0, 0);

    let ghost e1 = elst_entry(use_v1, empty_duration_movie as int, -1i32, -1i64);
    let ghost e2 = elst_entry(use_v1, media_segment_duration_movie as int, 0i32, 0i64);
    assert(elst_data@ =~= u32_be_bytes(2) + e1 + e2);
    let elst_ty: [u8; 4] = [0x65, 0x6c, 0x73, 0x74];
    let edts_ty: [u8; 4] = [0x65, 0x64, 0x74, 0x73];
    assert(elst_ty@ =~= fourcc(0x65, 0x6c, 0x73, 0x74));
    assert(edts_ty@ =~= fourcc(0x65, 0x64, 0x74, 0x73));
    let elst = make_fullbox(&elst_ty, if use_v1 { 1 } else { 0 }, 0, elst_data.as_slice());
    Some(make_box(&edts_ty, elst.as_slice()))
}


// ===== trak =====

/// The track's media duration in the movie timescale.
pub open spec fn media_duration_movie(track: TrackInfoView, st: SampleTableView, movie_timescale: u32) -> int {
    if track.timescale == movie_timescale {
        st.total_duration as int
    } else {
        rescale(st.total_duration as int, movie_timescale as int, track.timescale as int)
    }
}

/// The length of the track's initial empty edit in the movie timescale.
pub open spec fn empty_duration_movie(track: TrackInfoView, st: SampleTableView, movie_timescale: u32) -> int {
    if st.media_start_time > 0 {
        rescale(st.media_start_time as int, movie_timescale as int, track.timescale as int)
    } else {
        0
    }
}

/// The track's duration in the movie timescale, initial empty edit included.
pub open spec fn track_duration_movie(track: TrackInfoView, st: SampleTableView, movie_timescale: u32) -> int {
    empty_duration_movie(track, st, movie_timescale) + media_duration_movie(track, st, movie_timescale)
}

/// The trak can be built: the duration arithmetic neither overflows nor
/// divides by zero, the tkhd and mdhd hold their duration fields, and the
/// sample counters fit in 32 bits.
pub open spec fn trak_computable(track: TrackInfoView, st: SampleTableView, movie_timescale: u32) -> bool {
    &&& track.timescale != movie_timescale ==> track.timescale > 0 && st.total_duration
        * movie_timescale <= u64::MAX
    &&& edts_computable(st.media_start_time, st.total_duration, track.timescale, movie_timescale)
    &&& track_duration_movie(track, st, movie_timescale) <= u64::MAX
    &&& duration_patchable(track.tkhd_raw, 28, 36)
    &&& duration_patchable(track.mdhd_raw, 24, 32)
    &&& sample_counts_fit(st)
}

/// The edts box of the track, or nothing.
pub open spec fn edts_or_empty(track: TrackInfoView, st: SampleTableView, movie_timescale: u32) -> Seq<u8> {
    match spec_edts(st.media_start_time, st.total_duration, track.timescale, movie_timescale) {
        Some(e) => e,
        None => Seq::empty(),
    }
}

/// The minf box: original media header and dinf, then the new stbl.
pub open spec fn spec_minf(track: TrackInfoView, st: SampleTableView) -> Seq<u8> {
    spec_make_box(
        fourcc(0x6d, 0x69, 0x6e, 0x66),
        track.media_header_raw + track.dinf_raw + spec_stbl(track.stsd_raw, st),
    )
}

/// The mdia box: mdhd with the total duration, original hdlr, new minf.
pub open spec fn spec_mdia(track: TrackInfoView, st: SampleTableView) -> Seq<u8> {
    spec_make_box(
        fourcc(0x6d, 0x64, 0x69, 0x61),
        spec_patch_duration(track.mdhd_raw, 24, 32, st.total_duration) + track.hdlr_raw + spec_minf(
            track,
            st,
        ),
    )
}

/// The trak box: tkhd with the movie-timescale duration, the edit list if
/// the media starts late, and the mdia.
#[verifier::opaque]
pub open spec fn spec_trak(track: TrackInfoView, st: SampleTableView, movie_timescale: u32) -> Seq<u8> {
    spec_make_box(
        fourcc(0x74, 0x72, 0x61, 0x6b),
        spec_patch_duration(
            track.tkhd_raw,
            28,
            36,
            track_duration_movie(track, st, movie_timescale) as u64,
        ) + edts_or_empty(track, st, movie_timescale) + spec_mdia(track, st),
    )
}

/// Build a complete trak box for Hybrid MP4 output.
#[verifier::rlimit(40)]
pub fn generate_hybrid_trak(track: &TrackInfo, st: &TrackSampleTable, movie_timescale: u32) -> (r: Vec<u8>)
    requires
        trak_computable(track@, st@, movie_timescale),
    ensures
        r@ == spec_trak(track@, st@, movie_timescale),
{
    reveal(spec_trak);
    // Patch tkhd: set duration in movie timescale (includes initial empty edit)
    let mut tkhd = vstd::slice::slice_to_vec(track.tkhd_raw.as_slice());
    let media_duration_movie = if track.timescale == movie_timescale {
        st.total_duration
    } else {
        st.total_duration * movie_timescale as u64 / track.timescale as u64
    };
    let empty_duration_movie = if st.media_start_time > 0 {
        st.media_start_time * movie_timescale as u64 / track.timescale as u64
    } else {
        0
    };
    let tkhd_duration = empty_duration_movie + media_duration_movie;
    patch_tkhd_duration(tkhd.as_mut_slice(), tkhd_duration);

    // Patch mdhd: set duration in track timescale
    let mut mdhd = vstd::slice::slice_to_vec(track.mdhd_raw.as_slice());
    patch_mdhd_duration(mdhd.as_mut_slice(), st.total_duration);

    // Generate edts/elst if there's an initial media offset
    let edts = generate_edts(st.media_start_time, st.total_duration, track.timescale, movie_timescale);

    // Build stbl
    let stbl = generate_stbl(track.stsd_raw.as_slice(), st);

    // minf = media_header + dinf + stbl
    let mut minf_content: Vec<u8> = Vec::new();
    write_bytes(&mut minf_content, track.media_header_raw.as_slice());
    write_bytes(&mut minf_content, track.dinf_raw.as_slice());
    write_bytes(&mut minf_content, stbl.as_slice());
    let minf_ty: [u8; 4] = [0x6d, 0x69, 0x6e, 0x66];
    assert(minf_ty@ =~= fourcc(0x6d, 0x69, 0x6e, 0x66));
    let minf = make_box(&minf_ty, minf_content.as_slice());

    // mdia = mdhd + hdlr + minf
    let mut mdia_content: Vec<u8> = Vec::new();
    write_bytes(&mut mdia_content, mdhd.as_slice());
    write_bytes(&mut mdia_content, track.hdlr_raw.as_slice());
    write_bytes(&mut mdia_content, minf.as_slice());
    let mdia_ty: [u8; 4] = [0x6d, 0x64, 0x69, 0x61];
    assert(mdia_ty@ =~= fourcc(0x6d, 0x64, 0x69, 0x61));
    let mdia = make_box(&mdia_ty, mdia_content.as_slice());

    // trak = tkhd + [edts] + mdia
    let mut trak_content: Vec<u8> = Vec::new();
    write_bytes(&mut trak_content, tkhd.as_slice());
    match edts {
        Some(edts_box) => {
            write_bytes(&mut trak_content, edts_box.as_slice());
        },
        None => {},
    }
    write_bytes(&mut trak_content, mdia.as_slice());
    assert(trak_content@ =~= spec_patch_duration(
        track.tkhd_raw@,
        28,
        36,
        track_duration_movie(track@, st@, movie_timescale) as u64,
    ) + edts_or_empty(track@, st@, movie_timescale) + spec_mdia(track@, st@));
    let trak_ty: [u8; 4] = [0x74, 0x72, 0x61, 0x6b];
    assert(trak_ty@ =~= fourcc(0x74, 0x72, 0x61, 0x6b));
    make_box(&trak_ty, trak_content.as_slice())
}


// ===== Generate Hybrid moov =====

/// The views of a sequence of tracks.
pub open spec fn track_views(tracks: Seq<TrackInfo>) -> Seq<TrackInfoView> {
    tracks.map_values(|t: TrackInfo| t@)
}

/// The views of a sequence of sample tables.
pub open spec fn table_views(tables: Seq<TrackSampleTable>) -> Seq<SampleTableView> {
    tables.map_values(|t: TrackSampleTable| t@)
}

/// The largest new track id, 0 for no tracks.
pub open spec fn spec_max_track_id(tracks: Seq<TrackInfoView>) -> u32
    decreases tracks.len(),
{
    if tracks.len() == 0 {
        0
    } else {
        let m = spec_max_track_id(tracks.drop_last());
        if tracks.last().new_track_id > m {
            tracks.last().new_track_id
        } else {
            m
        }
    }
}

/// The longest of the first `n` tracks' durations in the movie timescale, 0
/// for none.
pub open spec fn spec_movie_duration(
    tracks: Seq<TrackInfoView>,
    tables: Seq<SampleTableView>,
    movie_timescale: u32,
    n: int,
) -> int
    decreases n,
{
    if n <= 0 {
        0
    } else {
        let m = spec_movie_duration(tracks, tables, movie_timescale, n - 1);
        let d = track_duration_movie(tracks[n - 1], tables[n - 1], movie_timescale);
        if d > m {
            d
        } else {
            m
        }
    }
}

/// The trak boxes of the first `n` tracks, in order.
pub open spec fn spec_traks(
    tracks: Seq<TrackInfoView>,
    tables: Seq<SampleTableView>,
    movie_timescale: u32,
    n: int,
) -> Seq<u8>
    decreases n,
{
    if n <= 0 {
        Seq::empty()
    } else {
        spec_traks(tracks, tables, movie_timescale, n - 1) + spec_trak(
            tracks[n - 1],
            tables[n - 1],
            movie_timescale,
        )
    }
}

/// Number of tracks that have a sample table.
pub open spec fn paired_count(tracks: Seq<TrackInfoView>, tables: Seq<SampleTableView>) -> int {
    if tracks.len() < tables.len() {
        tracks.len() as int
    } else {
        tables.len() as int
    }
}

/// The moov box: an mvhd in the first track's timescale with the longest
/// track duration and the next free track id, then one trak per track that
/// has a sample table.
pub open spec fn spec_moov(tracks: Seq<TrackInfoView>, tables: Seq<SampleTableView>) -> Seq<u8> {
    let mts = tracks[0].timescale;
    let n = paired_count(tracks, tables);
    spec_make_box(
        fourcc(0x6d, 0x6f, 0x6f, 0x76),
        spec_mvhd(
            mts,
            spec_movie_duration(tracks, tables, mts, n) as u64,
            (spec_max_track_id(tracks) + 1) as u32,
        ) + spec_traks(tracks, tables, mts, n),
    )
}

/// The moov can be built: there is a first track, the next track id fits,
/// every paired trak can be built, and the result fits in memory.
pub open spec fn moov_computable(tracks: Seq<TrackInfoView>, tables: Seq<SampleTableView>) -> bool {
    &&& tracks.len() >= 1
    &&& spec_max_track_id(tracks) < u32::MAX
    &&& forall|i: int|
        0 <= i < paired_count(tracks, tables) ==> trak_computable(
            #[trigger] tracks[i],
            tables[i],
            tracks[0].timescale,
        )
}

proof fn lemma_traks_grow(
    tracks: Seq<TrackInfoView>,
    tables: Seq<SampleTableView>,
    mts: u32,
    i: int,
    n: int,
)
    requires
        0 <= i < n,
    ensures
        spec_traks(tracks, tables, mts, i + 1).len() <= spec_traks(tracks, tables, mts, n).len(),
    decreases n - i,
{
    if i + 1 < n {
        lemma_traks_grow(tracks, tables, mts, i, n - 1);
    }
}

fn track_duration(track: &TrackInfo, st: &TrackSampleTable, movie_timescale: u32) -> (r: u64)
    requires
        trak_computable(track@, st@, movie_timescale),
    ensures
        r == track_duration_movie(track@, st@, movie_timescale),
{
    let media_dur = if track.timescale == movie_timescale {
        st.total_duration
    } else {
        st.total_duration * movie_timescale as u64 / track.timescale as u64
    };
    let empty_dur = if st.media_start_time > 0 {
        st.media_start_time * movie_timescale as u64 / track.timescale as u64
    } else {
        0
    };
    empty_dur + media_dur
}

/// Generate a complete moov box for Hybrid MP4.
pub fn generate_hybrid_moov(tracks: &[TrackInfo], sample_tables: &[TrackSampleTable]) -> (r: Vec<u8>)
    requires
        moov_computable(track_views(tracks@), table_views(sample_tables@)),
    ensures
        r@ == spec_moov(track_views(tracks@), table_views(sample_tables@)),
{
    let ghost tv = track_views(tracks@);
    let ghost sv = table_views(sample_tables@);
    let movie_timescale = tracks[0].timescale;
    assert(movie_timescale == tv[0].timescale);

    let mut max_track_id: u32 = 0;
    let mut i: usize = 0;
    assert(tv.take(0) =~= Seq::<TrackInfoView>::empty());
    while i < tracks.len()
        invariant
            i <= tracks@.len(),
            tv == track_views(tracks@),
            max_track_id == spec_max_track_id(tv.take(i as int)),
        decreases tracks@.len() - i,
    {
        assert(tv.take(i + 1).drop_last() =~= tv.take(i as int));
        if tracks[i].new_track_id > max_track_id {
            max_track_id = tracks[i].new_track_id;
        }
        i = i + 1;
    }
    assert(tv.take(i as int) =~= tv);

    let n = if tracks.len() < sample_tables.len() {
        tracks.len()
    } else {
        sample_tables.len()
    };
    assert(n == paired_count(tv, sv));

    // Movie duration = max across tracks (converted to movie timescale, including initial offset)
    let mut movie_duration: u64 = 0;
    let mut j: usize = 0;
    while j < n
        invariant
            j <= n,
            n == paired_count(tv, sv),
            n <= tracks@.len(),
            n <= sample_tables@.len(),
            tv == track_views(tracks@),
            sv == table_views(sample_tables@),
            movie_timescale == tv[0].timescale,
            moov_computable(tv, sv),
            movie_duration == spec_movie_duration(tv, sv, movie_timescale, j as int),
        decreases n - j,
    {
        assert(trak_computable(tv[j as int], sv[j as int], movie_timescale));
        let d = track_duration(&tracks[j], &sample_tables[j], movie_timescale);
        if d > movie_duration {
            movie_duration = d;
        }
        j = j + 1;
    }

    let mvhd = generate_mvhd(movie_timescale, movie_duration, max_track_id + 1);

    let mut moov_content = mvhd;
    let mut k: usize = 0;
    while k < n
        invariant
            k <= n,
            n == paired_count(tv, sv),
            n <= tracks@.len(),
            n <= sample_tables@.len(),
            tv == track_views(tracks@),
            sv == table_views(sample_tables@),
            movie_timescale == tv[0].timescale,
            moov_computable(tv, sv),
            moov_content@ == spec_mvhd(
                movie_timescale,
                movie_duration,
                (max_track_id + 1) as u32,
            ) + spec_traks(tv, sv, movie_timescale, k as int),
            movie_duration == spec_movie_duration(tv, sv, movie_timescale, n as int),
            max_track_id == spec_max_track_id(tv),
        decreases n - k,
    {
        assert(trak_computable(tv[k as int], sv[k as int], movie_timescale));
        proof {
            lemma_traks_grow(tv, sv, movie_timescale, k as int, n as int);
        }
        let trak = generate_hybrid_trak(&tracks[k], &sample_tables[k], movie_timescale);
        write_bytes(&mut moov_content, trak.as_slice());
        k = k + 1;
    }

    let moov_ty: [u8; 4] = [0x6d, 0x6f, 0x6f, 0x76];
    assert(moov_ty@ =~= fourcc(0x6d, 0x6f, 0x6f, 0x76));
    make_box(&moov_ty, moov_content.as_slice())
}


// ===== Checking that a moov can be built =====

fn is_patchable(b: &[u8], offset: usize, offset_v1: usize) -> (r: bool)
    requires
        offset <= 64,
        offset_v1 <= 64,
    ensures
        r == duration_patchable(b@, offset as int, offset_v1 as int),
{
    if b.len() <= 8 {
        return false;
    }
    if b[8] == 0 {
        offset + 4 <= b.len()
    } else {
        offset_v1 + 8 <= b.len()
    }
}

fn trak_is_computable(track: &TrackInfo, st: &TrackSampleTable, movie_timescale: u32) -> (r: bool)
    ensures
        r == trak_computable(track@, st@, movie_timescale),
{
    let max = u64::MAX as u128;
    let ts = track.timescale;
    assert(st.total_duration * movie_timescale <= u64::MAX * u32::MAX) by (nonlinear_arith);
    assert(st.media_start_time * movie_timescale <= u64::MAX * u32::MAX) by (nonlinear_arith);
    let total = st.total_duration as u128 * movie_timescale as u128;
    let start = st.media_start_time as u128 * movie_timescale as u128;
    if ts != movie_timescale && (ts == 0 || total > max) {
        return false;
    }
    if st.media_start_time > 0 && (ts == 0 || start > max || total > max) {
        return false;
    }
    let media = if ts == movie_timescale {
        st.total_duration as u128
    } else {
        total / ts as u128
    };
    let empty = if st.media_start_time > 0 {
        start / ts as u128
    } else {
        0
    };
    if empty + media > max {
        return false;
    }
    if !is_patchable(track.tkhd_raw.as_slice(), 28, 36) || !is_patchable(
        track.mdhd_raw.as_slice(),
        24,
        32,
    ) {
        return false;
    }
    st.sample_durations.len() as u64 <= u32::MAX as u64 && (!st.has_cts
        || st.cts_offsets.len() as u64 <= u32::MAX as u64)
}

/// Whether a moov can be built from these tracks and sample tables.
pub fn moov_is_computable(tracks: &[TrackInfo], sample_tables: &[TrackSampleTable]) -> (r: bool)
    ensures
        r == moov_computable(track_views(tracks@), table_views(sample_tables@)),
{
    let ghost tv = track_views(tracks@);
    let ghost sv = table_views(sample_tables@);
    if tracks.len() == 0 {
        return false;
    }
    let mut max_track_id: u32 = 0;
    let mut i: usize = 0;
    assert(tv.take(0) =~= Seq::<TrackInfoView>::empty());
    while i < tracks.len()
        invariant
            i <= tracks@.len(),
            tv == track_views(tracks@),
            max_track_id == spec_max_track_id(tv.take(i as int)),
        decreases tracks@.len() - i,
    {
        assert(tv.take(i + 1).drop_last() =~= tv.take(i as int));
        if tracks[i].new_track_id > max_track_id {
            max_track_id = tracks[i].new_track_id;
        }
        i = i + 1;
    }
    assert(tv.take(i as int) =~= tv);
    if max_track_id == u32::MAX {
        return false;
    }
    let movie_timescale = tracks[0].timescale;
    let n = if tracks.len() < sample_tables.len() {
        tracks.len()
    } else {
        sample_tables.len()
    };
    let mut j: usize = 0;
    while j < n
        invariant
            j <= n,
            n == paired_count(tv, sv),
            n <= tracks@.len(),
            n <= sample_tables@.len(),
            tv == track_views(tracks@),
            sv == table_views(sample_tables@),
            movie_timescale == tv[0].timescale,
            forall|k: int| 0 <= k < j ==> trak_computable(#[trigger] tv[k], sv[k], movie_timescale),
        decreases n - j,
    {
        if !trak_is_computable(&tracks[j], &sample_tables[j], movie_timescale) {
            assert(!trak_computable(tv[j as int], sv[j as int], movie_timescale));
            return false;
        }
        j = j + 1;
    }
    true
}

/// Builds the moov where it can be built (`None` otherwise).
pub fn try_generate_hybrid_moov(tracks: &[TrackInfo], sample_tables: &[TrackSampleTable]) -> (r:
    Option<Vec<u8>>)
    ensures
        match r {
            Some(m) => moov_computable(track_views(tracks@), table_views(sample_tables@)) && m@
                == spec_moov(track_views(tracks@), table_views(sample_tables@)),
            None => !moov_computable(track_views(tracks@), table_views(sample_tables@)),
        },
{
    if moov_is_computable(tracks, sample_tables) {
        Some(generate_hybrid_moov(tracks, sample_tables))
    } else {
        None
    }
}

// ===== Generate ftyp =====

/// The ftyp box: major brand isom, minor version 0x200, compatible brands
/// isom, iso6, mp41.
pub open spec fn spec_ftyp() -> Seq<u8> {
    spec_make_box(
        fourcc(0x66, 0x74, 0x79, 0x70),
        fourcc(0x69, 0x73, 0x6f, 0x6d) + u32_be_bytes(0x200) + fourcc(0x69, 0x73, 0x6f, 0x6d) + fourcc(
            0x69,
            0x73,
            0x6f,
            0x36,
        ) + fourcc(0x6d, 0x70, 0x34, 0x31),
    )
}

/// The ftyp box of the output.
pub fn generate_ftyp() -> (r: Vec<u8>)
    ensures
        r@ == spec_ftyp(),
        r@.len() == 28,
{
    let mut content: Vec<u8> = Vec::new();
    let isom: [u8; 4] = [0x69, 0x73, 0x6f, 0x6d];
    let iso6: [u8; 4] = [0x69, 0x73, 0x6f, 0x36];
    let mp41: [u8; 4] = [0x6d, 0x70, 0x34, 0x31];
    write_bytes(&mut content, &isom);  // major_brand
    write_u32_be(&mut content, 0x200);  // minor_version
    write_bytes(&mut content, &isom);
    write_bytes(&mut content, &iso6);
    write_bytes(&mut content, &mp41);
    let ty: [u8; 4] = [0x66, 0x74, 0x79, 0x70];
    assert(ty@ =~= fourcc(0x66, 0x74, 0x79, 0x70));
    assert(isom@ =~= fourcc(0x69, 0x73, 0x6f, 0x6d));
    assert(iso6@ =~= fourcc(0x69, 0x73, 0x6f, 0x36));
    assert(mp41@ =~= fourcc(0x6d, 0x70, 0x34, 0x31));
    make_box(&ty, content.as_slice())
}


// ===== Laws =====

/// Two sample tables agree on everything but the values of their chunk
/// offsets (they have as many chunk offsets).
pub open spec fn same_but_chunk_offsets(a: SampleTableView, b: SampleTableView) -> bool {
    &&& a.media_start_time == b.media_start_time
    &&& a.total_duration == b.total_duration
    &&& a.sample_sizes == b.sample_sizes
    &&& a.sample_durations == b.sample_durations
    &&& a.has_cts == b.has_cts
    &&& a.cts_version == b.cts_version
    &&& a.cts_offsets == b.cts_offsets
    &&& a.sync_samples == b.sync_samples
    &&& a.samples_per_chunk == b.samples_per_chunk
    &&& a.chunk_offsets.len() == b.chunk_offsets.len()
}

proof fn lemma_trak_len_ignores_chunk_offsets(
    track: TrackInfoView,
    a: SampleTableView,
    b: SampleTableView,
    mts: u32,
)
    requires
        same_but_chunk_offsets(a, b),
    ensures
        spec_trak(track, a, mts).len() == spec_trak(track, b, mts).len(),
{
    reveal(spec_trak);
    reveal(spec_co64);
    lemma_u64s_be_len(a.chunk_offsets);
    lemma_u64s_be_len(b.chunk_offsets);
    assert(spec_co64(a.chunk_offsets).len() == spec_co64(b.chunk_offsets).len());
    assert(spec_stbl(track.stsd_raw, a).len() == spec_stbl(track.stsd_raw, b).len());
    assert(spec_minf(track, a).len() == spec_minf(track, b).len());
    assert(spec_mdia(track, a).len() == spec_mdia(track, b).len());
    assert(track_duration_movie(track, a, mts) == track_duration_movie(track, b, mts));
    assert(edts_or_empty(track, a, mts) == edts_or_empty(track, b, mts));
}

proof fn lemma_traks_len_ignores_chunk_offsets(
    tracks: Seq<TrackInfoView>,
    t1: Seq<SampleTableView>,
    t2: Seq<SampleTableView>,
    mts: u32,
    n: int,
)
    requires
        n <= t1.len(),
        t1.len() == t2.len(),
        forall|i: int| 0 <= i < t1.len() ==> same_but_chunk_offsets(#[trigger] t1[i], t2[i]),
    ensures
        spec_traks(tracks, t1, mts, n).len() == spec_traks(tracks, t2, mts, n).len(),
        spec_movie_duration(tracks, t1, mts, n) == spec_movie_duration(tracks, t2, mts, n),
    decreases n,
{
    if n > 0 {
        lemma_traks_len_ignores_chunk_offsets(tracks, t1, t2, mts, n - 1);
        assert(same_but_chunk_offsets(t1[n - 1], t2[n - 1]));
        lemma_trak_len_ignores_chunk_offsets(tracks[n - 1], t1[n - 1], t2[n - 1], mts);
        assert(track_duration_movie(tracks[n - 1], t1[n - 1], mts) == track_duration_movie(
            tracks[n - 1],
            t2[n - 1],
            mts,
        ));
    }
}

/// The size of the generated moov does not depend on the values of the chunk
/// offsets: a moov built with placeholder offsets has the size of the moov
/// built with the real ones, so the mdat position computed from it is right.
pub proof fn lemma_moov_len_ignores_chunk_offsets(
    tracks: Seq<TrackInfoView>,
    t1: Seq<SampleTableView>,
    t2: Seq<SampleTableView>,
)
    requires
        tracks.len() >= 1,
        t1.len() == t2.len(),
        forall|i: int| 0 <= i < t1.len() ==> same_but_chunk_offsets(#[trigger] t1[i], t2[i]),
    ensures
        spec_moov(tracks, t1).len() == spec_moov(tracks, t2).len(),
{
    let mts = tracks[0].timescale;
    let n = paired_count(tracks, t1);
    assert(n == paired_count(tracks, t2));
    lemma_traks_len_ignores_chunk_offsets(tracks, t1, t2, mts, n);
}

proof fn lemma_track_duration_nonneg(track: TrackInfoView, st: SampleTableView, movie_timescale: u32)
    requires
        track.timescale > 0,
    ensures
        track_duration_movie(track, st, movie_timescale) >= 0,
{
    let a = st.media_start_time as int;
    let b = st.total_duration as int;
    let m = movie_timescale as int;
    let t = track.timescale as int;
    assert(a * m / t >= 0) by (nonlinear_arith)
        requires
            a >= 0,
            m >= 0,
            t > 0,
    ;
    assert(b * m / t >= 0) by (nonlinear_arith)
        requires
            b >= 0,
            m >= 0,
            t > 0,
    ;
}

/// Law: the movie duration in the mvhd is the longest of the tracks'
/// durations in the movie timescale: no track is longer, and one track is
/// exactly that long (0 when there is no track).
pub proof fn lemma_movie_duration_is_longest(
    tracks: Seq<TrackInfoView>,
    tables: Seq<SampleTableView>,
    movie_timescale: u32,
    n: int,
)
    requires
        0 <= n <= tracks.len(),
        forall|i: int| 0 <= i < n ==> (#[trigger] tracks[i]).timescale > 0,
    ensures
        forall|i: int|
            0 <= i < n ==> #[trigger] track_duration_movie(tracks[i], tables[i], movie_timescale)
                <= spec_movie_duration(tracks, tables, movie_timescale, n),
        n == 0 ==> spec_movie_duration(tracks, tables, movie_timescale, n) == 0,
        n > 0 ==> exists|i: int|
            0 <= i < n && #[trigger] track_duration_movie(tracks[i], tables[i], movie_timescale)
                == spec_movie_duration(tracks, tables, movie_timescale, n),
    decreases n,
{
    if n > 0 {
        lemma_movie_duration_is_longest(tracks, tables, movie_timescale, n - 1);
        lemma_track_duration_nonneg(tracks[n - 1], tables[n - 1], movie_timescale);
        let d = track_duration_movie(tracks[n - 1], tables[n - 1], movie_timescale);
        let m = spec_movie_duration(tracks, tables, movie_timescale, n - 1);
        if d <= m && n > 1 {
            let w = choose|i: int|
                0 <= i < n - 1 && #[trigger] track_duration_movie(tracks[i], tables[i], movie_timescale) == m;
            assert(0 <= w < n && track_duration_movie(tracks[w], tables[w], movie_timescale) == spec_movie_duration(
                tracks,
                tables,
                movie_timescale,
                n,
            ));
        } else {
            assert(track_duration_movie(tracks[n - 1], tables[n - 1], movie_timescale) == spec_movie_duration(
                tracks,
                tables,
                movie_timescale,
                n,
            ));
        }
    }
}

/// The stts box holds the sample durations exactly: its entries expand back to
/// the durations.
pub proof fn lemma_stts_entries_expand(durations: Seq<u32>)
    requires
        durations.len() <= u32::MAX,
    ensures
        spec_expand_runs(spec_run_lengths(durations)) == durations,
        spec_stts(durations) == spec_make_fullbox(
            fourcc(0x73, 0x74, 0x74, 0x73),
            0,
            0,
            u32_be_bytes(spec_run_lengths(durations).len() as int) + pairs_be(
                spec_run_lengths(durations),
            ),
        ),
{
    reveal(spec_stts);
    lemma_run_lengths(durations);
}

/// The ctts box holds the composition offsets exactly: its entries expand back
/// to the offsets.
pub proof fn lemma_ctts_entries_expand(offsets: Seq<i32>, version: u8)
    requires
        offsets.len() <= u32::MAX,
    ensures
        spec_expand_runs(spec_run_lengths(offsets)) == offsets,
        spec_ctts(offsets, version) == spec_make_fullbox(
            fourcc(0x63, 0x74, 0x74, 0x73),
            version,
            0,
            u32_be_bytes(spec_run_lengths(offsets).len() as int) + signed_pairs_be(
                spec_run_lengths(offsets),
            ),
        ),
{
    reveal(spec_ctts);
    lemma_run_lengths(offsets);
}

/// The stsc box holds the samples-per-chunk list exactly: its entries expand
/// back to the list over all chunks.
pub proof fn lemma_stsc_entries_expand(samples_per_chunk: Seq<u32>)
    requires
        samples_per_chunk.len() <= u32::MAX,
    ensures
        spec_expand_chunk_runs(spec_chunk_runs(samples_per_chunk), samples_per_chunk.len() as int)
            == samples_per_chunk,
        spec_stsc(samples_per_chunk) == spec_make_fullbox(
            fourcc(0x73, 0x74, 0x73, 0x63),
            0,
            0,
            u32_be_bytes(spec_chunk_runs(samples_per_chunk).len() as int) + stsc_entries_be(
                spec_chunk_runs(samples_per_chunk),
            ),
        ),
{
    reveal(spec_stsc);
    lemma_chunk_runs(samples_per_chunk);
}


/// Law: the moov box opens with its mvhd, whose duration field (32 bits in a
/// version 0 mvhd, 64 bits in a version 1 one) holds the longest of the
/// tracks' durations in the movie timescale, the first track's: no track is
/// longer, and one track is exactly that long (0 when no track has a sample
/// table). The version is 0 exactly when that duration fits in 32 bits, and
/// the timescale field holds the movie timescale.
#[verifier::rlimit(60)]
pub proof fn lemma_moov_mvhd_holds_longest_duration(tracks: Seq<TrackInfoView>, tables: Seq<SampleTableView>)
    requires
        moov_computable(tracks, tables),
        forall|i: int| 0 <= i < paired_count(tracks, tables) ==> (#[trigger] tracks[i]).timescale > 0,
    ensures
        ({
            let m = spec_moov(tracks, tables);
            let n = paired_count(tracks, tables);
            let mts = tracks[0].timescale;
            &&& m.len() >= 48
            &&& m[16] == 0 || m[16] == 1
            &&& (if m[16] == 0 { be32(m, 28) } else { be32(m, 36) }) == mts
            &&& forall|i: int|
                0 <= i < n ==> #[trigger] track_duration_movie(tracks[i], tables[i], mts) <= (if m[16] == 0 {
                    be32(m, 32)
                } else {
                    be64(m, 40)
                })
            &&& n == 0 ==> (if m[16] == 0 { be32(m, 32) } else { be64(m, 40) }) == 0
            &&& n > 0 ==> exists|i: int|
                0 <= i < n && #[trigger] track_duration_movie(tracks[i], tables[i], mts) == (if m[16] == 0 {
                    be32(m, 32)
                } else {
                    be64(m, 40)
                })
            &&& (m[16] == 0) == ((if m[16] == 0 { be32(m, 32) } else { be64(m, 40) }) <= u32::MAX)
        }),
{
    let n = paired_count(tracks, tables);
    let mts = tracks[0].timescale;
    lemma_movie_duration_is_longest(tracks, tables, mts, n);
    let dd = spec_movie_duration(tracks, tables, mts, n);
    assert(0 <= dd <= u64::MAX) by {
        if n > 0 {
            let w = choose|i: int|
                0 <= i < n && #[trigger] track_duration_movie(tracks[i], tables[i], mts) == dd;
            assert(trak_computable(tracks[w], tables[w], mts));
        }
    }
    let d = dd as u64;
    let nid = (spec_max_track_id(tracks) + 1) as u32;
    reveal(spec_mvhd);
    let mv = spec_mvhd(mts, d, nid);
    let m = spec_moov(tracks, tables);
    let rest = spec_traks(tracks, tables, mts, n);
    assert(m == u32_be_bytes((8 + (mv + rest).len()) as int % 0x1_0000_0000) + fourcc(0x6d, 0x6f, 0x6f, 0x76) + (mv + rest));
    let tail = u32_be_bytes(0x00010000) + seq![0x01u8, 0x00u8] + Seq::new(10, |_i: int| 0u8)
        + u32_be_bytes(0x00010000) + u32_be_bytes(0) + u32_be_bytes(0) + u32_be_bytes(0)
        + u32_be_bytes(0x00010000) + u32_be_bytes(0) + u32_be_bytes(0) + u32_be_bytes(0)
        + u32_be_bytes(0x40000000) + Seq::new(24, |_i: int| 0u8) + u32_be_bytes(nid as int);
    if d > u32::MAX {
        let times = u64_be_bytes(0) + u64_be_bytes(0) + u32_be_bytes(mts as int) + u64_be_bytes(d as int);
        assert(mv == spec_make_fullbox(fourcc(0x6d, 0x76, 0x68, 0x64), 1, 0, times + tail));
        assert(m[16] == 1);
        assert(m.subrange(36, 40) =~= u32_be_bytes(mts as int));
        assert(m.subrange(40, 48) =~= u64_be_bytes(d as int));
        lemma_be32_of(m, 36, mts as int);
        lemma_be64_of(m, 40, d as int);
    } else {
        let times = u32_be_bytes(0) + u32_be_bytes(0) + u32_be_bytes(mts as int) + u32_be_bytes(d as int);
        assert(mv == spec_make_fullbox(fourcc(0x6d, 0x76, 0x68, 0x64), 0, 0, times + tail));
        assert(m[16] == 0);
        assert(m.subrange(28, 32) =~= u32_be_bytes(mts as int));
        assert(m.subrange(32, 36) =~= u32_be_bytes(d as int));
        lemma_be32_of(m, 28, mts as int);
        lemma_be32_of(m, 32, d as int);
    }
}

} // verus!
