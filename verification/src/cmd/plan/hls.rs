// HLS master playlist generation (RFC 8216).
use vstd::prelude::*;

use crate::ascii::{ascii_bytes, decimal, push_ascii, push_decimal};
use crate::binary::write_bytes;
use vstd::utf8::encode_utf8;

verus! {

/// Per-stream info needed for master playlist generation.
pub struct StreamInfo<'a> {
    pub codecs: &'a [String],
    pub bandwidth: u64,
    pub is_video: bool,
    pub is_audio: bool,
}

/// A stream's playlist facts as a mathematical value: its codecs as UTF-8 bytes.
pub ghost struct StreamInfoView {
    pub codecs: Seq<Seq<u8>>,
    pub bandwidth: u64,
    pub is_video: bool,
    pub is_audio: bool,
}

impl<'a> View for StreamInfo<'a> {
    type V = StreamInfoView;

    open spec fn view(&self) -> StreamInfoView {
        StreamInfoView {
            codecs: self.codecs@.map_values(|c: String| encode_utf8(c@)),
            bandwidth: self.bandwidth,
            is_video: self.is_video,
            is_audio: self.is_audio,
        }
    }
}

/// Views of a slice of stream infos.
pub open spec fn stream_views(streams: Seq<StreamInfo>) -> Seq<StreamInfoView> {
    streams.map_values(|s: StreamInfo| s@)
}

/// Index of the first stream that is audio.
pub open spec fn first_audio(streams: Seq<StreamInfoView>) -> Option<int>
    decreases streams.len(),
{
    if streams.len() == 0 {
        None
    } else {
        match first_audio(streams.drop_last()) {
            Some(i) => Some(i),
            None => if streams.last().is_audio {
                Some(streams.len() - 1)
            } else {
                None
            },
        }
    }
}

/// Some stream is video.
pub open spec fn has_video(streams: Seq<StreamInfoView>) -> bool {
    exists|i: int| 0 <= i < streams.len() && (#[trigger] streams[i]).is_video
}

/// The audio stream that video streams are paired with: the first audio
/// stream, where there is also a video stream.
pub open spec fn audio_only_index(streams: Seq<StreamInfoView>) -> Option<int> {
    if has_video(streams) {
        first_audio(streams)
    } else {
        None
    }
}

/// `parts` separated by commas.
pub open spec fn comma_join(parts: Seq<Seq<u8>>) -> Seq<u8>
    decreases parts.len(),
{
    if parts.len() == 0 {
        Seq::empty()
    } else if parts.len() == 1 {
        parts[0]
    } else {
        comma_join(parts.drop_last()) + ascii_bytes(","@) + parts.last()
    }
}

/// The playlist's opening lines.
pub open spec fn playlist_head() -> Seq<u8> {
    ascii_bytes("#EXTM3U\n"@) + ascii_bytes("#EXT-X-VERSION:6\n"@) + ascii_bytes(
        "#EXT-X-INDEPENDENT-SEGMENTS\n"@,
    )
}

/// `streams.{idx}`
pub open spec fn group_name(idx: int) -> Seq<u8> {
    ascii_bytes("streams."@) + decimal(idx as nat)
}

/// The `#EXT-X-MEDIA` line that declares the audio stream `a` as a group.
pub open spec fn media_line(a: int) -> Seq<u8> {
    ascii_bytes("#EXT-X-MEDIA:TYPE=AUDIO,GROUP-ID=\""@) + group_name(a) + ascii_bytes(
        "\",NAME=\""@,
    ) + group_name(a) + ascii_bytes("\",DEFAULT=YES,AUTOSELECT=YES,URI=\""@) + group_name(a)
        + ascii_bytes("/generated.m3u8\"\n"@)
}

/// The `#EXT-X-STREAM-INF` line and URI line of stream `i`. A video stream
/// paired with an audio group adds that stream's bandwidth and codecs and
/// names the group.
pub open spec fn stream_entry(streams: Seq<StreamInfoView>, i: int) -> Seq<u8> {
    let s = streams[i];
    let audio = audio_only_index(streams);
    let inf = match audio {
        Some(a) if s.is_video => ascii_bytes("#EXT-X-STREAM-INF:BANDWIDTH="@) + decimal(
            (s.bandwidth + streams[a].bandwidth) as nat,
        ) + ascii_bytes(",CODECS=\""@) + comma_join(s.codecs + streams[a].codecs) + ascii_bytes(
            "\",AUDIO=\""@,
        ) + group_name(a) + ascii_bytes("\"\n"@),
        _ => ascii_bytes("#EXT-X-STREAM-INF:BANDWIDTH="@) + decimal(s.bandwidth as nat)
            + ascii_bytes(",CODECS=\""@) + comma_join(s.codecs) + ascii_bytes("\"\n"@),
    };
    inf + group_name(i) + ascii_bytes("/generated.m3u8\n"@)
}

/// The entries of streams `0..k`, the audio-only stream left out.
pub open spec fn stream_entries(streams: Seq<StreamInfoView>, k: int) -> Seq<u8>
    decreases k,
{
    if k <= 0 {
        Seq::empty()
    } else if audio_only_index(streams) == Some(k - 1) {
        stream_entries(streams, k - 1)
    } else {
        stream_entries(streams, k - 1) + stream_entry(streams, k - 1)
    }
}

/// The master playlist: the opening lines, the audio group where a video
/// stream and an audio stream are both present, then one entry per stream
/// other than that audio stream.
pub open spec fn spec_master_playlist(streams: Seq<StreamInfoView>) -> Seq<u8> {
    playlist_head() + match audio_only_index(streams) {
        Some(a) => media_line(a),
        None => Seq::empty(),
    } + stream_entries(streams, streams.len() as int)
}

/// Each video stream's bandwidth, with the audio stream's added, fits in 64 bits.
pub open spec fn bandwidths_fit(streams: Seq<StreamInfoView>) -> bool {
    audio_only_index(streams) matches Some(a) ==> forall|i: int|
        0 <= i < streams.len() && (#[trigger] streams[i]).is_video ==> streams[i].bandwidth
            + streams[a].bandwidth <= u64::MAX
}

/// Appends the UTF-8 bytes of a string.
fn push_string(buf: &mut Vec<u8>, s: &String)
    ensures
        final(buf)@ == old(buf)@ + encode_utf8(s@),
{
    write_bytes(buf, s.as_str().as_bytes());
}

/// Appends `streams.{idx}`.
fn push_group_name(buf: &mut Vec<u8>, idx: usize)
    ensures
        final(buf)@ == old(buf)@ + group_name(idx as int),
{
    proof {
        reveal_strlit("streams.");
    }
    push_ascii(buf, "streams.");
    push_decimal(buf, idx as u64);
    assert(final(buf)@ =~= old(buf)@ + group_name(idx as int));
}

/// Appends the codecs of a stream, comma-separated, after the codecs
/// `before` already written (`any_before` tells whether there are any).
fn push_codecs(buf: &mut Vec<u8>, codecs: &[String], any_before: bool, before: Ghost<Seq<Seq<u8>>>)
    requires
        any_before == (before@.len() > 0),
        old(buf)@.len() >= comma_join(before@).len(),
        old(buf)@.subrange(old(buf)@.len() - comma_join(before@).len(), old(buf)@.len() as int)
            == comma_join(before@),
    ensures
        final(buf)@ == old(buf)@.subrange(
            0,
            old(buf)@.len() - comma_join(before@).len(),
        ) + comma_join(before@ + codecs@.map_values(|c: String| encode_utf8(c@))),
{
    let ghost base = old(buf)@.subrange(0, old(buf)@.len() - comma_join(before@).len());
    let ghost parts = codecs@.map_values(|c: String| encode_utf8(c@));
    proof {
        assert(old(buf)@ =~= base + comma_join(before@));
        assert(before@ + parts.take(0) =~= before@);
    }
    let mut i: usize = 0;
    while i < codecs.len()
        invariant
            any_before == (before@.len() > 0),
            i <= codecs@.len(),
            parts == codecs@.map_values(|c: String| encode_utf8(c@)),
            buf@ == base + comma_join(before@ + parts.take(i as int)),
        decreases codecs@.len() - i,
    {
        let ghost joined = before@ + parts.take(i as int);
        proof {
            assert((before@ + parts.take(i + 1)).drop_last() =~= joined);
            assert((before@ + parts.take(i + 1)).last() == parts[i as int]);
        }
        let ghost b0 = buf@;
        if any_before || i > 0 {
            proof {
                reveal_strlit(",");
            }
            push_ascii(buf, ",");
        }
        let ghost b1 = buf@;
        push_string(buf, &codecs[i]);
        assert(parts[i as int] == encode_utf8(codecs@[i as int]@));
        assert(buf@ == b1 + parts[i as int]);
        proof {
            let x = before@ + parts.take(i + 1);
            assert(x.len() == joined.len() + 1);
            assert(joined.len() == before@.len() + i);
            if joined.len() == 0 {
                assert(x[0] == parts[i as int]);
                assert(comma_join(x) == parts[i as int]);
                assert(b1 == b0);
                assert(b0 =~= base);
            } else {
                assert(comma_join(x) == comma_join(joined) + ascii_bytes(","@) + parts[i as int]);
                assert(b1 == b0 + ascii_bytes(","@));
            }
            assert(buf@ =~= base + comma_join(x));
        }
        i = i + 1;
    }
    assert(parts.take(i as int) =~= parts);
}

/// Index of the audio stream that video streams are paired with.
pub(crate) fn find_audio_only(streams: &[StreamInfo]) -> (r: Option<usize>)
    ensures
        match r {
            Some(a) => audio_only_index(stream_views(streams@)) == Some(a as int) && a
                < streams@.len(),
            None => audio_only_index(stream_views(streams@)) is None,
        },
{
    let ghost v = stream_views(streams@);
    let mut has_video_stream = false;
    let mut audio_idx: Option<usize> = None;
    let mut i: usize = 0;
    while i < streams.len()
        invariant
            v == stream_views(streams@),
            i <= streams@.len(),
            has_video_stream == has_video(v.take(i as int)),
            match audio_idx {
                Some(a) => first_audio(v.take(i as int)) == Some(a as int) && a < i,
                None => first_audio(v.take(i as int)) is None,
            },
        decreases streams@.len() - i,
    {
        proof {
            let t = v.take(i + 1);
            assert(t.drop_last() =~= v.take(i as int));
            assert(t.last() == streams@[i as int]@);
            if has_video(t) && !has_video(v.take(i as int)) {
                let j = choose|j: int| 0 <= j < t.len() && (#[trigger] t[j]).is_video;
                if j < i {
                    assert(v.take(i as int)[j] == t[j]);
                }
            }
            if has_video(v.take(i as int)) {
                let j = choose|j: int| 0 <= j < i && (#[trigger] v.take(i as int)[j]).is_video;
                assert(t[j] == v.take(i as int)[j]);
            }
            if streams@[i as int].is_video {
                assert(t[i as int].is_video);
            }
        }
        if streams[i].is_video {
            has_video_stream = true;
        }
        if audio_idx.is_none() && streams[i].is_audio {
            audio_idx = Some(i);
        }
        i = i + 1;
    }
    assert(v.take(i as int) =~= v);
    if has_video_stream {
        audio_idx
    } else {
        None
    }
}

/// Appends the `#EXT-X-STREAM-INF` and URI lines of stream `stream_idx`.
fn push_stream_entry(
    m3u8: &mut Vec<u8>,
    streams: &[StreamInfo],
    stream_idx: usize,
    audio_only_idx: Option<usize>,
)
    requires
        stream_idx < streams@.len(),
        bandwidths_fit(stream_views(streams@)),
        match audio_only_idx {
            Some(a) => audio_only_index(stream_views(streams@)) == Some(a as int) && a
                < streams@.len(),
            None => audio_only_index(stream_views(streams@)) is None,
        },
    ensures
        final(m3u8)@ == old(m3u8)@ + stream_entry(stream_views(streams@), stream_idx as int),
{
    let ghost v = stream_views(streams@);
    let ghost before = m3u8@;
    let stream = &streams[stream_idx];
    assert(stream@ == v[stream_idx as int]);
    proof {
        reveal_strlit("#EXT-X-STREAM-INF:BANDWIDTH=");
        reveal_strlit(",CODECS=\"");
        reveal_strlit("\",AUDIO=\"");
        reveal_strlit("\"\n");
        reveal_strlit("/generated.m3u8\n");
    }
    push_ascii(m3u8, "#EXT-X-STREAM-INF:BANDWIDTH=");
    let paired = match audio_only_idx {
        Some(a) => stream.is_video,
        None => false,
    };
    if paired {
        let a = audio_only_idx.unwrap();
        let audio = &streams[a];
        assert(audio@ == v[a as int]);
        // BANDWIDTH must cover all playable renditions combined
        push_decimal(m3u8, stream.bandwidth + audio.bandwidth);
        push_ascii(m3u8, ",CODECS=\"");
        // CODECS must include every format in all renditions
        let ghost base = m3u8@;
        assert(m3u8@.subrange(m3u8@.len() as int, m3u8@.len() as int) =~= comma_join(
            Seq::<Seq<u8>>::empty(),
        ));
        push_codecs(m3u8, stream.codecs, false, Ghost(Seq::empty()));
        let ghost own = stream@.codecs;
        assert(Seq::<Seq<u8>>::empty() + own =~= own);
        assert(m3u8@ =~= base + comma_join(own));
        assert(m3u8@.subrange(0, m3u8@.len() - comma_join(own).len()) =~= base);
        assert(m3u8@.subrange(m3u8@.len() - comma_join(own).len(), m3u8@.len() as int)
            =~= comma_join(own));
        push_codecs(m3u8, audio.codecs, stream.codecs.len() > 0, Ghost(own));
        push_ascii(m3u8, "\",AUDIO=\"");
        push_group_name(m3u8, a);
        push_ascii(m3u8, "\"\n");
    } else {
        push_decimal(m3u8, stream.bandwidth);
        push_ascii(m3u8, ",CODECS=\"");
        let ghost base = m3u8@;
        assert(m3u8@.subrange(m3u8@.len() as int, m3u8@.len() as int) =~= comma_join(
            Seq::<Seq<u8>>::empty(),
        ));
        push_codecs(m3u8, stream.codecs, false, Ghost(Seq::empty()));
        assert(Seq::<Seq<u8>>::empty() + stream@.codecs =~= stream@.codecs);
        assert(m3u8@ =~= base + comma_join(stream@.codecs));
        push_ascii(m3u8, "\"\n");
    }
    push_group_name(m3u8, stream_idx);
    push_ascii(m3u8, "/generated.m3u8\n");
    assert(m3u8@ =~= before + stream_entry(v, stream_idx as int));
}

/// Generate the master playlist (generated.m3u8).
pub fn generate_master_playlist(streams: &[StreamInfo]) -> (r: Vec<u8>)
    requires
        bandwidths_fit(stream_views(streams@)),
    ensures
        r@ == spec_master_playlist(stream_views(streams@)),
{
    let ghost v = stream_views(streams@);
    let num_streams = streams.len();

    // Find audio-only stream index to pair with video-only streams
    let audio_only_idx = find_audio_only(streams);

    let mut m3u8: Vec<u8> = Vec::new();
    proof {
        reveal_strlit("#EXTM3U\n");
        reveal_strlit("#EXT-X-VERSION:6\n");
        reveal_strlit("#EXT-X-INDEPENDENT-SEGMENTS\n");
    }
    push_ascii(&mut m3u8, "#EXTM3U\n");
    push_ascii(&mut m3u8, "#EXT-X-VERSION:6\n");
    push_ascii(&mut m3u8, "#EXT-X-INDEPENDENT-SEGMENTS\n");
    assert(m3u8@ =~= playlist_head());

    // If we have separate audio stream, declare it as a media group
    if let Some(audio_idx) = audio_only_idx {
        let ghost before = m3u8@;
        proof {
            reveal_strlit("#EXT-X-MEDIA:TYPE=AUDIO,GROUP-ID=\"");
            reveal_strlit("\",NAME=\"");
            reveal_strlit("\",DEFAULT=YES,AUTOSELECT=YES,URI=\"");
            reveal_strlit("/generated.m3u8\"\n");
        }
        push_ascii(&mut m3u8, "#EXT-X-MEDIA:TYPE=AUDIO,GROUP-ID=\"");
        push_group_name(&mut m3u8, audio_idx);
        push_ascii(&mut m3u8, "\",NAME=\"");
        push_group_name(&mut m3u8, audio_idx);
        push_ascii(&mut m3u8, "\",DEFAULT=YES,AUTOSELECT=YES,URI=\"");
        push_group_name(&mut m3u8, audio_idx);
        push_ascii(&mut m3u8, "/generated.m3u8\"\n");
        assert(m3u8@ =~= before + media_line(audio_idx as int));
    }
    let ghost head = m3u8@;
    assert(head =~= playlist_head() + match audio_only_index(v) {
        Some(a) => media_line(a),
        None => Seq::empty(),
    });

    let mut stream_idx: usize = 0;
    while stream_idx < num_streams
        invariant
            v == stream_views(streams@),
            num_streams == streams@.len(),
            bandwidths_fit(v),
            stream_idx <= num_streams,
            match audio_only_idx {
                Some(a) => audio_only_index(v) == Some(a as int) && a < num_streams,
                None => audio_only_index(v) is None,
            },
            m3u8@ == head + stream_entries(v, stream_idx as int),
        decreases num_streams - stream_idx,
    {
        // Skip audio-only streams from STREAM-INF (they're referenced via AUDIO group)
        let skip = match audio_only_idx {
            Some(a) => a == stream_idx,
            None => false,
        };
        if !skip {
            push_stream_entry(&mut m3u8, streams, stream_idx, audio_only_idx);
        }
        stream_idx = stream_idx + 1;
    }
    assert(m3u8@ =~= spec_master_playlist(v));
    m3u8
}


/// Whether each video stream's bandwidth, with the paired audio stream's
/// added, fits in 64 bits.
pub fn bandwidths_ok(streams: &[StreamInfo]) -> (r: bool)
    ensures
        r == bandwidths_fit(stream_views(streams@)),
{
    let ghost v = stream_views(streams@);
    match find_audio_only(streams) {
        None => true,
        Some(a) => {
            let audio_bw = streams[a].bandwidth;
            assert(streams@[a as int]@ == v[a as int]);
            let mut i: usize = 0;
            while i < streams.len()
                invariant
                    v == stream_views(streams@),
                    audio_only_index(v) == Some(a as int),
                    a < streams@.len(),
                    audio_bw == v[a as int].bandwidth,
                    i <= streams@.len(),
                    forall|j: int|
                        0 <= j < i && (#[trigger] v[j]).is_video ==> v[j].bandwidth + v[a as int].bandwidth
                            <= u64::MAX,
                decreases streams@.len() - i,
            {
                assert(streams@[i as int]@ == v[i as int]);
                if streams[i].is_video && streams[i].bandwidth > u64::MAX - audio_bw {
                    return false;
                }
                i = i + 1;
            }
            true
        },
    }
}

} // verus!

verus! {

proof fn lemma_stream_entries_prefix(streams: Seq<StreamInfoView>, k: int, n: int)
    requires
        0 <= k <= n,
    ensures
        stream_entries(streams, k).len() <= stream_entries(streams, n).len(),
        stream_entries(streams, n).subrange(0, stream_entries(streams, k).len() as int)
            == stream_entries(streams, k),
    decreases n - k,
{
    let ek = stream_entries(streams, k);
    if n == k {
        assert(ek.subrange(0, ek.len() as int) =~= ek);
    } else {
        lemma_stream_entries_prefix(streams, k, n - 1);
        let prev = stream_entries(streams, n - 1);
        let en = stream_entries(streams, n);
        if audio_only_index(streams) != Some(n - 1) {
            assert(en == prev + stream_entry(streams, n - 1));
            assert(en.subrange(0, ek.len() as int) =~= prev.subrange(0, ek.len() as int));
        }
    }
}

/// Where a video stream and an audio stream are both present, every video
/// stream other than the paired audio stream, wherever it stands among the
/// streams, has in the master playlist a `#EXT-X-STREAM-INF` line whose
/// bandwidth is its own plus the audio stream's, whose codecs are its own
/// followed by the audio stream's, and which names the audio stream's group,
/// followed by the line with its own playlist's URI.
pub proof fn lemma_every_video_names_the_audio_group(streams: Seq<StreamInfoView>, i: int)
    requires
        audio_only_index(streams) is Some,
        0 <= i < streams.len(),
        streams[i].is_video,
        audio_only_index(streams) != Some(i),
    ensures
        ({
            let a = audio_only_index(streams)->Some_0;
            let line = ascii_bytes("#EXT-X-STREAM-INF:BANDWIDTH="@) + decimal(
                (streams[i].bandwidth + streams[a].bandwidth) as nat,
            ) + ascii_bytes(",CODECS=\""@) + comma_join(streams[i].codecs + streams[a].codecs)
                + ascii_bytes("\",AUDIO=\""@) + ascii_bytes("streams."@) + decimal(a as nat)
                + ascii_bytes("\"\n"@) + ascii_bytes("streams."@) + decimal(i as nat) + ascii_bytes(
                "/generated.m3u8\n"@,
            );
            exists|off: int|
                0 <= off && off + line.len() <= spec_master_playlist(streams).len()
                    && #[trigger] spec_master_playlist(streams).subrange(off, off + line.len())
                    == line
        }),
{
    let a = audio_only_index(streams)->Some_0;
    let line = ascii_bytes("#EXT-X-STREAM-INF:BANDWIDTH="@) + decimal(
        (streams[i].bandwidth + streams[a].bandwidth) as nat,
    ) + ascii_bytes(",CODECS=\""@) + comma_join(streams[i].codecs + streams[a].codecs)
        + ascii_bytes("\",AUDIO=\""@) + ascii_bytes("streams."@) + decimal(a as nat)
        + ascii_bytes("\"\n"@) + ascii_bytes("streams."@) + decimal(i as nat) + ascii_bytes(
        "/generated.m3u8\n"@,
    );
    let entry = stream_entry(streams, i);
    assert(entry =~= line);
    let pre = playlist_head() + media_line(a);
    let all = stream_entries(streams, streams.len() as int);
    let ei = stream_entries(streams, i);
    let ei1 = stream_entries(streams, i + 1);
    assert(ei1 == ei + entry);
    lemma_stream_entries_prefix(streams, i + 1, streams.len() as int);
    let p = spec_master_playlist(streams);
    assert(p == pre + all);
    let off: int = (pre.len() + ei.len()) as int;
    assert(p.subrange(off, off + line.len() as int) =~= ei1.subrange(ei.len() as int, ei1.len() as int));
    assert(ei1.subrange(ei.len() as int, ei1.len() as int) =~= line);
}


proof fn lemma_first_audio(streams: Seq<StreamInfoView>)
    ensures
        match first_audio(streams) {
            Some(a) => 0 <= a < streams.len() && streams[a].is_audio && forall|j: int|
                0 <= j < a ==> !(#[trigger] streams[j]).is_audio,
            None => forall|j: int| 0 <= j < streams.len() ==> !(#[trigger] streams[j]).is_audio,
        },
    decreases streams.len(),
{
    if streams.len() > 0 {
        let p = streams.drop_last();
        lemma_first_audio(p);
        assert forall|j: int| 0 <= j < p.len() implies p[j] == streams[j] by {}
    }
}

/// The audio stream that video streams are paired with is the first audio
/// stream, and there is one exactly when the streams hold both a video
/// stream and an audio stream.
pub proof fn lemma_audio_group_is_first_audio(streams: Seq<StreamInfoView>)
    ensures
        match audio_only_index(streams) {
            Some(a) => {
                &&& 0 <= a < streams.len()
                &&& streams[a].is_audio
                &&& forall|j: int| 0 <= j < a ==> !(#[trigger] streams[j]).is_audio
                &&& exists|v: int| 0 <= v < streams.len() && (#[trigger] streams[v]).is_video
            },
            None => (forall|j: int| 0 <= j < streams.len() ==> !(#[trigger] streams[j]).is_audio)
                || (forall|j: int| 0 <= j < streams.len() ==> !(#[trigger] streams[j]).is_video),
        },
{
    lemma_first_audio(streams);
}

/// Every stream that is not paired with the audio group (no audio group, or
/// not a video stream), other than the audio group's own stream, has in the
/// master playlist a `#EXT-X-STREAM-INF` line with its own bandwidth and
/// codecs alone and no audio group, followed by the line with its own
/// playlist's URI.
pub proof fn lemma_unpaired_stream_entry(streams: Seq<StreamInfoView>, i: int)
    requires
        0 <= i < streams.len(),
        audio_only_index(streams) != Some(i),
        audio_only_index(streams) is None || !streams[i].is_video,
    ensures
        ({
            let line = ascii_bytes("#EXT-X-STREAM-INF:BANDWIDTH="@) + decimal(
                streams[i].bandwidth as nat,
            ) + ascii_bytes(",CODECS=\""@) + comma_join(streams[i].codecs) + ascii_bytes("\"\n"@)
                + ascii_bytes("streams."@) + decimal(i as nat) + ascii_bytes("/generated.m3u8\n"@);
            exists|off: int|
                0 <= off && off + line.len() <= spec_master_playlist(streams).len()
                    && #[trigger] spec_master_playlist(streams).subrange(off, off + line.len())
                    == line
        }),
{
    let line = ascii_bytes("#EXT-X-STREAM-INF:BANDWIDTH="@) + decimal(streams[i].bandwidth as nat)
        + ascii_bytes(",CODECS=\""@) + comma_join(streams[i].codecs) + ascii_bytes("\"\n"@)
        + ascii_bytes("streams."@) + decimal(i as nat) + ascii_bytes("/generated.m3u8\n"@);
    let entry = stream_entry(streams, i);
    assert(entry =~= line);
    let pre = playlist_head() + match audio_only_index(streams) {
        Some(a) => media_line(a),
        None => Seq::empty(),
    };
    let all = stream_entries(streams, streams.len() as int);
    let ei = stream_entries(streams, i);
    let ei1 = stream_entries(streams, i + 1);
    assert(ei1 == ei + entry);
    lemma_stream_entries_prefix(streams, i + 1, streams.len() as int);
    let p = spec_master_playlist(streams);
    assert(p == pre + all);
    let off: int = (pre.len() + ei.len()) as int;
    assert(p.subrange(off, off + line.len() as int) =~= ei1.subrange(ei.len() as int, ei1.len() as int));
    assert(ei1.subrange(ei.len() as int, ei1.len() as int) =~= line);
}

/// The master playlist opens with the `#EXTM3U`, version and
/// independent-segments lines; where an audio stream is paired with the
/// video streams, the `#EXT-X-MEDIA` line that declares its group comes next.
pub proof fn lemma_playlist_opens_with_audio_group(streams: Seq<StreamInfoView>)
    ensures
        ({
            let p = spec_master_playlist(streams);
            let head = ascii_bytes("#EXTM3U\n"@) + ascii_bytes("#EXT-X-VERSION:6\n"@) + ascii_bytes(
                "#EXT-X-INDEPENDENT-SEGMENTS\n"@,
            );
            &&& head.len() <= p.len()
            &&& p.subrange(0, head.len() as int) == head
            &&& audio_only_index(streams) matches Some(a) ==> {
                let g = ascii_bytes("streams."@) + decimal(a as nat);
                let media = ascii_bytes("#EXT-X-MEDIA:TYPE=AUDIO,GROUP-ID=\""@) + g + ascii_bytes(
                    "\",NAME=\""@,
                ) + g + ascii_bytes("\",DEFAULT=YES,AUTOSELECT=YES,URI=\""@) + g + ascii_bytes(
                    "/generated.m3u8\"\n"@,
                );
                &&& head.len() + media.len() <= p.len()
                &&& p.subrange(head.len() as int, (head.len() + media.len()) as int) == media
            }
        }),
{
    let p = spec_master_playlist(streams);
    let head = ascii_bytes("#EXTM3U\n"@) + ascii_bytes("#EXT-X-VERSION:6\n"@) + ascii_bytes(
                "#EXT-X-INDEPENDENT-SEGMENTS\n"@,
            );
    assert(playlist_head() =~= head);
    let rest = stream_entries(streams, streams.len() as int);
    match audio_only_index(streams) {
        Some(a) => {
            assert(p == head + media_line(a) + rest);
            assert(p.subrange(0, head.len() as int) =~= head);
            assert(p.subrange(head.len() as int, (head.len() + media_line(a).len()) as int) =~= media_line(a));
        },
        None => {
            assert(p == head + Seq::<u8>::empty() + rest);
            assert(p.subrange(0, head.len() as int) =~= head);
        },
    }
}

} // verus!
