//! Probing media files: what ffprobe reported, made into what the editor
//! needs.

use vstd::prelude::*;
use vstd::string::*;

use crate::double::Real;
use crate::error::MediaError;
use crate::strings;
use crate::strings::{chars_of, parse_unsigned, same_text, split_once_at, string_of};

verus! {

/// Everything Cutty needs to know about a media file up front.
#[derive(Debug)]
pub struct MediaInfo {
    /// Absolute path of the probed file.
    pub path: String,
    /// Container duration in seconds.
    pub duration_sec: Real,
    /// Container format name as reported by ffprobe (e.g. `mov,mp4,m4a,...`).
    pub container: String,
    /// File size in bytes.
    pub size_bytes: u64,
    /// First video stream, if any.
    pub video: Option<VideoStreamInfo>,
    /// First audio stream, if any.
    pub audio: Option<AudioStreamInfo>,
    /// One-line summary of every stream in the file.
    pub streams: Vec<StreamSummary>,
}

/// Properties of a video stream.
#[derive(Debug)]
pub struct VideoStreamInfo {
    pub codec: String,
    pub width: u32,
    pub height: u32,
    /// Average frame rate. Falls back to `r_frame_rate` when the average is
    /// unknown (e.g. some fragmented MP4s).
    pub fps: Real,
}

/// Properties of an audio stream.
#[derive(Debug)]
pub struct AudioStreamInfo {
    pub codec: String,
    pub sample_rate: u32,
    pub channels: u32,
}

/// Type and codec of a single stream, for display in the UI.
#[derive(Debug)]
pub struct StreamSummary {
    pub index: u32,
    pub kind: String,
    pub codec: String,
}

/// A stream as ffprobe reports it. Rates and durations are the numbers their
/// texts parsed to, where they did.
#[derive(Debug)]
pub struct RawStream {
    pub index: u32,
    pub codec_type: Option<String>,
    pub codec_name: Option<String>,
    pub width: Option<u32>,
    pub height: Option<u32>,
    pub avg_frame_rate: Option<Real>,
    pub r_frame_rate: Option<Real>,
    pub sample_rate: Option<String>,
    pub channels: Option<u32>,
    pub duration: Option<Real>,
}

/// What ffprobe reports of a file.
#[derive(Debug)]
pub struct RawProbe {
    pub streams: Vec<RawStream>,
    pub format_name: String,
    pub duration: Option<Real>,
    pub size: Option<String>,
}

/// A reported text, or `unknown`.
pub open spec fn or_unknown(text: Option<String>) -> Seq<char> {
    match text {
        Some(t) => t@,
        None => "unknown"@,
    }
}

/// The frame rate of a stream: the average, else the base rate.
pub open spec fn rate_of(s: RawStream) -> Option<Real> {
    match s.avg_frame_rate {
        Some(r) => Some(r),
        None => s.r_frame_rate,
    }
}

/// A video stream whose size and rate are known.
pub open spec fn usable_video(s: RawStream) -> bool {
    or_unknown(s.codec_type) == "video"@ && s.width is Some && s.height is Some && rate_of(
        s,
    ) is Some
}

/// An audio stream.
pub open spec fn usable_audio(s: RawStream) -> bool {
    or_unknown(s.codec_type) == "audio"@
}

/// The longest duration among the first streams, at least zero.
pub open spec fn longest(streams: Seq<RawStream>) -> Real
    decreases streams.len(),
{
    if streams.len() == 0 {
        Real::zero()
    } else {
        match streams.last().duration {
            Some(d) => longest(streams.drop_last()).larger(d),
            None => longest(streams.drop_last()),
        }
    }
}

/// What stands for a video stream.
pub open spec fn video_matches(s: RawStream, v: VideoStreamInfo) -> bool {
    &&& v.codec@ == or_unknown(s.codec_name)
    &&& Some(v.width) == s.width
    &&& Some(v.height) == s.height
    &&& Some(v.fps) == rate_of(s)
}

/// What stands for an audio stream: an unreadable sample rate and an unknown
/// channel count are zero.
pub open spec fn audio_matches(s: RawStream, a: AudioStreamInfo) -> bool {
    &&& a.codec@ == or_unknown(s.codec_name)
    &&& a.sample_rate == match s.sample_rate {
        Some(text) => match strings::parsed(text@, u32::MAX as nat) {
            Some(v) => v as u32,
            None => 0,
        },
        None => 0,
    }
    &&& a.channels == match s.channels {
        Some(c) => c,
        None => 0,
    }
}

/// The summary line of a stream.
pub open spec fn summary_matches(s: RawStream, line: StreamSummary) -> bool {
    line.index == s.index && line.kind@ == or_unknown(s.codec_type) && line.codec@ == or_unknown(
        s.codec_name,
    )
}

/// Stream `k` is the first of its list that satisfies `p`.
pub open spec fn is_first(streams: Seq<RawStream>, p: spec_fn(RawStream) -> bool, k: int) -> bool {
    0 <= k < streams.len() && p(streams[k]) && forall|j: int| 0 <= j < k ==> !p(#[trigger] streams[j])
}

/// The first usable video stream is the one taken, if there is one.
pub open spec fn picks_video(streams: Seq<RawStream>, v: Option<VideoStreamInfo>) -> bool {
    match v {
        Some(info) => exists|k: int|
            #![trigger streams[k]]
            is_first(streams, |s: RawStream| usable_video(s), k) && video_matches(streams[k], info),
        None => forall|k: int| 0 <= k < streams.len() ==> !usable_video(#[trigger] streams[k]),
    }
}

/// The first audio stream is the one taken, if there is one.
pub open spec fn picks_audio(streams: Seq<RawStream>, a: Option<AudioStreamInfo>) -> bool {
    match a {
        Some(info) => exists|k: int|
            #![trigger streams[k]]
            is_first(streams, |s: RawStream| usable_audio(s), k) && audio_matches(streams[k], info),
        None => forall|k: int| 0 <= k < streams.len() ==> !usable_audio(#[trigger] streams[k]),
    }
}

fn text_or_unknown(text: &Option<String>) -> (out: String)
    ensures
        out@ == or_unknown(*text),
{
    match text {
        Some(t) => t.clone(),
        None => "unknown".to_owned(),
    }
}

fn video_info(s: &RawStream) -> (out: Option<VideoStreamInfo>)
    requires
        or_unknown(s.codec_type) == "video"@,
    ensures
        match out {
            Some(v) => usable_video(*s) && video_matches(*s, v),
            None => !usable_video(*s),
        },
{
    let fps = match s.avg_frame_rate {
        Some(r) => Some(r),
        None => s.r_frame_rate,
    };
    match (s.width, s.height, fps) {
        (Some(width), Some(height), Some(fps)) => Some(
            VideoStreamInfo { codec: text_or_unknown(&s.codec_name), width, height, fps },
        ),
        _ => None,
    }
}

fn audio_info(s: &RawStream) -> (out: AudioStreamInfo)
    ensures
        audio_matches(*s, out),
{
    let sample_rate: u32 = match &s.sample_rate {
        Some(text) => match parse_unsigned(text.as_str(), u32::MAX as u64) {
            Some(v) => v as u32,
            None => 0,
        },
        None => 0,
    };
    let channels: u32 = match s.channels {
        Some(c) => c,
        None => 0,
    };
    AudioStreamInfo { codec: text_or_unknown(&s.codec_name), sample_rate, channels }
}

/// Turn what ffprobe reported into a [`MediaInfo`].
///
/// The first usable video and the first audio stream are taken; a file with
/// neither is an error. The duration is the container's or, where it has
/// none, that of the longest stream.
pub fn parse_probe_output(raw: &RawProbe, path: &str) -> (out: Result<MediaInfo, MediaError>)
    ensures
        match out {
            Ok(info) => {
                &&& info.video is Some || info.audio is Some
                &&& picks_video(raw.streams@, info.video)
                &&& picks_audio(raw.streams@, info.audio)
                &&& info.path@ == path@
                &&& info.container@ == raw.format_name@
                &&& info.duration_sec == match raw.duration {
                    Some(d) => d,
                    None => longest(raw.streams@),
                }
                &&& info.size_bytes == match raw.size {
                    Some(text) => match strings::parsed(text@, u64::MAX as nat) {
                        Some(v) => v as u64,
                        None => 0,
                    },
                    None => 0,
                }
                &&& info.streams@.len() == raw.streams@.len()
                &&& forall|k: int|
                    0 <= k < info.streams@.len() ==> summary_matches(
                        raw.streams@[k],
                        #[trigger] info.streams@[k],
                    )
            },
            Err(MediaError::NoStreams { path: p }) => p@ == path@ && forall|k: int|
                0 <= k < raw.streams@.len() ==> !usable_video(#[trigger] raw.streams@[k])
                    && !usable_audio(raw.streams@[k]),
            Err(_) => false,
        },
{
    let mut video: Option<VideoStreamInfo> = None;
    let mut audio: Option<AudioStreamInfo> = None;
    let mut streams: Vec<StreamSummary> = Vec::new();
    let mut stream_duration: Real = Real { bits: 0 };
    let ghost all = raw.streams@;
    let ghost usable_v = |s: RawStream| usable_video(s);
    let ghost usable_a = |s: RawStream| usable_audio(s);
    for i in 0..raw.streams.len()
        invariant
            all == raw.streams@,
            usable_v == (|s: RawStream| usable_video(s)),
            usable_a == (|s: RawStream| usable_audio(s)),
            stream_duration == longest(all.take(i as int)),
            streams@.len() == i,
            forall|k: int|
                0 <= k < streams@.len() ==> summary_matches(all[k], #[trigger] streams@[k]),
            match video {
                Some(info) => exists|k: int|
                    #![trigger all[k]]
                    is_first(all, usable_v, k) && video_matches(all[k], info),
                None => forall|k: int| 0 <= k < i ==> !usable_video(#[trigger] all[k]),
            },
            match audio {
                Some(info) => exists|k: int|
                    #![trigger all[k]]
                    is_first(all, usable_a, k) && audio_matches(all[k], info),
                None => forall|k: int| 0 <= k < i ==> !usable_audio(#[trigger] all[k]),
            },
    {
        let s = &raw.streams[i];
        proof {
            assert(all.take(i + 1).drop_last() =~= all.take(i as int));
        }
        let kind = text_or_unknown(&s.codec_type);
        let codec = text_or_unknown(&s.codec_name);
        if let Some(d) = s.duration {
            stream_duration = stream_duration.larger_of(d);
        }
        let is_video = same_text(kind.as_str(), "video");
        let is_audio = same_text(kind.as_str(), "audio");
        streams.push(StreamSummary { index: s.index, kind, codec });
        if is_video {
            proof {
                reveal_strlit("video");
                reveal_strlit("audio");
                assert("video"@[0] == 'v' && "audio"@[0] == 'a');
                assert("video"@ != "audio"@);
            }
            if video.is_none() {
                video = video_info(s);
                proof {
                    if video is Some {
                        assert(is_first(all, usable_v, i as int));
                        assert(video_matches(all[i as int], video->0));
                    }
                }
            }
        } else if is_audio {
            if audio.is_none() {
                audio = Some(audio_info(s));
                proof {
                    assert(is_first(all, usable_a, i as int));
                    assert(audio_matches(all[i as int], audio->0));
                }
            }
        }
    }
    proof {
        assert(all.take(all.len() as int) =~= all);
    }
    if video.is_none() && audio.is_none() {
        return Err(MediaError::NoStreams { path: path.to_owned() });
    }
    let duration_sec = match raw.duration {
        Some(d) => d,
        None => stream_duration,
    };
    let size_bytes: u64 = match &raw.size {
        Some(text) => match parse_unsigned(text.as_str(), u64::MAX) {
            Some(v) => v,
            None => 0,
        },
        None => 0,
    };
    Ok(
        MediaInfo {
            path: path.to_owned(),
            duration_sec,
            container: raw.format_name.clone(),
            size_bytes,
            video,
            audio,
            streams,
        },
    )
}

/// Both sides of an ffprobe rational rate like `"30000/1001"`, if it has the
/// shape of one.
pub fn rate_parts(rate: &str) -> (out: Option<(String, String)>)
    ensures
        match (out, strings::cut_once(rate@, '/')) {
            (Some((a, b)), Some((x, y))) => a@ == x && b@ == y,
            (None, None) => true,
            _ => false,
        },
{
    match split_once_at(&chars_of(rate), '/') {
        Some((a, b)) => Some((string_of(a.as_slice()), string_of(b.as_slice()))),
        None => None,
    }
}

/// Numerator and denominator of a usable rate: neither is zero (`"0/0"` is
/// ffprobe's placeholder).
pub fn usable_rate(num: Option<Real>, den: Option<Real>) -> (out: Option<(Real, Real)>)
    ensures
        out == match (num, den) {
            (Some(n), Some(d)) => if d.same(Real::zero()) || n.same(Real::zero()) {
                None
            } else {
                Some((n, d))
            },
            _ => None,
        },
{
    match (num, den) {
        (Some(n), Some(d)) => {
            let zero = Real { bits: 0 };
            if d.is_same(zero) || n.is_same(zero) {
                None
            } else {
                Some((n, d))
            }
        },
        _ => None,
    }
}

/// The message of a failed probe names the file and ffprobe's trimmed stderr.
pub fn probe_failed(path: &str, stderr: &str) -> (out: MediaError)
    ensures
        match out {
            MediaError::ProbeFailed { path: p, stderr: s } => p@ == path@ && s@
                == strings::trimmed(stderr@),
            _ => false,
        },
{
    let text = strings::trim_chars(&chars_of(stderr));
    MediaError::ProbeFailed { path: path.to_owned(), stderr: string_of(text.as_slice()) }
}

// ---------------------------------------------------------------------
// Which streams are taken
// ---------------------------------------------------------------------

/// A stream that shows pictures of a known size at a known rate.
pub open spec fn shows(s: RawStream) -> bool {
    &&& s.codec_type matches Some(t) && t@ == "video"@
    &&& s.width is Some
    &&& s.height is Some
    &&& s.avg_frame_rate is Some || s.r_frame_rate is Some
}

/// A stream that sounds.
pub open spec fn sounds(s: RawStream) -> bool {
    s.codec_type matches Some(t) && t@ == "audio"@
}

proof fn lemma_kinds(s: RawStream)
    ensures
        usable_video(s) <==> shows(s),
        usable_audio(s) <==> sounds(s),
{
    reveal_strlit("unknown");
    reveal_strlit("video");
    reveal_strlit("audio");
    assert("unknown"@.len() == 7 && "video"@.len() == 5 && "audio"@.len() == 5);
}

/// Of the video streams whose size and rate are known the first is taken,
/// wherever it stands, with its own size and its average rate, or its base rate
/// where that is unknown; without such a stream there is no video.
pub proof fn law_first_video_is_taken(streams: Seq<RawStream>, v: Option<VideoStreamInfo>, k: int)
    requires
        picks_video(streams, v),
        0 <= k < streams.len(),
        shows(streams[k]),
        forall|j: int| 0 <= j < k ==> !shows(#[trigger] streams[j]),
    ensures
        v is Some,
        Some((v->0).width) == streams[k].width,
        Some((v->0).height) == streams[k].height,
        (v->0).fps == (if streams[k].avg_frame_rate is Some {
            streams[k].avg_frame_rate->0
        } else {
            streams[k].r_frame_rate->0
        }),
        (v->0).codec@ == (if streams[k].codec_name is Some {
            streams[k].codec_name->0@
        } else {
            "unknown"@
        }),
{
    lemma_kinds(streams[k]);
    assert forall|j: int| 0 <= j < k implies !usable_video(#[trigger] streams[j]) by {
        lemma_kinds(streams[j]);
    }
    let info = v->0;
    let at = choose|at: int|
        #![trigger streams[at]]
        is_first(streams, |s: RawStream| usable_video(s), at) && video_matches(streams[at], info);
    assert(is_first(streams, |s: RawStream| usable_video(s), at));
    if at > k {
        assert(!usable_video(streams[k]));
    }
    if at < k {
        assert(!usable_video(streams[at]));
    }
}

/// The first audio stream is taken, wherever it stands, with its own rate and
/// channels, zero where they are unknown; without one there is no audio.
pub proof fn law_first_audio_is_taken(streams: Seq<RawStream>, a: Option<AudioStreamInfo>, k: int)
    requires
        picks_audio(streams, a),
        0 <= k < streams.len(),
        sounds(streams[k]),
        forall|j: int| 0 <= j < k ==> !sounds(#[trigger] streams[j]),
    ensures
        a is Some,
        (a->0).channels == (if streams[k].channels is Some {
            streams[k].channels->0
        } else {
            0
        }),
        streams[k].sample_rate is None ==> (a->0).sample_rate == 0,
        forall|hz: u32|
            #![trigger strings::dec(hz as nat)]
            streams[k].sample_rate is Some && streams[k].sample_rate->0@ == strings::dec(hz as nat)
                ==> (a->0).sample_rate == hz,
        (a->0).codec@ == (if streams[k].codec_name is Some {
            streams[k].codec_name->0@
        } else {
            "unknown"@
        }),
{
    lemma_kinds(streams[k]);
    assert forall|j: int| 0 <= j < k implies !usable_audio(#[trigger] streams[j]) by {
        lemma_kinds(streams[j]);
    }
    let info = a->0;
    let at = choose|at: int|
        #![trigger streams[at]]
        is_first(streams, |s: RawStream| usable_audio(s), at) && audio_matches(streams[at], info);
    assert(is_first(streams, |s: RawStream| usable_audio(s), at));
    if at > k {
        assert(!usable_audio(streams[k]));
    }
    if at < k {
        assert(!usable_audio(streams[at]));
    }
    assert forall|hz: u32|
        #![trigger strings::dec(hz as nat)]
        streams[k].sample_rate is Some && streams[k].sample_rate->0@ == strings::dec(
            hz as nat,
        ) implies (a->0).sample_rate == hz by {
        strings::law_parsed_numbers(strings::dec(hz as nat), u32::MAX as nat);
    }
}

/// A file with neither has neither.
pub proof fn law_nothing_is_made_up(
    streams: Seq<RawStream>,
    v: Option<VideoStreamInfo>,
    a: Option<AudioStreamInfo>,
)
    requires
        picks_video(streams, v),
        picks_audio(streams, a),
    ensures
        v is Some ==> exists|k: int| 0 <= k < streams.len() && shows(#[trigger] streams[k]),
        a is Some ==> exists|k: int| 0 <= k < streams.len() && sounds(#[trigger] streams[k]),
{
    if let Some(info) = v {
        let at = choose|at: int|
            #![trigger streams[at]]
            is_first(streams, |s: RawStream| usable_video(s), at) && video_matches(
                streams[at],
                info,
            );
        assert(is_first(streams, |s: RawStream| usable_video(s), at));
        lemma_kinds(streams[at]);
    }
    if let Some(info) = a {
        let at = choose|at: int|
            #![trigger streams[at]]
            is_first(streams, |s: RawStream| usable_audio(s), at) && audio_matches(
                streams[at],
                info,
            );
        assert(is_first(streams, |s: RawStream| usable_audio(s), at));
        lemma_kinds(streams[at]);
    }
}

/// The longest duration is at least that of every stream and at least zero,
/// and no longer than needed: it is zero or that of a stream.
pub proof fn law_longest_stream(streams: Seq<RawStream>)
    ensures
        Real::zero().le(longest(streams)),
        forall|k: int|
            0 <= k < streams.len() && (#[trigger] streams[k]).duration is Some && !(
            streams[k].duration->0).nan() ==> (streams[k].duration->0).le(longest(streams)),
        longest(streams) == Real::zero() || exists|k: int|
            0 <= k < streams.len() && (#[trigger] streams[k]).duration == Some(longest(streams)),
    decreases streams.len(),
{
    if streams.len() > 0 {
        let init = streams.drop_last();
        law_longest_stream(init);
        let n = init.len() as int;
        assert(streams[n] == streams.last());
        assert forall|k: int|
            0 <= k < streams.len() && (#[trigger] streams[k]).duration is Some && !(
            streams[k].duration->0).nan() implies (streams[k].duration->0).le(longest(streams)) by {
            if k < n {
                assert(init[k] == streams[k]);
            }
        }
        if longest(streams) != Real::zero() && longest(streams) == longest(init) {
            let k = choose|k: int|
                0 <= k < init.len() && (#[trigger] init[k]).duration == Some(longest(init));
            assert(streams[k] == init[k]);
        }
    }
}

/// The summary of a stream is its own: its index, and what it is and how it is
/// coded, as far as that is known.
pub proof fn law_summaries_are_their_streams(s: RawStream, line: StreamSummary)
    requires
        summary_matches(s, line),
    ensures
        line.index == s.index,
        line.kind@ == (if s.codec_type is Some {
            s.codec_type->0@
        } else {
            "unknown"@
        }),
        line.codec@ == (if s.codec_name is Some {
            s.codec_name->0@
        } else {
            "unknown"@
        }),
{
}

} // verus!
