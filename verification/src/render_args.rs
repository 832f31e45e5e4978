//! The ffmpeg argument lists of an export.

use vstd::prelude::*;
use vstd::string::*;

use crate::encoders;
use crate::encoders::H264Encoder;
use crate::render::{ExportQuality, ExportSpec, PlannedSegment, SegmentSource};
use crate::strings;
use crate::strings::{chars_of, dec_int_text, dec_text, push_dec, push_owned, push_text};

verus! {

/// CRF-style quality knob per encoder (lower = better). The VAAPI CQP and
/// NVENC CQ scales sit close to CRF; one notch conservative on the upper tiers
/// to offset hardware encoder efficiency loss.
pub open spec fn quality_knob(quality: ExportQuality, encoder: H264Encoder) -> u32 {
    match quality {
        ExportQuality::High => if encoder is X264 {
            18
        } else {
            19
        },
        ExportQuality::Medium => if encoder is X264 {
            23
        } else {
            24
        },
        ExportQuality::Small => 28,
    }
}

/// The AAC bitrate of a tier.
pub open spec fn bitrate_of(quality: ExportQuality) -> Seq<char> {
    match quality {
        ExportQuality::High => "192k"@,
        ExportQuality::Medium => "160k"@,
        ExportQuality::Small => "128k"@,
    }
}

impl ExportQuality {
    /// CRF-style quality knob per encoder (lower = better).
    pub fn video_q(self, encoder: &H264Encoder) -> (out: u32)
        ensures
            out == quality_knob(self, *encoder),
    {
        let software = !encoder.is_hardware();
        match self {
            ExportQuality::High => if software {
                18
            } else {
                19
            },
            ExportQuality::Medium => if software {
                23
            } else {
                24
            },
            ExportQuality::Small => 28,
        }
    }

    /// AAC bitrate of the audio mix.
    pub fn audio_bitrate(self) -> (out: &'static str)
        ensures
            out@ == bitrate_of(self),
    {
        match self {
            ExportQuality::High => "192k",
            ExportQuality::Medium => "160k",
            ExportQuality::Small => "128k",
        }
    }
}

/// On every encoder, a higher tier has a strictly lower (better) knob.
pub proof fn law_quality_knobs_are_monotonic(encoder: H264Encoder)
    ensures
        quality_knob(ExportQuality::High, encoder) < quality_knob(ExportQuality::Medium, encoder)
            < quality_knob(ExportQuality::Small, encoder),
{
}

/// What ffmpeg has to read for one clip segment, as texts.
#[derive(Debug)]
pub struct ClipTiming {
    /// Source position of the segment's first output frame, six decimals.
    pub source_in: String,
    /// How much of the source to read, six decimals.
    pub read_span: String,
    /// The clip's speed, where it is not one.
    pub speed: Option<String>,
}

/// `<width>x<height>`.
pub open spec fn size_text(spec: ExportSpec) -> Seq<char> {
    strings::dec(spec.width as nat) + "x"@ + strings::dec(spec.height as nat)
}

/// `<width>:<height>`.
pub open spec fn pair_text(spec: ExportSpec) -> Seq<char> {
    strings::dec(spec.width as nat) + ":"@ + strings::dec(spec.height as nat)
}

/// The software filter chain normalizing one clip segment to the target frame.
pub open spec fn filter_text(spec: ExportSpec, speed: Option<Seq<char>>, vaapi: bool) -> Seq<char> {
    let setpts = match speed {
        Some(text) => "setpts=(PTS-STARTPTS)/"@ + text,
        None => "setpts=PTS-STARTPTS"@,
    };
    let chain = setpts + ",fps="@ + spec.fps_text@ + ",scale="@ + pair_text(spec)
        + ":force_original_aspect_ratio=decrease:force_divisible_by=2:out_color_matrix=bt709,pad="@
        + pair_text(spec)
        + ":(ow-iw)/2:(oh-ih)/2:color=black,setsar=1,tpad=stop_mode=clone:stop=-1"@;
    if vaapi {
        chain + ",format=nv12,hwupload"@
    } else {
        chain
    }
}

pub open spec fn opt_view(text: Option<String>) -> Option<Seq<char>> {
    match text {
        Some(t) => Some(t@),
        None => None,
    }
}

/// `<width><by><height>` of the target.
fn size_of(spec: &ExportSpec, by: &str) -> (out: String)
    ensures
        out@ == strings::dec(spec.width as nat) + by@ + strings::dec(spec.height as nat),
{
    let mut out = dec_text(spec.width as u64);
    out.append(by);
    push_dec(&mut out, spec.height as u64);
    out
}

/// The software filter chain normalizing one clip segment to the target
/// frame: rebase timestamps (and apply speed), resample to the target fps, fit
/// within the frame preserving aspect, pad to exact size, square pixels, then
/// clone the last frame forever (`tpad`) so `-frames:v` always reaches its
/// exact count even if the source runs a frame short.
pub fn clip_filter(spec: &ExportSpec, speed: &Option<String>, vaapi: bool) -> (out: String)
    ensures
        out@ == filter_text(*spec, opt_view(*speed), vaapi),
{
    let mut chain = match speed {
        Some(text) => {
            let mut s = "setpts=(PTS-STARTPTS)/".to_owned();
            s.append(text.as_str());
            s
        },
        None => "setpts=PTS-STARTPTS".to_owned(),
    };
    chain.append(",fps=");
    chain.append(spec.fps_text.as_str());
    chain.append(",scale=");
    chain.append(size_of(spec, ":").as_str());
    chain.append(
        ":force_original_aspect_ratio=decrease:force_divisible_by=2:out_color_matrix=bt709,pad=",
    );
    chain.append(size_of(spec, ":").as_str());
    chain.append(":(ow-iw)/2:(oh-ih)/2:color=black,setsar=1,tpad=stop_mode=clone:stop=-1");
    if vaapi {
        chain.append(",format=nv12,hwupload");
    }
    chain
}

/// Output-side video encoder arguments.
pub open spec fn encoder_arg_views(spec: ExportSpec, encoder: H264Encoder) -> Seq<Seq<char>> {
    let q = strings::dec(quality_knob(spec.quality, encoder) as nat);
    let codec = match encoder {
        H264Encoder::X264 => seq![
            "-c:v"@, "libx264"@, "-preset"@, "medium"@, "-crf"@, q, "-pix_fmt"@, "yuv420p"@,
        ],
        H264Encoder::Nvenc => seq![
            "-c:v"@, "h264_nvenc"@, "-preset"@, "p5"@, "-rc"@, "vbr"@, "-cq"@, q, "-b:v"@, "0"@,
            "-pix_fmt"@, "yuv420p"@,
        ],
        H264Encoder::Vaapi { .. } => seq![
            "-c:v"@, "h264_vaapi"@, "-rc_mode"@, "CQP"@, "-qp"@, q,
        ],
    };
    codec + seq![
        "-g"@, strings::dec(spec.gop as nat), "-colorspace"@, "bt709"@, "-color_primaries"@,
        "bt709"@, "-color_trc"@, "bt709"@, "-fps_mode"@, "cfr"@,
    ]
}

/// Append every text of a list.
fn push_all(out: &mut Vec<String>, more: Vec<String>)
    ensures
        strings::views(final(out)@) == strings::views(old(out)@) + strings::views(more@),
{
    let mut more = more;
    let ghost a = out@;
    let ghost b = more@;
    out.append(&mut more);
    proof {
        assert(strings::views(out@) =~= strings::views(a) + strings::views(b));
    }
}

/// Output-side video encoder arguments, shared by both video paths (for
/// segments, identical parameters are what make the concat demuxer's
/// `-c copy` join safe).
pub fn encoder_args(spec: &ExportSpec, encoder: &H264Encoder) -> (out: Vec<String>)
    ensures
        strings::views(out@) == encoder_arg_views(*spec, *encoder),
{
    let mut out: Vec<String> = Vec::new();
    let q = dec_text(spec.quality.video_q(encoder) as u64);
    push_text(&mut out, "-c:v");
    push_text(&mut out, encoder.ffmpeg_name());
    match encoder {
        H264Encoder::X264 => {
            push_text(&mut out, "-preset");
            push_text(&mut out, "medium");
            push_text(&mut out, "-crf");
            push_owned(&mut out, q);
            push_text(&mut out, "-pix_fmt");
            push_text(&mut out, "yuv420p");
        },
        H264Encoder::Nvenc => {
            push_text(&mut out, "-preset");
            push_text(&mut out, "p5");
            push_text(&mut out, "-rc");
            push_text(&mut out, "vbr");
            push_text(&mut out, "-cq");
            push_owned(&mut out, q);
            push_text(&mut out, "-b:v");
            push_text(&mut out, "0");
            push_text(&mut out, "-pix_fmt");
            push_text(&mut out, "yuv420p");
        },
        H264Encoder::Vaapi { .. } => {
            push_text(&mut out, "-rc_mode");
            push_text(&mut out, "CQP");
            push_text(&mut out, "-qp");
            push_owned(&mut out, q);
        },
    }
    // Uniform GOP and colorimetry signaling (sources with differing tags
    // would otherwise produce mismatched SPS across segments).
    push_text(&mut out, "-g");
    push_owned(&mut out, dec_text(spec.gop as u64));
    push_text(&mut out, "-colorspace");
    push_text(&mut out, "bt709");
    push_text(&mut out, "-color_primaries");
    push_text(&mut out, "bt709");
    push_text(&mut out, "-color_trc");
    push_text(&mut out, "bt709");
    push_text(&mut out, "-fps_mode");
    push_text(&mut out, "cfr");
    proof {
        assert(strings::views(out@) =~= encoder_arg_views(*spec, *encoder));
    }
    out
}

/// The device arguments that come first for VAAPI.
pub open spec fn device_arg_views(encoder: H264Encoder) -> Seq<Seq<char>> {
    match encoder {
        H264Encoder::Vaapi { device } => seq!["-vaapi_device"@, device@],
        _ => Seq::empty(),
    }
}

/// Full argument list encoding one planned segment to `dst`.
pub open spec fn segment_arg_views(
    spec: ExportSpec,
    encoder: H264Encoder,
    segment: PlannedSegment,
    timing: ClipTiming,
    dst: Seq<char>,
) -> Seq<Seq<char>> {
    let vaapi = encoder is Vaapi;
    let input = match segment.source {
        SegmentSource::Clip { path, .. } => seq![
            "-ss"@, timing.source_in@, "-t"@, timing.read_span@, "-i"@, path@, "-vf"@,
            filter_text(spec, opt_view(timing.speed), vaapi),
        ],
        SegmentSource::Black => {
            let color = seq![
                "-f"@, "lavfi"@, "-i"@,
                "color=black:size="@ + size_text(spec) + ":rate="@ + spec.fps_text@,
            ];
            if vaapi {
                color + seq!["-vf"@, "format=nv12,hwupload"@]
            } else {
                color
            }
        },
    };
    device_arg_views(encoder) + input + seq![
        "-frames:v"@, strings::dec_int(segment.end_frame - segment.start_frame),
    ] + encoder_arg_views(spec, encoder) + seq!["-an"@, "-y"@, dst]
}

fn device_args(encoder: &H264Encoder) -> (out: Vec<String>)
    ensures
        strings::views(out@) == device_arg_views(*encoder),
{
    let mut out: Vec<String> = Vec::new();
    if let H264Encoder::Vaapi { device } = encoder {
        push_text(&mut out, "-vaapi_device");
        push_text(&mut out, device.as_str());
    }
    proof {
        assert(strings::views(out@) =~= device_arg_views(*encoder));
    }
    out
}

fn is_vaapi(encoder: &H264Encoder) -> (out: bool)
    ensures
        out == (*encoder is Vaapi),
{
    match encoder {
        H264Encoder::Vaapi { .. } => true,
        _ => false,
    }
}

/// Full argument list encoding one planned segment to `dst`. Clips seek on the
/// input side, which is frame-accurate with a re-encode; gaps come from a
/// black source.
pub fn segment_args(
    spec: &ExportSpec,
    encoder: &H264Encoder,
    segment: &PlannedSegment,
    timing: &ClipTiming,
    dst: &str,
) -> (out: Vec<String>)
    requires
        0 <= segment.start_frame <= segment.end_frame,
    ensures
        strings::views(out@) == segment_arg_views(*spec, *encoder, *segment, *timing, dst@),
{
    let mut out: Vec<String> = device_args(encoder);
    let vaapi = is_vaapi(encoder);
    match &segment.source {
        SegmentSource::Clip { path, .. } => {
            push_text(&mut out, "-ss");
            push_text(&mut out, timing.source_in.as_str());
            push_text(&mut out, "-t");
            push_text(&mut out, timing.read_span.as_str());
            push_text(&mut out, "-i");
            push_text(&mut out, path.as_str());
            push_text(&mut out, "-vf");
            push_owned(&mut out, clip_filter(spec, &timing.speed, vaapi));
        },
        SegmentSource::Black => {
            push_text(&mut out, "-f");
            push_text(&mut out, "lavfi");
            push_text(&mut out, "-i");
            let mut color = "color=black:size=".to_owned();
            color.append(size_of(spec, "x").as_str());
            color.append(":rate=");
            color.append(spec.fps_text.as_str());
            push_owned(&mut out, color);
            if vaapi {
                push_text(&mut out, "-vf");
                push_text(&mut out, "format=nv12,hwupload");
            }
        },
    }
    push_text(&mut out, "-frames:v");
    push_owned(&mut out, dec_int_text(segment.frames()));
    push_all(&mut out, encoder_args(spec, encoder));
    push_text(&mut out, "-an");
    push_text(&mut out, "-y");
    push_text(&mut out, dst);
    proof {
        assert(strings::views(out@) =~= segment_arg_views(
            *spec,
            *encoder,
            *segment,
            *timing,
            dst@,
        ));
    }
    out
}

/// Argument list for the compositor path's single encode process.
pub open spec fn raw_arg_views(
    spec: ExportSpec,
    encoder: H264Encoder,
    wav: Seq<char>,
    dst: Seq<char>,
) -> Seq<Seq<char>> {
    device_arg_views(encoder) + seq![
        "-f"@, "rawvideo"@, "-pix_fmt"@, "rgba"@, "-video_size"@, size_text(spec), "-framerate"@,
        spec.fps_text@, "-i"@, "pipe:0"@, "-i"@, wav, "-map"@, "0:v:0"@, "-map"@, "1:a:0"@, "-vf"@,
        if encoder is Vaapi {
            "scale=out_color_matrix=bt709:out_range=tv,format=nv12,hwupload"@
        } else {
            "scale=out_color_matrix=bt709:out_range=tv,format=yuv420p"@
        },
    ] + encoder_arg_views(spec, encoder) + seq![
        "-c:a"@, "aac"@, "-b:a"@, bitrate_of(spec.quality), "-movflags"@, "+faststart"@, "-f"@,
        "mp4"@, "-y"@, dst,
    ]
}

/// Argument list for the compositor path's single encode process: rawvideo
/// RGBA frames on stdin plus the audio WAV, one pass to the final (`.part`)
/// MP4. RGB to YUV conversion is pinned to bt709/limited range so the
/// colorimetry matches the fast path's segments.
pub fn raw_export_args(spec: &ExportSpec, encoder: &H264Encoder, wav: &str, dst: &str) -> (out: Vec<
    String,
>)
    ensures
        strings::views(out@) == raw_arg_views(*spec, *encoder, wav@, dst@),
{
    let mut out: Vec<String> = device_args(encoder);
    push_text(&mut out, "-f");
    push_text(&mut out, "rawvideo");
    push_text(&mut out, "-pix_fmt");
    push_text(&mut out, "rgba");
    push_text(&mut out, "-video_size");
    push_owned(&mut out, size_of(spec, "x"));
    push_text(&mut out, "-framerate");
    push_text(&mut out, spec.fps_text.as_str());
    push_text(&mut out, "-i");
    push_text(&mut out, "pipe:0");
    push_text(&mut out, "-i");
    push_text(&mut out, wav);
    push_text(&mut out, "-map");
    push_text(&mut out, "0:v:0");
    push_text(&mut out, "-map");
    push_text(&mut out, "1:a:0");
    push_text(&mut out, "-vf");
    if is_vaapi(encoder) {
        push_text(&mut out, "scale=out_color_matrix=bt709:out_range=tv,format=nv12,hwupload");
    } else {
        push_text(&mut out, "scale=out_color_matrix=bt709:out_range=tv,format=yuv420p");
    }
    push_all(&mut out, encoder_args(spec, encoder));
    push_text(&mut out, "-c:a");
    push_text(&mut out, "aac");
    push_text(&mut out, "-b:a");
    push_text(&mut out, spec.quality.audio_bitrate());
    push_text(&mut out, "-movflags");
    push_text(&mut out, "+faststart");
    // The `.part` name hides the container from extension sniffing.
    push_text(&mut out, "-f");
    push_text(&mut out, "mp4");
    push_text(&mut out, "-y");
    push_text(&mut out, dst);
    proof {
        assert(strings::views(out@) =~= raw_arg_views(*spec, *encoder, wav@, dst@));
    }
    out
}

/// Argument list for the final pass.
pub open spec fn mux_arg_views(
    spec: ExportSpec,
    list: Seq<char>,
    wav: Seq<char>,
    dst: Seq<char>,
) -> Seq<Seq<char>> {
    seq![
        "-f"@, "concat"@, "-safe"@, "0"@, "-i"@, list, "-i"@, wav, "-map"@, "0:v:0"@, "-map"@,
        "1:a:0"@, "-c:v"@, "copy"@, "-c:a"@, "aac"@, "-b:a"@, bitrate_of(spec.quality),
        "-movflags"@, "+faststart"@, "-f"@, "mp4"@, "-y"@, dst,
    ]
}

/// Argument list for the final pass: concat the segments (stream copy, as they
/// are encode-identical by construction) and mux in the audio mix.
pub fn mux_args(spec: &ExportSpec, list: &str, wav: &str, dst: &str) -> (out: Vec<String>)
    ensures
        strings::views(out@) == mux_arg_views(*spec, list@, wav@, dst@),
{
    let mut out: Vec<String> = Vec::new();
    proof {
        assert(strings::views(out@) =~= Seq::<Seq<char>>::empty());
    }
    push_text(&mut out, "-f");
    push_text(&mut out, "concat");
    push_text(&mut out, "-safe");
    push_text(&mut out, "0");
    push_text(&mut out, "-i");
    push_text(&mut out, list);
    push_text(&mut out, "-i");
    push_text(&mut out, wav);
    push_text(&mut out, "-map");
    push_text(&mut out, "0:v:0");
    push_text(&mut out, "-map");
    push_text(&mut out, "1:a:0");
    push_text(&mut out, "-c:v");
    push_text(&mut out, "copy");
    push_text(&mut out, "-c:a");
    push_text(&mut out, "aac");
    push_text(&mut out, "-b:a");
    push_text(&mut out, spec.quality.audio_bitrate());
    push_text(&mut out, "-movflags");
    push_text(&mut out, "+faststart");
    push_text(&mut out, "-f");
    push_text(&mut out, "mp4");
    push_text(&mut out, "-y");
    push_text(&mut out, dst);
    out
}

/// A text inside single quotes: each quote in it is closed, escaped, and
/// reopened.
pub open spec fn escaped(s: Seq<char>) -> Seq<char>
    decreases s.len(),
{
    if s.len() == 0 {
        Seq::empty()
    } else if s.last() == '\'' {
        escaped(s.drop_last()) + seq!['\'', '\\', '\'', '\'']
    } else {
        escaped(s.drop_last()).push(s.last())
    }
}

/// The list file naming `paths` in order.
pub open spec fn list_body(paths: Seq<Seq<char>>) -> Seq<char>
    decreases paths.len(),
{
    if paths.len() == 0 {
        Seq::empty()
    } else {
        list_body(paths.drop_last()) + "file '"@ + escaped(paths.last()) + "'\n"@
    }
}

fn push_escaped(out: &mut String, path: &str)
    ensures
        final(out)@ == old(out)@ + escaped(path@),
{
    let s = chars_of(path);
    let ghost start = out@;
    proof {
        assert(start + escaped(path@.take(0)) =~= start);
    }
    for i in 0..s.len()
        invariant
            s@ == path@,
            out@ == start + escaped(path@.take(i as int)),
    {
        proof {
            assert(path@.take(i + 1).drop_last() =~= path@.take(i as int));
        }
        if s[i] == '\'' {
            out.push('\'');
            out.push('\\');
            out.push('\'');
            out.push('\'');
        } else {
            out.push(s[i]);
        }
        proof {
            assert(out@ =~= start + escaped(path@.take(i + 1)));
        }
    }
    proof {
        assert(path@.take(path@.len() as int) =~= path@);
    }
}

/// Concat-demuxer list file body. Single quotes in paths are closed, escaped,
/// and reopened per the demuxer's quoting rules.
pub fn concat_list(paths: &Vec<String>) -> (out: String)
    ensures
        out@ == list_body(strings::views(paths@)),
{
    let mut out = String::new();
    let ghost all = strings::views(paths@);
    for i in 0..paths.len()
        invariant
            all == strings::views(paths@),
            out@ == list_body(all.take(i as int)),
    {
        proof {
            assert(all.take(i + 1).drop_last() =~= all.take(i as int));
        }
        out.append("file '");
        push_escaped(&mut out, paths[i].as_str());
        out.append("'\n");
    }
    proof {
        assert(all.take(all.len() as int) =~= all);
    }
    out
}

/// Reading a quoted text back: `'` closes, `\'` outside quotes is a quote.
/// `None` where a backslash is followed by anything else, or the text ends
/// inside quotes.
pub open spec fn unquoted(s: Seq<char>, inside: bool) -> Option<Seq<char>>
    decreases s.len(),
{
    if s.len() == 0 {
        if inside {
            None
        } else {
            Some(Seq::empty())
        }
    } else if s[0] == '\'' {
        unquoted(s.drop_first(), !inside)
    } else if inside {
        match unquoted(s.drop_first(), true) {
            Some(rest) => Some(seq![s[0]] + rest),
            None => None,
        }
    } else if s[0] == '\\' && s.len() >= 2 && s[1] == '\'' {
        match unquoted(s.skip(2), false) {
            Some(rest) => Some(seq!['\''] + rest),
            None => None,
        }
    } else {
        None
    }
}

proof fn lemma_unquote_escaped(path: Seq<char>, rest: Seq<char>)
    ensures
        unquoted(escaped(path) + rest, true) == match unquoted(rest, true) {
            Some(tail) => Some(path + tail),
            None => None,
        },
    decreases path.len(),
{
    if path.len() == 0 {
        assert(escaped(path) + rest =~= rest);
        if let Some(tail) = unquoted(rest, true) {
            assert(path + tail =~= tail);
        }
    } else {
        let init = path.drop_last();
        let c = path.last();
        if c == '\'' {
            let tail = seq!['\'', '\\', '\'', '\''] + rest;
            assert(escaped(path) + rest =~= escaped(init) + tail);
            lemma_unquote_escaped(init, tail);
            let t1 = tail.drop_first();
            assert(t1[0] == '\\' && t1[1] == '\'');
            let t3 = t1.skip(2);
            assert(t3[0] == '\'');
            assert(t3.drop_first() =~= rest);
            assert(unquoted(t3, false) == unquoted(rest, true));
            assert(unquoted(tail, true) == unquoted(t1, false));
            assert(unquoted(t1, false) == match unquoted(t3, false) {
                Some(end) => Some(seq!['\''] + end),
                None => None,
            });
            if let Some(end) = unquoted(rest, true) {
                assert(init + (seq!['\''] + end) =~= path + end);
            }
        } else {
            let tail = seq![c] + rest;
            assert(escaped(path) + rest =~= escaped(init) + tail);
            lemma_unquote_escaped(init, tail);
            assert(tail.drop_first() =~= rest);
            assert(tail[0] == c);
            assert(unquoted(tail, true) == match unquoted(rest, true) {
                Some(end) => Some(seq![c] + end),
                None => None,
            });
            if let Some(end) = unquoted(rest, true) {
                assert(init + (seq![c] + end) =~= path + end);
            }
        }
    }
}

/// What stands between the quotes of a list line reads back as the path.
pub proof fn law_quoting_reads_back(path: Seq<char>)
    ensures
        unquoted(seq!['\''] + escaped(path) + seq!['\''], false) == Some(path),
{
    let whole = seq!['\''] + escaped(path) + seq!['\''];
    assert(whole.drop_first() =~= escaped(path) + seq!['\'']);
    lemma_unquote_escaped(path, seq!['\'']);
    let end = seq!['\''];
    assert(end.drop_first() =~= Seq::<char>::empty());
    assert(unquoted(Seq::<char>::empty(), false) == Some(Seq::<char>::empty()));
    assert(unquoted(end, true) == Some(Seq::<char>::empty()));
    assert(path + Seq::<char>::empty() =~= path);
}

// ---------------------------------------------------------------------
// What ffmpeg is told
// ---------------------------------------------------------------------

/// The option that carries an encoder's quality value.
pub open spec fn quality_option(encoder: H264Encoder) -> Seq<char> {
    match encoder {
        H264Encoder::X264 => "-crf"@,
        H264Encoder::Nvenc => "-cq"@,
        H264Encoder::Vaapi { .. } => "-qp"@,
    }
}

/// The tier that an export asks for reaches the encoder: on every encoder the
/// quality value of a higher tier is a strictly lower (better) number.
pub proof fn law_quality_reaches_the_encoder(
    high: ExportSpec,
    medium: ExportSpec,
    small: ExportSpec,
    encoder: H264Encoder,
)
    requires
        high.quality is High,
        medium.quality is Medium,
        small.quality is Small,
    ensures
        exists|h: nat, m: nat, s: nat|
            #![trigger strings::dec(h), strings::dec(m), strings::dec(s)]
            h < m < s && strings::says(
                encoder_arg_views(high, encoder),
                quality_option(encoder),
                strings::dec(h),
            ) && strings::says(
                encoder_arg_views(medium, encoder),
                quality_option(encoder),
                strings::dec(m),
            ) && strings::says(
                encoder_arg_views(small, encoder),
                quality_option(encoder),
                strings::dec(s),
            ),
{
    let h = quality_knob(ExportQuality::High, encoder) as nat;
    let m = quality_knob(ExportQuality::Medium, encoder) as nat;
    let s = quality_knob(ExportQuality::Small, encoder) as nat;
    lemma_quality_said(high, encoder);
    lemma_quality_said(medium, encoder);
    lemma_quality_said(small, encoder);
    assert(h < m < s);
    assert(strings::says(encoder_arg_views(high, encoder), quality_option(encoder), strings::dec(h)));
    assert(strings::says(
        encoder_arg_views(medium, encoder),
        quality_option(encoder),
        strings::dec(m),
    ));
    assert(strings::says(
        encoder_arg_views(small, encoder),
        quality_option(encoder),
        strings::dec(s),
    ));
}

proof fn lemma_quality_said(spec: ExportSpec, encoder: H264Encoder)
    ensures
        strings::says(
            encoder_arg_views(spec, encoder),
            quality_option(encoder),
            strings::dec(quality_knob(spec.quality, encoder) as nat),
        ),
{
    let args = encoder_arg_views(spec, encoder);
    match encoder {
        H264Encoder::X264 => strings::lemma_says(args, 4),
        H264Encoder::Nvenc => strings::lemma_says(args, 6),
        H264Encoder::Vaapi { .. } => strings::lemma_says(args, 4),
    }
}

/// The quality values themselves: CRF 18, 23 and 28 in software, one notch
/// more on the upper tiers in hardware.
pub proof fn law_quality_values(spec: ExportSpec, encoder: H264Encoder)
    ensures
        strings::says(
            encoder_arg_views(spec, encoder),
            quality_option(encoder),
            match (spec.quality, encoder) {
                (ExportQuality::High, H264Encoder::X264) => "18"@,
                (ExportQuality::High, _) => "19"@,
                (ExportQuality::Medium, H264Encoder::X264) => "23"@,
                (ExportQuality::Medium, _) => "24"@,
                (ExportQuality::Small, _) => "28"@,
            },
        ),
{
    lemma_quality_said(spec, encoder);
    reveal_with_fuel(strings::dec, 3);
    reveal_strlit("18");
    reveal_strlit("19");
    reveal_strlit("23");
    reveal_strlit("24");
    reveal_strlit("28");
    assert(strings::dec(18) =~= "18"@);
    assert(strings::dec(19) =~= "19"@);
    assert(strings::dec(23) =~= "23"@);
    assert(strings::dec(24) =~= "24"@);
    assert(strings::dec(28) =~= "28"@);
}

/// Every encode names its encoder, the keyframe distance asked for, bt709
/// colors and a constant frame rate; software and NVENC encodes are 4:2:0; and
/// nothing else is said.
pub proof fn law_encoder_is_told(spec: ExportSpec, encoder: H264Encoder)
    ensures
        ({
            let args = encoder_arg_views(spec, encoder);
            &&& strings::says(
                args,
                "-c:v"@,
                match encoder {
                    H264Encoder::X264 => "libx264"@,
                    H264Encoder::Nvenc => "h264_nvenc"@,
                    H264Encoder::Vaapi { .. } => "h264_vaapi"@,
                },
            )
            &&& strings::says(args, "-g"@, strings::dec(spec.gop as nat))
            &&& strings::says(args, "-colorspace"@, "bt709"@)
            &&& strings::says(args, "-color_primaries"@, "bt709"@)
            &&& strings::says(args, "-color_trc"@, "bt709"@)
            &&& strings::says(args, "-fps_mode"@, "cfr"@)
            &&& encoder is X264 ==> args.len() == 18 && strings::says(args, "-preset"@, "medium"@)
                && strings::says(args, "-pix_fmt"@, "yuv420p"@)
            &&& encoder is Nvenc ==> args.len() == 22 && strings::says(args, "-preset"@, "p5"@)
                && strings::says(args, "-rc"@, "vbr"@) && strings::says(args, "-b:v"@, "0"@)
                && strings::says(args, "-pix_fmt"@, "yuv420p"@)
            &&& encoder is Vaapi ==> args.len() == 16 && strings::says(args, "-rc_mode"@, "CQP"@)
        }),
{
    let args = encoder_arg_views(spec, encoder);
    let n = args.len() as int;
    strings::lemma_says(args, 0);
    strings::lemma_says(args, 2);
    strings::lemma_says(args, 4);
    strings::lemma_says(args, 6);
    if encoder is Nvenc {
        strings::lemma_says(args, 8);
        strings::lemma_says(args, 10);
    }
    strings::lemma_says(args, n - 10);
    strings::lemma_says(args, n - 8);
    strings::lemma_says(args, n - 6);
    strings::lemma_says(args, n - 4);
    strings::lemma_says(args, n - 2);
}

/// The audio bitrate falls with the tier, on both video paths.
pub proof fn law_bitrate_follows_the_tier(
    spec: ExportSpec,
    encoder: H264Encoder,
    list: Seq<char>,
    wav: Seq<char>,
    dst: Seq<char>,
)
    ensures
        ({
            let rate = match spec.quality {
                ExportQuality::High => "192k"@,
                ExportQuality::Medium => "160k"@,
                ExportQuality::Small => "128k"@,
            };
            &&& strings::says(mux_arg_views(spec, list, wav, dst), "-b:a"@, rate)
            &&& strings::says(raw_arg_views(spec, encoder, wav, dst), "-b:a"@, rate)
        }),
{
    strings::lemma_says(mux_arg_views(spec, list, wav, dst), 16);
    let raw = raw_arg_views(spec, encoder, wav, dst);
    strings::lemma_says(raw, raw.len() - 8);
}

/// A clip segment is read from its own file, from its source position on and
/// for as long as asked; a gap is a black picture of the target's size and
/// rate. Either way exactly the segment's frames are encoded, without audio,
/// to the file asked for, and every segment of an export with the very same
/// encoder options (which is what makes joining them without a re-encode
/// safe).
pub proof fn law_segments_are_encoded_alike(
    spec: ExportSpec,
    encoder: H264Encoder,
    segment: PlannedSegment,
    timing: ClipTiming,
    dst: Seq<char>,
)
    ensures
        ({
            let args = segment_arg_views(spec, encoder, segment, timing, dst);
            let own = encoder_arg_views(spec, encoder);
            let device: int = if encoder is Vaapi {
                2
            } else {
                0
            };
            &&& encoder matches H264Encoder::Vaapi { device: d } ==> args[0] == "-vaapi_device"@
                && args[1] == d@
            &&& segment.source matches SegmentSource::Clip { path, .. } ==> args.subrange(
                device,
                device + 7,
            ) == seq![
                "-ss"@,
                timing.source_in@,
                "-t"@,
                timing.read_span@,
                "-i"@,
                path@,
                "-vf"@,
            ] && args.len() == device + 8 + 2 + own.len() + 3
            &&& segment.source is Black ==> args.subrange(device, device + 4) == seq![
                "-f"@,
                "lavfi"@,
                "-i"@,
                "color=black:size="@ + strings::dec(spec.width as nat) + "x"@ + strings::dec(
                    spec.height as nat,
                ) + ":rate="@ + spec.fps_text@,
            ]
            &&& strings::says(
                args,
                "-frames:v"@,
                strings::dec_int(segment.end_frame - segment.start_frame),
            )
            &&& args.subrange(args.len() - 3 - own.len(), args.len() - 3) == own
            &&& args.subrange(args.len() - 3, args.len() as int) == seq!["-an"@, "-y"@, dst]
        }),
{
    let args = segment_arg_views(spec, encoder, segment, timing, dst);
    let own = encoder_arg_views(spec, encoder);
    let n = args.len() as int;
    let size = size_text(spec);
    assert("color=black:size="@ + size + ":rate="@ + spec.fps_text@ =~= "color=black:size="@
        + strings::dec(spec.width as nat) + "x"@ + strings::dec(spec.height as nat) + ":rate="@
        + spec.fps_text@);
    strings::lemma_says(args, n - 3 - own.len() - 2);
    assert(args.subrange(n - 3 - own.len(), n - 3) =~= own);
    assert(args.subrange(n - 3, n) =~= seq!["-an"@, "-y"@, dst]);
    let device: int = if encoder is Vaapi {
        2
    } else {
        0
    };
    match segment.source {
        SegmentSource::Clip { path, .. } => {
            assert(args.subrange(device, device + 7) =~= seq![
                "-ss"@,
                timing.source_in@,
                "-t"@,
                timing.read_span@,
                "-i"@,
                path@,
                "-vf"@,
            ]);
        },
        SegmentSource::Black => {
            assert(args.subrange(device, device + 4) =~= seq![
                "-f"@,
                "lavfi"@,
                "-i"@,
                "color=black:size="@ + strings::dec(spec.width as nat) + "x"@ + strings::dec(
                    spec.height as nat,
                ) + ":rate="@ + spec.fps_text@,
            ]);
        },
    }
}

/// A clip's picture is brought to the target: sped up by its speed, at the
/// target's rate, fitted into and padded to the target's size, its last frame
/// held for as long as it takes, and uploaded where the encoder is VAAPI.
pub proof fn law_clips_are_fitted(spec: ExportSpec, speed: Option<Seq<char>>, vaapi: bool)
    ensures
        ({
            let text = filter_text(spec, speed, vaapi);
            let size = strings::dec(spec.width as nat) + ":"@ + strings::dec(spec.height as nat);
            &&& speed matches Some(s) ==> strings::begins(
                text,
                "setpts=(PTS-STARTPTS)/"@ + s + ",fps="@ + spec.fps_text@ + ","@,
            )
            &&& speed is None ==> strings::begins(
                text,
                "setpts=PTS-STARTPTS"@ + ",fps="@ + spec.fps_text@ + ","@,
            )
            &&& strings::holds_text(
                text,
                "scale="@ + size + ":force_original_aspect_ratio=decrease"@,
            )
            &&& strings::holds_text(text, "pad="@ + size + ":(ow-iw)/2:(oh-ih)/2:color=black"@)
            &&& strings::holds_text(text, "tpad=stop_mode=clone:stop=-1"@)
            &&& vaapi ==> text.skip(text.len() - ",format=nv12,hwupload"@.len())
                == ",format=nv12,hwupload"@
            &&& !vaapi ==> text.skip(text.len() - "tpad=stop_mode=clone:stop=-1"@.len())
                == "tpad=stop_mode=clone:stop=-1"@
        }),
{
    let text = filter_text(spec, speed, vaapi);
    let size = pair_text(spec);
    let end = if vaapi {
        ",format=nv12,hwupload"@
    } else {
        Seq::<char>::empty()
    };
    let head = match speed {
        Some(s) => "setpts=(PTS-STARTPTS)/"@ + s,
        None => "setpts=PTS-STARTPTS"@,
    };
    reveal_strlit(",scale=");
    reveal_strlit(",");
    reveal_strlit("scale=");
    reveal_strlit("pad=");
    reveal_strlit(":force_original_aspect_ratio=decrease");
    reveal_strlit(
        ":force_original_aspect_ratio=decrease:force_divisible_by=2:out_color_matrix=bt709,pad=",
    );
    reveal_strlit(":(ow-iw)/2:(oh-ih)/2:color=black");
    reveal_strlit(":(ow-iw)/2:(oh-ih)/2:color=black,setsar=1,tpad=stop_mode=clone:stop=-1");
    reveal_strlit("tpad=stop_mode=clone:stop=-1");
    reveal_strlit(",format=nv12,hwupload");
    let fit = ":force_original_aspect_ratio=decrease:force_divisible_by=2:out_color_matrix=bt709,pad="@;
    let tail = ":(ow-iw)/2:(oh-ih)/2:color=black,setsar=1,tpad=stop_mode=clone:stop=-1"@;
    let short = ":force_original_aspect_ratio=decrease"@;
    let center = ":(ow-iw)/2:(oh-ih)/2:color=black"@;
    let hold = "tpad=stop_mode=clone:stop=-1"@;
    let front = head + ",fps="@ + spec.fps_text@;
    assert(text =~= front + ",scale="@ + size + fit + size + tail + end);
    let start = front + ","@;
    assert(text.take(start.len() as int) =~= start);
    assert(fit.take(short.len() as int) =~= short);
    assert(tail.take(center.len() as int) =~= center);
    assert(tail.skip(tail.len() - hold.len()) =~= hold);
    let a = start;
    let b = fit.skip(short.len() as int) + size + tail + end;
    assert(a + ("scale="@ + size + short) + b =~= text);
    strings::lemma_holds_text(a, "scale="@ + size + short, b);
    let fit_head = fit.take(fit.len() - 4);
    assert(fit.skip(fit.len() - 4) =~= "pad="@);
    let a2 = front + ",scale="@ + size + fit_head;
    let b2 = tail.skip(center.len() as int) + end;
    assert(a2 + ("pad="@ + size + center) + b2 =~= text);
    strings::lemma_holds_text(a2, "pad="@ + size + center, b2);
    let a3 = front + ",scale="@ + size + fit + size + tail.take(tail.len() - hold.len());
    assert(a3 + hold + end =~= text);
    strings::lemma_holds_text(a3, hold, end);
    if vaapi {
        assert(text.skip(text.len() - end.len()) =~= end);
    } else {
        assert(text.skip(text.len() - hold.len()) =~= hold);
    }
}

/// The compositor's frames are read from the pipe as raw RGBA of the target's
/// size and rate, the sound from the mix; both go, in this order, to one MP4
/// at the place asked for, converted to bt709.
pub proof fn law_composited_frames_are_encoded(
    spec: ExportSpec,
    encoder: H264Encoder,
    wav: Seq<char>,
    dst: Seq<char>,
)
    ensures
        ({
            let args = raw_arg_views(spec, encoder, wav, dst);
            let own = encoder_arg_views(spec, encoder);
            let d: int = if encoder is Vaapi {
                2
            } else {
                0
            };
            &&& encoder matches H264Encoder::Vaapi { device } ==> args[0] == "-vaapi_device"@
                && args[1] == device@
            &&& args.len() == d + 18 + own.len() + 10
            &&& args.subrange(d, d + 8) == seq![
                "-f"@,
                "rawvideo"@,
                "-pix_fmt"@,
                "rgba"@,
                "-video_size"@,
                strings::dec(spec.width as nat) + "x"@ + strings::dec(spec.height as nat),
                "-framerate"@,
                spec.fps_text@,
            ]
            &&& args.subrange(d + 8, d + 16) == seq![
                "-i"@,
                "pipe:0"@,
                "-i"@,
                wav,
                "-map"@,
                "0:v:0"@,
                "-map"@,
                "1:a:0"@,
            ]
            &&& args[d + 16] == "-vf"@
            &&& args[d + 17] == (if encoder is Vaapi {
                "scale=out_color_matrix=bt709:out_range=tv,format=nv12,hwupload"@
            } else {
                "scale=out_color_matrix=bt709:out_range=tv,format=yuv420p"@
            })
            &&& args.subrange(d + 18, d + 18 + own.len()) == own
            &&& strings::says(args, "-c:a"@, "aac"@)
            &&& strings::says(args, "-movflags"@, "+faststart"@)
            &&& args.subrange(args.len() - 4, args.len() as int) == seq!["-f"@, "mp4"@, "-y"@, dst]
        }),
{
    let args = raw_arg_views(spec, encoder, wav, dst);
    let own = encoder_arg_views(spec, encoder);
    let n = args.len() as int;
    let d: int = if encoder is Vaapi {
        2
    } else {
        0
    };
    assert(args.subrange(d, d + 8) =~= seq![
        "-f"@,
        "rawvideo"@,
        "-pix_fmt"@,
        "rgba"@,
        "-video_size"@,
        strings::dec(spec.width as nat) + "x"@ + strings::dec(spec.height as nat),
        "-framerate"@,
        spec.fps_text@,
    ]);
    assert(args.subrange(d + 8, d + 16) =~= seq![
        "-i"@,
        "pipe:0"@,
        "-i"@,
        wav,
        "-map"@,
        "0:v:0"@,
        "-map"@,
        "1:a:0"@,
    ]);
    assert(args.subrange(d + 18, d + 18 + own.len()) =~= own);
    strings::lemma_says(args, n - 10);
    strings::lemma_says(args, n - 6);
    assert(args.subrange(n - 4, n) =~= seq!["-f"@, "mp4"@, "-y"@, dst]);
}

/// The segments are joined in the order of the list file without touching
/// their pictures, the sound of the mix is put to them, and the result goes to
/// the place asked for.
pub proof fn law_segments_are_joined(
    spec: ExportSpec,
    list: Seq<char>,
    wav: Seq<char>,
    dst: Seq<char>,
)
    ensures
        ({
            let args = mux_arg_views(spec, list, wav, dst);
            &&& args.len() == 24
            &&& args.subrange(0, 12) == seq![
                "-f"@,
                "concat"@,
                "-safe"@,
                "0"@,
                "-i"@,
                list,
                "-i"@,
                wav,
                "-map"@,
                "0:v:0"@,
                "-map"@,
                "1:a:0"@,
            ]
            &&& strings::says(args, "-c:v"@, "copy"@)
            &&& strings::says(args, "-c:a"@, "aac"@)
            &&& strings::says(args, "-movflags"@, "+faststart"@)
            &&& args.subrange(20, 24) == seq!["-f"@, "mp4"@, "-y"@, dst]
        }),
{
    let args = mux_arg_views(spec, list, wav, dst);
    assert(args.subrange(0, 12) =~= seq![
        "-f"@,
        "concat"@,
        "-safe"@,
        "0"@,
        "-i"@,
        list,
        "-i"@,
        wav,
        "-map"@,
        "0:v:0"@,
        "-map"@,
        "1:a:0"@,
    ]);
    strings::lemma_says(args, 12);
    strings::lemma_says(args, 14);
    strings::lemma_says(args, 18);
    assert(args.subrange(20, 24) =~= seq!["-f"@, "mp4"@, "-y"@, dst]);
}

/// Reading the quoted text of a list line: the path, and what follows the end
/// of the line.
pub open spec fn read_path(s: Seq<char>, inside: bool) -> Option<(Seq<char>, Seq<char>)>
    decreases s.len(),
{
    if s.len() == 0 {
        None
    } else if !inside && s[0] == '\n' {
        Some((Seq::empty(), s.skip(1)))
    } else if s[0] == '\'' {
        read_path(s.skip(1), !inside)
    } else if inside {
        match read_path(s.skip(1), true) {
            Some((path, rest)) => Some((seq![s[0]] + path, rest)),
            None => None,
        }
    } else if s[0] == '\\' && s.len() >= 2 && s[1] == '\'' {
        match read_path(s.skip(2), false) {
            Some((path, rest)) => Some((seq!['\''] + path, rest)),
            None => None,
        }
    } else {
        None
    }
}

/// A list file is read line by line: `file `, then a quoted path.
pub open spec fn reads_as(s: Seq<char>, paths: Seq<Seq<char>>) -> bool
    decreases paths.len(),
{
    if paths.len() == 0 {
        s.len() == 0
    } else {
        strings::begins(s, "file "@) && match read_path(s.skip(5), false) {
            Some((path, rest)) => path == paths[0] && reads_as(rest, paths.drop_first()),
            None => false,
        }
    }
}

proof fn lemma_read_escaped(path: Seq<char>, rest: Seq<char>)
    ensures
        read_path(escaped(path) + rest, true) == match read_path(rest, true) {
            Some((tail, left)) => Some((path + tail, left)),
            None => None,
        },
    decreases path.len(),
{
    if path.len() == 0 {
        assert(escaped(path) + rest =~= rest);
        if let Some((tail, left)) = read_path(rest, true) {
            assert(path + tail =~= tail);
        }
    } else {
        let init = path.drop_last();
        let c = path.last();
        if c == '\'' {
            let tail = seq!['\'', '\\', '\'', '\''] + rest;
            assert(escaped(path) + rest =~= escaped(init) + tail);
            lemma_read_escaped(init, tail);
            let t1 = tail.skip(1);
            assert(t1[0] == '\\' && t1[1] == '\'');
            let t3 = t1.skip(2);
            assert(t3[0] == '\'');
            assert(t3.skip(1) =~= rest);
            assert(read_path(t3, false) == read_path(rest, true));
            assert(read_path(tail, true) == read_path(t1, false));
            if let Some((end, left)) = read_path(rest, true) {
                assert(init + (seq!['\''] + end) =~= path + end);
            }
        } else {
            let tail = seq![c] + rest;
            assert(escaped(path) + rest =~= escaped(init) + tail);
            lemma_read_escaped(init, tail);
            assert(tail.skip(1) =~= rest);
            assert(tail[0] == c);
            if let Some((end, left)) = read_path(rest, true) {
                assert(init + (seq![c] + end) =~= path + end);
            }
        }
    }
}

proof fn lemma_list_front(paths: Seq<Seq<char>>)
    requires
        paths.len() > 0,
    ensures
        list_body(paths) == "file '"@ + escaped(paths[0]) + "'\n"@ + list_body(paths.drop_first()),
    decreases paths.len(),
{
    let line = |p: Seq<char>| "file '"@ + escaped(p) + "'\n"@;
    if paths.len() == 1 {
        assert(paths.drop_last() =~= Seq::<Seq<char>>::empty());
        assert(paths.drop_first() =~= Seq::<Seq<char>>::empty());
        assert(list_body(paths) =~= "file '"@ + escaped(paths[0]) + "'\n"@ + list_body(
            paths.drop_first(),
        ));
    } else {
        let init = paths.drop_last();
        lemma_list_front(init);
        assert(init[0] == paths[0]);
        assert(init.drop_first() =~= paths.drop_first().drop_last());
        assert(paths.drop_first().last() == paths.last());
        assert(list_body(paths) =~= "file '"@ + escaped(paths[0]) + "'\n"@ + list_body(
            paths.drop_first(),
        ));
    }
}

/// The list file names every path, once and in order, whatever characters it
/// holds: a reader of the format gets exactly the paths back.
pub proof fn law_list_file_reads_back(paths: Seq<Seq<char>>)
    ensures
        reads_as(list_body(paths), paths),
    decreases paths.len(),
{
    if paths.len() > 0 {
        let rest = paths.drop_first();
        law_list_file_reads_back(rest);
        lemma_list_front(paths);
        let s = list_body(paths);
        reveal_strlit("file '");
        reveal_strlit("file ");
        reveal_strlit("'\n");
        assert(s.take(5) =~= "file "@);
        let after = s.skip(5);
        assert(after[0] == '\'');
        let tail = "'\n"@ + list_body(rest);
        assert(after.skip(1) =~= escaped(paths[0]) + tail);
        lemma_read_escaped(paths[0], tail);
        assert(tail[0] == '\'');
        let line_end = tail.skip(1);
        assert(line_end[0] == '\n');
        assert(line_end.skip(1) =~= list_body(rest));
        assert(read_path(line_end, false) == Some((Seq::<char>::empty(), list_body(rest))));
        assert(read_path(tail, true) == Some((Seq::<char>::empty(), list_body(rest))));
        assert(paths[0] + Seq::<char>::empty() =~= paths[0]);
        assert(read_path(after, false) == read_path(after.skip(1), true));
    }
}

} // verus!
