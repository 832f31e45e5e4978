//! 720p proxy generation.
//!
//! Proxies are H.264/AAC MP4s constrained to fit 1280 x 720, with a dense
//! keyframe interval so playback seeks stay under the 100 ms budget. An
//! interrupted encode never poisons the cache: a proxy is written to a `.part`
//! file and renamed on success.

use vstd::prelude::*;
use vstd::string::*;

use crate::error::MediaError;
use crate::ffmpeg_run;
use crate::ffmpeg_run::{Exit, FfmpegRun};
use crate::paths;
use crate::paths::replace_extension;
use crate::strings;
use crate::strings::{chars_of, push_text, split_at_char, string_of};

verus! {

/// The ffmpeg argument list for encoding `src` into a 720p proxy at `dst`.
pub open spec fn proxy_arg_views(src: Seq<char>, dst: Seq<char>) -> Seq<Seq<char>> {
    seq![
        "-i"@, src, "-vf"@,
        "scale='min(1280,iw)':'min(720,ih)':force_original_aspect_ratio=decrease:force_divisible_by=2"@,
        "-c:v"@, "libx264"@, "-preset"@, "veryfast"@, "-crf"@, "23"@, "-pix_fmt"@, "yuv420p"@,
        "-fps_mode"@, "cfr"@, "-g"@, "30"@, "-c:a"@, "aac"@, "-b:a"@, "128k"@, "-ac"@, "2"@, "-y"@,
        dst,
    ]
}

/// The ffmpeg argument list for encoding `src` into a 720p proxy at `dst`.
///
/// - Fits within 1280 x 720 without upscaling, preserving aspect ratio.
/// - Constant frame rate: playback timestamp math assumes frame n is exactly
///   at n/fps.
/// - `-g 30` forces a keyframe at least every 30 frames so seeking any
///   position decodes at most one second of frames.
/// - Audio is normalized to stereo LC-AAC.
pub fn proxy_args(src: &str, dst: &str) -> (out: Vec<String>)
    ensures
        strings::views(out@) == proxy_arg_views(src@, dst@),
{
    let mut out: Vec<String> = Vec::new();
    proof {
        assert(strings::views(out@) =~= Seq::<Seq<char>>::empty());
    }
    push_text(&mut out, "-i");
    push_text(&mut out, src);
    push_text(&mut out, "-vf");
    push_text(
        &mut out,
        "scale='min(1280,iw)':'min(720,ih)':force_original_aspect_ratio=decrease:force_divisible_by=2",
    );
    push_text(&mut out, "-c:v");
    push_text(&mut out, "libx264");
    push_text(&mut out, "-preset");
    push_text(&mut out, "veryfast");
    push_text(&mut out, "-crf");
    push_text(&mut out, "23");
    push_text(&mut out, "-pix_fmt");
    push_text(&mut out, "yuv420p");
    push_text(&mut out, "-fps_mode");
    push_text(&mut out, "cfr");
    push_text(&mut out, "-g");
    push_text(&mut out, "30");
    push_text(&mut out, "-c:a");
    push_text(&mut out, "aac");
    push_text(&mut out, "-b:a");
    push_text(&mut out, "128k");
    push_text(&mut out, "-ac");
    push_text(&mut out, "2");
    push_text(&mut out, "-y");
    push_text(&mut out, dst);
    out
}

/// How a proxy request goes on.
pub enum ProxyPlan {
    /// The cache has it: report completion and hand out the path.
    Cached,
    /// Encode to `part` with these arguments.
    Encode { part: String, args: Vec<String> },
}

/// Decide on a proxy request: a cached proxy is used as it is, another is
/// encoded to its `.part.mp4` sibling first.
pub fn plan_proxy(src: &str, final_path: &str, exists: bool) -> (out: ProxyPlan)
    ensures
        match out {
            ProxyPlan::Cached => exists,
            ProxyPlan::Encode { part, args } => !exists && part@ == paths::with_extension(
                final_path@,
                "part.mp4"@,
            ) && strings::views(args@) == proxy_arg_views(src@, part@),
        },
{
    if exists {
        return ProxyPlan::Cached;
    }
    let part = replace_extension(final_path, "part.mp4");
    let args = proxy_args(src, part.as_str());
    ProxyPlan::Encode { part, args }
}

/// The context that a proxy encode of `src` fails with.
pub open spec fn proxy_context(src: Seq<char>) -> Seq<char> {
    "generating proxy for "@ + src
}

/// What to do once a proxy encode ended.
pub enum ProxyEnd {
    /// Rename the part file into place and report completion.
    Publish,
    /// Delete the part file and fail.
    Discard(MediaError),
    /// Waiting for ffmpeg failed.
    Fail(MediaError),
}

/// A proxy encode starts with no error lines.
pub fn start_proxy(src: &str) -> (out: FfmpegRun)
    ensures
        out.context@ == proxy_context(src@),
        out.errors@.len() == 0,
{
    let mut context = "generating proxy for ".to_owned();
    context.append(src);
    FfmpegRun::new(context)
}

/// Decide what a finished encode means. The exit status is the ground truth.
pub fn end_proxy(run: &FfmpegRun, wait: Result<Exit, String>) -> (out: ProxyEnd)
    ensures
        match (wait, out) {
            (Err(detail), ProxyEnd::Fail(e)) => e == MediaError::Io(detail),
            (Ok(exit), ProxyEnd::Publish) => exit.success,
            (Ok(exit), ProxyEnd::Discard(MediaError::FfmpegFailed { context: Some(c), message })) =>
                !exit.success && c@ == run.context@ && message@ == ffmpeg_run::failure_text(
                strings::views(run.errors@),
                exit.text@,
            ),
            _ => false,
        },
{
    let waited = wait.is_ok();
    match run.finish(wait, false) {
        Ok(_) => ProxyEnd::Publish,
        Err(e) => if waited {
            ProxyEnd::Discard(e)
        } else {
            ProxyEnd::Fail(e)
        },
    }
}

/// The hour, minute and second fields of an ffmpeg progress time like
/// `"00:03:29.04"`; none for `"N/A"` or any other shape.
pub fn time_fields(t: &str) -> (out: Option<(String, String, String)>)
    ensures
        ({
            let parts = strings::pieces(t@, ':');
            match out {
                Some((h, m, s)) => parts == seq![h@, m@, s@],
                None => parts.len() != 3,
            }
        }),
{
    let parts = split_at_char(&chars_of(t), ':');
    proof {
        assert(strings::texts(parts@).len() == parts@.len());
    }
    if parts.len() != 3 {
        return None;
    }
    let h = string_of(parts[0].as_slice());
    let m = string_of(parts[1].as_slice());
    let s = string_of(parts[2].as_slice());
    proof {
        assert(strings::pieces(t@, ':') =~= seq![h@, m@, s@]);
    }
    Some((h, m, s))
}

/// A proxy encode reads the source, fits it into 1280 x 720, encodes H.264 at a
/// constant frame rate with a keyframe every 30 frames and stereo AAC, and
/// writes the destination.
pub proof fn law_proxies_are_encoded_for_seeking(src: Seq<char>, dst: Seq<char>)
    ensures
        ({
            let args = proxy_arg_views(src, dst);
            &&& strings::says(args, "-i"@, src)
            &&& strings::says(
                args,
                "-vf"@,
                "scale='min(1280,iw)':'min(720,ih)':force_original_aspect_ratio=decrease:force_divisible_by=2"@,
            )
            &&& strings::says(args, "-c:v"@, "libx264"@)
            &&& strings::says(args, "-preset"@, "veryfast"@)
            &&& strings::says(args, "-crf"@, "23"@)
            &&& strings::says(args, "-pix_fmt"@, "yuv420p"@)
            &&& strings::says(args, "-fps_mode"@, "cfr"@)
            &&& strings::says(args, "-g"@, "30"@)
            &&& strings::says(args, "-c:a"@, "aac"@)
            &&& strings::says(args, "-b:a"@, "128k"@)
            &&& strings::says(args, "-ac"@, "2"@)
            &&& strings::says(args, "-y"@, dst)
            &&& args.last() == dst
        }),
{
    let args = proxy_arg_views(src, dst);
    strings::lemma_says(args, 0);
    strings::lemma_says(args, 2);
    strings::lemma_says(args, 4);
    strings::lemma_says(args, 6);
    strings::lemma_says(args, 8);
    strings::lemma_says(args, 10);
    strings::lemma_says(args, 12);
    strings::lemma_says(args, 14);
    strings::lemma_says(args, 16);
    strings::lemma_says(args, 18);
    strings::lemma_says(args, 20);
    strings::lemma_says(args, 22);
}

/// A failed proxy encode names its source.
pub proof fn law_proxy_failures_name_the_source(src: Seq<char>)
    ensures
        proxy_context(src) == "generating proxy for "@ + src,
{
}

} // verus!
