//! Error types for media operations.

use vstd::prelude::*;
use vstd::string::*;

use crate::strings;

verus! {

/// Errors produced by media probing, proxy generation, decoding, and export.
#[derive(Debug)]
pub enum MediaError {
    /// A required external tool (ffmpeg/ffprobe) is not installed.
    ToolMissing { tool: String },
    /// Failed to spawn or communicate with an external tool.
    Spawn { tool: String, source: String },
    /// ffprobe exited with an error for the given file.
    ProbeFailed { path: String, stderr: String },
    /// ffprobe output was not in the expected JSON shape.
    ProbeParse(String),
    /// The file contains no video or audio stream Cutty can use.
    NoStreams { path: String },
    /// ffmpeg exited with an error.
    FfmpegFailed { context: Option<String>, message: String },
    /// JPEG encoding failed.
    Jpeg(String),
    /// The project cannot be exported yet (e.g. empty timeline, proxies
    /// still generating). The message is user-actionable.
    ExportNotReady { message: String },
    /// The export was cancelled by the user. Not a failure: callers clean up
    /// and report "cancelled", never "error".
    ExportCancelled,
    /// GPU compositor failure (init, composite, or readback).
    Gpu(String),
    /// Offline audio rendering failed.
    Audio(String),
    /// Generic I/O error.
    Io(String),
}

/// What the user reads for an error.
pub open spec fn error_text(e: MediaError) -> Seq<char> {
    match e {
        MediaError::ToolMissing { tool } => tool@
            + " was not found on this system. Cutty needs the system "@ + tool@
            + " binary — install it with `sudo pacman -S ffmpeg` (Arch) or your distro's package manager."@,
        MediaError::Spawn { tool, source } => "failed to run "@ + tool@ + ": "@ + source@,
        MediaError::ProbeFailed { path, stderr } => "could not read media file "@ + path@ + ": "@
            + stderr@,
        MediaError::ProbeParse(detail) => "could not parse ffprobe output: "@ + detail@,
        MediaError::NoStreams { path } => "no decodable video or audio streams found in "@ + path@,
        MediaError::FfmpegFailed { context: Some(context), message } => "ffmpeg failed"@
            + " while "@ + context@ + ": "@ + message@,
        MediaError::FfmpegFailed { context: None, message } => "ffmpeg failed"@ + ": "@ + message@,
        MediaError::Jpeg(detail) => "JPEG encoding failed: "@ + detail@,
        MediaError::ExportNotReady { message } => message@,
        MediaError::ExportCancelled => "export cancelled"@,
        MediaError::Gpu(detail) => "GPU compositor: "@ + detail@,
        MediaError::Audio(detail) => "audio render failed: "@ + detail@,
        MediaError::Io(detail) => "I/O error: "@ + detail@,
    }
}

impl MediaError {
    /// The user-facing message.
    pub fn message(&self) -> (out: String)
        ensures
            out@ == error_text(*self),
    {
        match self {
            MediaError::ToolMissing { tool } => {
                let mut out = tool.clone();
                out.append(" was not found on this system. Cutty needs the system ");
                out.append(tool.as_str());
                out.append(
                    " binary — install it with `sudo pacman -S ffmpeg` (Arch) or your distro's package manager.",
                );
                out
            },
            MediaError::Spawn { tool, source } => {
                let mut out = "failed to run ".to_owned();
                out.append(tool.as_str());
                out.append(": ");
                out.append(source.as_str());
                out
            },
            MediaError::ProbeFailed { path, stderr } => {
                let mut out = "could not read media file ".to_owned();
                out.append(path.as_str());
                out.append(": ");
                out.append(stderr.as_str());
                out
            },
            MediaError::ProbeParse(detail) => {
                let mut out = "could not parse ffprobe output: ".to_owned();
                out.append(detail.as_str());
                out
            },
            MediaError::NoStreams { path } => {
                let mut out = "no decodable video or audio streams found in ".to_owned();
                out.append(path.as_str());
                out
            },
            MediaError::FfmpegFailed { context, message } => {
                let mut out = "ffmpeg failed".to_owned();
                if let Some(context) = context {
                    out.append(" while ");
                    out.append(context.as_str());
                }
                out.append(": ");
                out.append(message.as_str());
                out
            },
            MediaError::Jpeg(detail) => {
                let mut out = "JPEG encoding failed: ".to_owned();
                out.append(detail.as_str());
                out
            },
            MediaError::ExportNotReady { message } => message.clone(),
            MediaError::ExportCancelled => "export cancelled".to_owned(),
            MediaError::Gpu(detail) => {
                let mut out = "GPU compositor: ".to_owned();
                out.append(detail.as_str());
                out
            },
            MediaError::Audio(detail) => {
                let mut out = "audio render failed: ".to_owned();
                out.append(detail.as_str());
                out
            },
            MediaError::Io(detail) => {
                let mut out = "I/O error: ".to_owned();
                out.append(detail.as_str());
                out
            },
        }
    }
}

/// What the user reads names what the error is about: the tool, the file, what
/// was being done and what went wrong.
pub proof fn law_errors_name_their_cause(e: MediaError)
    ensures
        e matches MediaError::ToolMissing { tool } ==> strings::holds_text(error_text(e), tool@),
        e matches MediaError::Spawn { tool, source } ==> strings::holds_text(error_text(e), tool@)
            && strings::holds_text(error_text(e), source@),
        e matches MediaError::ProbeFailed { path, stderr } ==> strings::holds_text(
            error_text(e),
            path@,
        ) && strings::holds_text(error_text(e), stderr@),
        e matches MediaError::ProbeParse(detail) ==> strings::holds_text(error_text(e), detail@),
        e matches MediaError::NoStreams { path } ==> strings::holds_text(error_text(e), path@),
        e matches MediaError::FfmpegFailed { context, message } ==> strings::holds_text(
            error_text(e),
            message@,
        ) && (context matches Some(c) ==> strings::holds_text(error_text(e), c@)),
        e matches MediaError::Jpeg(detail) ==> strings::holds_text(error_text(e), detail@),
        e matches MediaError::ExportNotReady { message } ==> error_text(e) == message@,
        e is ExportCancelled ==> error_text(e) == "export cancelled"@,
        e matches MediaError::Gpu(detail) ==> strings::holds_text(error_text(e), detail@),
        e matches MediaError::Audio(detail) ==> strings::holds_text(error_text(e), detail@),
        e matches MediaError::Io(detail) ==> strings::holds_text(error_text(e), detail@),
{
    let none = Seq::<char>::empty();
    match e {
        MediaError::ToolMissing { tool } => {
            let rest = error_text(e).skip(tool@.len() as int);
            assert(none + tool@ + rest =~= error_text(e));
            strings::lemma_holds_text(none, tool@, rest);
        },
        MediaError::Spawn { tool, source } => {
            let head = "failed to run "@;
            assert(head + tool@ + (": "@ + source@) =~= error_text(e));
            strings::lemma_holds_text(head, tool@, ": "@ + source@);
            assert(head + tool@ + ": "@ + source@ + none =~= error_text(e));
            strings::lemma_holds_text(head + tool@ + ": "@, source@, none);
        },
        MediaError::ProbeFailed { path, stderr } => {
            let head = "could not read media file "@;
            assert(head + path@ + (": "@ + stderr@) =~= error_text(e));
            strings::lemma_holds_text(head, path@, ": "@ + stderr@);
            assert(head + path@ + ": "@ + stderr@ + none =~= error_text(e));
            strings::lemma_holds_text(head + path@ + ": "@, stderr@, none);
        },
        MediaError::FfmpegFailed { context: Some(c), message } => {
            let head = "ffmpeg failed"@ + " while "@;
            assert(head + c@ + (": "@ + message@) =~= error_text(e));
            strings::lemma_holds_text(head, c@, ": "@ + message@);
            assert(head + c@ + ": "@ + message@ + none =~= error_text(e));
            strings::lemma_holds_text(head + c@ + ": "@, message@, none);
        },
        MediaError::FfmpegFailed { context: None, message } => {
            let head = "ffmpeg failed"@ + ": "@;
            assert(head + message@ + none =~= error_text(e));
            strings::lemma_holds_text(head, message@, none);
        },
        MediaError::NoStreams { path } => {
            let head = "no decodable video or audio streams found in "@;
            assert(head + path@ + none =~= error_text(e));
            strings::lemma_holds_text(head, path@, none);
        },
        MediaError::ProbeParse(detail) => {
            let head = "could not parse ffprobe output: "@;
            assert(head + detail@ + none =~= error_text(e));
            strings::lemma_holds_text(head, detail@, none);
        },
        MediaError::Jpeg(detail) => {
            let head = "JPEG encoding failed: "@;
            assert(head + detail@ + none =~= error_text(e));
            strings::lemma_holds_text(head, detail@, none);
        },
        MediaError::Gpu(detail) => {
            let head = "GPU compositor: "@;
            assert(head + detail@ + none =~= error_text(e));
            strings::lemma_holds_text(head, detail@, none);
        },
        MediaError::Audio(detail) => {
            let head = "audio render failed: "@;
            assert(head + detail@ + none =~= error_text(e));
            strings::lemma_holds_text(head, detail@, none);
        },
        MediaError::Io(detail) => {
            let head = "I/O error: "@;
            assert(head + detail@ + none =~= error_text(e));
            strings::lemma_holds_text(head, detail@, none);
        },
        _ => {},
    }
}

} // verus!
