//! Tools, error texts, source presence.

use cutty::error::MediaError;
use cutty::tools::{ensure_tools, paths_exist, PathStatus};

fn status(path: &std::path::Path) -> PathStatus {
    match path.metadata() {
        Ok(m) if m.is_file() => PathStatus::File,
        Ok(_) => PathStatus::Other,
        Err(_) => PathStatus::Unreachable,
    }
}

#[test]
fn reports_files_dirs_and_missing() {
    let file = std::path::Path::new("/proc/self/exe");
    let dir = std::path::Path::new("/");
    let statuses = vec![
        status(file),
        status(dir),
        status(&dir.join("cutty-nope.mp4")),
    ];
    assert_eq!(paths_exist(&statuses), vec![true, false, false]);
    assert_eq!(paths_exist(&Vec::new()), Vec::<bool>::new());
}

#[test]
fn missing_tools_are_named() {
    assert!(ensure_tools(true, true).is_ok());
    let err = ensure_tools(false, false).unwrap_err();
    assert_eq!(
        err.message(),
        "ffmpeg was not found on this system. Cutty needs the system ffmpeg binary — \
         install it with `sudo pacman -S ffmpeg` (Arch) or your distro's package manager."
    );
    let err = ensure_tools(true, false).unwrap_err();
    assert!(matches!(err, MediaError::ToolMissing { ref tool } if tool == "ffprobe"));
}

#[test]
fn every_error_has_its_text() {
    let s = |t: &str| t.to_string();
    assert_eq!(
        MediaError::Spawn { tool: s("ffprobe"), source: s("boom") }.message(),
        "failed to run ffprobe: boom"
    );
    assert_eq!(
        MediaError::ProbeFailed { path: s("/a"), stderr: s("bad") }.message(),
        "could not read media file /a: bad"
    );
    assert_eq!(
        MediaError::ProbeParse(s("eof")).message(),
        "could not parse ffprobe output: eof"
    );
    assert_eq!(
        MediaError::NoStreams { path: s("/a") }.message(),
        "no decodable video or audio streams found in /a"
    );
    assert_eq!(
        MediaError::FfmpegFailed { context: None, message: s("m") }.message(),
        "ffmpeg failed: m"
    );
    assert_eq!(
        MediaError::FfmpegFailed { context: Some(s("muxing")), message: s("m") }.message(),
        "ffmpeg failed while muxing: m"
    );
    assert_eq!(MediaError::Jpeg(s("j")).message(), "JPEG encoding failed: j");
    assert_eq!(MediaError::ExportNotReady { message: s("wait") }.message(), "wait");
    assert_eq!(MediaError::ExportCancelled.message(), "export cancelled");
    assert_eq!(MediaError::Gpu(s("g")).message(), "GPU compositor: g");
    assert_eq!(MediaError::Audio(s("a")).message(), "audio render failed: a");
    assert_eq!(MediaError::Io(s("i")).message(), "I/O error: i");
}
