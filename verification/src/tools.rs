//! The external ffmpeg/ffprobe binaries, and source-file presence.

use vstd::prelude::*;

use crate::error::MediaError;

verus! {

/// Verify that both `ffmpeg` and `ffprobe` are available on this system.
///
/// Returns an actionable error naming the first missing tool.
pub fn ensure_tools(ffmpeg_installed: bool, ffprobe_installed: bool) -> (out: Result<
    (),
    MediaError,
>)
    ensures
        match out {
            Ok(_) => ffmpeg_installed && ffprobe_installed,
            Err(MediaError::ToolMissing { tool }) => if !ffmpeg_installed {
                tool@ == "ffmpeg"@
            } else {
                !ffprobe_installed && tool@ == "ffprobe"@
            },
            Err(_) => false,
        },
{
    if !ffmpeg_installed {
        return Err(MediaError::ToolMissing { tool: "ffmpeg".to_owned() });
    }
    if !ffprobe_installed {
        return Err(MediaError::ToolMissing { tool: "ffprobe".to_owned() });
    }
    Ok(())
}

/// What a path leads to.
#[derive(Clone, Copy, Debug, PartialEq, Eq, Structural)]
pub enum PathStatus {
    /// A regular file (symlinks followed).
    File,
    /// Something else: a directory, a device.
    Other,
    /// Nothing that can be looked at: missing, dangling, not permitted.
    Unreachable,
}

/// For each path's status, whether a clip can decode from it: only a regular
/// file counts. Order matches the input.
pub fn paths_exist(statuses: &Vec<PathStatus>) -> (out: Vec<bool>)
    ensures
        out@ == statuses@.map_values(|s: PathStatus| s is File),
{
    let mut out: Vec<bool> = Vec::new();
    for i in 0..statuses.len()
        invariant
            out@ == statuses@.take(i as int).map_values(|s: PathStatus| s is File),
    {
        out.push(statuses[i] == PathStatus::File);
        proof {
            assert(out@ =~= statuses@.take(i + 1).map_values(|s: PathStatus| s is File));
        }
    }
    proof {
        assert(statuses@.take(statuses@.len() as int) =~= statuses@);
    }
    out
}

} // verus!
