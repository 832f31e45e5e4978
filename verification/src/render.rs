//! Full-timeline export: planning and ffmpeg arguments.
//!
//! **Compositor path (the general case).** Every output frame is composited
//! at output resolution and piped as rawvideo into a single ffmpeg encode
//! process that muxes the audio mix in the same pass.
//!
//! **Fast path.** A timeline that composites nothing (at most one visible
//! video track with clips, every clip at identity transform, full opacity,
//! normal blend) is encoded per segment straight from the sources, with black
//! filler for gaps, and joined losslessly with the concat demuxer.
//! [`fast_path_eligible`] decides.

use vstd::prelude::*;

use crate::double::Real;
use crate::error::MediaError;
use crate::project;
use crate::project::{BlendMode, Clip, MediaKind, Project, TrackKind};

verus! {

/// CRF-style quality tiers exposed in the export dialog.
#[derive(Clone, Copy, Debug, PartialEq, Eq, Structural)]
pub enum ExportQuality {
    High,
    Medium,
    /// "Small file".
    Small,
}

/// Everything the export needs to know about the target.
#[derive(Debug)]
pub struct ExportSpec {
    pub width: u32,
    pub height: u32,
    pub fps: Real,
    /// The frame rate as ffmpeg reads it: the shortest decimal of `fps`.
    pub fps_text: String,
    /// Keyframe distance: two seconds of frames, rounded.
    pub gop: u32,
    pub quality: ExportQuality,
    /// Final MP4 path (written atomically via a `.part` sibling).
    pub dst: String,
}

/// Which stage the export is in (progress display).
#[derive(Clone, Copy, Debug, PartialEq, Eq, Structural)]
pub enum ExportStage {
    Audio,
    Video,
    Finalize,
}

// ---------------------------------------------------------------------
// Cancellation
// ---------------------------------------------------------------------

/// Cancel state of a running export.
///
/// Cancelling sets the flag (checked between blocks, segments and events) and
/// names the ffmpeg child to kill, so even a stalled encode aborts instantly.
#[derive(Debug)]
pub struct CancelToken {
    pub cancelled: bool,
    /// Pid of the ffmpeg child currently owned by the export thread.
    pub child_pid: Option<u32>,
}

impl CancelToken {
    /// A token nobody has cancelled, with no child.
    pub fn new() -> (out: CancelToken)
        ensures
            !out.cancelled,
            out.child_pid is None,
    {
        CancelToken { cancelled: false, child_pid: None }
    }

    /// Whether cancellation was requested.
    pub fn is_cancelled(&self) -> (out: bool)
        ensures
            out == self.cancelled,
    {
        self.cancelled
    }

    /// Request cancellation. Returns the child to kill, if one is running.
    pub fn cancel(&mut self) -> (kill: Option<u32>)
        ensures
            final(self).cancelled,
            final(self).child_pid == old(self).child_pid,
            kill == old(self).child_pid,
    {
        self.cancelled = true;
        self.child_pid
    }

    /// Note the child that a cancel has to kill.
    pub fn watch_child(&mut self, pid: u32)
        ensures
            final(self).child_pid == Some(pid),
            final(self).cancelled == old(self).cancelled,
    {
        self.child_pid = Some(pid);
    }

    /// Forget the child; done before it is reaped, so that a late cancel
    /// cannot hit a recycled pid.
    pub fn clear_child(&mut self)
        ensures
            final(self).child_pid is None,
            final(self).cancelled == old(self).cancelled,
    {
        self.child_pid = None;
    }

    /// Fail once cancellation was requested.
    pub fn bail_if_cancelled(&self) -> (out: Result<(), MediaError>)
        ensures
            match out {
                Ok(_) => !self.cancelled,
                Err(e) => self.cancelled && e is ExportCancelled,
            },
    {
        if self.is_cancelled() {
            Err(MediaError::ExportCancelled)
        } else {
            Ok(())
        }
    }
}

// ---------------------------------------------------------------------
// Planning: timeline to segments on the output frame grid
// ---------------------------------------------------------------------

/// What fills one contiguous run of output frames.
#[derive(Debug)]
pub enum SegmentSource {
    /// A window into an original media file, for the clip at this place of
    /// the track.
    Clip { path: String, clip: usize },
    /// Timeline gap: solid black.
    Black,
}

/// One planned video segment: `[start_frame, end_frame)` on the output frame
/// grid.
#[derive(Debug)]
pub struct PlannedSegment {
    pub source: SegmentSource,
    pub start_frame: i64,
    pub end_frame: i64,
}

impl PlannedSegment {
    /// How many frames the segment lasts.
    pub fn frames(&self) -> (out: i64)
        requires
            0 <= self.start_frame <= self.end_frame,
        ensures
            out == self.end_frame - self.start_frame,
    {
        self.end_frame - self.start_frame
    }
}

/// A clip's timeline window snapped to the output frame grid.
#[derive(Clone, Copy, Debug, PartialEq, Eq, Structural)]
pub struct FrameWindow {
    pub start: i64,
    pub end: i64,
}

/// Whether a clip renders with no compositing work at all: identity
/// transform, full opacity, normal blend, and no transition at its out cut.
pub open spec fn visually_plain(clip: Clip) -> bool {
    clip.identity_transform && clip.opacity.same(Real::one()) && clip.blend_mode
        == BlendMode::Normal && !clip.transition_out
}

/// Whether a clip renders with no compositing work at all.
pub fn visually_default(clip: &Clip) -> (out: bool)
    ensures
        out == visually_plain(*clip),
{
    clip.identity_transform && clip.opacity.is_same(Real { bits: 0x3ff0_0000_0000_0000 })
        && clip.blend_mode == BlendMode::Normal && !clip.transition_out
}

/// A visible track of `kind` that holds clips.
pub open spec fn shows(project: Project, i: int, kind: TrackKind) -> bool {
    0 <= i < project.tracks@.len() && project.tracks@[i].kind == kind && !project.tracks@[i].hidden
        && project.tracks@[i].clips@.len() > 0
}

fn track_shows(project: &Project, i: usize, kind: TrackKind) -> (out: bool)
    requires
        i < project.tracks@.len(),
    ensures
        out == shows(*project, i as int, kind),
{
    let track = &project.tracks[i];
    track.kind == kind && !track.hidden && track.clips.len() > 0
}

/// Track `t` is the only visible video track that holds clips.
pub open spec fn is_sole(project: Project, t: int) -> bool {
    shows(project, t, TrackKind::Video) && forall|k: int|
        shows(project, k, TrackKind::Video) ==> k == t
}

/// The place of the single visible video track carrying clips, if the project
/// has exactly one.
pub open spec fn sole_video(project: Project) -> Option<int> {
    if exists|t: int| is_sole(project, t) {
        Some(choose|t: int| is_sole(project, t))
    } else {
        None
    }
}

/// The single visible video track carrying clips, if the project has exactly
/// one (the shape the per-segment fast path can encode): its place.
pub fn sole_video_track(project: &Project) -> (out: Option<usize>)
    ensures
        match (out, sole_video(*project)) {
            (Some(i), Some(t)) => i == t && is_sole(*project, t),
            (None, None) => forall|t: int| !is_sole(*project, t),
            _ => false,
        },
{
    let mut found: Option<usize> = None;
    for i in 0..project.tracks.len()
        invariant
            match found {
                Some(f) => f < i && shows(*project, f as int, TrackKind::Video) && forall|k: int|
                    0 <= k < i && shows(*project, k, TrackKind::Video) ==> k == f,
                None => forall|k: int| 0 <= k < i ==> !shows(*project, k, TrackKind::Video),
            },
    {
        if track_shows(project, i, TrackKind::Video) {
            if let Some(f) = found {
                proof {
                    assert(shows(*project, i as int, TrackKind::Video));
                    assert(shows(*project, f as int, TrackKind::Video));
                }
                return None;
            }
            found = Some(i);
        }
    }
    proof {
        if let Some(f) = found {
            assert(is_sole(*project, f as int));
        }
    }
    found
}

/// A clip the segment pipeline can encode: a plain opaque video, visually
/// default. Stills, loops and alpha sources need the compositor.
pub open spec fn plain_clip(project: Project, clip: Clip) -> bool {
    visually_plain(clip) && match project::clip_media(project, clip) {
        Some(m) => m.kind == MediaKind::Video && !m.has_alpha,
        None => false,
    }
}

/// Whether the per-segment pipeline renders a project exactly: no visible
/// text, at most one visible video track holding clips, every clip of it
/// plain.
pub open spec fn fast_path(project: Project) -> bool {
    &&& forall|k: int| !shows(project, k, TrackKind::Text)
    &&& forall|j: int, k: int|
        shows(project, j, TrackKind::Video) && shows(project, k, TrackKind::Video) ==> j == k
    &&& forall|k: int, c: int|
        #![trigger project.tracks@[k].clips@[c]]
        shows(project, k, TrackKind::Video) && 0 <= c < project.tracks@[k].clips@.len()
            ==> plain_clip(project, project.tracks@[k].clips@[c])
}

fn is_plain_clip(project: &Project, clip: &Clip) -> (out: bool)
    ensures
        out == plain_clip(*project, *clip),
{
    if !visually_default(clip) {
        return false;
    }
    match project.media_of(clip) {
        Some(m) => m.kind == MediaKind::Video && !m.has_alpha,
        None => false,
    }
}

/// Whether the per-segment pipeline renders this project exactly: nothing to
/// composite (at most one visible video track holding clips, no visible text)
/// and every clip plain. Everything else goes through the GPU compositor.
pub fn fast_path_eligible(project: &Project) -> (out: bool)
    ensures
        out == fast_path(*project),
{
    for i in 0..project.tracks.len()
        invariant
            forall|k: int| 0 <= k < i ==> !shows(*project, k, TrackKind::Text),
    {
        if track_shows(project, i, TrackKind::Text) {
            return false;
        }
    }
    let mut found: Option<usize> = None;
    for i in 0..project.tracks.len()
        invariant
            match found {
                Some(f) => f < i && shows(*project, f as int, TrackKind::Video) && forall|k: int|
                    0 <= k < i && shows(*project, k, TrackKind::Video) ==> k == f,
                None => forall|k: int| 0 <= k < i ==> !shows(*project, k, TrackKind::Video),
            },
    {
        if track_shows(project, i, TrackKind::Video) {
            if let Some(f) = found {
                proof {
                    assert(shows(*project, i as int, TrackKind::Video));
                    assert(shows(*project, f as int, TrackKind::Video));
                }
                return false;
            }
            found = Some(i);
        }
    }
    match found {
        None => true,
        Some(f) => {
            let track = &project.tracks[f];
            for c in 0..track.clips.len()
                invariant
                    f < project.tracks@.len(),
                    *track == project.tracks@[f as int],
                    shows(*project, f as int, TrackKind::Video),
                    forall|k: int|
                        0 <= k < c ==> plain_clip(*project, #[trigger] track.clips@[k]),
            {
                if !is_plain_clip(project, &track.clips[c]) {
                    proof {
                        assert(project.tracks@[f as int].clips@[c as int]
                            == track.clips@[c as int]);
                    }
                    return false;
                }
            }
            true
        },
    }
}

/// A project on the fast path can be planned: every clip of its video track
/// has its media.
pub proof fn law_fast_path_has_media(project: Project)
    requires
        fast_path(project),
    ensures
        sole_video(project) matches Some(t) ==> clips_have_media(project, t),
{
    if let Some(t) = sole_video(project) {
        assert(is_sole(project, t));
        assert forall|c: int| 0 <= c < project.tracks@[t].clips@.len() implies project::clip_media(
            project,
            #[trigger] project.tracks@[t].clips@[c],
        ) is Some by {
            assert(plain_clip(project, project.tracks@[t].clips@[c]));
        }
    }
}

/// A run of output frames: the place of the clip it shows, or black.
pub struct Run {
    pub clip: Option<int>,
    pub start: int,
    pub end: int,
}

pub open spec fn min_int(a: int, b: int) -> int {
    if a <= b {
        a
    } else {
        b
    }
}

/// The runs planned for the first `n` clip windows, and where they end. A
/// window that starts behind the frames already planned leaves a black run
/// before it; one that starts earlier shows only what is left of it.
pub open spec fn plan_runs(windows: Seq<FrameWindow>, n: int, total: int) -> (Seq<Run>, int)
    decreases n,
{
    if n <= 0 {
        (Seq::empty(), 0)
    } else {
        let (runs, cursor) = plan_runs(windows, n - 1, total);
        let start = min_int(windows[n - 1].start as int, total);
        let end = min_int(windows[n - 1].end as int, total);
        let (runs, cursor) = if start > cursor {
            (runs.push(Run { clip: None, start: cursor, end: start }), start)
        } else {
            (runs, cursor)
        };
        if end > cursor {
            (runs.push(Run { clip: Some(n - 1), start: cursor, end: end }), end)
        } else {
            (runs, cursor)
        }
    }
}

/// The plan for a track: one run per clip window, black for the gaps and for
/// any trailing stretch.
pub open spec fn plan(windows: Seq<FrameWindow>, total: int) -> Seq<Run> {
    let (runs, cursor) = plan_runs(windows, windows.len() as int, total);
    if cursor < total {
        runs.push(Run { clip: None, start: cursor, end: total })
    } else {
        runs
    }
}

/// The run a planned segment stands for.
pub open spec fn run_of(segment: PlannedSegment) -> Run {
    Run {
        clip: match segment.source {
            SegmentSource::Clip { clip, .. } => Some(clip as int),
            SegmentSource::Black => None,
        },
        start: segment.start_frame as int,
        end: segment.end_frame as int,
    }
}

/// Runs follow each other without gap or overlap, none is empty, from frame 0
/// up to `end`.
pub open spec fn tiles(runs: Seq<Run>, end: int) -> bool {
    &&& runs.len() == 0 ==> end == 0
    &&& runs.len() > 0 ==> runs[0].start == 0 && runs.last().end == end
    &&& forall|i: int| 0 <= i < runs.len() ==> (#[trigger] runs[i]).start < runs[i].end
    &&& forall|i: int, j: int| 0 <= i && j == i + 1 && j < runs.len() ==> #[trigger] runs[i].end == #[trigger] runs[j].start
}

proof fn lemma_tiles_push(runs: Seq<Run>, end: int, run: Run)
    requires
        tiles(runs, end),
        run.start == end,
        run.start < run.end,
    ensures
        tiles(runs.push(run), run.end),
{
    let next = runs.push(run);
    assert forall|i: int, j: int| 0 <= i && j == i + 1 && j < next.len() implies #[trigger] next[i].end == #[trigger] next[j].start by {
        if j < runs.len() {
            assert(runs[i].end == runs[j].start);
        }
    }
}

proof fn lemma_plan_runs(windows: Seq<FrameWindow>, n: int, total: int)
    requires
        0 <= n <= windows.len(),
        0 <= total,
    ensures
        tiles(plan_runs(windows, n, total).0, plan_runs(windows, n, total).1),
        0 <= plan_runs(windows, n, total).1 <= total,
    decreases n,
{
    if n > 0 {
        lemma_plan_runs(windows, n - 1, total);
        let (runs, cursor) = plan_runs(windows, n - 1, total);
        let start = min_int(windows[n - 1].start as int, total);
        let end = min_int(windows[n - 1].end as int, total);
        if start > cursor {
            lemma_tiles_push(runs, cursor, Run { clip: None, start: cursor, end: start });
        }
        let (runs1, cursor1) = if start > cursor {
            (runs.push(Run { clip: None, start: cursor, end: start }), start)
        } else {
            (runs, cursor)
        };
        if end > cursor1 {
            lemma_tiles_push(runs1, cursor1, Run { clip: Some(n - 1), start: cursor1, end: end });
        }
    }
}

/// The plan tiles the whole timeline: it covers `[0, total)` with no gap and
/// no overlap.
pub proof fn law_plan_tiles(windows: Seq<FrameWindow>, total: int)
    requires
        0 <= total,
    ensures
        tiles(plan(windows, total), total),
{
    lemma_plan_runs(windows, windows.len() as int, total);
    let (runs, cursor) = plan_runs(windows, windows.len() as int, total);
    if cursor < total {
        lemma_tiles_push(runs, cursor, Run { clip: None, start: cursor, end: total });
    }
}

/// The frames of a list of runs, summed.
pub open spec fn run_frames(runs: Seq<Run>) -> int
    decreases runs.len(),
{
    if runs.len() == 0 {
        0
    } else {
        run_frames(runs.drop_last()) + (runs.last().end - runs.last().start)
    }
}

/// A run of a tiling lies between its ends.
pub proof fn lemma_tile_bounds(runs: Seq<Run>, end: int, k: int)
    requires
        tiles(runs, end),
        0 <= k < runs.len(),
    ensures
        0 <= runs[k].start < runs[k].end <= end,
    decreases runs.len(),
{
    if k == runs.len() - 1 {
        if k > 0 {
            lemma_tile_prefix(runs, end, k);
            lemma_tile_bounds(runs.take(k), runs[k - 1].end, k - 1);
            assert(runs[k - 1].end == runs[k].start);
        }
    } else {
        lemma_tile_prefix(runs, end, runs.len() - 1);
        lemma_tile_bounds(runs.take(runs.len() - 1), runs[runs.len() - 2].end, k);
        assert(runs[runs.len() - 2].end == runs[runs.len() - 1].start);
        assert(runs[runs.len() - 1].start < runs[runs.len() - 1].end);
    }
}

/// The first runs of a tiling are a tiling.
pub proof fn lemma_tile_prefix(runs: Seq<Run>, end: int, n: int)
    requires
        tiles(runs, end),
        0 < n <= runs.len(),
    ensures
        tiles(runs.take(n), runs[n - 1].end),
{
    let init = runs.take(n);
    assert forall|i: int, j: int| 0 <= i && j == i + 1 && j < init.len() implies #[trigger] init[i].end == #[trigger] init[j].start by {
        assert(runs[i].end == runs[j].start);
    }
}

/// A tiling has as many frames as its end says.
pub proof fn lemma_tile_frames(runs: Seq<Run>, end: int)
    requires
        tiles(runs, end),
    ensures
        run_frames(runs) == end,
    decreases runs.len(),
{
    if runs.len() > 0 {
        let init = runs.drop_last();
        assert(tiles(init, runs.last().start)) by {
            if init.len() > 0 {
                let i = runs.len() - 2;
                assert(runs[i].end == runs[i + 1].start);
                assert(init.last() == runs[i]);
            }
            assert forall|i: int, j: int| 0 <= i && j == i + 1 && j < init.len() implies #[trigger] init[i].end == #[trigger] init[j].start by {
                assert(runs[i].end == runs[j].start);
            }
        }
        lemma_tile_frames(init, runs.last().start);
    }
}

/// The segment frame counts sum exactly to the total: rounding cuts to the
/// grid never drifts.
pub proof fn law_plan_never_drifts(windows: Seq<FrameWindow>, total: int)
    requires
        0 <= total,
    ensures
        run_frames(plan(windows, total)) == total,
{
    law_plan_tiles(windows, total);
    lemma_tile_frames(plan(windows, total), total);
}

/// Clip windows in timeline order that do not overlap.
pub open spec fn in_order(windows: Seq<FrameWindow>) -> bool {
    &&& forall|i: int| 0 <= i < windows.len() ==> 0 <= (#[trigger] windows[i]).start <= windows[i].end
    &&& forall|i: int, j: int| 0 <= i < j < windows.len() ==> (#[trigger] windows[i]).end <= (#[trigger] windows[j]).start
}

proof fn lemma_plan_shows(windows: Seq<FrameWindow>, n: int, total: int)
    requires
        0 <= n <= windows.len(),
        0 <= total,
        in_order(windows),
    ensures
        ({
            let (runs, cursor) = plan_runs(windows, n, total);
            &&& forall|r: int, f: int, k: int| shows_window(runs, windows, r, f, k)
            &&& forall|k: int|
                n <= k < windows.len() ==> cursor <= (#[trigger] windows[k]).start || cursor == total
            &&& forall|k: int| 0 <= k < n ==> min_int((#[trigger] windows[k]).end as int, total) <= cursor
        }),
    decreases n,
{
    if n > 0 {
        lemma_plan_shows(windows, n - 1, total);
        lemma_plan_runs(windows, n - 1, total);
        let (runs, cursor) = plan_runs(windows, n - 1, total);
        let (next, reached) = plan_runs(windows, n, total);
        let w = windows[n - 1];
        assert(0 <= w.start <= w.end);
        assert(cursor <= w.start || cursor == total);
        assert forall|r: int, f: int, k: int| shows_window(next, windows, r, f, k) by {
            assert(shows_window(runs, windows, r, f, k));
            if 0 <= k < n - 1 {
                assert(min_int(windows[k].end as int, total) <= cursor);
            } else if n - 1 < k < windows.len() {
                assert(w.end <= windows[k].start);
            }
        }
        assert forall|k: int| n <= k < windows.len() implies reached <= (#[trigger] windows[k]).start
            || reached == total by {
            assert(w.end <= windows[k].start);
        }
        assert forall|k: int| 0 <= k < n implies min_int(
            (#[trigger] windows[k]).end as int,
            total,
        ) <= reached by {
            if k < n - 1 {
                assert(min_int(windows[k].end as int, total) <= cursor);
            }
        }
    }
}

/// If run `r` holds frame `f`, it shows clip `k` exactly if `f` lies in the
/// window of `k`.
spec fn shows_window(
    runs: Seq<Run>,
    windows: Seq<FrameWindow>,
    r: int,
    f: int,
    k: int,
) -> bool {
    0 <= r < runs.len() && runs[r].start <= f < runs[r].end && 0 <= k < windows.len() ==> (
    runs[r].clip == Some(k) <==> windows[k].start <= f < windows[k].end)
}

/// Every frame shows what the timeline has there: inside a clip's window its
/// clip, and black exactly where no clip is.
pub proof fn law_plan_shows_the_timeline(
    windows: Seq<FrameWindow>,
    total: int,
    r: int,
    f: int,
    k: int,
)
    requires
        0 <= total,
        in_order(windows),
        0 <= r < plan(windows, total).len(),
        plan(windows, total)[r].start <= f < plan(windows, total)[r].end,
        0 <= k < windows.len(),
    ensures
        plan(windows, total)[r].clip == Some(k) <==> windows[k].start <= f < windows[k].end,
{
    let n = windows.len() as int;
    lemma_plan_shows(windows, n, total);
    lemma_plan_runs(windows, n, total);
    let (runs, cursor) = plan_runs(windows, n, total);
    assert(shows_window(runs, windows, r, f, k));
    if r >= runs.len() {
        assert(min_int(windows[k].end as int, total) <= cursor);
    }
}

/// The clips of a track all have their media in the pool.
pub open spec fn clips_have_media(project: Project, track: int) -> bool {
    forall|c: int|
        0 <= c < project.tracks@[track].clips@.len() ==> project::clip_media(
            project,
            #[trigger] project.tracks@[track].clips@[c],
        ) is Some
}

/// The windows a plan is made from: those of the sole video track, or none.
pub open spec fn planned_windows(project: Project, windows: Seq<FrameWindow>) -> Seq<FrameWindow> {
    if sole_video(project) is Some {
        windows
    } else {
        Seq::empty()
    }
}

/// The runs a list of segments stands for.
pub open spec fn runs_of(segments: Seq<PlannedSegment>) -> Seq<Run> {
    segments.map_values(|s: PlannedSegment| run_of(s))
}

/// Walk the fast path's single video track into segments covering
/// `[0, total_frames)`: one per clip window, black filler for gaps and for any
/// trailing stretch under audio that outlives the video. `windows` holds the
/// windows of that track's clips, snapped to the output frame grid.
///
/// Only meaningful when [`fast_path_eligible`] holds (the compositor path
/// needs no plan: it renders every grid frame).
pub fn plan_video_segments(
    project: &Project,
    windows: &Vec<FrameWindow>,
    total_frames: i64,
) -> (out: Vec<PlannedSegment>)
    requires
        0 <= total_frames,
        sole_video(*project) matches Some(t) ==> windows@.len() == project.tracks@[t].clips@.len()
            && clips_have_media(*project, t),
    ensures
        runs_of(out@) == plan(planned_windows(*project, windows@), total_frames as int),
        forall|s: int|
            #![trigger out@[s]]
            0 <= s < out@.len() ==> match (out@[s].source, sole_video(*project)) {
                (SegmentSource::Clip { path, clip }, Some(t)) => clip < windows@.len() && Some(
                    path@,
                ) == media_path(*project, project.tracks@[t].clips@[clip as int]),
                (SegmentSource::Clip { .. }, None) => false,
                _ => true,
            },
        tiles(runs_of(out@), total_frames as int),
        run_frames(runs_of(out@)) == total_frames,
{
    let mut out: Vec<PlannedSegment> = Vec::new();
    let mut cursor: i64 = 0;
    let track = sole_video_track(project);
    let ghost all = planned_windows(*project, windows@);
    proof {
        assert(runs_of(out@) =~= Seq::<Run>::empty());
    }
    if let Some(t) = track {
        let clips = &project.tracks[t].clips;
        for i in 0..windows.len()
            invariant
                0 <= total_frames,
                t < project.tracks@.len(),
                track == Some(t),
                *clips == project.tracks@[t as int].clips,
                windows@.len() == clips@.len(),
                clips_have_media(*project, t as int),
                all == windows@,
                0 <= cursor <= total_frames,
                (runs_of(out@), cursor as int) == plan_runs(all, i as int, total_frames as int),
                forall|s: int|
                    #![trigger out@[s]]
                    0 <= s < out@.len() ==> match out@[s].source {
                        SegmentSource::Clip { path, clip } => clip < windows@.len() && Some(path@)
                            == media_path(*project, clips@[clip as int]),
                        _ => true,
                    },
        {
            let w = windows[i];
            let start: i64 = if w.start <= total_frames {
                w.start
            } else {
                total_frames
            };
            let end: i64 = if w.end <= total_frames {
                w.end
            } else {
                total_frames
            };
            let ghost before = out@;
            if start > cursor {
                out.push(
                    PlannedSegment {
                        source: SegmentSource::Black,
                        start_frame: cursor,
                        end_frame: start,
                    },
                );
                proof {
                    assert(runs_of(out@) =~= runs_of(before).push(run_of(out@.last())));
                }
                cursor = start;
            }
            let ghost middle = out@;
            if end > cursor {
                proof {
                    assert(project::clip_media(*project, project.tracks@[t as int].clips@[i as int]) is Some);
                }
                let media = project.media_of(&clips[i]).unwrap();
                out.push(
                    PlannedSegment {
                        source: SegmentSource::Clip { path: media.path.clone(), clip: i },
                        start_frame: cursor,
                        end_frame: end,
                    },
                );
                proof {
                    assert(runs_of(out@) =~= runs_of(middle).push(run_of(out@.last())));
                }
                cursor = end;
            }
        }
    }
    proof {
        lemma_plan_runs(all, all.len() as int, total_frames as int);
        law_plan_tiles(all, total_frames as int);
        law_plan_never_drifts(all, total_frames as int);
    }
    if cursor < total_frames {
        let ghost before = out@;
        out.push(
            PlannedSegment {
                source: SegmentSource::Black,
                start_frame: cursor,
                end_frame: total_frames,
            },
        );
        proof {
            assert(runs_of(out@) =~= runs_of(before).push(run_of(out@.last())));
        }
    }
    out
}

/// The path of the media a clip shows.
pub open spec fn media_path(project: Project, clip: Clip) -> Option<Seq<char>> {
    match project::clip_media(project, clip) {
        Some(m) => Some(m.path@),
        None => None,
    }
}

// ---------------------------------------------------------------------
// What the plan is for
// ---------------------------------------------------------------------

proof fn lemma_tiling_covers(runs: Seq<Run>, end: int, f: int)
    requires
        tiles(runs, end),
        0 <= f < end,
    ensures
        exists|r: int|
            #![trigger runs[r]]
            0 <= r < runs.len() && runs[r].start <= f < runs[r].end,
    decreases runs.len(),
{
    let n = runs.len() - 1;
    assert(runs[n].start < runs[n].end);
    if f < runs[n].start {
        let init = runs.drop_last();
        if init.len() > 0 {
            assert(runs[n - 1].end == runs[n].start);
            assert forall|i: int| 0 <= i < init.len() implies (#[trigger] init[i]).start
                < init[i].end by {
                assert(runs[i].start < runs[i].end);
            }
            assert forall|i: int, j: int|
                0 <= i && j == i + 1 && j < init.len() implies #[trigger] init[i].end
                == #[trigger] init[j].start by {
                assert(runs[i].end == runs[j].start);
            }
            lemma_tiling_covers(init, runs[n].start, f);
            let r = choose|r: int|
                #![trigger init[r]]
                0 <= r < init.len() && init[r].start <= f < init[r].end;
            assert(runs[r].start <= f < runs[r].end);
        }
    }
}

proof fn lemma_tiling_ordered(runs: Seq<Run>, end: int, i: int, j: int)
    requires
        tiles(runs, end),
        0 <= i < j < runs.len(),
    ensures
        runs[i].end <= runs[j].start,
    decreases j - i,
{
    let m = j - 1;
    assert(runs[m].end == runs[j].start);
    if i < m {
        lemma_tiling_ordered(runs, end, i, m);
        assert(runs[m].start < runs[m].end);
    }
}

/// Every output frame is planned, once: exactly one run holds it.
pub proof fn law_every_frame_is_planned(windows: Seq<FrameWindow>, total: int, f: int)
    requires
        0 <= f < total,
    ensures
        exists|r: int|
            #![trigger plan(windows, total)[r]]
            0 <= r < plan(windows, total).len() && plan(windows, total)[r].start <= f < plan(
                windows,
                total,
            )[r].end,
        forall|r: int, q: int|
            0 <= r < q < plan(windows, total).len() ==> (#[trigger] plan(windows, total)[r]).end <= (
            #[trigger] plan(windows, total)[q]).start,
        forall|r: int|
            0 <= r < plan(windows, total).len() ==> 0 <= (#[trigger] plan(windows, total)[r]).start
                && plan(windows, total)[r].end <= total,
{
    let runs = plan(windows, total);
    law_plan_tiles(windows, total);
    lemma_tiling_covers(runs, total, f);
    assert forall|r: int, q: int| 0 <= r < q < runs.len() implies (#[trigger] runs[r]).end <= (
    #[trigger] runs[q]).start by {
        lemma_tiling_ordered(runs, total, r, q);
    }
    assert forall|r: int| 0 <= r < runs.len() implies 0 <= (#[trigger] runs[r]).start
        && runs[r].end <= total by {
        let n = runs.len() - 1;
        assert(runs[n].start < runs[n].end);
        assert(runs[0].start < runs[0].end);
        if r > 0 {
            lemma_tiling_ordered(runs, total, 0, r);
        }
        if r < n {
            lemma_tiling_ordered(runs, total, r, n);
        }
    }
}

/// A plan never shows more of the timeline than there is of a clip: a run of a
/// clip lies inside the clip's window.
pub proof fn law_runs_lie_in_their_window(windows: Seq<FrameWindow>, total: int, r: int)
    requires
        0 <= total,
        in_order(windows),
        0 <= r < plan(windows, total).len(),
    ensures
        plan(windows, total)[r].clip matches Some(k) ==> 0 <= k < windows.len()
            && windows[k].start <= plan(windows, total)[r].start && plan(windows, total)[r].end
            <= windows[k].end,
{
    let runs = plan(windows, total);
    law_plan_tiles(windows, total);
    assert(runs[r].start < runs[r].end);
    lemma_runs_name_clips(windows, windows.len() as int, total);
    if let Some(k) = runs[r].clip {
        law_plan_shows_the_timeline(windows, total, r, runs[r].start, k);
        law_plan_shows_the_timeline(windows, total, r, runs[r].end - 1, k);
    }
}

proof fn lemma_runs_name_clips(windows: Seq<FrameWindow>, n: int, total: int)
    requires
        0 <= n <= windows.len(),
    ensures
        forall|r: int|
            0 <= r < plan_runs(windows, n, total).0.len() ==> ((#[trigger] plan_runs(
                windows,
                n,
                total,
            ).0[r]).clip matches Some(k) ==> 0 <= k < n),
    decreases n,
{
    if n > 0 {
        lemma_runs_name_clips(windows, n - 1, total);
        let before = plan_runs(windows, n - 1, total).0;
        let all = plan_runs(windows, n, total).0;
        assert forall|r: int| 0 <= r < all.len() implies ((#[trigger] all[r]).clip matches Some(k)
            ==> 0 <= k < n) by {
            if r < before.len() {
                assert(all[r] == before[r]);
            }
        }
    }
}

/// A segment of the plan is its run: the same frames of the same clip.
pub proof fn law_segments_are_their_runs(segments: Seq<PlannedSegment>, s: int)
    requires
        0 <= s < segments.len(),
    ensures
        runs_of(segments).len() == segments.len(),
        runs_of(segments)[s].start == segments[s].start_frame,
        runs_of(segments)[s].end == segments[s].end_frame,
        segments[s].source is Black ==> runs_of(segments)[s].clip is None,
        segments[s].source matches SegmentSource::Clip { clip, .. } ==> runs_of(segments)[s].clip
            == Some(clip as int),
{
}

/// The fast path shows exactly what the compositor would: every clip of a
/// visible video track is an opaque video, drawn as it is, and neither another
/// video track nor text lies over it.
pub proof fn law_fast_path_composites_nothing(project: Project, k: int, c: int)
    requires
        fast_path(project),
        0 <= k < project.tracks@.len(),
        0 <= c < project.tracks@[k].clips@.len(),
        !project.tracks@[k].hidden,
    ensures
        project.tracks@[k].kind != TrackKind::Text,
        project.tracks@[k].kind == TrackKind::Video ==> {
            let clip = project.tracks@[k].clips@[c];
            &&& clip.identity_transform
            &&& clip.blend_mode == BlendMode::Normal
            &&& !clip.transition_out
            &&& clip.opacity.rank() == 0x3ff0_0000_0000_0000
            &&& clip.media_id is Some
            &&& exists|m: int|
                #![trigger project.media@[m]]
                0 <= m < project.media@.len() && clip.media_id == Some(project.media@[m].id)
                    && project.media@[m].kind == MediaKind::Video && !project.media@[m].has_alpha
            &&& forall|j: int|
                0 <= j < project.tracks@.len() && (#[trigger] project.tracks@[j]).kind
                    == TrackKind::Video && !project.tracks@[j].hidden
                    && project.tracks@[j].clips@.len() > 0 ==> j == k
        },
{
    let clip = project.tracks@[k].clips@[c];
    assert(!shows(project, k, TrackKind::Text));
    if project.tracks@[k].kind == TrackKind::Video {
        assert(shows(project, k, TrackKind::Video));
        assert(plain_clip(project, project.tracks@[k].clips@[c]));
        project::law_clips_show_the_media_they_name(project, clip);
        let m = project::clip_media(project, clip)->0;
        let p = choose|p: int|
            #![trigger project.media@[p]]
            0 <= p < project.media@.len() && project.media@[p] == m && forall|j: int|
                0 <= j < p ==> (#[trigger] project.media@[j]).id != m.id;
        assert(project.media@[p].kind == MediaKind::Video);
        assert forall|j: int|
            0 <= j < project.tracks@.len() && (#[trigger] project.tracks@[j]).kind
                == TrackKind::Video && !project.tracks@[j].hidden && project.tracks@[j].clips@.len()
                > 0 implies j == k by {
            assert(shows(project, j, TrackKind::Video));
        }
    }
}

/// Nothing but compositing keeps a project off the fast path: without visible
/// text, with at most one visible video track that holds clips, and with every
/// clip of it an opaque video drawn as it is, the project is on it.
pub proof fn law_plain_projects_take_the_fast_path(project: Project)
    requires
        forall|k: int|
            0 <= k < project.tracks@.len() && (#[trigger] project.tracks@[k]).kind
                == TrackKind::Text && !project.tracks@[k].hidden ==> project.tracks@[k].clips@.len()
                == 0,
        forall|j: int, k: int|
            0 <= j < k < project.tracks@.len() && (#[trigger] project.tracks@[j]).kind
                == TrackKind::Video && !project.tracks@[j].hidden && (
            #[trigger] project.tracks@[k]).kind == TrackKind::Video && !project.tracks@[k].hidden
                ==> project.tracks@[j].clips@.len() == 0 || project.tracks@[k].clips@.len() == 0,
        forall|k: int, c: int|
            #![trigger project.tracks@[k].clips@[c]]
            0 <= k < project.tracks@.len() && project.tracks@[k].kind == TrackKind::Video
                && !project.tracks@[k].hidden && 0 <= c < project.tracks@[k].clips@.len() ==> {
                let clip = project.tracks@[k].clips@[c];
                &&& clip.identity_transform
                &&& clip.blend_mode == BlendMode::Normal
                &&& !clip.transition_out
                &&& clip.opacity.bits == 0x3ff0_0000_0000_0000
                &&& project::clip_media(project, clip) is Some
                &&& project::clip_media(project, clip)->0.kind == MediaKind::Video
                &&& !project::clip_media(project, clip)->0.has_alpha
            },
    ensures
        fast_path(project),
{
    assert forall|k: int| !shows(project, k, TrackKind::Text) by {
        if 0 <= k < project.tracks@.len() {
            assert(project.tracks@[k].kind == TrackKind::Text && !project.tracks@[k].hidden
                ==> project.tracks@[k].clips@.len() == 0);
        }
    }
    assert forall|j: int, k: int|
        shows(project, j, TrackKind::Video) && shows(project, k, TrackKind::Video) implies j
        == k by {
        if j < k {
            assert(project.tracks@[j].clips@.len() == 0 || project.tracks@[k].clips@.len() == 0);
        }
        if k < j {
            assert(project.tracks@[k].clips@.len() == 0 || project.tracks@[j].clips@.len() == 0);
        }
    }
}

/// The track that is planned is the one visible video track with clips; a
/// project with none or several has no such track.
pub proof fn law_the_planned_track_is_the_only_one(project: Project, t: int)
    requires
        0 <= t < project.tracks@.len(),
    ensures
        sole_video(project) == Some(t) <==> project.tracks@[t].kind == TrackKind::Video
            && !project.tracks@[t].hidden && project.tracks@[t].clips@.len() > 0 && forall|k: int|
            0 <= k < project.tracks@.len() && k != t ==> (#[trigger] project.tracks@[k]).kind
                != TrackKind::Video || project.tracks@[k].hidden || project.tracks@[k].clips@.len()
                == 0,
{
    if sole_video(project) == Some(t) {
        assert(is_sole(project, t));
        assert forall|k: int| 0 <= k < project.tracks@.len() && k != t implies (
        #[trigger] project.tracks@[k]).kind != TrackKind::Video || project.tracks@[k].hidden
            || project.tracks@[k].clips@.len() == 0 by {
            if shows(project, k, TrackKind::Video) {
                assert(k == t);
            }
        }
    }
    if project.tracks@[t].kind == TrackKind::Video && !project.tracks@[t].hidden
        && project.tracks@[t].clips@.len() > 0 && (forall|k: int|
        0 <= k < project.tracks@.len() && k != t ==> (#[trigger] project.tracks@[k]).kind
            != TrackKind::Video || project.tracks@[k].hidden || project.tracks@[k].clips@.len()
            == 0) {
        assert(shows(project, t, TrackKind::Video));
        assert forall|k: int| shows(project, k, TrackKind::Video) implies k == t by {
            if k != t {
                assert(project.tracks@[k].kind != TrackKind::Video || project.tracks@[k].hidden
                    || project.tracks@[k].clips@.len() == 0);
            }
        }
        assert(is_sole(project, t));
    }
}

/// The plan is made from every window of that track, and is all black where
/// there is no such track.
pub proof fn law_every_window_is_planned(project: Project, windows: Seq<FrameWindow>, t: int)
    ensures
        sole_video(project) == Some(t) ==> planned_windows(project, windows) == windows,
        sole_video(project) is None ==> planned_windows(project, windows).len() == 0,
{
}

/// A clip is exported from the original file of the media it names.
pub proof fn law_clips_are_exported_from_originals(project: Project, clip: Clip, k: int)
    requires
        0 <= k < project.media@.len(),
        clip.media_id == Some(project.media@[k].id),
        forall|j: int| 0 <= j < k ==> (#[trigger] project.media@[j]).id != project.media@[k].id,
    ensures
        media_path(project, clip) == Some(project.media@[k].path@),
{
    project::lemma_media_pos(project.media@, project.media@[k].id);
}

} // verus!
