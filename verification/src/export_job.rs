//! One export from request to finished file: what must hold before work
//! starts, which stage follows which, and what a failure leaves behind.

use vstd::prelude::*;
use vstd::string::*;

use crate::encoders;
use crate::encoders::H264Encoder;
use crate::error::MediaError;
use crate::paths;
use crate::paths::{file_name_of, join_path, replace_extension};
use crate::project::Project;
use crate::render;
use crate::render::{fast_path_eligible, plan_video_segments, ExportSpec, FrameWindow, PlannedSegment, SegmentSource};
use crate::render_args;
use crate::render_args::{concat_list, mux_args, raw_export_args, segment_args, ClipTiming};
use crate::strings;
use crate::strings::{dec_text, push_dec, push_owned};

verus! {

// ---------------------------------------------------------------------
// Before any work
// ---------------------------------------------------------------------

/// Some clip of the project shows the media.
pub open spec fn used(project: Project, id: u64) -> bool {
    exists|t: int, c: int|
        #![trigger project.tracks@[t].clips@[c]]
        0 <= t < project.tracks@.len() && 0 <= c < project.tracks@[t].clips@.len()
            && project.tracks@[t].clips@[c].media_id == Some(id)
}

/// Media `k` is used, and its file is not there.
pub open spec fn missing(project: Project, present: Seq<bool>, k: int) -> bool {
    !present[k] && used(project, project.media@[k].id)
}

/// The first missing media from place `k` on.
pub open spec fn first_missing(project: Project, present: Seq<bool>, k: int) -> Option<int>
    decreases project.media@.len() - k,
{
    if k >= project.media@.len() {
        None
    } else if missing(project, present, k) {
        Some(k)
    } else {
        first_missing(project, present, k + 1)
    }
}

/// H.264 with 4:2:0 chroma needs even, nonzero dimensions.
pub open spec fn size_fits(spec: ExportSpec) -> bool {
    spec.width != 0 && spec.height != 0 && spec.width % 2 == 0 && spec.height % 2 == 0
}

/// Why an export cannot start, if so: a bad target, a missing source file
/// (rendering black where the user had content must never happen silently),
/// or an empty timeline, in this order.
pub open spec fn export_problem(
    project: Project,
    spec: ExportSpec,
    present: Seq<bool>,
    total_frames: int,
) -> Option<Seq<char>> {
    if !size_fits(spec) {
        Some("invalid export resolution "@ + render_args::size_text(spec))
    } else if !(spec.fps.finite() && crate::double::Real::zero().lt(spec.fps)) {
        Some("invalid export frame rate "@ + spec.fps_text@)
    } else {
        match first_missing(project, present, 0) {
            Some(k) => Some("source file is missing: "@ + project.media@[k].path@),
            None => if total_frames <= 0 {
                Some("the timeline is empty — add clips before exporting"@)
            } else {
                None
            },
        }
    }
}

fn is_used(project: &Project, id: u64) -> (out: bool)
    ensures
        out == used(*project, id),
{
    for t in 0..project.tracks.len()
        invariant
            forall|i: int, c: int|
                #![trigger project.tracks@[i].clips@[c]]
                0 <= i < t && 0 <= c < project.tracks@[i].clips@.len()
                    ==> project.tracks@[i].clips@[c].media_id != Some(id),
    {
        let clips = &project.tracks[t].clips;
        for c in 0..clips.len()
            invariant
                t < project.tracks@.len(),
                *clips == project.tracks@[t as int].clips,
                forall|k: int| 0 <= k < c ==> (#[trigger] clips@[k]).media_id != Some(id),
        {
            if let Some(m) = clips[c].media_id {
                if m == id {
                    proof {
                        assert(project.tracks@[t as int].clips@[c as int].media_id == Some(id));
                    }
                    return true;
                }
            }
        }
    }
    false
}

/// Check a requested export before any work. `present[k]` says whether the
/// file of media `k` exists.
pub fn validate_export(
    project: &Project,
    spec: &ExportSpec,
    present: &Vec<bool>,
    total_frames: i64,
) -> (out: Result<(), MediaError>)
    requires
        present@.len() == project.media@.len(),
    ensures
        match (out, export_problem(*project, *spec, present@, total_frames as int)) {
            (Ok(_), None) => true,
            (Err(MediaError::ExportNotReady { message }), Some(expected)) => message@ == expected,
            _ => false,
        },
{
    if spec.width == 0 || spec.height == 0 || spec.width % 2 != 0 || spec.height % 2 != 0 {
        let mut message = "invalid export resolution ".to_owned();
        let mut size = dec_text(spec.width as u64);
        size.append("x");
        push_dec(&mut size, spec.height as u64);
        message.append(size.as_str());
        return Err(MediaError::ExportNotReady { message });
    }
    if !spec.fps.is_rate() {
        let mut message = "invalid export frame rate ".to_owned();
        message.append(spec.fps_text.as_str());
        return Err(MediaError::ExportNotReady { message });
    }
    let mut k: usize = 0;
    while k < project.media.len()
        invariant
            k <= project.media@.len(),
            present@.len() == project.media@.len(),
            size_fits(*spec),
            spec.fps.finite() && crate::double::Real::zero().lt(spec.fps),
            first_missing(*project, present@, 0) == first_missing(*project, present@, k as int),
        decreases project.media@.len() - k,
    {
        if !present[k] && is_used(project, project.media[k].id) {
            let mut message = "source file is missing: ".to_owned();
            message.append(project.media[k].path.as_str());
            return Err(MediaError::ExportNotReady { message });
        }
        k = k + 1;
    }
    if total_frames <= 0 {
        let message = "the timeline is empty — add clips before exporting".to_owned();
        return Err(MediaError::ExportNotReady { message });
    }
    Ok(())
}

proof fn lemma_first_missing(project: Project, present: Seq<bool>, k: int)
    requires
        0 <= k,
    ensures
        first_missing(project, present, k) is None <==> forall|i: int|
            k <= i < project.media@.len() ==> !missing(project, present, i),
    decreases project.media@.len() - k,
{
    if k < project.media@.len() && !missing(project, present, k) {
        lemma_first_missing(project, present, k + 1);
    }
}

/// An export never starts while a file that a clip shows is missing.
pub proof fn law_no_export_without_sources(
    project: Project,
    spec: ExportSpec,
    present: Seq<bool>,
    total_frames: int,
    k: int,
)
    requires
        0 <= k < project.media@.len(),
        missing(project, present, k),
    ensures
        export_problem(project, spec, present, total_frames) is Some,
{
    lemma_first_missing(project, present, 0);
}

// ---------------------------------------------------------------------
// The job
// ---------------------------------------------------------------------

/// Where a job stands.
#[derive(Clone, Copy, Debug, PartialEq, Eq, Structural)]
pub enum JobStage {
    /// Render the audio mix.
    Audio,
    /// Encode this segment (fast path).
    Segment(usize),
    /// Write the concat list (fast path).
    List,
    /// Join the segments and mux the audio (fast path).
    Mux,
    /// Render every frame into one encode-and-mux process (compositor path).
    Composite,
    /// Move the finished file to its place.
    Rename,
    Done,
    Failed,
}

/// An export under way.
#[derive(Debug)]
pub struct ExportJob {
    /// The per-segment pipeline renders this project.
    pub fast: bool,
    pub segments: Vec<PlannedSegment>,
    pub timings: Vec<ClipTiming>,
    pub total_frames: i64,
    pub temp_dir: String,
    pub wav: String,
    pub list: String,
    /// What is written before the final move.
    pub part: String,
    pub stage: JobStage,
    /// Frames of the segments encoded so far.
    pub frames_done: i64,
    /// The segments encoded so far.
    pub part_files: Vec<String>,
}

/// What to do at the current stage.
pub enum JobAction {
    /// Render the mix to this WAV file.
    RenderAudio { wav: String },
    /// Run ffmpeg.
    Encode { args: Vec<String>, context: String },
    /// Write and sync a file.
    WriteList { path: String, body: String },
    /// Stream composited frames into one ffmpeg.
    Composite { args: Vec<String> },
    /// Move the finished file.
    Rename { from: String, to: String },
    /// The job is over.
    Nothing,
}

/// How rendering the audio mix ended.
pub enum AudioOutcome {
    Rendered,
    Cancelled,
    Failed(String),
}

/// A number with at least four digits.
pub open spec fn pad4(n: nat) -> Seq<char> {
    let zeros = if n < 10 {
        "000"@
    } else if n < 100 {
        "00"@
    } else if n < 1000 {
        "0"@
    } else {
        ""@
    };
    zeros + strings::dec(n)
}

/// The file of segment `k` in the job's directory.
pub open spec fn segment_path(temp_dir: Seq<char>, k: nat) -> Seq<char> {
    paths::joined(temp_dir, "seg-"@ + pad4(k) + ".mp4"@)
}

/// The files of the first `n` segments.
pub open spec fn segment_paths(temp_dir: Seq<char>, n: nat) -> Seq<Seq<char>> {
    Seq::new(n, |k: int| segment_path(temp_dir, k as nat))
}

fn segment_file(temp_dir: &str, k: usize) -> (out: String)
    ensures
        out@ == segment_path(temp_dir@, k as nat),
{
    let zeros = if k < 10 {
        "000"
    } else if k < 100 {
        "00"
    } else if k < 1000 {
        "0"
    } else {
        ""
    };
    let mut name = "seg-".to_owned();
    let mut number = zeros.to_owned();
    push_dec(&mut number, k as u64);
    name.append(number.as_str());
    name.append(".mp4");
    join_path(temp_dir, name.as_str())
}

/// What ffmpeg is doing while it encodes segment `k` of `n`.
pub open spec fn segment_context(source: SegmentSource, k: nat, n: nat) -> Seq<char> {
    let name = match source {
        SegmentSource::Clip { path, .. } => match paths::file_name(path@) {
            Some(name) => name,
            None => path@,
        },
        SegmentSource::Black => "gap"@,
    };
    "encoding segment "@ + strings::dec(k + 1) + " of "@ + strings::dec(n) + " ("@ + name + ")"@
}

fn context_of(source: &SegmentSource, k: usize, n: usize) -> (out: String)
    requires
        k < n,
    ensures
        out@ == segment_context(*source, k as nat, n as nat),
{
    let mut out = "encoding segment ".to_owned();
    push_dec(&mut out, k as u64 + 1);
    out.append(" of ");
    push_dec(&mut out, n as u64);
    out.append(" (");
    match source {
        SegmentSource::Clip { path, .. } => match file_name_of(path.as_str()) {
            Some(name) => {
                out.append(name.as_str());
            },
            None => {
                out.append(path.as_str());
            },
        },
        SegmentSource::Black => {
            out.append("gap");
        },
    }
    out.append(")");
    out
}

/// The stage that follows when a stage succeeds.
pub open spec fn stage_after(stage: JobStage, fast: bool, segments: int) -> JobStage {
    match stage {
        JobStage::Audio => if !fast {
            JobStage::Composite
        } else if segments > 0 {
            JobStage::Segment(0)
        } else {
            JobStage::List
        },
        JobStage::Segment(k) => if k + 1 < segments {
            JobStage::Segment((k + 1) as usize)
        } else {
            JobStage::List
        },
        JobStage::List => JobStage::Mux,
        JobStage::Mux => JobStage::Rename,
        JobStage::Composite => JobStage::Rename,
        JobStage::Rename => JobStage::Done,
        JobStage::Done => JobStage::Done,
        JobStage::Failed => JobStage::Failed,
    }
}

/// The name of the video pipeline.
pub open spec fn renderer_name(fast: bool) -> Seq<char> {
    if fast {
        "segment-concat"@
    } else {
        "gpu-compositor"@
    }
}

/// The directory of a job, named after the process and a running number.
pub fn job_dir(export_dir: &str, pid: u32, seq: u64) -> (out: String)
    ensures
        out@ == paths::joined(
            export_dir@,
            "job-"@ + strings::dec(pid as nat) + "-"@ + strings::dec(seq as nat),
        ),
{
    let mut name = "job-".to_owned();
    push_dec(&mut name, pid as u64);
    name.append("-");
    push_dec(&mut name, seq);
    join_path(export_dir, name.as_str())
}

impl ExportJob {
    /// The job's bookkeeping agrees with its stage: on the fast path the
    /// segments tile the timeline, and the frames and files noted are those of
    /// the segments behind it.
    pub open spec fn wf(self) -> bool {
        &&& self.timings@.len() == self.segments@.len()
        &&& 0 <= self.total_frames
        &&& self.fast ==> render::tiles(
            render::runs_of(self.segments@),
            self.total_frames as int,
        )
        &&& match self.stage {
            JobStage::Audio => self.frames_done == 0 && self.part_files@.len() == 0,
            JobStage::Segment(k) => self.fast && k < self.segments@.len() && self.encoded(k as nat),
            JobStage::List | JobStage::Mux => self.fast && self.encoded(self.segments@.len()),
            JobStage::Composite => !self.fast,
            _ => true,
        }
    }

    /// The first `n` segments are encoded.
    pub open spec fn encoded(self, n: nat) -> bool {
        &&& self.frames_done == render::run_frames(render::runs_of(self.segments@).take(n as int))
        &&& strings::views(self.part_files@) == segment_paths(self.temp_dir@, n)
    }

    /// Everything but the stage and the segment bookkeeping.
    pub open spec fn same_plan(self, other: ExportJob) -> bool {
        &&& self.fast == other.fast
        &&& self.segments == other.segments
        &&& self.timings == other.timings
        &&& self.total_frames == other.total_frames
        &&& self.temp_dir == other.temp_dir
        &&& self.wav == other.wav
        &&& self.list == other.list
        &&& self.part == other.part
    }

    /// A job for a plan. `segments` and `timings` are the fast path's, and
    /// empty otherwise.
    pub fn new(
        fast: bool,
        segments: Vec<PlannedSegment>,
        timings: Vec<ClipTiming>,
        total_frames: i64,
        temp_dir: String,
        spec: &ExportSpec,
    ) -> (out: ExportJob)
        requires
            timings@.len() == segments@.len(),
            0 <= total_frames,
            fast ==> render::tiles(render::runs_of(segments@), total_frames as int),
        ensures
            out.wf(),
            out.stage is Audio,
            out.fast == fast,
            out.segments == segments,
            out.timings == timings,
            out.total_frames == total_frames,
            out.temp_dir == temp_dir,
            out.wav@ == paths::joined(temp_dir@, "mix.wav"@),
            out.list@ == paths::joined(temp_dir@, "concat.txt"@),
            out.part@ == paths::with_extension(spec.dst@, "mp4.part"@),
    {
        let wav = join_path(temp_dir.as_str(), "mix.wav");
        let list = join_path(temp_dir.as_str(), "concat.txt");
        let part = replace_extension(spec.dst.as_str(), "mp4.part");
        ExportJob {
            fast,
            segments,
            timings,
            total_frames,
            temp_dir,
            wav,
            list,
            part,
            stage: JobStage::Audio,
            frames_done: 0,
            part_files: Vec::new(),
        }
    }

    /// What the current stage has to do.
    pub open spec fn action_spec(
        self,
        spec: ExportSpec,
        encoder: H264Encoder,
        action: JobAction,
    ) -> bool {
        match (self.stage, action) {
            (JobStage::Audio, JobAction::RenderAudio { wav }) => wav@ == self.wav@,
            (JobStage::Segment(k), JobAction::Encode { args, context }) => {
                &&& strings::views(args@) == render_args::segment_arg_views(
                    spec,
                    encoder,
                    self.segments@[k as int],
                    self.timings@[k as int],
                    segment_path(self.temp_dir@, k as nat),
                )
                &&& context@ == segment_context(
                    self.segments@[k as int].source,
                    k as nat,
                    self.segments@.len(),
                )
            },
            (JobStage::List, JobAction::WriteList { path, body }) => path@ == self.list@ && body@
                == render_args::list_body(segment_paths(self.temp_dir@, self.segments@.len())),
            (JobStage::Mux, JobAction::Encode { args, context }) => {
                &&& strings::views(args@) == render_args::mux_arg_views(
                    spec,
                    self.list@,
                    self.wav@,
                    self.part@,
                )
                &&& context@ == "muxing the final file"@
            },
            (JobStage::Composite, JobAction::Composite { args }) => strings::views(args@)
                == render_args::raw_arg_views(spec, encoder, self.wav@, self.part@),
            (JobStage::Rename, JobAction::Rename { from, to }) => from@ == self.part@ && to@
                == spec.dst@,
            (JobStage::Done, JobAction::Nothing) => true,
            (JobStage::Failed, JobAction::Nothing) => true,
            _ => false,
        }
    }

    /// What to do now.
    pub fn action(&self, spec: &ExportSpec, encoder: &H264Encoder) -> (out: JobAction)
        requires
            self.wf(),
        ensures
            self.action_spec(*spec, *encoder, out),
    {
        match self.stage {
            JobStage::Audio => JobAction::RenderAudio { wav: self.wav.clone() },
            JobStage::Segment(k) => {
                let dst = segment_file(self.temp_dir.as_str(), k);
                let segment = &self.segments[k];
                proof {
                    lemma_run_bounds(self.segments@, self.total_frames as int, k as int);
                }
                let args = segment_args(spec, encoder, segment, &self.timings[k], dst.as_str());
                let context = context_of(&segment.source, k, self.segments.len());
                JobAction::Encode { args, context }
            },
            JobStage::List => {
                let body = concat_list(&self.part_files);
                JobAction::WriteList { path: self.list.clone(), body }
            },
            JobStage::Mux => {
                let args = mux_args(
                    spec,
                    self.list.as_str(),
                    self.wav.as_str(),
                    self.part.as_str(),
                );
                JobAction::Encode { args, context: "muxing the final file".to_owned() }
            },
            JobStage::Composite => {
                let args = raw_export_args(spec, encoder, self.wav.as_str(), self.part.as_str());
                JobAction::Composite { args }
            },
            JobStage::Rename => JobAction::Rename {
                from: self.part.clone(),
                to: spec.dst.clone(),
            },
            JobStage::Done => JobAction::Nothing,
            JobStage::Failed => JobAction::Nothing,
        }
    }

    /// The current stage succeeded: move on.
    pub fn succeed(&mut self)
        requires
            old(self).wf(),
        ensures
            final(self).wf(),
            final(self).same_plan(*old(self)),
            final(self).stage == stage_after(
                old(self).stage,
                old(self).fast,
                old(self).segments@.len() as int,
            ),
            final(self).stage is List ==> final(self).frames_done == final(self).total_frames,
            !(old(self).stage is Segment) ==> final(self).frames_done == old(self).frames_done
                && final(self).part_files == old(self).part_files,
    {
        proof {
            let runs = render::runs_of(self.segments@);
            assert(runs.len() == self.segments@.len());
            assert(runs.take(runs.len() as int) =~= runs);
            if self.fast {
                render::lemma_tile_frames(runs, self.total_frames as int);
            }
        }
        match self.stage {
            JobStage::Audio => {
                proof {
                    assert(render::runs_of(self.segments@).take(0)
                        =~= Seq::<render::Run>::empty());
                    assert(strings::views(self.part_files@) =~= segment_paths(self.temp_dir@, 0));
                }
                if !self.fast {
                    self.stage = JobStage::Composite;
                } else if self.segments.len() > 0 {
                    self.stage = JobStage::Segment(0);
                } else {
                    self.stage = JobStage::List;
                }
            },
            JobStage::Segment(k) => {
                let ghost runs = render::runs_of(self.segments@);
                proof {
                    lemma_run_bounds(self.segments@, self.total_frames as int, k as int);
                    lemma_frames_prefix(runs, self.total_frames as int, k as int);
                    assert(runs.take(k + 1).drop_last() =~= runs.take(k as int));
                    lemma_frames_prefix(runs, self.total_frames as int, k + 1);
                }
                let frames: i64 = self.segments[k].frames();
                self.frames_done = self.frames_done + frames;
                let file = segment_file(self.temp_dir.as_str(), k);
                push_owned(&mut self.part_files, file);
                proof {
                    assert(strings::views(self.part_files@) =~= segment_paths(
                        self.temp_dir@,
                        (k + 1) as nat,
                    ));
                }
                let count: usize = self.segments.len();
                if k + 1 < count {
                    self.stage = JobStage::Segment(k + 1);
                } else {
                    self.stage = JobStage::List;
                }
            },
            JobStage::List => {
                self.stage = JobStage::Mux;
            },
            JobStage::Mux => {
                self.stage = JobStage::Rename;
            },
            JobStage::Composite => {
                self.stage = JobStage::Rename;
            },
            JobStage::Rename => {
                self.stage = JobStage::Done;
            },
            JobStage::Done => {},
            JobStage::Failed => {},
        }
    }

    /// The current stage failed (or was cancelled): the job is over.
    pub fn fail(&mut self)
        requires
            old(self).wf(),
            !(old(self).stage is Done),
        ensures
            final(self).wf(),
            final(self).same_plan(*old(self)),
            final(self).stage is Failed,
            final(self).frames_done == old(self).frames_done,
            final(self).part_files == old(self).part_files,
    {
        self.stage = JobStage::Failed;
    }

    /// Whether the half-written output has to be deleted when the job ends:
    /// always, unless it was moved to its place.
    pub fn discards_part(&self) -> (out: bool)
        ensures
            out == !(self.stage is Done),
    {
        match self.stage {
            JobStage::Done => false,
            _ => true,
        }
    }

    /// Which video pipeline renders the frames.
    pub fn renderer(&self) -> (out: &'static str)
        ensures
            out@ == renderer_name(self.fast),
    {
        if self.fast {
            "segment-concat"
        } else {
            "gpu-compositor"
        }
    }
}

proof fn lemma_run_bounds(segments: Seq<PlannedSegment>, total: int, k: int)
    requires
        render::tiles(render::runs_of(segments), total),
        0 <= k < segments.len(),
    ensures
        0 <= segments[k].start_frame < segments[k].end_frame <= total,
    decreases k,
{
    let runs = render::runs_of(segments);
    render::lemma_tile_bounds(runs, total, k);
    assert(runs[k] == render::run_of(segments[k]));
}

proof fn lemma_frames_prefix(runs: Seq<render::Run>, total: int, n: int)
    requires
        render::tiles(runs, total),
        0 <= n <= runs.len(),
    ensures
        0 <= render::run_frames(runs.take(n)) <= total,
    decreases n,
{
    if n > 0 {
        render::lemma_tile_prefix(runs, total, n);
        render::lemma_tile_frames(runs.take(n), runs[n - 1].end);
        render::lemma_tile_bounds(runs, total, n - 1);
    } else {
        assert(runs.take(0) =~= Seq::<render::Run>::empty());
        if runs.len() > 0 {
            render::lemma_tile_bounds(runs, total, 0);
        }
    }
}

/// Where a job stands after a run of stage outcomes.
pub open spec fn stage_through(
    stage: JobStage,
    fast: bool,
    segments: int,
    outcomes: Seq<bool>,
) -> JobStage
    decreases outcomes.len(),
{
    if outcomes.len() == 0 {
        stage
    } else {
        let before = stage_through(stage, fast, segments, outcomes.drop_last());
        if before is Done || before is Failed {
            before
        } else if outcomes.last() {
            stage_after(before, fast, segments)
        } else {
            JobStage::Failed
        }
    }
}

/// How many stages a job still has to pass.
pub open spec fn stages_left(stage: JobStage, fast: bool, segments: int) -> int {
    match stage {
        JobStage::Audio => if fast {
            segments + 4
        } else {
            3
        },
        JobStage::Segment(k) => segments - k + 3,
        JobStage::List => 3,
        JobStage::Mux => 2,
        JobStage::Composite => 2,
        JobStage::Rename => 1,
        JobStage::Done => 0,
        JobStage::Failed => 0,
    }
}

proof fn lemma_stage_through(fast: bool, segments: int, outcomes: Seq<bool>)
    requires
        0 <= segments <= usize::MAX,
    ensures
        ({
            let stage = stage_through(JobStage::Audio, fast, segments, outcomes);
            let all = stages_left(JobStage::Audio, fast, segments);
            &&& stage matches JobStage::Segment(k) ==> fast && k < segments
            &&& (stage is List || stage is Mux) ==> fast
            &&& stage is Composite ==> !fast
            &&& !(stage is Failed) && !(stage is Done) ==> outcomes.len() + stages_left(
                stage,
                fast,
                segments,
            ) == all
            &&& stage is Done ==> outcomes.len() >= all
            &&& !(stage is Failed) ==> forall|i: int|
                0 <= i < outcomes.len() && i < all ==> outcomes[i]
            &&& stage is Failed ==> exists|i: int|
                0 <= i < outcomes.len() && i < all && !outcomes[i]
        }),
    decreases outcomes.len(),
{
    if outcomes.len() > 0 {
        let init = outcomes.drop_last();
        lemma_stage_through(fast, segments, init);
        let before = stage_through(JobStage::Audio, fast, segments, init);
        let all = stages_left(JobStage::Audio, fast, segments);
        let n = outcomes.len() - 1;
        assert(forall|i: int| 0 <= i < n ==> outcomes[i] == init[i]);
        if before is Failed {
            let i = choose|i: int| 0 <= i < init.len() && i < all && !init[i];
            assert(!outcomes[i]);
        } else if !(before is Done) && !outcomes.last() {
            assert(!outcomes[n]);
            assert(n < all);
        }
    }
}

/// A job that every stage served ends in `Done`, after exactly the stages of
/// its path; one failed (or cancelled) stage ends it in `Failed`, and then
/// nothing has been moved to its final place.
pub proof fn law_job_is_all_or_nothing(fast: bool, segments: int, outcomes: Seq<bool>)
    requires
        0 <= segments <= usize::MAX,
        outcomes.len() == stages_left(JobStage::Audio, fast, segments),
    ensures
        stage_through(JobStage::Audio, fast, segments, outcomes) is Done <==> forall|i: int|
            0 <= i < outcomes.len() ==> outcomes[i],
        !(stage_through(JobStage::Audio, fast, segments, outcomes) is Done) ==> stage_through(
            JobStage::Audio,
            fast,
            segments,
            outcomes,
        ) is Failed,
{
    lemma_stage_through(fast, segments, outcomes);
    let stage = stage_through(JobStage::Audio, fast, segments, outcomes);
    if !(stage is Failed) && !(stage is Done) {
        assert(stages_left(stage, fast, segments) >= 1);
    }
}

/// What a failed audio render makes of the export: a cancel stays a cancel.
pub fn audio_result(outcome: AudioOutcome) -> (out: Result<(), MediaError>)
    ensures
        match (outcome, out) {
            (AudioOutcome::Rendered, Ok(_)) => true,
            (AudioOutcome::Cancelled, Err(e)) => e is ExportCancelled,
            (AudioOutcome::Failed(detail), Err(e)) => e == MediaError::Audio(detail),
            _ => false,
        },
{
    match outcome {
        AudioOutcome::Rendered => Ok(()),
        AudioOutcome::Cancelled => Err(MediaError::ExportCancelled),
        AudioOutcome::Failed(detail) => Err(MediaError::Audio(detail)),
    }
}

/// What a finished export produced.
#[derive(Debug)]
pub struct ExportSummary {
    pub path: String,
    /// ffmpeg name of the video encoder used (e.g. `h264_vaapi`).
    pub encoder: String,
    pub hardware_encode: bool,
    /// Which video pipeline rendered the frames: `"segment-concat"` (the fast
    /// path) or `"gpu-compositor"`.
    pub renderer: String,
}

/// The summary of a finished job.
pub fn summarize(job: &ExportJob, spec: &ExportSpec, encoder: &H264Encoder) -> (out: ExportSummary)
    ensures
        out.path@ == spec.dst@,
        out.encoder@ == encoders::name_of(*encoder),
        out.hardware_encode == (*encoder !is X264),
        out.renderer@ == renderer_name(job.fast),
{
    ExportSummary {
        path: spec.dst.clone(),
        encoder: encoder.ffmpeg_name().to_owned(),
        hardware_encode: encoder.is_hardware(),
        renderer: job.renderer().to_owned(),
    }
}

/// Plan an export that passed [`validate_export`]: pick the video path and, on
/// the fast one, lay out its segments, each clip from its **original media**.
/// `windows` holds the snapped windows of the sole video track's clips.
pub fn plan_export(project: &Project, windows: &Vec<FrameWindow>, total_frames: i64) -> (out: (
    bool,
    Vec<PlannedSegment>,
))
    requires
        0 <= total_frames,
        render::sole_video(*project) matches Some(t) ==> windows@.len()
            == project.tracks@[t].clips@.len(),
    ensures
        out.0 == render::fast_path(*project),
        out.0 ==> render::runs_of(out.1@) == render::plan(
            render::planned_windows(*project, windows@),
            total_frames as int,
        ) && render::tiles(render::runs_of(out.1@), total_frames as int),
        out.0 ==> forall|s: int|
            #![trigger out.1@[s]]
            0 <= s < out.1@.len() ==> match (out.1@[s].source, render::sole_video(*project)) {
                (SegmentSource::Clip { path, clip }, Some(t)) => clip < windows@.len() && Some(
                    path@,
                ) == render::media_path(*project, project.tracks@[t].clips@[clip as int]),
                (SegmentSource::Clip { .. }, None) => false,
                _ => true,
            },
        !out.0 ==> out.1@.len() == 0,
{
    let fast = fast_path_eligible(project);
    if fast {
        proof {
            render::law_fast_path_has_media(*project);
        }
        (true, plan_video_segments(project, windows, total_frames))
    } else {
        (false, Vec::new())
    }
}

// ---------------------------------------------------------------------
// What an export promises
// ---------------------------------------------------------------------

proof fn lemma_first_missing_is(project: Project, present: Seq<bool>, k: int)
    requires
        0 <= k,
    ensures
        first_missing(project, present, k) matches Some(m) ==> k <= m < project.media@.len()
            && missing(project, present, m) && forall|j: int|
            k <= j < m ==> !(#[trigger] missing(project, present, j)),
        first_missing(project, present, k) is None ==> forall|j: int|
            k <= j < project.media@.len() ==> !(#[trigger] missing(project, present, j)),
    decreases project.media@.len() - k,
{
    if k < project.media@.len() && !missing(project, present, k) {
        lemma_first_missing_is(project, present, k + 1);
    }
}

/// An export starts exactly if its target can be encoded (even, nonzero sides
/// and a finite rate above zero), every media that a clip shows has its file,
/// and there is something to export.
pub proof fn law_exports_start_when_ready(
    project: Project,
    spec: ExportSpec,
    present: Seq<bool>,
    total_frames: int,
)
    ensures
        export_problem(project, spec, present, total_frames) is None <==> {
            &&& spec.width >= 2 && spec.width % 2 == 0
            &&& spec.height >= 2 && spec.height % 2 == 0
            &&& 0 < spec.fps.rank() < 0x7ff0_0000_0000_0000
            &&& total_frames >= 1
            &&& forall|k: int, t: int, c: int|
                #![trigger project.media@[k], project.tracks@[t].clips@[c]]
                0 <= k < project.media@.len() && 0 <= t < project.tracks@.len() && 0 <= c
                    < project.tracks@[t].clips@.len() && project.tracks@[t].clips@[c].media_id
                    == Some(project.media@[k].id) ==> present[k]
        },
{
    lemma_first_missing_is(project, present, 0);
    let ready = forall|k: int, t: int, c: int|
        #![trigger project.media@[k], project.tracks@[t].clips@[c]]
        0 <= k < project.media@.len() && 0 <= t < project.tracks@.len() && 0 <= c
            < project.tracks@[t].clips@.len() && project.tracks@[t].clips@[c].media_id == Some(
            project.media@[k].id,
        ) ==> present[k];
    match first_missing(project, present, 0) {
        Some(m) => {
            let (t, c) = choose|t: int, c: int|
                #![trigger project.tracks@[t].clips@[c]]
                0 <= t < project.tracks@.len() && 0 <= c < project.tracks@[t].clips@.len()
                    && project.tracks@[t].clips@[c].media_id == Some(project.media@[m].id);
            assert(project.tracks@[t].clips@[c].media_id == Some(project.media@[m].id));
            assert(!ready);
        },
        None => {
            assert forall|k: int, t: int, c: int|
                #![trigger project.media@[k], project.tracks@[t].clips@[c]]
                0 <= k < project.media@.len() && 0 <= t < project.tracks@.len() && 0 <= c
                    < project.tracks@[t].clips@.len() && project.tracks@[t].clips@[c].media_id
                    == Some(project.media@[k].id) implies present[k] by {
                assert(!missing(project, present, k));
                assert(used(project, project.media@[k].id));
            }
            assert(ready);
        },
    }
}

/// What the user is told when an export cannot start: the size, the rate, or
/// the first missing file in the pool's order, whichever stands in the way
/// first, and an empty timeline last.
pub proof fn law_export_problems_are_named(
    project: Project,
    spec: ExportSpec,
    present: Seq<bool>,
    total_frames: int,
    k: int,
)
    requires
        0 <= k < project.media@.len(),
        spec.width >= 2 && spec.width % 2 == 0,
        spec.height >= 2 && spec.height % 2 == 0,
        0 < spec.fps.rank() < 0x7ff0_0000_0000_0000,
        missing(project, present, k),
        forall|j: int| 0 <= j < k ==> !(#[trigger] missing(project, present, j)),
    ensures
        export_problem(project, spec, present, total_frames) == Some(
            "source file is missing: "@ + project.media@[k].path@,
        ),
{
    lemma_first_missing_is(project, present, 0);
    let m = first_missing(project, present, 0);
    if let Some(m) = m {
        if k < m {
            assert(!missing(project, present, k));
        }
        if m < k {
            assert(!missing(project, present, m));
        }
    }
}

/// A media is missing when its file is not there while some clip shows it.
pub proof fn law_missing_media(project: Project, present: Seq<bool>, k: int, t: int, c: int)
    requires
        0 <= t < project.tracks@.len(),
        0 <= c < project.tracks@[t].clips@.len(),
        project.tracks@[t].clips@[c].media_id == Some(project.media@[k].id),
    ensures
        missing(project, present, k) <==> !present[k],
{
    assert(project.tracks@[t].clips@[c].media_id == Some(project.media@[k].id));
}

proof fn lemma_served(fast: bool, segments: int, n: int)
    requires
        0 <= n,
        0 <= segments <= usize::MAX,
    ensures
        stage_through(JobStage::Audio, fast, segments, Seq::new(n as nat, |i: int| true)) == (if n
            == 0 {
            JobStage::Audio
        } else if !fast {
            if n == 1 {
                JobStage::Composite
            } else if n == 2 {
                JobStage::Rename
            } else {
                JobStage::Done
            }
        } else if n <= segments {
            JobStage::Segment((n - 1) as usize)
        } else if n == segments + 1 {
            JobStage::List
        } else if n == segments + 2 {
            JobStage::Mux
        } else if n == segments + 3 {
            JobStage::Rename
        } else {
            JobStage::Done
        }),
    decreases n,
{
    let all = Seq::new(n as nat, |i: int| true);
    if n > 0 {
        lemma_served(fast, segments, n - 1);
        assert(all.drop_last() =~= Seq::new((n - 1) as nat, |i: int| true));
        assert(all.last());
    }
}

/// The order of the work: first the audio mix; then, on the fast path, every
/// segment once and in order, the list of them, and the join, and otherwise
/// the one encode of all composited frames; the finished file is moved into
/// place last of all.
pub proof fn law_stages_follow_each_other(fast: bool, segments: int, n: int)
    requires
        0 <= n,
        0 <= segments <= usize::MAX,
    ensures
        ({
            let stage = stage_through(
                JobStage::Audio,
                fast,
                segments,
                Seq::new(n as nat, |i: int| true),
            );
            &&& n == 0 ==> stage is Audio
            &&& !fast && n == 1 ==> stage is Composite
            &&& !fast && n == 2 ==> stage is Rename
            &&& !fast && n == 3 ==> stage is Done
            &&& fast && 1 <= n <= segments ==> (stage matches JobStage::Segment(k) && k == n - 1)
            &&& fast && n == segments + 1 ==> stage is List
            &&& fast && n == segments + 2 ==> stage is Mux
            &&& fast && n == segments + 3 ==> stage is Rename
            &&& fast && n == segments + 4 ==> stage is Done
        }),
{
    lemma_served(fast, segments, n);
}

proof fn lemma_pad4(n: nat)
    ensures
        strings::digits_value(pad4(n)) == n,
        pad4(n).len() >= 4,
        forall|k: int| 0 <= k < pad4(n).len() ==> '0' <= #[trigger] pad4(n)[k] <= '9',
{
    reveal_strlit("000");
    reveal_strlit("00");
    reveal_strlit("0");
    reveal_strlit("");
    strings::law_decimal_reads_back(n);
    let d = strings::dec(n);
    if n < 10 {
        lemma_leading_zero(d);
        lemma_leading_zero(seq!['0'] + d);
        lemma_leading_zero(seq!['0'] + (seq!['0'] + d));
        assert(pad4(n) =~= seq!['0'] + (seq!['0'] + (seq!['0'] + d)));
    } else if n < 100 {
        lemma_leading_zero(d);
        lemma_leading_zero(seq!['0'] + d);
        assert(pad4(n) =~= seq!['0'] + (seq!['0'] + d));
        lemma_longer(n);
    } else if n < 1000 {
        lemma_leading_zero(d);
        assert(pad4(n) =~= seq!['0'] + d);
        lemma_longer(n);
    } else {
        assert(pad4(n) =~= d);
        lemma_longer(n);
    }
}

proof fn lemma_longer(n: nat)
    ensures
        n >= 10 ==> strings::dec(n).len() >= 2,
        n >= 100 ==> strings::dec(n).len() >= 3,
        n >= 1000 ==> strings::dec(n).len() >= 4,
{
    reveal_with_fuel(strings::dec, 5);
}

proof fn lemma_leading_zero(s: Seq<char>)
    ensures
        strings::digits_value(seq!['0'] + s) == strings::digits_value(s),
    decreases s.len(),
{
    let z = seq!['0'] + s;
    if s.len() == 0 {
        assert(z.drop_last() =~= Seq::<char>::empty());
        assert(strings::digits_value(Seq::<char>::empty()) == 0);
    } else {
        assert(z.drop_last() =~= seq!['0'] + s.drop_last());
        lemma_leading_zero(s.drop_last());
    }
}

/// Every segment has a file of its own in the job's directory, numbered with
/// at least four digits, so no segment overwrites another.
pub proof fn law_segment_files_are_distinct(temp_dir: Seq<char>, j: nat, k: nat)
    requires
        j != k,
    ensures
        segment_path(temp_dir, j) != segment_path(temp_dir, k),
        exists|number: Seq<char>|
            #![trigger strings::digits_value(number)]
            number.len() >= 4 && strings::digits_value(number) == k && segment_path(temp_dir, k)
                == paths::joined(temp_dir, "seg-"@ + number + ".mp4"@),
{
    lemma_pad4(j);
    lemma_pad4(k);
    let (a, b) = ("seg-"@ + pad4(j) + ".mp4"@, "seg-"@ + pad4(k) + ".mp4"@);
    reveal_strlit("seg-");
    reveal_strlit(".mp4");
    if segment_path(temp_dir, j) == segment_path(temp_dir, k) {
        let p = segment_path(temp_dir, j);
        assert(a[0] == 's' && b[0] == 's');
        let d: int = if temp_dir.len() == 0 || temp_dir.last() == '/' {
            temp_dir.len() as int
        } else {
            temp_dir.len() as int + 1
        };
        assert(p.skip(d) =~= a);
        assert(segment_path(temp_dir, k).skip(d) =~= b);
        assert(a == b);
        assert(pad4(j) =~= a.subrange(4, a.len() - 4));
        assert(pad4(k) =~= b.subrange(4, b.len() - 4));
    }
    assert(strings::digits_value(pad4(k)) == k);
}

/// A job's stages fit together: the mix is rendered to the file that the last
/// encode reads, each segment is encoded to its own file, the list names
/// exactly these files in order, the join reads that list, both encodes write
/// the unfinished file, and only that file is moved to where the user asked
/// for the export.
pub proof fn law_stages_fit_together(
    job: ExportJob,
    spec: ExportSpec,
    encoder: H264Encoder,
    action: JobAction,
)
    requires
        job.wf(),
        job.action_spec(spec, encoder, action),
    ensures
        job.stage is Audio ==> (action matches JobAction::RenderAudio { wav } && wav@ == job.wav@),
        job.stage matches JobStage::Segment(k) ==> (action matches JobAction::Encode { args, .. }
            && strings::views(args@) == render_args::segment_arg_views(
            spec,
            encoder,
            job.segments@[k as int],
            job.timings@[k as int],
            segment_path(job.temp_dir@, k as nat),
        ) && strings::views(args@).last() == segment_path(job.temp_dir@, k as nat)),
        job.stage is List ==> (action matches JobAction::WriteList { path, body } && path@
            == job.list@ && render_args::reads_as(
            body@,
            Seq::new(job.segments@.len(), |k: int| segment_path(job.temp_dir@, k as nat)),
        )),
        job.stage is Mux ==> (action matches JobAction::Encode { args, .. } && strings::views(
            args@,
        ).len() == 24 && strings::views(args@)[5] == job.list@ && strings::views(args@)[7]
            == job.wav@ && strings::views(args@)[23] == job.part@),
        job.stage is Composite ==> (action matches JobAction::Composite { args } && strings::says(
            strings::views(args@),
            "-i"@,
            job.wav@,
        ) && strings::views(args@).last() == job.part@),
        job.stage is Rename ==> (action matches JobAction::Rename { from, to } && from@ == job.part@
            && to@ == spec.dst@),
        job.stage is Done || job.stage is Failed ==> action is Nothing,
{
    if job.stage is List {
        let paths = segment_paths(job.temp_dir@, job.segments@.len());
        render_args::law_list_file_reads_back(paths);
        assert(paths =~= Seq::new(
            job.segments@.len(),
            |k: int| segment_path(job.temp_dir@, k as nat),
        ));
    }
    if job.stage is Composite {
        let args = render_args::raw_arg_views(spec, encoder, job.wav@, job.part@);
        let d: int = if encoder is Vaapi {
            2
        } else {
            0
        };
        strings::lemma_says(args, d + 10);
    }
}

/// While a segment is encoded the user reads which one of how many it is, and
/// the name of its file, or that it is a gap.
pub proof fn law_segments_are_announced(source: SegmentSource, k: nat, n: nat)
    ensures
        strings::begins(
            segment_context(source, k, n),
            "encoding segment "@ + strings::dec(k + 1) + " of "@ + strings::dec(n) + " ("@,
        ),
        source is Black ==> strings::holds_text(segment_context(source, k, n), "gap"@),
        source matches SegmentSource::Clip { path, .. } ==> strings::holds_text(
            segment_context(source, k, n),
            match paths::file_name(path@) {
                Some(name) => name,
                None => path@,
            },
        ),
{
    let front = "encoding segment "@ + strings::dec(k + 1) + " of "@ + strings::dec(n) + " ("@;
    let name = match source {
        SegmentSource::Clip { path, .. } => match paths::file_name(path@) {
            Some(name) => name,
            None => path@,
        },
        SegmentSource::Black => "gap"@,
    };
    let text = segment_context(source, k, n);
    assert(text =~= front + name + ")"@);
    assert(text.take(front.len() as int) =~= front);
    strings::lemma_holds_text(front, name, ")"@);
}

/// The pipelines have their own names.
pub proof fn law_renderers_are_told_apart()
    ensures
        renderer_name(true) == "segment-concat"@,
        renderer_name(false) == "gpu-compositor"@,
{
}

/// What a step of an export leaves as it was: the path taken, the segments and
/// their timings, the length and every file it writes to.
pub proof fn law_steps_keep_the_plan(a: ExportJob, b: ExportJob)
    requires
        a.same_plan(b),
    ensures
        a.fast == b.fast,
        a.segments == b.segments,
        a.timings == b.timings,
        a.total_frames == b.total_frames,
        a.temp_dir == b.temp_dir,
        a.wav == b.wav,
        a.list == b.list,
        a.part == b.part,
{
}

} // verus!
