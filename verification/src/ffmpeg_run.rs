//! Running ffmpeg under a cancel token: what its events mean, how a run ends,
//! and the frame loop that feeds the compositor path's encode process.

use std::collections::VecDeque;

use vstd::prelude::*;
use vstd::string::*;

use crate::error::MediaError;
use crate::strings;
use crate::strings::{join_texts, push_owned};

verus! {

/// What ffmpeg reports while it runs.
pub enum RunEvent {
    /// A progress line (out-time).
    Progress,
    /// An error or fatal log line.
    ErrorLog(String),
    /// Anything else.
    Other,
}

/// What an event asks for.
#[derive(Clone, Copy, Debug, PartialEq, Eq, Structural)]
pub struct RunAction {
    /// Forward the out-time to the progress display.
    pub report: bool,
    /// Kill the child: the run was cancelled.
    pub kill: bool,
}

/// How a child process ended: its exit status as text and whether it is a
/// success.
#[derive(Debug)]
pub struct Exit {
    pub success: bool,
    pub text: String,
}

/// One ffmpeg invocation under way.
#[derive(Debug)]
pub struct FfmpegRun {
    pub context: String,
    /// Error log lines so far.
    pub errors: Vec<String>,
}

/// The message of a failed run: its error lines, or else its exit status.
pub open spec fn failure_text(errors: Seq<Seq<char>>, exit: Seq<char>) -> Seq<char> {
    if errors.len() == 0 {
        "ffmpeg exited with "@ + exit
    } else {
        strings::joined_by(errors, "; "@)
    }
}

impl FfmpegRun {
    /// A run that has seen nothing yet.
    pub fn new(context: String) -> (out: FfmpegRun)
        ensures
            out.context == context,
            out.errors@.len() == 0,
    {
        FfmpegRun { context, errors: Vec::new() }
    }

    /// Take in one event. Progress is forwarded and, once cancelled, kills the
    /// child (closing the window between a cancel and its kill by pid); error
    /// lines are collected.
    pub fn on_event(&mut self, event: RunEvent, cancelled: bool) -> (out: RunAction)
        ensures
            final(self).context == old(self).context,
            match event {
                RunEvent::Progress => out.report && out.kill == cancelled && final(self).errors
                    == old(self).errors,
                RunEvent::ErrorLog(line) => !out.report && !out.kill && strings::views(
                    final(self).errors@,
                ) == strings::views(old(self).errors@).push(line@),
                RunEvent::Other => !out.report && !out.kill && final(self).errors
                    == old(self).errors,
            },
    {
        match event {
            RunEvent::Progress => RunAction { report: true, kill: cancelled },
            RunEvent::ErrorLog(line) => {
                push_owned(&mut self.errors, line);
                RunAction { report: false, kill: false }
            },
            RunEvent::Other => RunAction { report: false, kill: false },
        }
    }

    /// The result of a run once its child was reaped: an I/O error of the
    /// wait, then a cancel, then ffmpeg's own failure.
    pub fn finish(&self, wait: Result<Exit, String>, cancelled: bool) -> (out: Result<
        (),
        MediaError,
    >)
        ensures
            match (wait, out) {
                (Err(detail), Err(e)) => e == MediaError::Io(detail),
                (Ok(exit), Err(e)) => {
                    if cancelled {
                        e is ExportCancelled
                    } else {
                        !exit.success && match e {
                            MediaError::FfmpegFailed { context: Some(c), message } => c@
                                == self.context@ && message@ == failure_text(
                                strings::views(self.errors@),
                                exit.text@,
                            ),
                            _ => false,
                        }
                    }
                },
                (Ok(exit), Ok(_)) => !cancelled && exit.success,
                _ => false,
            },
    {
        match wait {
            Err(detail) => Err(MediaError::Io(detail)),
            Ok(exit) => {
                if cancelled {
                    return Err(MediaError::ExportCancelled);
                }
                if !exit.success {
                    let message = if self.errors.len() == 0 {
                        let mut m = "ffmpeg exited with ".to_owned();
                        m.append(exit.text.as_str());
                        m
                    } else {
                        join_texts(&self.errors, "; ")
                    };
                    return Err(
                        MediaError::FfmpegFailed { context: Some(self.context.clone()), message },
                    );
                }
                Ok(())
            },
        }
    }
}

// ---------------------------------------------------------------------
// The compositor path's encode process
// ---------------------------------------------------------------------

/// How many lines of the encoder's stderr are kept.
pub const TAIL_LINES: usize = 40;

/// The last lines of the encoder's stderr, for error reporting.
#[derive(Debug)]
pub struct StderrTail {
    pub lines: VecDeque<String>,
}

/// The last `n` of a list of lines.
pub open spec fn last_lines(lines: Seq<String>, n: int) -> Seq<String> {
    if lines.len() <= n {
        lines
    } else {
        lines.skip(lines.len() - n)
    }
}

impl StderrTail {
    /// No lines yet.
    pub fn new() -> (out: StderrTail)
        ensures
            out.lines@.len() == 0,
    {
        StderrTail { lines: VecDeque::new() }
    }

    /// Note a line, keeping the last forty.
    pub fn push(&mut self, line: String)
        requires
            old(self).lines@.len() <= TAIL_LINES,
        ensures
            final(self).lines@ == last_lines(old(self).lines@.push(line), TAIL_LINES as int),
            final(self).lines@.len() <= TAIL_LINES,
    {
        if self.lines.len() == TAIL_LINES {
            let _ = self.lines.pop_front();
        }
        self.lines.push_back(line);
        proof {
            assert(self.lines@ =~= last_lines(old(self).lines@.push(line), TAIL_LINES as int));
        }
    }

    /// The kept lines, joined.
    pub fn text(&self) -> (out: String)
        ensures
            out@ == strings::joined_by(strings::views(self.lines@), "; "@),
    {
        let mut list: Vec<String> = Vec::new();
        for i in 0..self.lines.len()
            invariant
                list@ == self.lines@.take(i as int),
        {
            list.push(self.lines[i].clone());
            proof {
                assert(list@ =~= self.lines@.take(i + 1));
            }
        }
        proof {
            assert(self.lines@.take(self.lines@.len() as int) =~= self.lines@);
        }
        join_texts(&list, "; ")
    }
}

/// Whatever was written, the tail holds exactly the last lines of it: pushing
/// onto the last forty gives the last forty of the longer list.
pub proof fn law_tail_is_the_end(all: Seq<String>, line: String)
    ensures
        last_lines(last_lines(all, TAIL_LINES as int).push(line), TAIL_LINES as int) == last_lines(
            all.push(line),
            TAIL_LINES as int,
        ),
{
    assert(last_lines(last_lines(all, TAIL_LINES as int).push(line), TAIL_LINES as int)
        =~= last_lines(all.push(line), TAIL_LINES as int));
}

/// The result of the compositor encode once everything stopped. Precedence:
/// cancel, then the wait, then the encoder's own failure (a dead ffmpeg
/// surfaces to the render loop as a broken pipe; its stderr is the real
/// story), then the render loop, then the final flush.
pub fn composite_outcome(
    cancelled: bool,
    wait: Result<Exit, String>,
    tail: String,
    run: Result<(), MediaError>,
    flush: Result<(), String>,
) -> (out: Result<(), MediaError>)
    ensures
        cancelled ==> (out matches Err(e) && e is ExportCancelled),
        !cancelled ==> match wait {
            Err(detail) => out == Err::<(), MediaError>(MediaError::Io(detail)),
            Ok(exit) => {
                if !exit.success {
                    match out {
                        Err(MediaError::FfmpegFailed { context: Some(c), message }) => c@
                            == "compositor encode"@ && message@ == (if tail@.len() == 0 {
                            "ffmpeg exited with "@ + exit.text@
                        } else {
                            tail@
                        }),
                        _ => false,
                    }
                } else if run is Err {
                    out == run
                } else {
                    match flush {
                        Err(detail) => out == Err::<(), MediaError>(MediaError::Io(detail)),
                        Ok(_) => out is Ok,
                    }
                }
            },
        },
{
    if cancelled {
        return Err(MediaError::ExportCancelled);
    }
    match wait {
        Err(detail) => Err(MediaError::Io(detail)),
        Ok(exit) => {
            if !exit.success {
                let message = if tail.as_str().is_empty() {
                    let mut m = "ffmpeg exited with ".to_owned();
                    m.append(exit.text.as_str());
                    m
                } else {
                    tail
                };
                return Err(
                    MediaError::FfmpegFailed {
                        context: Some("compositor encode".to_owned()),
                        message,
                    },
                );
            }
            match run {
                Err(e) => Err(e),
                Ok(_) => match flush {
                    Err(detail) => Err(MediaError::Io(detail)),
                    Ok(_) => Ok(()),
                },
            }
        },
    }
}

/// The tight rows of a padded picture: row after row, the first `row_bytes` of
/// each `stride`.
pub open spec fn tight_rows(data: Seq<u8>, stride: int, row_bytes: int, rows: int) -> Seq<u8>
    decreases rows,
{
    if rows <= 0 {
        Seq::empty()
    } else {
        tight_rows(data, stride, row_bytes, rows - 1) + data.subrange(
            (rows - 1) * stride,
            (rows - 1) * stride + row_bytes,
        )
    }
}

/// Append the tight rows of a padded RGBA readback: `4 * width` bytes of each
/// row of `stride` bytes. The last row needs no padding.
pub fn pack_rows(out: &mut Vec<u8>, data: &[u8], stride: usize, width: u32, height: u32)
    requires
        0 < height ==> (height - 1) * stride + 4 * width <= data@.len(),
    ensures
        final(out)@ == old(out)@ + tight_rows(data@, stride as int, 4 * width, height as int),
{
    let ghost start = out@;
    let size: usize = data.len();
    if height == 0 {
        proof {
            assert(out@ =~= start + tight_rows(data@, stride as int, 4 * width, 0));
        }
        return;
    }
    proof {
        assert(0 <= (height - 1) * stride) by (nonlinear_arith)
            requires
                0 < height,
                0 <= stride,
        ;
    }
    let row_bytes: usize = 4 * width as usize;
    proof {
        assert(out@ =~= start + tight_rows(data@, stride as int, row_bytes as int, 0));
    }
    for row in 0..height as usize
        invariant
            size == data@.len(),
            row_bytes == 4 * width,
            (height - 1) * stride + row_bytes <= size,
            out@ == start + tight_rows(data@, stride as int, row_bytes as int, row as int),
    {
        proof {
            assert(0 <= row * stride <= (height - 1) * stride) by (nonlinear_arith)
                requires
                    0 <= row <= height - 1,
                    0 <= stride,
            ;
        }
        let at: usize = row * stride;
        let ghost before = out@;
        for i in 0..row_bytes
            invariant
                at + row_bytes <= size,
                size == data@.len(),
                out@ == before + data@.subrange(at as int, at + i),
        {
            out.push(data[at + i]);
            proof {
                assert(out@ =~= before + data@.subrange(at as int, at + i + 1));
            }
        }
        proof {
            assert(out@ =~= start + tight_rows(
                data@,
                stride as int,
                row_bytes as int,
                row as int + 1,
            ));
        }
    }
}

/// Counters from a compositor-path frame run (logged for the perf budget; the
/// readback wait is the time spent blocked on GPU to CPU copies, which double
/// buffering is meant to hide).
#[derive(Debug)]
pub struct CompositeRunStats {
    pub frames: i64,
    pub readback_wait_nanos: u64,
    pub adapter: String,
}

/// Every how many frames the encode reports progress.
pub const REPORT_EVERY: i64 = 15;

/// Whether the frame is one that progress is reported at.
pub fn reports_at(frame: i64) -> (out: bool)
    requires
        0 <= frame,
    ensures
        out == (frame as int % REPORT_EVERY as int == 0),
{
    frame % REPORT_EVERY == 0
}

/// One step of the compositor frame loop.
#[derive(Clone, Copy, Debug, PartialEq, Eq, Structural)]
pub enum FrameStep {
    /// Start rendering this frame into this readback slot.
    Begin { frame: i64, slot: usize },
    /// Wait for this slot and hand out the frame it holds.
    Emit { frame: i64, slot: usize },
    /// Stop: the export was cancelled.
    Cancelled,
    /// Every frame was handed out.
    Done,
}

/// The compositor frame loop. Readback is double-buffered across two slots:
/// frame N+1 is submitted before frame N is consumed, so the GPU renders one
/// while the CPU waits on the other.
#[derive(Debug)]
pub struct FrameLoop {
    pub total: i64,
    /// Frames submitted so far.
    pub begun: i64,
    /// Frames handed out so far.
    pub emitted: i64,
}

impl FrameLoop {
    /// At most two frames are in flight.
    pub open spec fn wf(self) -> bool {
        &&& 0 <= self.emitted <= self.begun <= self.emitted + 2
        &&& self.begun <= self.total || self.begun == 0
        &&& self.begun == self.emitted ==> self.emitted == 0 || self.emitted == self.total
    }

    /// The frame that a slot holds: the last one submitted to it.
    pub open spec fn in_slot(self, slot: int) -> int {
        if (self.begun - 1) % 2 == slot {
            self.begun - 1
        } else {
            self.begun - 2
        }
    }

    /// What comes next: the first frame, then for each frame in turn a cancel
    /// check, the submission of the one after it, and its own readback.
    pub open spec fn step(self, cancelled: bool) -> FrameStep {
        if self.emitted >= self.total {
            FrameStep::Done
        } else if self.begun == 0 {
            FrameStep::Begin { frame: 0, slot: 0 }
        } else if self.begun == self.emitted + 1 && cancelled {
            FrameStep::Cancelled
        } else if self.begun == self.emitted + 1 && self.begun < self.total {
            FrameStep::Begin { frame: self.begun, slot: (self.begun as int % 2) as usize }
        } else {
            FrameStep::Emit { frame: self.emitted, slot: (self.emitted as int % 2) as usize }
        }
    }

    /// A loop over `total` frames.
    pub fn new(total: i64) -> (out: FrameLoop)
        ensures
            out.wf(),
            out.total == total,
            out.begun == 0,
            out.emitted == 0,
    {
        FrameLoop { total, begun: 0, emitted: 0 }
    }

    /// Take the next step. A frame is handed out only from the slot that still
    /// holds it, and the frames come out in order.
    pub fn next(&mut self, cancelled: bool) -> (out: FrameStep)
        requires
            old(self).wf(),
        ensures
            final(self).wf(),
            out == old(self).step(cancelled),
            final(self).total == old(self).total,
            match out {
                FrameStep::Begin { frame, .. } => frame == old(self).begun && final(self).begun
                    == old(self).begun + 1 && final(self).emitted == old(self).emitted,
                FrameStep::Emit { frame, slot } => frame == old(self).emitted && old(self).in_slot(
                    slot as int,
                ) == frame && frame < old(self).begun && final(self).emitted == old(self).emitted
                    + 1 && final(self).begun == old(self).begun,
                FrameStep::Cancelled => *final(self) == *old(self),
                FrameStep::Done => *final(self) == *old(self) && old(self).emitted
                    >= old(self).total,
            },
    {
        if self.emitted >= self.total {
            return FrameStep::Done;
        }
        if self.begun == 0 {
            self.begun = 1;
            return FrameStep::Begin { frame: 0, slot: 0 };
        }
        if self.begun == self.emitted + 1 {
            if cancelled {
                return FrameStep::Cancelled;
            }
            if self.begun < self.total {
                let frame: i64 = self.begun;
                self.begun = frame + 1;
                return FrameStep::Begin { frame, slot: (frame % 2) as usize };
            }
        }
        let frame: i64 = self.emitted;
        self.emitted = frame + 1;
        FrameStep::Emit { frame, slot: (frame % 2) as usize }
    }
}

/// A failed run is explained by every error line it logged, in order; by its
/// exit status only where it logged none.
pub proof fn law_failures_are_explained(errors: Seq<Seq<char>>, line: Seq<char>, exit: Seq<char>)
    ensures
        failure_text(Seq::empty(), exit) == "ffmpeg exited with "@ + exit,
        failure_text(seq![line], exit) == line,
        errors.len() > 0 ==> failure_text(errors.push(line), exit) == failure_text(errors, exit)
            + "; "@ + line,
{
    strings::law_joined_lists_grow(errors, line, "; "@);
    strings::law_joined_lists_grow(Seq::empty(), line, "; "@);
    assert(Seq::<Seq<char>>::empty().push(line) =~= seq![line]);
    reveal_with_fuel(strings::joined_by, 2);
    assert(failure_text(seq![line], exit) =~= line);
}

/// The tail of some lines is as long as it may be, and ends where they end.
pub proof fn law_tail_keeps_the_latest(lines: Seq<String>, n: int, i: int)
    requires
        0 <= n,
    ensures
        last_lines(lines, n).len() == (if lines.len() < n {
            lines.len() as int
        } else {
            n
        }),
        0 <= i < last_lines(lines, n).len() ==> last_lines(lines, n)[last_lines(lines, n).len() - 1
            - i] == lines[lines.len() - 1 - i],
{
}

/// A packed picture holds every pixel row without its padding: byte `x` of row
/// `y` stands behind the `y` rows above it.
pub proof fn law_rows_are_packed(
    data: Seq<u8>,
    stride: int,
    row_bytes: int,
    rows: int,
    x: int,
    y: int,
)
    requires
        0 <= y < rows,
        0 <= x < row_bytes <= stride,
        (rows - 1) * stride + row_bytes <= data.len(),
    ensures
        tight_rows(data, stride, row_bytes, rows).len() == rows * row_bytes,
        0 <= y * row_bytes + x < rows * row_bytes,
        tight_rows(data, stride, row_bytes, rows)[y * row_bytes + x] == data[y * stride + x],
{
    lemma_packed(data, stride, row_bytes, rows);
    assert(0 <= y * row_bytes && y * row_bytes + row_bytes <= rows * row_bytes) by (nonlinear_arith)
        requires
            0 <= y < rows,
            0 < row_bytes,
    ;
    lemma_packed_byte(data, stride, row_bytes, rows, x, y);
}

proof fn lemma_packed(data: Seq<u8>, stride: int, row_bytes: int, rows: int)
    requires
        0 <= rows,
        0 <= row_bytes <= stride,
        rows > 0 ==> (rows - 1) * stride + row_bytes <= data.len(),
    ensures
        tight_rows(data, stride, row_bytes, rows).len() == rows * row_bytes,
    decreases rows,
{
    if rows > 0 {
        assert(0 <= (rows - 1) * stride) by (nonlinear_arith)
            requires
                0 < rows,
                0 <= stride,
        ;
        assert((rows - 1) * stride == (rows - 2) * stride + stride) by (nonlinear_arith);
        lemma_packed(data, stride, row_bytes, rows - 1);
        assert(rows * row_bytes == (rows - 1) * row_bytes + row_bytes) by (nonlinear_arith);
    } else {
        assert(0 * row_bytes == 0);
    }
}

proof fn lemma_packed_byte(
    data: Seq<u8>,
    stride: int,
    row_bytes: int,
    rows: int,
    x: int,
    y: int,
)
    requires
        0 <= y < rows,
        0 <= x < row_bytes <= stride,
        (rows - 1) * stride + row_bytes <= data.len(),
    ensures
        tight_rows(data, stride, row_bytes, rows)[y * row_bytes + x] == data[y * stride + x],
    decreases rows,
{
    assert((rows - 1) * stride == (rows - 2) * stride + stride) by (nonlinear_arith);
    assert(0 <= (rows - 1) * stride) by (nonlinear_arith)
        requires
            0 < rows,
            0 <= stride,
    ;
    lemma_packed(data, stride, row_bytes, rows - 1);
    assert(0 <= y * row_bytes) by (nonlinear_arith)
        requires
            0 <= y,
            0 < row_bytes,
    ;
    if y < rows - 1 {
        lemma_packed_byte(data, stride, row_bytes, rows - 1, x, y);
        assert(y * row_bytes + row_bytes <= (rows - 1) * row_bytes) by (nonlinear_arith)
            requires
                y < rows - 1,
                0 < row_bytes,
        ;
    }
}

/// The frame loop submits every frame once, in order, to the two slots in turn,
/// and hands each out once its follower is under way; it ends when all are out,
/// and stops for a cancel only between two frames.
pub proof fn law_frames_alternate(l: FrameLoop, cancelled: bool)
    requires
        l.wf(),
    ensures
        match l.step(cancelled) {
            FrameStep::Done => l.emitted >= l.total,
            FrameStep::Cancelled => cancelled && l.emitted < l.total && l.begun == l.emitted + 1,
            FrameStep::Begin { frame, slot } => {
                &&& l.emitted < l.total
                &&& frame == l.begun
                &&& frame < l.total
                &&& slot == frame % 2
                &&& l.begun <= l.emitted + 1
                &&& l.begun > 0 ==> !cancelled
            },
            FrameStep::Emit { frame, slot } => {
                &&& frame == l.emitted
                &&& frame < l.begun
                &&& slot == frame % 2
                &&& l.begun == l.emitted + 2 || l.begun == l.total
                &&& l.begun == l.emitted + 1 ==> !cancelled
            },
        },
{
}

/// A slot holds the latest frame that was submitted to it: frames alternate
/// between the two, so the one in a slot is of its parity and one of the last
/// two.
pub proof fn law_slots_hold_the_latest(l: FrameLoop, slot: int)
    requires
        l.wf(),
        2 <= l.begun,
        0 <= slot < 2,
    ensures
        l.in_slot(slot) % 2 == slot,
        l.begun - 2 <= l.in_slot(slot) < l.begun,
{
}

} // verus!
