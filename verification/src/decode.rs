//! In-process video decoding: what a session decides between the calls into
//! the demuxer and the decoder.
//!
//! Sequential playback pulls the next frame; seeks position the session so the
//! *frame visible at* the target time comes out next (floor semantics: an
//! editor shows the frame under the playhead, not the one after it).

use vstd::prelude::*;
use vstd::string::*;

use crate::error::MediaError;

verus! {

/// How many frames ahead a decoder will roll forward instead of seeking. A
/// seek costs up to one GOP of catch-up decode (proxies carry a keyframe every
/// 30 frames), so rolling forward is cheaper up to about that.
pub const FORWARD_WINDOW_FRAMES: i64 = 32;

/// The error of a failed libav call on a file.
pub open spec fn is_decode_error(
    e: MediaError,
    path: Seq<char>,
    context: Seq<char>,
    detail: Seq<char>,
) -> bool {
    match e {
        MediaError::FfmpegFailed { context: Some(c), message } => c@ == context + " for "@ + path
            && message@ == detail,
        _ => false,
    }
}

/// The error of a failed libav call on a file.
pub fn decode_error(path: &str, context: &str, detail: String) -> (out: MediaError)
    ensures
        is_decode_error(out, path@, context@, detail@),
{
    let mut text = context.to_owned();
    text.append(" for ");
    text.append(path);
    MediaError::FfmpegFailed { context: Some(text), message: detail }
}

/// A rational with both sides above zero.
pub open spec fn positive(r: (i32, i32)) -> bool {
    r.0 > 0 && r.1 > 0
}

/// The frame rate of a stream: its average, else its base rate, whichever is
/// usable first.
pub open spec fn stream_rate(average: (i32, i32), base: (i32, i32)) -> Option<(i32, i32)> {
    if positive(average) {
        Some(average)
    } else if positive(base) {
        Some(base)
    } else {
        None
    }
}

/// Choose the frame rate of a video stream, as a rational. A file without a
/// video stream, or whose stream has no usable rate, cannot be opened.
pub fn open_stream(path: &str, found: bool, average: (i32, i32), base: (i32, i32)) -> (out: Result<
    (i32, i32),
    MediaError,
>)
    ensures
        match out {
            Ok(rate) => found && stream_rate(average, base) == Some(rate),
            Err(MediaError::NoStreams { path: p }) => !found && p@ == path@,
            Err(MediaError::FfmpegFailed { context: Some(c), message }) => found && stream_rate(
                average,
                base,
            ) is None && c@ == "opening "@ + path@ && message@
                == "no usable frame rate (got 0)"@,
            Err(_) => false,
        },
{
    if !found {
        return Err(MediaError::NoStreams { path: path.to_owned() });
    }
    if average.0 > 0 && average.1 > 0 {
        return Ok(average);
    }
    if base.0 > 0 && base.1 > 0 {
        return Ok(base);
    }
    let mut context = "opening ".to_owned();
    context.append(path);
    Err(
        MediaError::FfmpegFailed {
            context: Some(context),
            message: "no usable frame rate (got 0)".to_owned(),
        },
    )
}

/// A decoder that reports no picture size cannot be used.
pub fn check_dimensions(path: &str, width: u32, height: u32) -> (out: Result<(), MediaError>)
    ensures
        match out {
            Ok(_) => width != 0 && height != 0,
            Err(MediaError::FfmpegFailed { context: Some(c), message }) => (width == 0 || height
                == 0) && c@ == "opening "@ + path@ && message@ == "stream reports zero dimensions"@,
            Err(_) => false,
        },
{
    if width != 0 && height != 0 {
        return Ok(());
    }
    let mut context = "opening ".to_owned();
    context.append(path);
    Err(
        MediaError::FfmpegFailed {
            context: Some(context),
            message: "stream reports zero dimensions".to_owned(),
        },
    )
}

/// Where a pull for the next frame stands.
#[derive(Clone, Copy, Debug, PartialEq, Eq, Structural)]
pub enum Phase {
    /// No pull under way.
    Idle,
    /// Asked the decoder for a frame.
    Receiving,
    /// Asked the demuxer for a packet.
    Reading,
    /// Sent a packet of our stream.
    Sending,
    /// Told the decoder that no more packets come.
    Ending,
}

/// The state of a decode session.
#[derive(Clone, Copy, Debug, PartialEq, Eq, Structural)]
pub struct DecodeSession {
    /// End-of-file was signalled to the decoder (drain mode).
    pub eof_sent: bool,
    /// The decoder is fully drained; only a seek revives the session.
    pub exhausted: bool,
    /// At least one frame was decoded since open/seek.
    pub has_decoded: bool,
    pub phase: Phase,
}

/// What came back from the last call.
pub enum DecodeEvent {
    /// A pull for the next frame begins.
    Pull,
    /// The decoder handed out a frame.
    Frame,
    /// The decoder needs more input, or the demuxer has nothing yet.
    Again,
    /// The decoder is drained.
    Eof,
    /// A packet of our stream.
    Packet,
    /// A packet of another stream.
    ForeignPacket,
    /// The container has no more packets.
    NoPacket,
    /// The packet, or the end-of-file mark, was accepted.
    Accepted,
    /// The call failed.
    Failed(String),
}

/// What to do next.
pub enum DecodeAction {
    /// Receive a frame from the decoder.
    Receive,
    /// Read a packet from the container.
    ReadPacket,
    /// Send the packet just read to the decoder.
    SendPacket,
    /// Send the end-of-file mark to the decoder.
    SendEof,
    /// A frame is ready.
    Ready,
    /// The stream has ended.
    Ended,
    /// The pull failed.
    Fail(MediaError),
}

/// What kind of action it is.
#[derive(Clone, Copy, Debug, PartialEq, Eq, Structural)]
pub enum Todo {
    Receive,
    ReadPacket,
    SendPacket,
    SendEof,
    Ready,
    Ended,
    Fail,
}

pub open spec fn todo_of(action: DecodeAction) -> Todo {
    match action {
        DecodeAction::Receive => Todo::Receive,
        DecodeAction::ReadPacket => Todo::ReadPacket,
        DecodeAction::SendPacket => Todo::SendPacket,
        DecodeAction::SendEof => Todo::SendEof,
        DecodeAction::Ready => Todo::Ready,
        DecodeAction::Ended => Todo::Ended,
        DecodeAction::Fail(_) => Todo::Fail,
    }
}

/// What a failed call was doing.
pub open spec fn failing(phase: Phase) -> Seq<char> {
    match phase {
        Phase::Reading => "demuxing"@,
        Phase::Ending => "draining decoder"@,
        _ => "decoding"@,
    }
}

impl DecodeSession {
    /// An event that can follow the last action.
    pub open spec fn expects(self, event: DecodeEvent) -> bool {
        match (self.phase, event) {
            (Phase::Idle, DecodeEvent::Pull) => true,
            (
                Phase::Receiving,
                DecodeEvent::Frame | DecodeEvent::Again | DecodeEvent::Eof | DecodeEvent::Failed(
                    _,
                ),
            ) => true,
            (
                Phase::Reading,
                DecodeEvent::Packet
                | DecodeEvent::ForeignPacket
                | DecodeEvent::NoPacket
                | DecodeEvent::Again
                | DecodeEvent::Failed(_),
            ) => true,
            (Phase::Sending, DecodeEvent::Accepted | DecodeEvent::Failed(_)) => true,
            (Phase::Ending, DecodeEvent::Accepted | DecodeEvent::Failed(_)) => true,
            _ => false,
        }
    }

    /// The transition on an event: a drained session stays drained; the decoder
    /// is asked for a frame first, fed packets of our stream when it needs
    /// input, and told the end of file once, after which it is drained (frame
    /// threading buffers several frames that must still come out).
    pub open spec fn after(self, event: DecodeEvent) -> (DecodeSession, Todo) {
        let to = |phase: Phase| DecodeSession { phase, ..self };
        match (self.phase, event) {
            (Phase::Idle, _) => if self.exhausted {
                (self, Todo::Ended)
            } else {
                (to(Phase::Receiving), Todo::Receive)
            },
            (_, DecodeEvent::Failed(_)) => (to(Phase::Idle), Todo::Fail),
            (Phase::Receiving, DecodeEvent::Frame) => (
                DecodeSession { has_decoded: true, phase: Phase::Idle, ..self },
                Todo::Ready,
            ),
            (Phase::Receiving, DecodeEvent::Eof) => (
                DecodeSession { exhausted: true, phase: Phase::Idle, ..self },
                Todo::Ended,
            ),
            (Phase::Receiving, _) => if self.eof_sent {
                (self, Todo::Receive)
            } else {
                (to(Phase::Reading), Todo::ReadPacket)
            },
            (Phase::Reading, DecodeEvent::Packet) => (to(Phase::Sending), Todo::SendPacket),
            (Phase::Reading, DecodeEvent::NoPacket) => (to(Phase::Ending), Todo::SendEof),
            (Phase::Reading, _) => (self, Todo::ReadPacket),
            (Phase::Sending, _) => (to(Phase::Receiving), Todo::Receive),
            (Phase::Ending, _) => (
                DecodeSession { eof_sent: true, phase: Phase::Receiving, ..self },
                Todo::Receive,
            ),
        }
    }

    /// A session just opened.
    pub fn new() -> (out: DecodeSession)
        ensures
            !out.eof_sent,
            !out.exhausted,
            !out.has_decoded,
            out.phase is Idle,
    {
        DecodeSession { eof_sent: false, exhausted: false, has_decoded: false, phase: Phase::Idle }
    }

    /// Take in an event and say what to do next.
    pub fn step(&mut self, path: &str, event: DecodeEvent) -> (out: DecodeAction)
        requires
            old(self).expects(event),
        ensures
            (*final(self), todo_of(out)) == old(self).after(event),
            out matches DecodeAction::Fail(e) ==> (event matches DecodeEvent::Failed(detail)
                && is_decode_error(e, path@, failing(old(self).phase), detail@)),
    {
        match self.phase {
            Phase::Idle => {
                if self.exhausted {
                    return DecodeAction::Ended;
                }
                self.phase = Phase::Receiving;
                DecodeAction::Receive
            },
            Phase::Receiving => match event {
                DecodeEvent::Frame => {
                    self.has_decoded = true;
                    self.phase = Phase::Idle;
                    DecodeAction::Ready
                },
                DecodeEvent::Eof => {
                    self.exhausted = true;
                    self.phase = Phase::Idle;
                    DecodeAction::Ended
                },
                DecodeEvent::Failed(detail) => {
                    self.phase = Phase::Idle;
                    DecodeAction::Fail(decode_error(path, "decoding", detail))
                },
                _ => {
                    if self.eof_sent {
                        return DecodeAction::Receive;
                    }
                    self.phase = Phase::Reading;
                    DecodeAction::ReadPacket
                },
            },
            Phase::Reading => match event {
                DecodeEvent::Packet => {
                    self.phase = Phase::Sending;
                    DecodeAction::SendPacket
                },
                DecodeEvent::NoPacket => {
                    self.phase = Phase::Ending;
                    DecodeAction::SendEof
                },
                DecodeEvent::Failed(detail) => {
                    self.phase = Phase::Idle;
                    DecodeAction::Fail(decode_error(path, "demuxing", detail))
                },
                _ => DecodeAction::ReadPacket,
            },
            Phase::Sending => match event {
                DecodeEvent::Failed(detail) => {
                    self.phase = Phase::Idle;
                    DecodeAction::Fail(decode_error(path, "decoding", detail))
                },
                _ => {
                    self.phase = Phase::Receiving;
                    DecodeAction::Receive
                },
            },
            Phase::Ending => match event {
                DecodeEvent::Failed(detail) => {
                    self.phase = Phase::Idle;
                    DecodeAction::Fail(decode_error(path, "draining decoder", detail))
                },
                _ => {
                    self.eof_sent = true;
                    self.phase = Phase::Receiving;
                    DecodeAction::Receive
                },
            },
        }
    }

    /// A seek revives the session, and nothing decoded before it counts.
    pub fn reset(&mut self)
        ensures
            !final(self).eof_sent,
            !final(self).exhausted,
            !final(self).has_decoded,
            final(self).phase is Idle,
    {
        self.eof_sent = false;
        self.exhausted = false;
        self.has_decoded = false;
        self.phase = Phase::Idle;
    }

    /// Whether the time of the next frame is known: one frame past the last
    /// decoded one, unless the stream has ended.
    pub fn has_next_hint(&self) -> (out: bool)
        ensures
            out == (self.has_decoded && !self.exhausted),
    {
        self.has_decoded && !self.exhausted
    }
}

/// The end of a stream is sticky: until a seek, every pull from a drained
/// session ends at once, and asks nothing of the decoder.
pub proof fn law_end_is_sticky(session: DecodeSession)
    requires
        session.exhausted,
        session.phase is Idle,
    ensures
        session.after(DecodeEvent::Pull) == (session, Todo::Ended),
{
}

/// The end-of-file mark is sent at most once: a session that sent it never
/// reads a packet again.
pub proof fn law_drains_once(session: DecodeSession, event: DecodeEvent)
    requires
        session.eof_sent,
        session.expects(event),
        !(session.phase is Reading),
        !(session.phase is Ending),
    ensures
        session.after(event).0.eof_sent,
        !(session.after(event).0.phase is Reading),
        session.after(event).1 != Todo::ReadPacket,
        session.after(event).1 != Todo::SendEof,
{
}

// ---------------------------------------------------------------------
// Seeking
// ---------------------------------------------------------------------

/// How to position a session.
#[derive(Clone, Copy, Debug, PartialEq, Eq, Structural)]
pub enum SeekPlan {
    /// The session is already positioned just before the target: decode
    /// forward.
    Forward,
    /// Seek to the keyframe before the target.
    Seek,
}

/// The distance of a target from the next frame is one that rolling forward
/// covers.
pub open spec fn in_forward_window(next: int, needed: int) -> bool {
    0 <= needed - next <= FORWARD_WINDOW_FRAMES
}

/// Choose between decoding forward and seeking, by the index of the frame that
/// comes next (if known) and that of the wanted one.
pub fn plan_seek(next: Option<i64>, wanted: i64) -> (out: SeekPlan)
    ensures
        (out is Forward) == (next matches Some(n) && in_forward_window(n as int, wanted as int)),
{
    match next {
        Some(n) => {
            let gap: i128 = wanted as i128 - n as i128;
            if 0 <= gap && gap <= FORWARD_WINDOW_FRAMES as i128 {
                SeekPlan::Forward
            } else {
                SeekPlan::Seek
            }
        },
        None => SeekPlan::Seek,
    }
}

/// Where decoding stops after a seek: at the first frame from which on the
/// next one would start behind the wanted frame, or at the last frame there
/// is. `frames` holds the indices of the frames that come, in order.
pub open spec fn landing(frames: Seq<i64>, wanted: i64) -> Option<i64>
    decreases frames.len(),
{
    if frames.len() == 0 {
        None
    } else if frames[0] >= wanted || frames.len() == 1 {
        Some(frames[0])
    } else {
        landing(frames.drop_first(), wanted)
    }
}

/// The catch-up decode after a seek.
#[derive(Clone, Copy, Debug, PartialEq, Eq, Structural)]
pub struct CatchUp {
    pub wanted: i64,
    /// The frame decoded last.
    pub current: Option<i64>,
}

impl CatchUp {
    /// Towards a wanted frame, nothing decoded yet.
    pub fn new(wanted: i64) -> (out: CatchUp)
        ensures
            out.wanted == wanted,
            out.current is None,
    {
        CatchUp { wanted, current: None }
    }

    /// Note a decoded frame. Returns whether it is the one to show.
    pub fn on_frame(&mut self, index: i64) -> (stop: bool)
        ensures
            final(self).wanted == old(self).wanted,
            final(self).current == Some(index),
            stop == (index >= old(self).wanted),
    {
        self.current = Some(index);
        index >= self.wanted
    }
}

proof fn lemma_landing_past(frames: Seq<i64>, wanted: i64, n: int)
    requires
        0 <= n < frames.len(),
        forall|k: int| 0 <= k < n ==> frames[k] < wanted,
        frames[n] >= wanted || n == frames.len() - 1,
    ensures
        landing(frames, wanted) == Some(frames[n]),
    decreases frames.len(),
{
    if n > 0 {
        assert(frames[0] < wanted);
        assert forall|k: int| 0 <= k < n - 1 implies frames.drop_first()[k] < wanted by {
            assert(frames[k + 1] < wanted);
        }
        lemma_landing_past(frames.drop_first(), wanted, n - 1);
    }
}

/// Decode a known run of frames up to the wanted one: the index of the frame
/// to show, if any frame came.
pub fn catch_up(frames: &Vec<i64>, wanted: i64) -> (out: Option<i64>)
    ensures
        out == landing(frames@, wanted),
{
    let mut state = CatchUp::new(wanted);
    for i in 0..frames.len()
        invariant
            state.wanted == wanted,
            forall|k: int| 0 <= k < i ==> frames@[k] < wanted,
            state.current == if i == 0 {
                None
            } else {
                Some(frames@[i - 1])
            },
    {
        if state.on_frame(frames[i]) {
            proof {
                lemma_landing_past(frames@, wanted, i as int);
            }
            return state.current;
        }
    }
    proof {
        if frames@.len() > 0 {
            lemma_landing_past(frames@, wanted, frames@.len() - 1);
        }
    }
    state.current
}

/// On a constant frame rate, a seek shows exactly the floor frame: the last
/// frame at or before the target, and the final frame when the target lies
/// past the end.
pub proof fn law_seek_shows_the_floor_frame(first: i64, count: int, wanted: i64, frames: Seq<i64>)
    requires
        0 < count,
        frames.len() == count,
        forall|k: int| 0 <= k < count ==> frames[k] == first + k,
        first <= wanted,
    ensures
        landing(frames, wanted) == Some(
            if wanted < first + count {
                wanted
            } else {
                (first + count - 1) as i64
            },
        ),
    decreases count,
{
    assert(frames[0] == first);
    if count > 1 && first < wanted {
        assert forall|k: int| 0 <= k < count - 1 implies frames.drop_first()[k] == (first + 1) + k by {
            assert(frames[k + 1] == first + (k + 1));
        }
        assert(frames[1] == first + 1);
        law_seek_shows_the_floor_frame(
            (first + 1) as i64,
            count - 1,
            wanted,
            frames.drop_first(),
        );
    }
}

/// A stream's average rate is used where both its sides are above zero, else
/// its base rate where both of those are, else it has none.
pub proof fn law_average_rate_comes_first(average: (i32, i32), base: (i32, i32))
    ensures
        average.0 > 0 && average.1 > 0 ==> stream_rate(average, base) == Some(average),
        !(average.0 > 0 && average.1 > 0) && base.0 > 0 && base.1 > 0 ==> stream_rate(average, base)
            == Some(base),
        !(average.0 > 0 && average.1 > 0) && !(base.0 > 0 && base.1 > 0) ==> stream_rate(
            average,
            base,
        ) is None,
{
}

/// What a pull waits for is what it asked for: each action leaves the session
/// in the phase that its answer belongs to, and a pull that is over in none.
pub proof fn law_phases_follow_actions(session: DecodeSession, event: DecodeEvent)
    requires
        session.expects(event),
    ensures
        ({
            let (next, todo) = session.after(event);
            &&& todo == Todo::Receive <==> next.phase == Phase::Receiving
            &&& todo == Todo::ReadPacket <==> next.phase == Phase::Reading
            &&& todo == Todo::SendPacket <==> next.phase == Phase::Sending
            &&& todo == Todo::SendEof <==> next.phase == Phase::Ending
            &&& todo == Todo::Ready || todo == Todo::Ended || todo == Todo::Fail <==> next.phase
                == Phase::Idle
        }),
{
}

/// What each answer leads to. A frame is handed out as soon as it is there; a
/// decoder that needs input gets the next packet of our stream, others are
/// passed over; the end of the container is told to the decoder, which is asked
/// on until it is drained; a failure ends the pull.
pub proof fn law_answers_lead_on(session: DecodeSession, event: DecodeEvent)
    requires
        session.expects(event),
    ensures
        ({
            let todo = session.after(event).1;
            &&& event is Pull ==> todo == (if session.exhausted {
                Todo::Ended
            } else {
                Todo::Receive
            })
            &&& event is Frame ==> todo == Todo::Ready
            &&& event is Eof ==> todo == Todo::Ended
            &&& event is Failed ==> todo == Todo::Fail
            &&& event is Packet ==> todo == Todo::SendPacket
            &&& event is ForeignPacket ==> todo == Todo::ReadPacket
            &&& event is NoPacket ==> todo == Todo::SendEof
            &&& event is Accepted ==> todo == Todo::Receive
            &&& event is Again && session.phase is Reading ==> todo == Todo::ReadPacket
            &&& event is Again && session.phase is Receiving ==> todo == (if session.eof_sent {
                Todo::Receive
            } else {
                Todo::ReadPacket
            })
        }),
{
}

/// What a session remembers: a frame was decoded once one came out, the end was
/// told once the decoder took it, and the stream is over once the decoder said
/// so; nothing else changes any of these.
pub proof fn law_sessions_remember(session: DecodeSession, event: DecodeEvent)
    requires
        session.expects(event),
    ensures
        ({
            let next = session.after(event).0;
            &&& next.has_decoded <==> session.has_decoded || event is Frame
            &&& next.exhausted <==> session.exhausted || event is Eof
            &&& next.eof_sent <==> session.eof_sent || (event is Accepted && session.phase is Ending)
        }),
{
}

/// A failure names what failed.
pub proof fn law_failures_name_the_call()
    ensures
        failing(Phase::Reading) == "demuxing"@,
        failing(Phase::Ending) == "draining decoder"@,
        failing(Phase::Receiving) == "decoding"@,
        failing(Phase::Sending) == "decoding"@,
{
}

/// A session rolls forward to a frame that comes next or up to 32 later, and to
/// no other.
pub proof fn law_forward_window(next: int, needed: int)
    ensures
        in_forward_window(next, needed) <==> next <= needed <= next + 32,
{
}

/// A catch-up stops at the first frame that is not before the wanted one, and
/// at the last frame where there is none; without frames it shows nothing.
pub proof fn law_catch_up_stops_at_the_first(frames: Seq<i64>, wanted: i64, k: int)
    ensures
        landing(Seq::empty(), wanted) is None,
        0 <= k < frames.len() && frames[k] >= wanted && (forall|j: int|
            0 <= j < k ==> #[trigger] frames[j] < wanted) ==> landing(frames, wanted) == Some(
            frames[k],
        ),
        frames.len() > 0 && (forall|j: int|
            0 <= j < frames.len() ==> #[trigger] frames[j] < wanted) ==> landing(frames, wanted)
            == Some(frames.last()),
    decreases frames.len(),
{
    if frames.len() > 1 && frames[0] < wanted {
        let rest = frames.drop_first();
        law_catch_up_stops_at_the_first(rest, wanted, k - 1);
        assert(rest.last() == frames.last());
        assert forall|j: int| 0 <= j < rest.len() implies #[trigger] rest[j] == frames[j + 1] by {}
    }
}

/// The error of a failed call names the call, the file and what was reported.
pub proof fn law_decode_errors_name_the_file(
    e: MediaError,
    path: Seq<char>,
    context: Seq<char>,
    detail: Seq<char>,
)
    requires
        is_decode_error(e, path, context, detail),
    ensures
        match e {
            MediaError::FfmpegFailed { context: Some(c), message } => message@ == detail && c@
                == context + " for "@ + path,
            _ => false,
        },
{
}

} // verus!
