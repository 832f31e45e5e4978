//! The playback engine's state and what it decides between its calls to the
//! clock, the decoders, the JPEG encoder and the prefetch thread.
//!
//! - **Audio is the master clock.** Video presentation chases it: late frames
//!   are dropped, the clock is never adjusted.
//! - **One decoder session per active source.** Shortly before a cut the next
//!   segment's decoder is primed, so crossing the cut is a present-from-memory
//!   operation. Pure split points reuse the running session.
//! - **Gaps** render a black frame and silence; playback continues.
//! - **Scrubbing** while paused serves visited content from the source-keyed
//!   [`FrameCache`].

use vstd::prelude::*;
use vstd::string::*;

use crate::audio_layout;
use crate::audio_layout::Sources;
use crate::bytes::push_bytes;
use crate::double::Real;
use crate::framecache;
use crate::framecache::{CachedFrame, FrameCache, DEFAULT_CAPACITY_BYTES};
use crate::playback::Segment;
use crate::project::holds_id;
use crate::strings;
use crate::strings::{push_dec, push_owned, same_text};

verus! {

broadcast use vstd::std_specs::hash::group_hash_axioms;

/// An encoded frame held between pump iterations (e.g. when a command
/// interrupted the pacing wait) so it is presented, not lost.
#[derive(Debug)]
pub struct EncodedFrame {
    pub timeline_pts: Real,
    pub source_pts: Real,
    pub media_id: u64,
    pub width: u32,
    pub height: u32,
    pub jpeg: Vec<u8>,
}

/// The first frame *past* a segment's out point, decoded while finishing that
/// segment. At a pure split point this exact frame is the next segment's first
/// frame.
#[derive(Debug)]
pub struct Carryover {
    pub media_id: u64,
    pub source_pts: Real,
    pub width: u32,
    pub height: u32,
    pub jpeg: Vec<u8>,
}

/// A decoder positioned on its segment's first frame, with that frame already
/// encoded.
#[derive(Debug)]
pub struct Primed {
    pub clip_id: u64,
    pub media_id: u64,
    pub first_src_pts: Real,
    /// The frame rate of the primed decoder.
    pub fps: Real,
    pub width: u32,
    pub height: u32,
    pub jpeg: Vec<u8>,
}

/// A request to open and position a decoder for an upcoming segment.
#[derive(Debug)]
pub struct PrimeRequest {
    pub clip_id: u64,
    pub media_id: u64,
    pub path: String,
    pub source_in: Real,
}

/// Playback counters.
#[derive(Clone, Copy, Debug, PartialEq, Eq, Structural)]
pub struct Stats {
    pub frames_presented: u64,
    pub frames_dropped: u64,
    /// Segment switches that found no primed decoder and had to open one
    /// synchronously (a potential visible hitch).
    pub cold_switches: u64,
    /// Segment switches served from a primed decoder or session reuse.
    pub warm_switches: u64,
}

/// The engine's state.
pub struct Transport {
    /// Whether the clock runs.
    pub playing: bool,
    /// Last presented/known timeline position (UI position while paused,
    /// anchor for stepping).
    pub position: Real,
    /// The last thing shown is the gap black frame.
    pub showing_black: bool,
    pub at_eof: bool,
    /// Segment currently being decoded/presented (while playing).
    pub active: Option<Segment>,
    /// A decoded-but-not-yet-presented frame (pacing wait interrupted).
    pub pending_frame: Option<EncodedFrame>,
    /// The frame decoded past the active segment's cut.
    pub carryover: Option<Carryover>,
    pub primed: Option<Primed>,
    /// Clip id of the in-flight prime request (results for anything else are
    /// stale and dropped).
    pub in_flight: Option<u64>,
    /// Media with a live decode session.
    pub sessions: Vec<u64>,
    pub sources: Sources,
    pub cache: FrameCache,
    /// Messages already surfaced (report each condition once).
    pub reported: Vec<String>,
    pub stats: Stats,
}

/// A frame to hand to the display now.
#[derive(Debug)]
pub struct FrameEvent {
    /// Timeline time.
    pub pts_sec: Real,
    pub width: u32,
    pub height: u32,
    pub jpeg: Vec<u8>,
}

/// What driving playback for one frame begins with.
pub enum PumpStep {
    /// The end of the timeline: pause the clock, report the end.
    Finish,
    /// A frame stashed by an interrupted wait goes first.
    Pace(EncodedFrame),
    /// The clock left the active segment: resolve what is visible.
    Resolve,
    /// Decode the next frame of this segment.
    Decode(Segment),
}

/// What a decoded frame is to the segment it was decoded for.
#[derive(Clone, Copy, Debug, PartialEq, Eq, Structural)]
pub enum FrameClass {
    /// It belongs past the cut: never present it here.
    PastCut,
    /// Too late: drop it and catch up.
    Late,
    /// Encode, pace and present it.
    Show,
}

/// What decoding the next frame of a segment came to.
pub enum Decoded {
    Frame(EncodedFrame),
    /// The frame was too late to show.
    Late,
    /// The segment is fully presented; the frame behind its cut, if it could
    /// be encoded.
    PastCut(Option<Carryover>),
    /// The source ran out before the segment did.
    SourceDry,
    Failed(String),
    /// The segment has no decode session.
    NoSession,
}

/// How the pump goes on.
pub enum PumpNext {
    Pace(EncodedFrame),
    /// Nothing more this time.
    Continue,
    /// Hold until the clock has crossed the cut.
    WaitPastCut,
    /// Show black until the end of the segment.
    BlackToEnd,
    /// Close the segment's session; surface the message if it is new.
    Drop { report: bool },
}

/// How a segment is entered.
pub enum Switch {
    /// Split point: the carried-over frame is this segment's first.
    Continuous(Carryover),
    /// Use the prefetched decoder and its first frame.
    Primed(Primed),
    /// The running session is already where playback needs it.
    Positioned,
    /// Open and position a session on the spot.
    Cold,
}

/// How a scrub goes on.
pub enum ScrubStep {
    /// Nothing is visible there.
    Black,
    /// Visited content.
    Cached { source_pts: Real, width: u32, height: u32, jpeg: Vec<u8> },
    /// One in-process seek.
    Cold(Segment),
}

/// What a cold scrub came to.
pub enum Scrubbed {
    Frame(EncodedFrame),
    NoFrame,
    JpegFailed(String),
    DecodeFailed(String),
}

/// How a cold scrub ends.
pub enum ScrubEnd {
    Present(EncodedFrame),
    Black,
    /// The encode failed: keep what is shown, surface the message if new.
    Report { text: String, report: bool },
    /// The decoder failed: black, its session closed, the message surfaced if
    /// new.
    BlackAfterError { text: String, report: bool },
}

/// How to get a segment's decode session.
pub enum SessionStep {
    Ready,
    Open(String),
    /// There is none; surface the message if it is new.
    Unavailable { text: String, report: bool },
}

/// What play does.
#[derive(Clone, Copy, Debug, PartialEq, Eq, Structural)]
pub enum PlayStep {
    /// Empty timeline: nothing to play.
    Nothing,
    /// Seek to the start, then start.
    FromTop,
    Start,
}

/// A value kept between two bounds, as `f64::clamp` does.
pub open spec fn clamp_real(v: Real, lo: Real, hi: Real) -> Real {
    if v.lt(lo) {
        lo
    } else if hi.lt(v) {
        hi
    } else {
        v
    }
}


/// The end of the timeline as a seek bound: never before zero.
pub open spec fn end_bound(end: Real) -> Real {
    end.larger(Real::zero())
}

/// A time kept between zero and the end of the timeline.
pub fn seek_target(t: Real, end: Real) -> (out: Real)
    ensures
        out == clamp_real(t, Real::zero(), end_bound(end)),
{
    let lo = Real { bits: 0 };
    let hi = end.larger_of(lo);
    if t.is_below(lo) {
        lo
    } else if hi.is_below(t) {
        hi
    } else {
        t
    }
}

/// A frame number kept on the timeline.
pub open spec fn clamp_frame(v: int, max: int) -> int {
    if v < 0 {
        0
    } else if v > max {
        max
    } else {
        v
    }
}

/// The frame a step of `n` frames lands on. `ceil_end` is the timeline's length
/// in frames, rounded up: the last frame is the one before it, or frame 0.
pub open spec fn step_target(current: int, n: int, ceil_end: int) -> int {
    clamp_frame(
        current + n,
        if ceil_end - 1 > 0 {
            ceil_end - 1
        } else {
            0
        },
    )
}

/// The frame a step lands on.
pub fn do_step(current: i64, n: i64, ceil_end: i64) -> (out: i64)
    ensures
        out == step_target(current as int, n as int, ceil_end as int),
{
    let last: i128 = ceil_end as i128 - 1;
    let max: i128 = if last > 0 {
        last
    } else {
        0
    };
    let v: i128 = current as i128 + n as i128;
    if v < 0 {
        0
    } else if v > max {
        max as i64
    } else {
        v as i64
    }
}

/// A step never leaves the timeline, a step of zero stays where it is, and a
/// step back undoes a step forth unless an end was hit.
pub proof fn law_steps_stay_on_the_timeline(current: int, n: int, ceil_end: int)
    requires
        0 < ceil_end,
        0 <= current < ceil_end,
    ensures
        0 <= step_target(current, n, ceil_end) < ceil_end,
        step_target(current, 0, ceil_end) == current,
        0 <= current + n < ceil_end ==> step_target(
            step_target(current, n, ceil_end),
            -n,
            ceil_end,
        ) == current,
{
}

/// Classify a decoded frame. `cut` lies a hair before the segment's out point
/// in the source, `horizon` is the latest clock position a frame may be behind.
pub fn classify_frame(source_pts: Real, cut: Real, timeline_pts: Real, horizon: Real) -> (out:
    FrameClass)
    ensures
        out == if cut.le(source_pts) {
            FrameClass::PastCut
        } else if timeline_pts.lt(horizon) {
            FrameClass::Late
        } else {
            FrameClass::Show
        },
{
    if cut.is_at_most(source_pts) {
        FrameClass::PastCut
    } else if timeline_pts.is_below(horizon) {
        FrameClass::Late
    } else {
        FrameClass::Show
    }
}

fn copy_bytes(data: &Vec<u8>) -> (out: Vec<u8>)
    ensures
        out@ == data@,
{
    let mut out: Vec<u8> = Vec::new();
    push_bytes(&mut out, data.as_slice());
    proof {
        assert(out@ =~= data@);
    }
    out
}

/// The entries of a list that are also in another.
pub open spec fn common(list: Seq<u64>, keep: Seq<u64>) -> Seq<u64>
    decreases list.len(),
{
    if list.len() == 0 {
        list
    } else {
        let before = common(list.drop_last(), keep);
        if keep.contains(list.last()) {
            before.push(list.last())
        } else {
            before
        }
    }
}

/// A list without an entry.
pub open spec fn less(list: Seq<u64>, id: u64) -> Seq<u64>
    decreases list.len(),
{
    if list.len() == 0 {
        list
    } else {
        let before = less(list.drop_last(), id);
        if list.last() != id {
            before.push(list.last())
        } else {
            before
        }
    }
}

/// A list with an entry, once.
pub open spec fn more(list: Seq<u64>, id: u64) -> Seq<u64> {
    if list.contains(id) {
        list
    } else {
        list.push(id)
    }
}

fn remove_id(list: &mut Vec<u64>, id: u64)
    ensures
        final(list)@ == less(old(list)@, id),
{
    let ghost all = list@;
    let mut rest: Vec<u64> = Vec::new();
    for i in 0..list.len()
        invariant
            list@ == all,
            rest@ == less(all.take(i as int), id),
    {
        proof {
            assert(all.take(i + 1).drop_last() =~= all.take(i as int));
        }
        if list[i] != id {
            rest.push(list[i]);
        }
    }
    proof {
        assert(all.take(all.len() as int) =~= all);
    }
    *list = rest;
}

/// A message was surfaced before.
pub open spec fn known(reported: Seq<String>, text: Seq<char>) -> bool {
    strings::views(reported).contains(text)
}

/// The messages surfaced, once this one is among them.
pub open spec fn noted(reported: Seq<String>, text: Seq<char>) -> Seq<Seq<char>> {
    if known(reported, text) {
        strings::views(reported)
    } else {
        strings::views(reported).push(text)
    }
}

/// The message of a segment without a playable file.
pub open spec fn unavailable_text(pending: bool, media_id: u64) -> Seq<char> {
    if pending {
        "preview not ready yet — proxy still generating"@
    } else {
        "no playable video for media "@ + strings::dec(media_id as nat)
    }
}

/// Asking for a segment's decoder to be primed: nothing happens while that is
/// under way or done, or where the source has no file yet; otherwise the
/// request goes out and is in flight.
pub open spec fn primes(
    before: Transport,
    after: Transport,
    next: Segment,
    out: Option<PrimeRequest>,
) -> bool {
    let busy = before.in_flight == Some(next.clip_id) || (before.primed is Some
        && before.primed->0.clip_id == next.clip_id);
    let file = audio_layout::picture_file(before.sources.map@, next.media_id);
    if busy || file is None {
        out is None && after == before
    } else {
        &&& out is Some
        &&& out->0.clip_id == next.clip_id
        &&& out->0.media_id == next.media_id
        &&& Some(out->0.path@) == file
        &&& out->0.source_in == next.source_in
        &&& after == (Transport { in_flight: Some(next.clip_id), ..before })
    }
}

impl Transport {
    /// The frame cache is in order, and no message is noted twice.
    pub open spec fn wf(self) -> bool {
        self.cache.wf() && strings::views(self.reported@).no_duplicates()
    }

    /// The media waits for its proxy.
    pub open spec fn waits_for_proxy(self, media_id: u64) -> bool {
        self.sources.map@.contains_key(media_id) && self.sources.map@[media_id] is ProxyPending
    }

    /// Paused at the start of a project whose sources are still to be
    /// resolved.
    pub fn new() -> (out: Transport)
        ensures
            out.wf(),
            !out.playing,
            out.position == Real::zero(),
            !out.showing_black,
            !out.at_eof,
            out.active is None,
            out.pending_frame is None,
            out.carryover is None,
            out.primed is None,
            out.in_flight is None,
            out.sessions@.len() == 0,
            out.reported@.len() == 0,
            out.sources.map@ == Map::<u64, audio_layout::SourceFiles>::empty(),
            out.sources.fps@ == Map::<u64, Real>::empty(),
            out.stats == (Stats {
                frames_presented: 0,
                frames_dropped: 0,
                cold_switches: 0,
                warm_switches: 0,
            }),
            out.cache.budget() == DEFAULT_CAPACITY_BYTES,
            out.cache.ages().len() == 0,
    {
        Transport {
            playing: false,
            position: Real { bits: 0 },
            showing_black: false,
            at_eof: false,
            active: None,
            pending_frame: None,
            carryover: None,
            primed: None,
            in_flight: None,
            sessions: Vec::new(),
            sources: Sources::new(),
            cache: FrameCache::new(DEFAULT_CAPACITY_BYTES),
            reported: Vec::new(),
            stats: Stats {
                frames_presented: 0,
                frames_dropped: 0,
                cold_switches: 0,
                warm_switches: 0,
            },
        }
    }

    // --- Reporting -------------------------------------------------------

    /// Note a message. Returns whether it is new, and so to be surfaced.
    pub fn report(&mut self, text: &str) -> (fresh: bool)
        requires
            old(self).wf(),
        ensures
            final(self).wf(),
            fresh == !known(old(self).reported@, text@),
            strings::views(final(self).reported@) == noted(old(self).reported@, text@),
            *final(self) == (Transport { reported: final(self).reported, ..*old(self) }),
    {
        let ghost seen = strings::views(self.reported@);
        for i in 0..self.reported.len()
            invariant
                seen == strings::views(self.reported@),
                *self == *old(self),
                self.wf(),
                forall|k: int| 0 <= k < i ==> seen[k] != text@,
        {
            if same_text(self.reported[i].as_str(), text) {
                proof {
                    assert(seen[i as int] == text@);
                    assert(seen.contains(text@));
                }
                return false;
            }
        }
        push_owned(&mut self.reported, text.to_owned());
        true
    }

    // --- The pump --------------------------------------------------------

    /// Begin driving playback for (at most) one frame at clock position `t`.
    /// `limit` lies a hair before the end of the timeline.
    pub fn pump_begin(&mut self, t: Real, limit: Real, end: Real) -> (out: PumpStep)
        ensures
            if limit.le(t) {
                out is Finish && *final(self) == (Transport {
                    playing: false,
                    position: end,
                    at_eof: true,
                    active: None,
                    pending_frame: None,
                    ..*old(self)
                })
            } else if old(self).pending_frame is Some {
                out == PumpStep::Pace(old(self).pending_frame->0) && *final(self) == (Transport {
                    pending_frame: None,
                    ..*old(self)
                })
            } else {
                *final(self) == *old(self) && match old(self).active {
                    Some(seg) => if seg.covers(t) {
                        out == PumpStep::Decode(seg)
                    } else {
                        out is Resolve
                    },
                    None => out is Resolve,
                }
            },
    {
        if limit.is_at_most(t) {
            self.playing = false;
            self.position = end;
            self.at_eof = true;
            self.active = None;
            self.pending_frame = None;
            return PumpStep::Finish;
        }
        if let Some(frame) = self.pending_frame.take() {
            return PumpStep::Pace(frame);
        }
        match self.active {
            Some(seg) => if seg.is_at(t) {
                PumpStep::Decode(seg)
            } else {
                PumpStep::Resolve
            },
            None => PumpStep::Resolve,
        }
    }

    /// Go on from what decoding the next frame of `seg` came to. A segment
    /// whose last frame was decoded is left with the frame behind its cut in
    /// hand; a broken decoder is closed.
    pub fn pump_decoded(&mut self, seg: &Segment, decoded: Decoded) -> (out: PumpNext)
        requires
            old(self).wf(),
            old(self).stats.frames_dropped < u64::MAX,
        ensures
            final(self).wf(),
            match decoded {
                Decoded::Frame(frame) => out == PumpNext::Pace(frame) && *final(self) == *old(self),
                Decoded::Late => out is Continue && *final(self) == (Transport {
                    stats: Stats {
                        frames_dropped: (old(self).stats.frames_dropped + 1) as u64,
                        ..old(self).stats
                    },
                    ..*old(self)
                }),
                Decoded::PastCut(carry) => out is WaitPastCut && *final(self) == (Transport {
                    carryover: carry,
                    active: None,
                    ..*old(self)
                }),
                Decoded::SourceDry => out is BlackToEnd && *final(self) == (Transport {
                    active: None,
                    ..*old(self)
                }),
                Decoded::NoSession => out is BlackToEnd && *final(self) == *old(self),
                Decoded::Failed(text) => {
                    &&& out == (PumpNext::Drop { report: !known(old(self).reported@, text@) })
                    &&& final(self).sessions@ == less(old(self).sessions@, seg.media_id)
                    &&& strings::views(final(self).reported@) == noted(old(self).reported@, text@)
                    &&& *final(self) == (Transport {
                        active: None,
                        sessions: final(self).sessions,
                        reported: final(self).reported,
                        ..*old(self)
                    })
                },
            },
    {
        match decoded {
            Decoded::Frame(frame) => PumpNext::Pace(frame),
            Decoded::Late => {
                self.stats.frames_dropped = self.stats.frames_dropped + 1;
                PumpNext::Continue
            },
            Decoded::PastCut(carry) => {
                self.carryover = carry;
                self.active = None;
                PumpNext::WaitPastCut
            },
            Decoded::SourceDry => {
                self.active = None;
                PumpNext::BlackToEnd
            },
            Decoded::NoSession => PumpNext::BlackToEnd,
            Decoded::Failed(text) => {
                remove_id(&mut self.sessions, seg.media_id);
                let report = self.report(text.as_str());
                self.active = None;
                PumpNext::Drop { report }
            },
        }
    }

    /// A command interrupted the pacing wait: keep the frame, it is still the
    /// next one due.
    pub fn stash(&mut self, frame: EncodedFrame)
        ensures
            *final(self) == (Transport { pending_frame: Some(frame), ..*old(self) }),
    {
        self.pending_frame = Some(frame);
    }

    /// Enter a segment. The frame carried over from the previous cut continues
    /// here if it is of the same source, `carry_near` says it sits on the
    /// segment's first frame, and the session still runs; anything else carried
    /// over is garbage. A prime is consumed only by its own clip: one for a
    /// later boundary survives this switch. Without either, a session that is
    /// `positioned` just keeps decoding.
    pub fn switch_to(&mut self, seg: &Segment, carry_near: bool, positioned: bool) -> (out: Switch)
        requires
            old(self).stats.warm_switches < u64::MAX,
            old(self).stats.cold_switches < u64::MAX,
        ensures
            ({
                let warm = Stats {
                    warm_switches: (old(self).stats.warm_switches + 1) as u64,
                    ..old(self).stats
                };
                let cold = Stats {
                    cold_switches: (old(self).stats.cold_switches + 1) as u64,
                    ..old(self).stats
                };
                let entered = Transport { active: Some(*seg), carryover: None, ..*old(self) };
                let continues = old(self).carryover is Some && old(self).carryover->0.media_id
                    == seg.media_id && carry_near && old(self).sessions@.contains(seg.media_id);
                let is_primed = old(self).primed is Some && old(self).primed->0.clip_id
                    == seg.clip_id;
                if continues {
                    out == Switch::Continuous(old(self).carryover->0) && *final(self) == (
                    Transport { stats: warm, ..entered })
                } else if is_primed {
                    &&& out == Switch::Primed(old(self).primed->0)
                    &&& final(self).sessions@ == more(
                        old(self).sessions@,
                        old(self).primed->0.media_id,
                    )
                    &&& final(self).sources.fps@ == old(self).sources.fps@.insert(
                        old(self).primed->0.media_id,
                        old(self).primed->0.fps,
                    )
                    &&& final(self).sources.map == old(self).sources.map
                    &&& *final(self) == (Transport {
                        stats: warm,
                        primed: None,
                        sessions: final(self).sessions,
                        sources: final(self).sources,
                        ..entered
                    })
                } else if positioned {
                    out is Positioned && *final(self) == (Transport { stats: warm, ..entered })
                } else {
                    out is Cold && *final(self) == (Transport { stats: cold, ..entered })
                }
            }),
    {
        self.active = Some(*seg);
        if let Some(carry) = self.carryover.take() {
            if carry.media_id == seg.media_id && carry_near && holds_id(
                &self.sessions,
                seg.media_id,
            ) {
                self.stats.warm_switches = self.stats.warm_switches + 1;
                return Switch::Continuous(carry);
            }
        }
        let matching = match &self.primed {
            Some(p) => p.clip_id == seg.clip_id,
            None => false,
        };
        if matching {
            let primed = self.primed.take().unwrap();
            self.sources.fps.insert(primed.media_id, primed.fps);
            if !holds_id(&self.sessions, primed.media_id) {
                self.sessions.push(primed.media_id);
            }
            self.stats.warm_switches = self.stats.warm_switches + 1;
            return Switch::Primed(primed);
        }
        if positioned {
            self.stats.warm_switches = self.stats.warm_switches + 1;
            return Switch::Positioned;
        }
        self.stats.cold_switches = self.stats.cold_switches + 1;
        Switch::Cold
    }

    /// Close sessions for sources that are neither active nor upcoming ("one
    /// decoder session per active source"). `next` is the media of the next
    /// segment. Returns the media to keep.
    pub fn gc_sessions(&mut self, current: u64, next: Option<u64>) -> (keep: Vec<u64>)
        ensures
            forall|id: u64|
                #[trigger] keep@.contains(id) <==> id == current || next == Some(id) || (old(self).primed is Some && old(self).primed->0.media_id == id),
            final(self).sessions@ == common(old(self).sessions@, keep@),
            *final(self) == (Transport { sessions: final(self).sessions, ..*old(self) }),
    {
        let mut keep: Vec<u64> = Vec::new();
        keep.push(current);
        proof {
            assert(keep@ =~= seq![current]);
        }
        let ghost first = keep@;
        if let Some(id) = next {
            keep.push(id);
        }
        let ghost second = keep@;
        if let Some(p) = &self.primed {
            keep.push(p.media_id);
        }
        proof {
            assert forall|id: u64| #[trigger] keep@.contains(id) <==> id == current || next == Some(
                id,
            ) || (self.primed is Some && self.primed->0.media_id == id) by {
                assert(keep@[0] == current);
                if next is Some {
                    assert(keep@[1] == next->0);
                }
                if self.primed is Some {
                    assert(keep@[keep@.len() - 1] == self.primed->0.media_id);
                }
            }
        }
        let ghost all = self.sessions@;
        let mut rest: Vec<u64> = Vec::new();
        for i in 0..self.sessions.len()
            invariant
                *self == *old(self),
                self.sessions@ == all,
                rest@ == common(all.take(i as int), keep@),
        {
            proof {
                assert(all.take(i + 1).drop_last() =~= all.take(i as int));
            }
            let id: u64 = self.sessions[i];
            if holds_id(&keep, id) {
                rest.push(id);
            }
        }
        proof {
            assert(all.take(all.len() as int) =~= all);
        }
        self.sessions = rest;
        keep
    }

    // --- Prefetch --------------------------------------------------------

    /// Ask for a segment's decoder to be primed, unless that is under way or
    /// done, or its proxy is not there yet.
    pub fn request_prime(&mut self, next: &Segment) -> (out: Option<PrimeRequest>)
        ensures
            primes(*old(self), *final(self), *next, out),
    {
        if let Some(id) = self.in_flight {
            if id == next.clip_id {
                return None;
            }
        }
        if let Some(p) = &self.primed {
            if p.clip_id == next.clip_id {
                return None;
            }
        }
        match self.sources.video_path(next.media_id) {
            None => None,
            Some(path) => {
                self.in_flight = Some(next.clip_id);
                Some(
                    PrimeRequest {
                        clip_id: next.clip_id,
                        media_id: next.media_id,
                        path,
                        source_in: next.source_in,
                    },
                )
            },
        }
    }

    /// While inside `seg`, ask for the next segment's decoder once the cut is
    /// in sight. A split-point continuation (`contiguous`: the source and the
    /// timeline run on without a gap) of the same source needs no priming.
    pub fn plan_lookahead(
        &mut self,
        seg: &Segment,
        next: Option<Segment>,
        in_sight: bool,
        contiguous: bool,
    ) -> (out: Option<PrimeRequest>)
        ensures
            !in_sight || next is None || (next->0.media_id == seg.media_id && contiguous) ==> out
                is None && *final(self) == *old(self),
            in_sight && next is Some && !(next->0.media_id == seg.media_id && contiguous) ==> primes(
                *old(self),
                *final(self),
                next->0,
                out,
            ),
    {
        if !in_sight {
            return None;
        }
        match next {
            None => None,
            Some(next) => {
                if next.media_id == seg.media_id && contiguous {
                    return None;
                }
                self.request_prime(&next)
            },
        }
    }

    /// Pace through a gap. The segment that ends it (if any) is primed once
    /// `soon`; returns that request, and when to wake: at the segment's start
    /// or at `poll`, whichever is earlier, and never past the end of the
    /// timeline where no more video comes.
    pub fn idle_through_gap(
        &mut self,
        next: Option<(Real, Segment)>,
        soon: bool,
        poll: Real,
        end: Real,
    ) -> (out: (Option<PrimeRequest>, Real))
        ensures
            out.1 == match next {
                Some((start, _)) => start.smaller(poll),
                None => poll.smaller(end),
            },
            next is None || !soon ==> out.0 is None && *final(self) == *old(self),
            next is Some && soon ==> primes(*old(self), *final(self), (next->0).1, out.0),
    {
        match next {
            Some((start, seg)) => {
                let request = if soon {
                    self.request_prime(&seg)
                } else {
                    None
                };
                (request, start.smaller_of(poll))
            },
            None => (None, poll.smaller_of(end)),
        }
    }

    /// Take in a result of the prefetch thread. Only the request in flight
    /// counts: anything else is stale (the project changed) and dropped.
    /// Returns whether the result was taken.
    pub fn primed_ready(&mut self, primed: Primed) -> (taken: bool)
        ensures
            taken == (old(self).in_flight == Some(primed.clip_id)),
            *final(self) == (if taken {
                Transport { in_flight: None, primed: Some(primed), ..*old(self) }
            } else {
                *old(self)
            }),
    {
        let ours = match self.in_flight {
            Some(id) => id == primed.clip_id,
            None => false,
        };
        if ours {
            self.in_flight = None;
            self.primed = Some(primed);
        }
        ours
    }

    /// Priming failed: the request is over, and the message surfaces if it is
    /// new.
    pub fn prime_failed(&mut self, clip_id: u64, detail: &str) -> (fresh: bool)
        requires
            old(self).wf(),
        ensures
            final(self).wf(),
            fresh == !known(old(self).reported@, "priming next clip failed: "@ + detail@),
            strings::views(final(self).reported@) == noted(
                old(self).reported@,
                "priming next clip failed: "@ + detail@,
            ),
            final(self).in_flight == (if old(self).in_flight == Some(clip_id) {
                None
            } else {
                old(self).in_flight
            }),
            *final(self) == (Transport {
                in_flight: final(self).in_flight,
                reported: final(self).reported,
                ..*old(self)
            }),
    {
        if let Some(id) = self.in_flight {
            if id == clip_id {
                self.in_flight = None;
            }
        }
        let mut text = "priming next clip failed: ".to_owned();
        text.append(detail);
        self.report(text.as_str())
    }

    // --- Sessions --------------------------------------------------------

    /// How to get the decode session of a media.
    pub fn session_for(&mut self, media_id: u64) -> (out: SessionStep)
        requires
            old(self).wf(),
        ensures
            final(self).wf(),
            ({
                let file = audio_layout::picture_file(old(self).sources.map@, media_id);
                if old(self).sessions@.contains(media_id) {
                    out is Ready && *final(self) == *old(self)
                } else if file is Some {
                    (out matches SessionStep::Open(path) && Some(path@) == file) && *final(self)
                        == *old(self)
                } else {
                    &&& match out {
                        SessionStep::Unavailable { text, report } => text@ == unavailable_text(
                            old(self).waits_for_proxy(media_id),
                            media_id,
                        ) && report == !known(old(self).reported@, text@) && strings::views(
                            final(self).reported@,
                        ) == noted(old(self).reported@, text@),
                        _ => false,
                    }
                    &&& *final(self) == (Transport {
                        reported: final(self).reported,
                        ..*old(self)
                    })
                }
            }),
    {
        if holds_id(&self.sessions, media_id) {
            return SessionStep::Ready;
        }
        match self.sources.video_path(media_id) {
            Some(path) => SessionStep::Open(path),
            None => {
                let text = if self.sources.is_pending(media_id) {
                    "preview not ready yet — proxy still generating".to_owned()
                } else {
                    let mut t = "no playable video for media ".to_owned();
                    push_dec(&mut t, media_id);
                    t
                };
                let report = self.report(text.as_str());
                SessionStep::Unavailable { text, report }
            },
        }
    }

    /// A session was opened: note it and the frame rate it learned.
    pub fn session_opened(&mut self, media_id: u64, fps: Real)
        ensures
            final(self).sessions@ == more(old(self).sessions@, media_id),
            final(self).sources.fps@ == old(self).sources.fps@.insert(media_id, fps),
            final(self).sources.map == old(self).sources.map,
            *final(self) == (Transport {
                sessions: final(self).sessions,
                sources: final(self).sources,
                ..*old(self)
            }),
    {
        self.sources.fps.insert(media_id, fps);
        if !holds_id(&self.sessions, media_id) {
            self.sessions.push(media_id);
        }
    }

    /// Opening a session failed: the message, and whether to surface it.
    pub fn session_failed(&mut self, path: &str, detail: &str) -> (out: (String, bool))
        requires
            old(self).wf(),
        ensures
            final(self).wf(),
            out.0@ == "open "@ + path@ + " failed: "@ + detail@,
            out.1 == !known(old(self).reported@, out.0@),
            strings::views(final(self).reported@) == noted(old(self).reported@, out.0@),
            *final(self) == (Transport { reported: final(self).reported, ..*old(self) }),
    {
        let mut text = "open ".to_owned();
        text.append(path);
        text.append(" failed: ");
        text.append(detail);
        let report = self.report(text.as_str());
        (text, report)
    }

    // --- Frame presentation ----------------------------------------------

    /// Begin showing the frame for timeline time `t` (paused path: scrub, step,
    /// seek preview, post-edit refresh). `seg` is what is visible there,
    /// `index` its source frame where the source's rate is known.
    pub fn scrub_begin(&mut self, t: Real, seg: Option<Segment>, index: Option<i64>) -> (out:
        ScrubStep)
        ensures
            *final(self) == (Transport { position: t, ..*old(self) }),
            match seg {
                None => out is Black,
                Some(s) => {
                    let hit = index is Some && old(self).cache.held().contains_key(
                        framecache::key_code((s.media_id, index->0)),
                    );
                    match out {
                        ScrubStep::Cached { source_pts, width, height, jpeg } => {
                            let frame = old(self).cache.held()[framecache::key_code(
                                (s.media_id, index->0),
                            )];
                            hit && source_pts == frame.source_pts_sec && width == frame.width
                                && height == frame.height && jpeg@ == frame.jpeg@
                        },
                        ScrubStep::Cold(c) => !hit && c == s,
                        ScrubStep::Black => false,
                    }
                },
            },
    {
        self.position = t;
        match seg {
            None => ScrubStep::Black,
            Some(s) => {
                if let Some(idx) = index {
                    if let Some(frame) = self.cache.get((s.media_id, idx)) {
                        return ScrubStep::Cached {
                            source_pts: frame.source_pts_sec,
                            width: frame.width,
                            height: frame.height,
                            jpeg: copy_bytes(&frame.jpeg),
                        };
                    }
                }
                ScrubStep::Cold(s)
            },
        }
    }

    /// End a cold scrub of `seg`.
    pub fn scrub_end(&mut self, seg: &Segment, scrubbed: Scrubbed) -> (out: ScrubEnd)
        requires
            old(self).wf(),
        ensures
            final(self).wf(),
            match scrubbed {
                Scrubbed::Frame(frame) => out == ScrubEnd::Present(frame) && *final(self)
                    == *old(self),
                Scrubbed::NoFrame => out is Black && *final(self) == *old(self),
                Scrubbed::JpegFailed(detail) => match out {
                    ScrubEnd::Report { text, report } => text@ == "jpeg encode: "@ + detail@
                        && report == !known(old(self).reported@, text@) && strings::views(
                        final(self).reported@,
                    ) == noted(old(self).reported@, text@) && *final(self) == (
                    Transport { reported: final(self).reported, ..*old(self) }),
                    _ => false,
                },
                Scrubbed::DecodeFailed(detail) => match out {
                    ScrubEnd::BlackAfterError { text, report } => text@ == "decode failed: "@
                        + detail@ && report == !known(old(self).reported@, text@) && strings::views(
                        final(self).reported@,
                    ) == noted(old(self).reported@, text@) && final(self).sessions@ == less(old(self).sessions@, seg.media_id) && *final(self) == (
                    Transport {
                        sessions: final(self).sessions,
                        reported: final(self).reported,
                        ..*old(self)
                    }),
                    _ => false,
                },
            },
    {
        match scrubbed {
            Scrubbed::Frame(frame) => ScrubEnd::Present(frame),
            Scrubbed::NoFrame => ScrubEnd::Black,
            Scrubbed::JpegFailed(detail) => {
                let mut text = "jpeg encode: ".to_owned();
                text.append(detail.as_str());
                let report = self.report(text.as_str());
                ScrubEnd::Report { text, report }
            },
            Scrubbed::DecodeFailed(detail) => {
                let mut text = "decode failed: ".to_owned();
                text.append(detail.as_str());
                remove_id(&mut self.sessions, seg.media_id);
                let report = self.report(text.as_str());
                ScrubEnd::BlackAfterError { text, report }
            },
        }
    }

    /// Present a frame at a position. Where the source's rate is known, it is
    /// cached under its source frame `index`: scrubs back into this content are
    /// then instant.
    pub fn present(&mut self, frame: EncodedFrame, position: Real, index: Option<i64>) -> (out:
        FrameEvent)
        requires
            old(self).wf(),
            old(self).stats.frames_presented < u64::MAX,
        ensures
            final(self).wf(),
            out.pts_sec == frame.timeline_pts,
            out.width == frame.width,
            out.height == frame.height,
            out.jpeg == frame.jpeg,
            index is None ==> final(self).cache == old(self).cache,
            index is Some ==> old(self).cache.took_copy(
                final(self).cache,
                (frame.media_id, index->0),
                frame.source_pts,
                frame.width,
                frame.height,
                frame.jpeg@,
            ),
            final(self).cache.budget() == old(self).cache.budget(),
            *final(self) == (Transport {
                cache: final(self).cache,
                position,
                showing_black: false,
                stats: Stats {
                    frames_presented: (old(self).stats.frames_presented + 1) as u64,
                    ..old(self).stats
                },
                ..*old(self)
            }),
    {
        if let Some(idx) = index {
            let cached = CachedFrame {
                source_pts_sec: frame.source_pts,
                width: frame.width,
                height: frame.height,
                jpeg: copy_bytes(&frame.jpeg),
            };
            let ghost kept = cached;
            self.cache.insert((frame.media_id, idx), cached);
            proof {
                assert(old(self).cache.took(self.cache, (frame.media_id, idx), kept));
            }
        }
        self.position = position;
        self.showing_black = false;
        self.stats.frames_presented = self.stats.frames_presented + 1;
        FrameEvent {
            pts_sec: frame.timeline_pts,
            width: frame.width,
            height: frame.height,
            jpeg: frame.jpeg,
        }
    }

    /// Move to a position that shows black. Returns whether the black frame
    /// has to be encoded and shown: not if it is on screen already.
    pub fn present_black(&mut self, position: Real) -> (encode: bool)
        ensures
            encode == !old(self).showing_black,
            *final(self) == (Transport { position, ..*old(self) }),
    {
        self.position = position;
        !self.showing_black
    }

    /// The black frame is on screen.
    pub fn black_shown(&mut self)
        ensures
            *final(self) == (Transport { showing_black: true, ..*old(self) }),
    {
        self.showing_black = true;
    }

    // --- Commands --------------------------------------------------------

    /// Begin to play. `limit` lies a hair before the end of the timeline.
    pub fn do_play(&self, end: Real, limit: Real) -> (out: PlayStep)
        ensures
            out == if end.le(Real::zero()) {
                PlayStep::Nothing
            } else if self.at_eof || limit.le(self.position) {
                PlayStep::FromTop
            } else {
                PlayStep::Start
            },
    {
        if end.is_at_most(Real { bits: 0 }) {
            PlayStep::Nothing
        } else if self.at_eof || limit.is_at_most(self.position) {
            PlayStep::FromTop
        } else {
            PlayStep::Start
        }
    }

    /// The clock starts: what is visible is resolved anew.
    pub fn started(&mut self)
        ensures
            *final(self) == (Transport {
                playing: true,
                at_eof: false,
                active: None,
                pending_frame: None,
                carryover: None,
                ..*old(self)
            }),
    {
        self.playing = true;
        self.at_eof = false;
        self.active = None;
        self.pending_frame = None;
        self.carryover = None;
    }

    /// The clock stopped at `playhead`: the position is where it stands on the
    /// timeline.
    pub fn do_pause(&mut self, playhead: Real, end: Real)
        ensures
            *final(self) == (Transport {
                playing: false,
                position: clamp_real(playhead, Real::zero(), end_bound(end)),
                active: None,
                pending_frame: None,
                carryover: None,
                ..*old(self)
            }),
    {
        self.playing = false;
        self.position = seek_target(playhead, end);
        self.active = None;
        self.pending_frame = None;
        self.carryover = None;
    }

    /// Seek. Returns where on the timeline: the target, kept on it.
    pub fn do_seek(&mut self, t: Real, end: Real) -> (out: Real)
        ensures
            out == clamp_real(t, Real::zero(), end_bound(end)),
            *final(self) == (Transport {
                at_eof: false,
                active: None,
                pending_frame: None,
                carryover: None,
                ..*old(self)
            }),
    {
        self.at_eof = false;
        self.active = None;
        self.pending_frame = None;
        self.carryover = None;
        seek_target(t, end)
    }

    /// Step `n` frames from frame `current`, on a paused timeline of `ceil_end`
    /// frames. Returns the frame to show; stepping leaves the end.
    pub fn step(&mut self, current: i64, n: i64, ceil_end: i64) -> (out: i64)
        ensures
            out == step_target(current as int, n as int, ceil_end as int),
            *final(self) == (Transport { at_eof: false, ..*old(self) }),
    {
        self.at_eof = false;
        do_step(current, n, ceil_end)
    }

    /// The clock moved on while nothing was presented: the position follows.
    pub fn waited(&mut self, playhead: Real)
        ensures
            *final(self) == (Transport { position: playhead, ..*old(self) }),
    {
        self.position = playhead;
    }

    /// A new project snapshot: primes are stale. While playing, the active
    /// segment stays only if it is what the clock's position still shows
    /// (`visible`). While paused, returns where to refresh the frame.
    pub fn apply_project(&mut self, visible: Option<Segment>, end: Real) -> (refresh: Option<Real>)
        ensures
            refresh == (if old(self).playing {
                None::<Real>
            } else {
                Some(old(self).position.smaller(end_bound(end)))
            }),
            ({
                let base = Transport { primed: None, in_flight: None, ..*old(self) };
                if !old(self).playing {
                    *final(self) == (Transport { at_eof: false, ..base })
                } else if old(self).active is Some && visible is Some && old(self).active->0.same(
                    visible->0,
                ) {
                    *final(self) == base
                } else {
                    *final(self) == (Transport {
                        active: None,
                        pending_frame: None,
                        carryover: None,
                        ..base
                    })
                }
            }),
    {
        self.primed = None;
        self.in_flight = None;
        if self.playing {
            let still_valid = match (&self.active, &visible) {
                (Some(a), Some(v)) => a.is_same(v),
                _ => false,
            };
            if !still_valid {
                self.active = None;
                self.pending_frame = None;
                self.carryover = None;
            }
            None
        } else {
            self.at_eof = false;
            Some(self.position.smaller_of(end.larger_of(Real { bits: 0 })))
        }
    }

    /// The source files were resolved anew. While paused, what is shown is
    /// shown again (even black); returns where.
    pub fn do_refresh(&mut self) -> (refresh: Option<Real>)
        ensures
            refresh == (if old(self).playing {
                None::<Real>
            } else {
                Some(old(self).position)
            }),
            *final(self) == (Transport {
                showing_black: old(self).showing_black && old(self).playing,
                ..*old(self)
            }),
    {
        if self.playing {
            None
        } else {
            self.showing_black = false;
            Some(self.position)
        }
    }
}

/// Each condition is reported once: a message is known as soon as it was
/// noted, noting it again changes nothing, and it stays known whatever else is
/// noted after it.
pub proof fn law_reports_once(
    reported: Seq<String>,
    after: Seq<String>,
    later: Seq<String>,
    text: Seq<char>,
    other: Seq<char>,
)
    requires
        strings::views(after) == noted(reported, text),
        strings::views(later) == noted(after, other),
    ensures
        known(after, text),
        noted(after, text) == strings::views(after),
        known(later, text),
{
    let n = reported.len() as int;
    let seen = strings::views(after);
    if !known(reported, text) {
        assert(seen[n] == text);
    }
    assert(seen.contains(text));
    let k = choose|k: int| 0 <= k < seen.len() && seen[k] == text;
    assert(strings::views(later)[k] == text);
}

/// Scrubbing, seeking and pausing never leave the timeline: the position is
/// between its start and its end.
pub proof fn law_positions_stay_on_the_timeline(t: Real, end: Real)
    requires
        !t.nan(),
        !end.nan(),
    ensures
        Real::zero().le(clamp_real(t, Real::zero(), end_bound(end))),
        clamp_real(t, Real::zero(), end_bound(end)).le(end_bound(end)),
        Real::zero().le(t) && t.le(end) ==> clamp_real(t, Real::zero(), end_bound(end)) == t,
{
}

// ---------------------------------------------------------------------
// Clock takeover (device-death safety net)
// ---------------------------------------------------------------------

/// Where the video side takes the time from.
#[derive(Clone, Copy, Debug, PartialEq, Eq, Structural)]
pub enum ClockSource {
    /// The audio clock.
    Audio,
    /// The wall clock, running on from an anchor.
    Wall,
}

/// What a reading of the clock changes.
#[derive(Clone, Copy, Debug, PartialEq, Eq, Structural)]
pub struct ClockStep {
    pub source: ClockSource,
    /// Drop the takeover: the audio clock moves again.
    pub hand_back: bool,
    /// Engage a takeover, and report the stall.
    pub engage: bool,
    /// Note the clock's progress.
    pub advance: bool,
}

/// Read the master clock as the video side sees it. `taken_over` says that a
/// takeover is engaged, `revived` that the clock has moved on past its engage
/// point, `advanced` that it moved on since it was last noted, `stalled` that
/// it has not for too long.
pub fn read_clock(taken_over: bool, revived: bool, playing: bool, advanced: bool, stalled: bool) -> (out:
    ClockStep)
    ensures
        out == if taken_over {
            if revived {
                ClockStep {
                    source: ClockSource::Audio,
                    hand_back: true,
                    engage: false,
                    advance: true,
                }
            } else {
                ClockStep {
                    source: ClockSource::Wall,
                    hand_back: false,
                    engage: false,
                    advance: false,
                }
            }
        } else if playing && advanced {
            ClockStep { source: ClockSource::Audio, hand_back: false, engage: false, advance: true }
        } else if playing && stalled {
            ClockStep { source: ClockSource::Wall, hand_back: false, engage: true, advance: false }
        } else {
            ClockStep {
                source: ClockSource::Audio,
                hand_back: false,
                engage: false,
                advance: false,
            }
        },
{
    if taken_over {
        if revived {
            return ClockStep {
                source: ClockSource::Audio,
                hand_back: true,
                engage: false,
                advance: true,
            };
        }
        return ClockStep {
            source: ClockSource::Wall,
            hand_back: false,
            engage: false,
            advance: false,
        };
    }
    let mut out = ClockStep {
        source: ClockSource::Audio,
        hand_back: false,
        engage: false,
        advance: false,
    };
    if playing {
        if advanced {
            out.advance = true;
        } else if stalled {
            out.engage = true;
            out.source = ClockSource::Wall;
        }
    }
    out
}

/// A step lands as many frames on as asked, or at the end of the timeline that
/// it would cross: the first frame, or the last.
pub proof fn law_steps_land(current: int, n: int, ceil_end: int)
    ensures
        0 <= current + n < ceil_end ==> step_target(current, n, ceil_end) == current + n,
        current + n < 0 ==> step_target(current, n, ceil_end) == 0,
        0 < ceil_end <= current + n ==> step_target(current, n, ceil_end) == ceil_end - 1,
        ceil_end <= 0 ==> step_target(current, n, ceil_end) == 0,
{
}

/// A time before the start moves to the start, one behind the end to the end;
/// the end of a timeline is never before its start.
pub proof fn law_times_move_to_the_nearer_end(t: Real, end: Real)
    requires
        Real::zero().le(end),
    ensures
        t.lt(Real::zero()) ==> clamp_real(t, Real::zero(), end_bound(end)) == Real::zero(),
        end.lt(t) ==> clamp_real(t, Real::zero(), end_bound(end)) == end,
        Real::zero().le(t) && t.le(end) ==> clamp_real(t, Real::zero(), end_bound(end)) == t,
        end_bound(end) == end,
        t.lt(Real::zero()) ==> end_bound(t) == Real::zero(),
{
}

/// What two lists have in common is what of the first is in the second too, in
/// order, each as often.
pub proof fn law_common_entries(list: Seq<u64>, keep: Seq<u64>, id: u64)
    ensures
        common(Seq::empty(), keep) == Seq::<u64>::empty(),
        keep.contains(id) ==> common(list.push(id), keep) == common(list, keep).push(id),
        !keep.contains(id) ==> common(list.push(id), keep) == common(list, keep),
{
    assert(list.push(id).drop_last() =~= list);
}

/// A list without an entry holds every other entry, in order; one with an entry
/// holds it and everything it held.
pub proof fn law_less_and_more(list: Seq<u64>, id: u64, other: u64)
    ensures
        less(Seq::empty(), id) == Seq::<u64>::empty(),
        less(list.push(id), id) == less(list, id),
        other != id ==> less(list.push(other), id) == less(list, id).push(other),
        more(list, id).contains(id),
        list.contains(other) ==> more(list, id).contains(other),
        more(list, id).contains(other) ==> other == id || list.contains(other),
        list.contains(id) ==> more(list, id) == list,
{
    assert(list.push(id).drop_last() =~= list);
    assert(list.push(other).drop_last() =~= list);
    let longer = list.push(id);
    assert(longer[list.len() as int] == id);
    if list.contains(other) {
        let k = choose|k: int| 0 <= k < list.len() && list[k] == other;
        assert(longer[k] == other);
    }
    if longer.contains(other) && other != id {
        let k = choose|k: int| 0 <= k < longer.len() && longer[k] == other;
        assert(list[k] == other);
    }
}

/// A message is known exactly if one of those surfaced reads the same; a new
/// one is noted behind them.
pub proof fn law_messages_are_known_by_their_text(reported: Seq<String>, text: Seq<char>)
    ensures
        known(reported, text) <==> exists|k: int|
            0 <= k < reported.len() && (#[trigger] reported[k])@ == text,
        noted(reported, text).contains(text),
        noted(reported, text).len() == reported.len() + (if known(reported, text) {
            0int
        } else {
            1int
        }),
        forall|k: int|
            0 <= k < reported.len() ==> #[trigger] noted(reported, text)[k] == reported[k]@,
{
    let all = strings::views(reported);
    if known(reported, text) {
        let k = choose|k: int| 0 <= k < all.len() && all[k] == text;
        assert(reported[k]@ == text);
    } else {
        assert(all.push(text)[all.len() as int] == text);
    }
    assert forall|k: int| 0 <= k < reported.len() && (#[trigger] reported[k])@
        == text implies all.contains(text) by {
        assert(all[k] == text);
    }
}

/// A segment without a file is explained: by the proxy it waits for, or by the
/// media that has none.
pub proof fn law_unavailable_media_are_named(media_id: u64)
    ensures
        unavailable_text(true, media_id) == "preview not ready yet — proxy still generating"@,
        unavailable_text(false, media_id) == "no playable video for media "@ + strings::dec(
            media_id as nat,
        ),
{
}

/// A decoder is primed at most once for a clip, and for every clip that has a
/// picture file: the request names the clip, its media, its file and where it
/// starts, and once it is in flight no other goes out for the clip.
pub proof fn law_decoders_are_primed_once(
    before: Transport,
    after: Transport,
    later: Transport,
    next: Segment,
    out: Option<PrimeRequest>,
    again: Option<PrimeRequest>,
)
    requires
        primes(before, after, next, out),
        primes(after, later, next, again),
    ensures
        again is None || out is None,
        again is Some ==> out is Some,
        out is Some <==> before.in_flight != Some(next.clip_id) && !(before.primed is Some
            && before.primed->0.clip_id == next.clip_id) && before.sources.map@.contains_key(
            next.media_id,
        ) && before.sources.map@[next.media_id] is Ready,
        out matches Some(r) ==> r.clip_id == next.clip_id && r.media_id == next.media_id
            && r.source_in == next.source_in && (before.sources.map@[next.media_id] matches
            audio_layout::SourceFiles::Ready { proxy, .. } && r.path@ == proxy@),
        after == (Transport { in_flight: after.in_flight, ..before }),
        after.in_flight == (if out is Some {
            Some(next.clip_id)
        } else {
            before.in_flight
        }),
{
}

/// A media waits for its proxy exactly if its files are known to be pending.
pub proof fn law_waiting_for_a_proxy(transport: Transport, media_id: u64)
    ensures
        transport.waits_for_proxy(media_id) ==> transport.sources.map@.contains_key(media_id),
        transport.sources.map@.contains_key(media_id) && (
        transport.sources.map@[media_id] is ProxyPending) ==> transport.waits_for_proxy(media_id),
        transport.sources.map@.contains_key(media_id) && !(
        transport.sources.map@[media_id] is ProxyPending) ==> !transport.waits_for_proxy(media_id),
{
}

} // verus!
