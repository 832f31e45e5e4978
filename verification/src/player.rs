//! The single-file player: one proxy file, audio-master A/V sync.
//!
//! Video frames are decoded ahead, JPEG-encoded, then *presented* only when
//! the master clock reaches their timestamp. Late frames are dropped, never
//! the clock adjusted.

use vstd::prelude::*;
use vstd::string::*;

use crate::bytes::push_bytes;
use crate::double::Real;
use crate::error::MediaError;
use crate::framecache;
use crate::framecache::{CachedFrame, FrameCache, DEFAULT_CAPACITY_BYTES};
use crate::transport;

verus! {

/// An encoded frame held between pump iterations so it is presented, not lost.
#[derive(Debug)]
pub struct ReadyFrame {
    pub pts: Real,
    pub width: u32,
    pub height: u32,
    pub jpeg: Vec<u8>,
}

/// The player's state.
pub struct FilePlayer {
    /// Whether the clock runs.
    pub playing: bool,
    /// Presentation time of the last presented frame: the UI-visible position
    /// while paused, and the anchor for frame stepping.
    pub position: Real,
    /// Set when the end was reported; play from here restarts from the top.
    pub at_eof: bool,
    /// A decoded-but-not-yet-presented frame (pacing wait was interrupted).
    pub pending: Option<ReadyFrame>,
    /// A decode session runs.
    pub has_video: bool,
    /// Encoded frames already seen, by frame index.
    pub cache: FrameCache,
}

/// How a seek shows its frame.
pub enum SeekStep {
    /// Visited content, while paused: show it, and leave the decoder to be
    /// restarted when it is needed.
    Cached(ReadyFrame),
    /// Restart the decoder at the target and show the first frame it gives.
    Restart,
}

/// How a frame step shows its frame.
pub enum StepPlan {
    /// The frame stashed by an interrupted pump is the next frame.
    Stashed(ReadyFrame),
    /// Pull the next frame off the live session.
    NextFrame,
    /// Visited content.
    Cached(ReadyFrame),
    /// Restart the decoder just before this frame.
    Restart(i64),
}

/// How playback goes on for one frame.
pub enum PlayerPump {
    /// A frame stashed by an interrupted wait goes first.
    Pace(ReadyFrame),
    /// The decoder has to be restarted at the current position first.
    Restart,
    /// Decode the next frame.
    Decode,
}

/// What play does first.
#[derive(Clone, Copy, Debug, PartialEq, Eq, Structural)]
pub enum PlayerStart {
    /// Seek to the top, then start.
    FromTop,
    Start,
}

/// The cache key of a frame index of the one file.
pub open spec fn frame_code(index: i64) -> u128 {
    framecache::key_code((0, index))
}

/// A frame as it was cached.
pub open spec fn is_cached(cache: FrameCache, index: i64, frame: ReadyFrame) -> bool {
    let held = cache.held();
    let code = frame_code(index);
    held.contains_key(code) && frame.pts == held[code].source_pts_sec && frame.width
        == held[code].width && frame.height == held[code].height && frame.jpeg@ == held[code].jpeg@
}

/// Check a proxy before it plays: it needs a video stream with a frame rate
/// above zero.
pub fn check_proxy(path: &str, fps: Option<Real>, fps_text: &str) -> (out: Result<(), MediaError>)
    ensures
        match (fps, out) {
            (None, Err(MediaError::NoStreams { path: p })) => p@ == path@,
            (Some(f), Ok(_)) => !f.le(Real::zero()),
            (
                Some(f),
                Err(MediaError::FfmpegFailed { context: Some(c), message }),
            ) => f.le(Real::zero()) && c@ == "opening player"@ && message@ == "invalid fps "@
                + fps_text@ + " in proxy"@,
            _ => false,
        },
{
    match fps {
        None => Err(MediaError::NoStreams { path: path.to_owned() }),
        Some(f) => {
            if f.is_at_most(Real { bits: 0 }) {
                let mut message = "invalid fps ".to_owned();
                message.append(fps_text);
                message.append(" in proxy");
                return Err(
                    MediaError::FfmpegFailed {
                        context: Some("opening player".to_owned()),
                        message,
                    },
                );
            }
            Ok(())
        },
    }
}

impl FilePlayer {
    /// Paused at the start.
    pub fn new() -> (out: FilePlayer)
        ensures
            out.cache.wf(),
            !out.playing,
            out.position == Real::zero(),
            !out.at_eof,
            out.pending is None,
            !out.has_video,
            out.cache.ages().len() == 0,
            out.cache.budget() == DEFAULT_CAPACITY_BYTES,
    {
        FilePlayer {
            playing: false,
            position: Real { bits: 0 },
            at_eof: false,
            pending: None,
            has_video: false,
            cache: FrameCache::new(DEFAULT_CAPACITY_BYTES),
        }
    }

    fn cached(&self, index: i64) -> (out: Option<ReadyFrame>)
        ensures
            match out {
                Some(frame) => is_cached(self.cache, index, frame),
                None => !self.cache.held().contains_key(frame_code(index)),
            },
    {
        match self.cache.get((0, index)) {
            Some(hit) => {
                let mut jpeg: Vec<u8> = Vec::new();
                push_bytes(&mut jpeg, hit.jpeg.as_slice());
                proof {
                    assert(jpeg@ =~= hit.jpeg@);
                }
                Some(
                    ReadyFrame {
                        pts: hit.source_pts_sec,
                        width: hit.width,
                        height: hit.height,
                        jpeg,
                    },
                )
            },
            None => None,
        }
    }

    /// Play at the end restarts from the top. `limit` is one frame before the
    /// end of the file.
    pub fn do_play(&self, limit: Real) -> (out: PlayerStart)
        ensures
            out == if self.at_eof || limit.le(self.position) {
                PlayerStart::FromTop
            } else {
                PlayerStart::Start
            },
    {
        if self.at_eof || limit.is_at_most(self.position) {
            PlayerStart::FromTop
        } else {
            PlayerStart::Start
        }
    }

    /// The clock starts.
    pub fn started(&mut self)
        ensures
            *final(self) == (FilePlayer { playing: true, ..*old(self) }),
    {
        self.playing = true;
    }

    /// The clock stops.
    pub fn paused(&mut self)
        ensures
            *final(self) == (FilePlayer { playing: false, ..*old(self) }),
    {
        self.playing = false;
    }

    /// Seek to frame `index`. Visited content comes from the cache while paused, so that scrubbing spawns no decoders; a
    /// cache hit moves the position to the frame shown.
    pub fn do_seek(&mut self, index: i64) -> (out: SeekStep)
        ensures
            match out {
                SeekStep::Cached(frame) => {
                    &&& !old(self).playing
                    &&& is_cached(old(self).cache, index, frame)
                    &&& *final(self) == (FilePlayer {
                        pending: None,
                        at_eof: false,
                        has_video: false,
                        position: frame.pts,
                        ..*old(self)
                    })
                },
                SeekStep::Restart => {
                    &&& old(self).playing || !old(self).cache.held().contains_key(
                        frame_code(index),
                    )
                    &&& *final(self) == (FilePlayer {
                        pending: None,
                        at_eof: false,
                        ..*old(self)
                    })
                },
            },
    {
        self.pending = None;
        self.at_eof = false;
        if !self.playing {
            if let Some(frame) = self.cached(index) {
                self.has_video = false;
                self.position = frame.pts;
                return SeekStep::Cached(frame);
            }
        }
        SeekStep::Restart
    }

    /// Step `n` frames from frame `current`, pausing playback. The stashed
    /// frame is `current + 1` content: any other step invalidates it.
    pub fn do_step(&mut self, current: i64, n: i64, total_frames: i64) -> (out: StepPlan)
        ensures
            ({
                let target = transport::step_target(current as int, n as int, total_frames as int);
                let forth = target == current + 1;
                let paused = FilePlayer { playing: false, pending: None, ..*old(self) };
                let hit = old(self).cache.held().contains_key(frame_code(target as i64));
                if forth && old(self).pending is Some {
                    out == StepPlan::Stashed(old(self).pending->0) && *final(self) == (FilePlayer {
                        position: old(self).pending->0.pts,
                        ..paused
                    })
                } else if forth && old(self).has_video {
                    out is NextFrame && *final(self) == paused
                } else if hit {
                    match out {
                        StepPlan::Cached(frame) => is_cached(
                            old(self).cache,
                            target as i64,
                            frame,
                        ) && *final(self) == (FilePlayer {
                            has_video: false,
                            position: frame.pts,
                            ..paused
                        }),
                        _ => false,
                    }
                } else {
                    out == StepPlan::Restart(target as i64) && *final(self) == paused
                }
            }),
    {
        self.playing = false;
        let target: i64 = transport::do_step(current, n, total_frames);
        let forth = target as i128 == current as i128 + 1;
        if forth {
            if let Some(frame) = self.pending.take() {
                self.position = frame.pts;
                return StepPlan::Stashed(frame);
            }
            if self.has_video {
                return StepPlan::NextFrame;
            }
        }
        self.pending = None;
        match self.cached(target) {
            Some(frame) => {
                self.has_video = false;
                self.position = frame.pts;
                StepPlan::Cached(frame)
            },
            None => StepPlan::Restart(target),
        }
    }

    /// Begin driving playback for one frame.
    pub fn pump(&mut self) -> (out: PlayerPump)
        ensures
            match old(self).pending {
                Some(frame) => out == PlayerPump::Pace(frame) && *final(self) == (FilePlayer {
                    pending: None,
                    ..*old(self)
                }),
                None => *final(self) == *old(self) && (if old(self).has_video {
                    out is Decode
                } else {
                    out is Restart
                }),
            },
    {
        match self.pending.take() {
            Some(frame) => PlayerPump::Pace(frame),
            None => if self.has_video {
                PlayerPump::Decode
            } else {
                PlayerPump::Restart
            },
        }
    }

    /// The decoder was (re)started, or could not be.
    pub fn restarted(&mut self, ok: bool)
        ensures
            *final(self) == (FilePlayer { has_video: ok, ..*old(self) }),
    {
        self.has_video = ok;
    }

    /// End of stream: freeze on the last frame, pause.
    pub fn ended(&mut self)
        ensures
            *final(self) == (FilePlayer {
                playing: false,
                has_video: false,
                at_eof: true,
                ..*old(self)
            }),
    {
        self.playing = false;
        self.has_video = false;
        self.at_eof = true;
    }

    /// A seek landed at or after the last frame: the position is where it went.
    pub fn landed(&mut self, t: Real)
        ensures
            *final(self) == (FilePlayer { position: t, ..*old(self) }),
    {
        self.position = t;
    }

    /// A step found no frame in a decoder that was just started: the end was
    /// reached.
    pub fn stepped_past_end(&mut self)
        ensures
            *final(self) == (FilePlayer { at_eof: true, ..*old(self) }),
    {
        self.at_eof = true;
    }

    /// A command interrupted the pacing wait: the frame is still the next one
    /// due.
    pub fn stash(&mut self, frame: ReadyFrame)
        ensures
            *final(self) == (FilePlayer { pending: Some(frame), ..*old(self) }),
    {
        self.pending = Some(frame);
    }

    /// Present a frame: cache it under its index and move the position to it.
    pub fn present(&mut self, frame: &ReadyFrame, index: i64)
        requires
            old(self).cache.wf(),
        ensures
            final(self).cache.wf(),
            final(self).cache.budget() == old(self).cache.budget(),
            old(self).cache.took_copy(
                final(self).cache,
                (0, index),
                frame.pts,
                frame.width,
                frame.height,
                frame.jpeg@,
            ),
            *final(self) == (FilePlayer {
                cache: final(self).cache,
                position: frame.pts,
                ..*old(self)
            }),
    {
        let mut jpeg: Vec<u8> = Vec::new();
        push_bytes(&mut jpeg, frame.jpeg.as_slice());
        proof {
            assert(jpeg@ =~= frame.jpeg@);
        }
        let cached = CachedFrame {
            source_pts_sec: frame.pts,
            width: frame.width,
            height: frame.height,
            jpeg,
        };
        let ghost kept = cached;
        self.cache.insert((0, index), cached);
        proof {
            assert(old(self).cache.took(self.cache, (0, index), kept));
        }
        self.position = frame.pts;
    }
}

/// A presented frame is found again under its index, as it was presented, if it
/// fits the cache; and two indices never share a place.
pub proof fn law_presented_frames_are_found(
    cache: FrameCache,
    after: FrameCache,
    index: i64,
    other: i64,
    shown: ReadyFrame,
    found: ReadyFrame,
)
    requires
        cache.wf(),
        cache.took_copy(after, (0, index), shown.pts, shown.width, shown.height, shown.jpeg@),
        shown.jpeg@.len() <= cache.budget(),
    ensures
        after.held().contains_key(frame_code(index)),
        is_cached(after, index, found) <==> found.pts == shown.pts && found.width == shown.width
            && found.height == shown.height && found.jpeg@ == shown.jpeg@,
        frame_code(index) == frame_code(other) ==> index == other,
        other != index && is_cached(after, other, found) ==> is_cached(cache, other, found),
{
    let frame = choose|frame: CachedFrame|
        #[trigger] cache.took(after, (0, index), frame) && frame.source_pts_sec == shown.pts
            && frame.width == shown.width && frame.height == shown.height && frame.jpeg@
            == shown.jpeg@;
    assert(cache.took(after, (0, index), frame));
    framecache::law_keys_do_not_collide((0, index), (0, other));
    let beside: u128 = if index == other {
        if frame_code(index) == 0 {
            1
        } else {
            0
        }
    } else {
        frame_code(other)
    };
    framecache::law_insertion_changes_nothing_else(cache, after, (0, index), frame, beside);
}

} // verus!
