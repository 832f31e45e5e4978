//! Audio decoding: the fallback order of the backends, and the bookkeeping of
//! a libav session (interleaved samples at the source's native rate/layout,
//! sample-accurate seeks).

use std::collections::VecDeque;

use vstd::prelude::*;
use vstd::string::*;

use crate::decode::DecodeSession;

verus! {

/// Which backend decodes a file.
#[derive(Clone, Copy, Debug, PartialEq, Eq, Structural)]
pub enum AudioBackend {
    Symphonia,
    Libav,
}

/// Whether to try the libav fallback after symphonia.
pub fn needs_fallback(symphonia: &Result<(), String>) -> (out: bool)
    ensures
        out == (symphonia is Err),
{
    symphonia.is_err()
}

/// The backend a file opens with: symphonia when it can, libav otherwise. The
/// symphonia error names the codec problem; the libav one says why the
/// fallback failed too, so both are reported.
pub fn open_audio_source(symphonia: Result<(), String>, libav: Result<(), String>) -> (out: Result<
    AudioBackend,
    String,
>)
    ensures
        match (symphonia, libav, out) {
            (Ok(_), _, Ok(AudioBackend::Symphonia)) => true,
            (Err(_), Ok(_), Ok(AudioBackend::Libav)) => true,
            (Err(a), Err(b), Err(text)) => text@ == a@ + "; libav fallback: "@ + b@,
            _ => false,
        },
{
    match symphonia {
        Ok(_) => Ok(AudioBackend::Symphonia),
        Err(a) => match libav {
            Ok(_) => Ok(AudioBackend::Libav),
            Err(b) => {
                let mut text = a;
                text.append("; libav fallback: ");
                text.append(b.as_str());
                Err(text)
            },
        },
    }
}

/// The text of a failed libav call on a file.
pub fn backend_error(context: &str, path: &str, detail: &str) -> (out: String)
    ensures
        out@ == context@ + " for "@ + path@ + ": "@ + detail@,
{
    let mut out = context.to_owned();
    out.append(" for ");
    out.append(path);
    out.append(": ");
    out.append(detail);
    out
}

/// How many channels a stream has: at least one, whatever it reports.
pub fn channel_count(reported: u32) -> (out: u32)
    ensures
        out == if reported == 0 {
            1
        } else {
            reported
        },
{
    if reported == 0 {
        1
    } else {
        reported
    }
}

/// A libav audio session: decoded samples not yet handed out, as the bit
/// patterns of their 32-bit floats, interleaved.
pub struct LibavAudioSource {
    pub session: DecodeSession,
    pub channels: usize,
    pub pending: VecDeque<u32>,
    /// Frames (per-channel sample groups) still to drop before handing out
    /// samples.
    pub discard_frames: u64,
}

pub open spec fn min_of(a: int, b: int) -> int {
    if a <= b {
        a
    } else {
        b
    }
}

impl LibavAudioSource {
    /// At the start of a stream.
    pub fn new(channels: u32) -> (out: LibavAudioSource)
        ensures
            out.channels == if channels == 0 {
                1
            } else {
                channels
            },
            out.pending@.len() == 0,
            out.discard_frames == 0,
            !out.session.eof_sent,
            !out.session.exhausted,
            !out.session.has_decoded,
            out.session.phase is Idle,
    {
        LibavAudioSource {
            session: DecodeSession::new(),
            channels: channel_count(channels) as usize,
            pending: VecDeque::new(),
            discard_frames: 0,
        }
    }

    /// Whether another frame has to be decoded before samples can be handed
    /// out: nothing is pending, and the stream has not ended.
    pub fn wants_frame(&self) -> (out: bool)
        ensures
            out == (self.pending@.len() == 0 && !self.session.exhausted),
    {
        self.pending.len() == 0 && !self.session.exhausted
    }

    /// Queue the samples of a decoded frame, without those that a seek told to
    /// drop.
    pub fn ingest(&mut self, samples: &Vec<u32>)
        requires
            old(self).channels >= 1,
            samples@.len() % (old(self).channels as nat) == 0,
        ensures
            ({
                let frames = samples@.len() as int / old(self).channels as int;
                let skip = min_of(old(self).discard_frames as int, frames);
                &&& final(self).discard_frames == old(self).discard_frames - skip
                &&& final(self).pending@ == old(self).pending@ + samples@.skip(
                    skip * old(self).channels,
                )
            }),
            final(self).session == old(self).session,
            final(self).channels == old(self).channels,
    {
        let frames: usize = samples.len() / self.channels;
        let skip: usize = if self.discard_frames <= frames as u64 {
            self.discard_frames as usize
        } else {
            frames
        };
        proof {
            let n = samples@.len() as int;
            let c = self.channels as int;
            assert(frames * c <= n && 0 <= skip * c <= frames * c) by (nonlinear_arith)
                requires
                    frames == n / c,
                    0 < c,
                    0 <= n,
                    0 <= skip <= frames,
            ;
        }
        self.discard_frames = self.discard_frames - skip as u64;
        let start: usize = skip * self.channels;
        let ghost before = self.pending@;
        for i in start..samples.len()
            invariant
                start <= i,
                start <= samples@.len(),
                self.pending@ == before + samples@.subrange(start as int, i as int),
                self.session == old(self).session,
                self.channels == old(self).channels,
                self.discard_frames == old(self).discard_frames - skip,
        {
            self.pending.push_back(samples[i]);
            proof {
                assert(self.pending@ =~= before + samples@.subrange(start as int, i + 1));
            }
        }
        proof {
            assert(self.pending@ =~= before + samples@.skip(start as int));
        }
    }

    /// Hand out up to `n` pending samples, oldest first.
    pub fn read(&mut self, n: usize) -> (out: Vec<u32>)
        ensures
            ({
                let k = min_of(n as int, old(self).pending@.len() as int);
                &&& out@ == old(self).pending@.take(k)
                &&& final(self).pending@ == old(self).pending@.skip(k)
            }),
            final(self).session == old(self).session,
            final(self).channels == old(self).channels,
            final(self).discard_frames == old(self).discard_frames,
    {
        let ghost before = self.pending@;
        let held: usize = self.pending.len();
        let k: usize = if n <= held {
            n
        } else {
            held
        };
        let mut out: Vec<u32> = Vec::new();
        for i in 0..k
            invariant
                k <= before.len(),
                out@ == before.take(i as int),
                self.pending@ == before.skip(i as int),
                self.session == old(self).session,
                self.channels == old(self).channels,
                self.discard_frames == old(self).discard_frames,
        {
            let sample: u32 = self.pending.pop_front().unwrap();
            out.push(sample);
            proof {
                assert(out@ =~= before.take(i + 1));
                assert(self.pending@ =~= before.skip(i + 1));
            }
        }
        out
    }

    /// A seek drops what is pending and revives the session.
    pub fn reset(&mut self)
        ensures
            final(self).pending@.len() == 0,
            final(self).discard_frames == 0,
            !final(self).session.exhausted,
            !final(self).session.eof_sent,
            !final(self).session.has_decoded,
            final(self).session.phase is Idle,
            final(self).channels == old(self).channels,
    {
        self.pending.clear();
        self.discard_frames = 0;
        self.session.reset();
    }

    /// Drop the samples before a seek target inside the frame just decoded:
    /// `skip_frames` of its `ingested` frames, kept in range.
    pub fn skip_into(&mut self, skip_frames: i64, ingested: usize)
        requires
            ingested * old(self).channels <= old(self).pending@.len(),
        ensures
            ({
                let skip = clamped(skip_frames as int, ingested as int) * old(self).channels;
                final(self).pending@ == old(self).pending@.skip(skip)
            }),
            final(self).session == old(self).session,
            final(self).channels == old(self).channels,
            final(self).discard_frames == old(self).discard_frames,
    {
        let held: usize = self.pending.len();
        let frames: usize = if skip_frames <= 0 {
            0
        } else if skip_frames as u64 >= ingested as u64 {
            ingested
        } else {
            skip_frames as usize
        };
        proof {
            let c = self.channels as int;
            assert(0 <= frames * c <= ingested * c) by (nonlinear_arith)
                requires
                    0 <= frames <= ingested,
                    0 <= c,
            ;
        }
        let skip: usize = frames * self.channels;
        let _ = self.read(skip);
    }
}

/// `v` kept between zero and `max`.
pub open spec fn clamped(v: int, max: int) -> int {
    if v <= 0 {
        0
    } else if v >= max {
        max
    } else {
        v
    }
}

/// What a seek does after decoding on.
#[derive(Clone, Copy, Debug, PartialEq, Eq, Structural)]
pub enum AudioSeekStep {
    /// Past the end of the stream: reads return nothing.
    PastEnd,
    /// No timestamp to go by: start here.
    StartHere,
    /// The frame lies wholly before the target: drop it and go on.
    DropFrame,
    /// The target lies in this frame: drop what comes before it.
    Skip,
}

/// Decide on the frame just decoded. `ends_before` says that it ends at or
/// before the target.
pub fn audio_seek_step(pending_empty: bool, has_pts: bool, ends_before: bool) -> (out: AudioSeekStep)
    ensures
        out == if pending_empty {
            AudioSeekStep::PastEnd
        } else if !has_pts {
            AudioSeekStep::StartHere
        } else if ends_before {
            AudioSeekStep::DropFrame
        } else {
            AudioSeekStep::Skip
        },
{
    if pending_empty {
        AudioSeekStep::PastEnd
    } else if !has_pts {
        AudioSeekStep::StartHere
    } else if ends_before {
        AudioSeekStep::DropFrame
    } else {
        AudioSeekStep::Skip
    }
}

/// Reading hands out every sample once and in order: what two reads return,
/// one after the other, is what one read of both lengths returns.
pub proof fn law_reads_are_contiguous(pending: Seq<u32>, a: int, b: int)
    requires
        0 <= a,
        0 <= b,
    ensures
        ({
            let first = min_of(a, pending.len() as int);
            let rest = pending.skip(first);
            let second = min_of(b, rest.len() as int);
            pending.take(first) + rest.take(second) == pending.take(
                min_of(a + b, pending.len() as int),
            )
        }),
{
    let first = min_of(a, pending.len() as int);
    let rest = pending.skip(first);
    let second = min_of(b, rest.len() as int);
    assert(pending.take(first) + rest.take(second) =~= pending.take(
        min_of(a + b, pending.len() as int),
    ));
}

/// What is read or dropped is never more than there is or was asked for, and
/// as much as both allow.
pub proof fn law_least(a: int, b: int)
    ensures
        min_of(a, b) <= a,
        min_of(a, b) <= b,
        min_of(a, b) == a || min_of(a, b) == b,
{
}

/// A skip is kept in range: what lies in it stays, what lies outside moves to
/// the nearer end.
pub proof fn law_skips_are_kept_in_range(v: int, max: int)
    requires
        0 <= max,
    ensures
        0 <= clamped(v, max) <= max,
        0 <= v <= max ==> clamped(v, max) == v,
        v < 0 ==> clamped(v, max) == 0,
        v > max ==> clamped(v, max) == max,
{
}

} // verus!
