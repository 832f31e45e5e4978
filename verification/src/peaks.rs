//! Audio peak (waveform) data: min/max window pairs.
//!
//! One window is 1/[`PEAKS_PER_SEC`] of a second; each stores the min and max
//! sample across *all channels* in that window, quantized to i8.
//!
//! ## File format
//!
//! ```text
//! [0..4)   magic  b"CPKS"
//! [4..8)   u32 LE version (1)
//! [8..12)  u32 LE windows per second
//! [12..16) u32 LE window count N
//! [16..)   N x (i8 min, i8 max)
//! ```

use vstd::prelude::*;

use crate::bytes;
use crate::bytes::push_le;

verus! {

/// Waveform resolution, windows per second.
pub const PEAKS_PER_SEC: u32 = 100;

/// Peak file format version.
pub const PEAKS_VERSION: u32 = 1;

/// One audio sample: its quantized level, or what keeps it from having one.
/// Quantizing is monotone, so the extent of the quantized samples is the
/// quantized extent of the samples.
#[derive(Clone, Copy, Debug, PartialEq, Eq, Structural)]
pub enum Sample {
    Level(i8),
    Infinite,
    NotANumber,
}

/// The extent of the samples seen so far.
#[derive(Clone, Copy, Debug, PartialEq, Eq, Structural)]
pub enum Extent {
    /// No level seen.
    Empty,
    /// An infinite sample was seen.
    Unbounded,
    Range { lo: i8, hi: i8 },
}

/// The extent with one more sample. Samples that are not a number do not
/// count.
pub open spec fn widened(extent: Extent, sample: Sample) -> Extent {
    match (extent, sample) {
        (_, Sample::NotANumber) => extent,
        (Extent::Unbounded, _) => Extent::Unbounded,
        (_, Sample::Infinite) => Extent::Unbounded,
        (Extent::Empty, Sample::Level(v)) => Extent::Range { lo: v, hi: v },
        (Extent::Range { lo, hi }, Sample::Level(v)) => Extent::Range {
            lo: if v < lo {
                v
            } else {
                lo
            },
            hi: if v > hi {
                v
            } else {
                hi
            },
        },
    }
}

/// The extent with every sample of a frame.
pub open spec fn widened_by(extent: Extent, frame: Seq<Sample>) -> Extent
    decreases frame.len(),
{
    if frame.len() == 0 {
        extent
    } else {
        widened(widened_by(extent, frame.drop_last()), frame.last())
    }
}

/// The extent of the frames from place `from` on.
pub open spec fn extent_from(frames: Seq<Seq<Sample>>, from: int) -> Extent
    decreases frames.len(),
{
    if frames.len() <= from || frames.len() == 0 {
        Extent::Empty
    } else {
        widened_by(extent_from(frames.drop_last(), from), frames.last())
    }
}

/// The stored pair of an extent: zeros where a window has no finite extent.
pub open spec fn pair_of(extent: Extent) -> (i8, i8) {
    match extent {
        Extent::Range { lo, hi } => (lo, hi),
        _ => (0, 0),
    }
}

/// The frame count at which window `i` ends: exact rational boundaries, so
/// there is no drift over long files.
pub open spec fn window_end(rate: int, i: int) -> int {
    ((i + 1) * rate + 99) / 100
}

/// The windows closed after some frames, and where the open one begins.
pub open spec fn windows(rate: int, frames: Seq<Seq<Sample>>) -> (Seq<(i8, i8)>, int)
    decreases frames.len(),
{
    if frames.len() == 0 {
        (Seq::empty(), 0)
    } else {
        let (pairs, from) = windows(rate, frames.drop_last());
        if frames.len() >= window_end(rate, pairs.len() as int) {
            (pairs.push(pair_of(extent_from(frames, from))), frames.len() as int)
        } else {
            (pairs, from)
        }
    }
}

/// Every window of a stream: the closed ones, and the open one if it has
/// begun.
pub open spec fn all_windows(rate: int, frames: Seq<Seq<Sample>>) -> Seq<(i8, i8)> {
    let (pairs, from) = windows(rate, frames);
    if from < frames.len() {
        pairs.push(pair_of(extent_from(frames, from)))
    } else {
        pairs
    }
}

/// Builds the windows of a stream, frame by frame.
pub struct PeakBuilder {
    rate: u32,
    frames_done: u64,
    window_index: u64,
    extent: Extent,
    in_window: bool,
    pairs: Vec<(i8, i8)>,
    seen: Ghost<Seq<Seq<Sample>>>,
}

fn widen(extent: Extent, sample: Sample) -> (out: Extent)
    ensures
        out == widened(extent, sample),
{
    match sample {
        Sample::NotANumber => extent,
        Sample::Infinite => Extent::Unbounded,
        Sample::Level(v) => match extent {
            Extent::Unbounded => Extent::Unbounded,
            Extent::Empty => Extent::Range { lo: v, hi: v },
            Extent::Range { lo, hi } => Extent::Range {
                lo: if v < lo {
                    v
                } else {
                    lo
                },
                hi: if v > hi {
                    v
                } else {
                    hi
                },
            },
        },
    }
}

fn pair_from(extent: Extent) -> (out: (i8, i8))
    ensures
        out == pair_of(extent),
{
    match extent {
        Extent::Range { lo, hi } => (lo, hi),
        _ => (0, 0),
    }
}

proof fn lemma_windows_from(rate: int, frames: Seq<Seq<Sample>>)
    ensures
        0 <= windows(rate, frames).1 <= frames.len(),
        windows(rate, frames).0.len() <= frames.len(),
    decreases frames.len(),
{
    if frames.len() > 0 {
        lemma_windows_from(rate, frames.drop_last());
    }
}

impl PeakBuilder {
    /// The frames taken in so far.
    pub closed spec fn frames(&self) -> Seq<Seq<Sample>> {
        self.seen@
    }

    /// Frames per second of the stream (at least one).
    pub closed spec fn sample_rate(&self) -> int {
        self.rate as int
    }

    /// The counters and the open extent are those of the frames seen.
    pub closed spec fn wf(&self) -> bool {
        let (pairs, from) = windows(self.rate as int, self.seen@);
        &&& 1 <= self.rate
        &&& self.frames_done == self.seen@.len()
        &&& self.pairs@ == pairs
        &&& self.window_index == pairs.len()
        &&& self.in_window == (from < self.seen@.len())
        &&& self.extent == extent_from(self.seen@, from)
    }

    /// A builder for a stream of `sample_rate` frames per second (a rate of
    /// zero counts as one).
    pub fn new(sample_rate: u32) -> (out: PeakBuilder)
        ensures
            out.wf(),
            out.frames() == Seq::<Seq<Sample>>::empty(),
            out.sample_rate() == if sample_rate == 0 {
                1
            } else {
                sample_rate as int
            },
    {
        let rate: u32 = if sample_rate == 0 {
            1
        } else {
            sample_rate
        };
        PeakBuilder {
            rate,
            frames_done: 0,
            window_index: 0,
            extent: Extent::Empty,
            in_window: false,
            pairs: Vec::new(),
            seen: Ghost(Seq::empty()),
        }
    }

    /// Take in one frame: a sample per channel.
    pub fn push_frame(&mut self, frame: &[Sample])
        requires
            old(self).wf(),
            old(self).frames().len() < u64::MAX,
        ensures
            final(self).wf(),
            final(self).frames() == old(self).frames().push(frame@),
            final(self).sample_rate() == old(self).sample_rate(),
    {
        let ghost before = self.seen@;
        let ghost frames = before.push(frame@);
        let ghost from = windows(self.rate as int, before).1;
        let mut extent: Extent = self.extent;
        for i in 0..frame.len()
            invariant
                extent == widened_by(extent_from(before, from), frame@.take(i as int)),
        {
            extent = widen(extent, frame[i]);
            proof {
                assert(frame@.take(i + 1).drop_last() =~= frame@.take(i as int));
            }
        }
        proof {
            assert(frame@.take(frame@.len() as int) =~= frame@);
            assert(frames.drop_last() =~= before);
            lemma_windows_from(self.rate as int, before);
            assert(extent == extent_from(frames, from));
        }
        self.extent = extent;
        self.in_window = true;
        self.frames_done = self.frames_done + 1;
        self.seen = Ghost(frames);
        proof {
            let i = self.window_index as int;
            let r = self.rate as int;
            assert(0 <= (i + 1) * r <= 0x1_0000_0000_0000_0000 * 0x1_0000_0000) by (nonlinear_arith)
                requires
                    0 <= i < 0x1_0000_0000_0000_0000,
                    0 <= r < 0x1_0000_0000,
            ;
        }
        let end: u128 = ((self.window_index as u128 + 1) * self.rate as u128 + 99) / 100;
        if self.frames_done as u128 >= end {
            let pair = pair_from(extent);
            self.pairs.push(pair);
            self.extent = Extent::Empty;
            self.in_window = false;
            self.window_index = self.window_index + 1;
        }
    }

    /// The windows of the whole stream.
    pub fn finish(self) -> (out: Vec<(i8, i8)>)
        requires
            self.wf(),
        ensures
            out@ == all_windows(self.sample_rate(), self.frames()),
    {
        let mut pairs = self.pairs;
        if self.in_window {
            pairs.push(pair_from(self.extent));
        }
        pairs
    }
}

/// The frame window `i` begins with: the frames of `i` windows, rounded up.
pub open spec fn boundary(rate: int, i: int) -> int {
    (i * rate + 99) / 100
}

proof fn lemma_boundaries(rate: int, i: int)
    requires
        rate >= 100,
        0 <= i,
    ensures
        boundary(rate, i) < boundary(rate, i + 1),
        boundary(rate, i + 1) == window_end(rate, i),
        boundary(rate, 0) == 0,
{
    assert((i + 1) * rate == i * rate + rate) by (nonlinear_arith);
}

/// The extent of frames `a` up to `b`.
pub open spec fn extent_between(frames: Seq<Seq<Sample>>, a: int, b: int) -> Extent {
    extent_from(frames.take(b), a)
}

proof fn lemma_no_drift(rate: int, frames: Seq<Seq<Sample>>)
    requires
        rate >= 100,
    ensures
        ({
            let (pairs, from) = windows(rate, frames);
            &&& from == boundary(rate, pairs.len() as int)
            &&& from <= frames.len() < boundary(rate, pairs.len() as int + 1)
            &&& forall|i: int|
                0 <= i < pairs.len() ==> #[trigger] pairs[i] == pair_of(
                    extent_between(frames, boundary(rate, i), boundary(rate, i + 1)),
                ) && boundary(rate, i + 1) <= frames.len()
        }),
    decreases frames.len(),
{
    if frames.len() == 0 {
        lemma_boundaries(rate, 0);
    } else {
        let init = frames.drop_last();
        lemma_no_drift(rate, init);
        let (pairs, from) = windows(rate, init);
        let n = pairs.len() as int;
        lemma_boundaries(rate, n);
        lemma_boundaries(rate, n + 1);
        let (now, at) = windows(rate, frames);
        assert forall|i: int| 0 <= i < now.len() implies #[trigger] now[i] == pair_of(
            extent_between(frames, boundary(rate, i), boundary(rate, i + 1)),
        ) && boundary(rate, i + 1) <= frames.len() by {
            if i < n {
                assert(now[i] == pairs[i]);
                assert(init.take(boundary(rate, i + 1)) =~= frames.take(boundary(rate, i + 1)));
            } else {
                assert(frames.take(frames.len() as int) =~= frames);
            }
        }
    }
}

/// Windows do not drift: at a hundred frames per second or more, closed window
/// `i` is the extent of exactly the frames from `ceil(i * rate / 100)` up to
/// `ceil((i + 1) * rate / 100)`.
pub proof fn law_windows_do_not_drift(rate: int, frames: Seq<Seq<Sample>>, i: int)
    requires
        rate >= 100,
        0 <= i < windows(rate, frames).0.len(),
    ensures
        windows(rate, frames).0[i] == pair_of(
            extent_between(frames, boundary(rate, i), boundary(rate, i + 1)),
        ),
{
    lemma_no_drift(rate, frames);
}

/// One second of audio is a hundred windows, whatever the rate.
pub proof fn law_hundred_windows_per_second(rate: int, frames: Seq<Seq<Sample>>, secs: int)
    requires
        rate >= 100,
        0 <= secs,
        frames.len() == secs * rate,
    ensures
        all_windows(rate, frames).len() == 100 * secs,
{
    lemma_no_drift(rate, frames);
    let (pairs, from) = windows(rate, frames);
    let n = pairs.len() as int;
    lemma_boundaries(rate, n);
    assert(n * rate <= 100 * (secs * rate) < (n + 1) * rate) by {
        assert(from <= frames.len());
        assert((n + 1) * rate == n * rate + rate) by (nonlinear_arith);
    }
    assert(n == 100 * secs) by (nonlinear_arith)
        requires
            n * rate <= 100 * (secs * rate) < (n + 1) * rate,
            rate >= 100,
    ;
    assert((100 * secs) * rate == 100 * (secs * rate)) by (nonlinear_arith);
    assert(from == frames.len());
}

// ---------------------------------------------------------------------
// The file
// ---------------------------------------------------------------------

/// A level as its two's complement byte.
pub open spec fn level_byte(v: i8) -> u8 {
    if v < 0 {
        (v + 256) as u8
    } else {
        v as u8
    }
}

/// A byte as a two's complement level.
pub open spec fn byte_level(b: u8) -> i8 {
    if b >= 128 {
        (b - 256) as i8
    } else {
        b as i8
    }
}

/// The bytes of the pairs.
pub open spec fn pair_bytes(pairs: Seq<(i8, i8)>) -> Seq<u8>
    decreases pairs.len(),
{
    if pairs.len() == 0 {
        Seq::empty()
    } else {
        pair_bytes(pairs.drop_last()) + seq![
            level_byte(pairs.last().0),
            level_byte(pairs.last().1),
        ]
    }
}

/// `b"CPKS"`.
pub open spec fn peaks_magic() -> Seq<u8> {
    seq![67, 80, 75, 83]
}

/// A peak file.
pub open spec fn file_bytes(pairs: Seq<(i8, i8)>) -> Seq<u8> {
    peaks_magic() + bytes::le_bytes(PEAKS_VERSION as nat, 4) + bytes::le_bytes(
        PEAKS_PER_SEC as nat,
        4,
    ) + bytes::le_bytes(pairs.len(), 4) + pair_bytes(pairs)
}

fn byte_of(v: i8) -> (out: u8)
    ensures
        out == level_byte(v),
{
    if v < 0 {
        (v as i16 + 256) as u8
    } else {
        v as u8
    }
}

/// The peak file holding `pairs`.
pub fn peaks_file(pairs: &Vec<(i8, i8)>) -> (out: Vec<u8>)
    requires
        pairs@.len() <= u32::MAX,
    ensures
        out@ == file_bytes(pairs@),
{
    let mut out: Vec<u8> = Vec::new();
    out.push(67);
    out.push(80);
    out.push(75);
    out.push(83);
    proof {
        assert(out@ =~= peaks_magic());
    }
    push_le(&mut out, PEAKS_VERSION as u128, 4);
    push_le(&mut out, PEAKS_PER_SEC as u128, 4);
    push_le(&mut out, pairs.len() as u128, 4);
    let ghost head = out@;
    proof {
        assert(head + pair_bytes(pairs@.take(0)) =~= head);
    }
    for i in 0..pairs.len()
        invariant
            out@ == head + pair_bytes(pairs@.take(i as int)),
    {
        out.push(byte_of(pairs[i].0));
        out.push(byte_of(pairs[i].1));
        proof {
            assert(pairs@.take(i + 1).drop_last() =~= pairs@.take(i as int));
            assert(out@ =~= head + pair_bytes(pairs@.take(i + 1)));
        }
    }
    proof {
        assert(pairs@.take(pairs@.len() as int) =~= pairs@);
    }
    out
}

proof fn lemma_pair_bytes(pairs: Seq<(i8, i8)>, i: int)
    ensures
        pair_bytes(pairs).len() == 2 * pairs.len(),
        0 <= i < pairs.len() ==> byte_level(pair_bytes(pairs)[2 * i]) == pairs[i].0 && byte_level(
            pair_bytes(pairs)[2 * i + 1],
        ) == pairs[i].1,
    decreases pairs.len(),
{
    if pairs.len() > 0 {
        lemma_pair_bytes(pairs.drop_last(), i);
    }
}

/// A reader that follows the format finds everything it was written with:
/// version, resolution, window count, and every pair.
pub proof fn law_peak_file_reads_back(pairs: Seq<(i8, i8)>, i: int)
    requires
        pairs.len() <= u32::MAX,
    ensures
        ({
            let file = file_bytes(pairs);
            &&& file.take(4) == peaks_magic()
            &&& bytes::le_value(file.subrange(4, 8)) == PEAKS_VERSION
            &&& bytes::le_value(file.subrange(8, 12)) == PEAKS_PER_SEC
            &&& bytes::le_value(file.subrange(12, 16)) == pairs.len()
            &&& file.len() == 16 + 2 * pairs.len()
            &&& 0 <= i < pairs.len() ==> byte_level(file[16 + 2 * i]) == pairs[i].0 && byte_level(
                file[16 + 2 * i + 1],
            ) == pairs[i].1
        }),
{
    let file = file_bytes(pairs);
    bytes::lemma_power256();
    bytes::lemma_le_round_trip(PEAKS_VERSION as nat, 4);
    bytes::lemma_le_round_trip(PEAKS_PER_SEC as nat, 4);
    bytes::lemma_le_round_trip(pairs.len(), 4);
    lemma_pair_bytes(pairs, i);
    assert(file.take(4) =~= peaks_magic());
    assert(file.subrange(4, 8) =~= bytes::le_bytes(PEAKS_VERSION as nat, 4));
    assert(file.subrange(8, 12) =~= bytes::le_bytes(PEAKS_PER_SEC as nat, 4));
    assert(file.subrange(12, 16) =~= bytes::le_bytes(pairs.len(), 4));
    if 0 <= i < pairs.len() {
        assert(file[16 + 2 * i] == pair_bytes(pairs)[2 * i]);
        assert(file[16 + 2 * i + 1] == pair_bytes(pairs)[2 * i + 1]);
    }
}

// ---------------------------------------------------------------------
// What a window holds
// ---------------------------------------------------------------------

/// A sample counts in an extent.
pub open spec fn counted(extent: Extent, sample: Sample) -> bool {
    match sample {
        Sample::Level(v) => match extent {
            Extent::Range { lo, hi } => lo <= v <= hi,
            Extent::Unbounded => true,
            Extent::Empty => false,
        },
        Sample::Infinite => extent is Unbounded,
        Sample::NotANumber => true,
    }
}

/// A sample occurs, on some channel, in one of the frames from `from` on.
pub open spec fn occurs(frames: Seq<Seq<Sample>>, from: int, sample: Sample) -> bool {
    exists|i: int, k: int|
        from <= i < frames.len() && 0 <= k < frames[i].len() && #[trigger] frames[i][k] == sample
}

proof fn lemma_counted(extent: Extent, frame: Seq<Sample>, k: int, s: Sample)
    ensures
        0 <= k < frame.len() ==> counted(widened_by(extent, frame), frame[k]),
        counted(extent, s) ==> counted(widened_by(extent, frame), s),
    decreases frame.len(),
{
    if frame.len() > 0 {
        let init = frame.drop_last();
        lemma_counted(extent, init, k, s);
        if 0 <= k < init.len() {
            assert(init[k] == frame[k]);
        }
    }
}

/// Every sample of the frames counts, on every channel of every frame: no level
/// lies outside the extent, and one infinite sample leaves it unbounded.
pub proof fn law_extents_count_every_sample(
    frames: Seq<Seq<Sample>>,
    from: int,
    i: int,
    k: int,
)
    requires
        0 <= from <= i < frames.len(),
        0 <= k < frames[i].len(),
    ensures
        counted(extent_from(frames, from), frames[i][k]),
    decreases frames.len(),
{
    let init = frames.drop_last();
    let before = extent_from(init, from);
    if i < init.len() {
        law_extents_count_every_sample(init, from, i, k);
        lemma_counted(before, frames.last(), 0, frames[i][k]);
    } else {
        lemma_counted(before, frames.last(), k, frames[i][k]);
    }
}

proof fn lemma_reached(extent: Extent, frame: Seq<Sample>)
    ensures
        match widened_by(extent, frame) {
            Extent::Range { lo, hi } => {
                &&& (extent matches Extent::Range { lo: l, .. } && l == lo) || exists|k: int|
                    0 <= k < frame.len() && #[trigger] frame[k] == Sample::Level(lo)
                &&& (extent matches Extent::Range { hi: h, .. } && h == hi) || exists|k: int|
                    0 <= k < frame.len() && #[trigger] frame[k] == Sample::Level(hi)
            },
            Extent::Unbounded => extent is Unbounded || exists|k: int|
                0 <= k < frame.len() && #[trigger] frame[k] == Sample::Infinite,
            Extent::Empty => true,
        },
    decreases frame.len(),
{
    if frame.len() > 0 {
        let init = frame.drop_last();
        lemma_reached(extent, init);
        let n = init.len() as int;
        assert(frame[n] == frame.last());
        assert forall|k: int| 0 <= k < n implies #[trigger] init[k] == frame[k] by {}
        match widened_by(extent, init) {
            Extent::Range { lo, hi } => {
                if !(extent matches Extent::Range { lo: l, .. } && l == lo) {
                    let k = choose|k: int|
                        0 <= k < init.len() && #[trigger] init[k] == Sample::Level(lo);
                    assert(frame[k] == init[k]);
                }
                if !(extent matches Extent::Range { hi: h, .. } && h == hi) {
                    let k = choose|k: int|
                        0 <= k < init.len() && #[trigger] init[k] == Sample::Level(hi);
                    assert(frame[k] == init[k]);
                }
            },
            Extent::Unbounded => {
                if extent !is Unbounded {
                    let k = choose|k: int|
                        0 <= k < init.len() && #[trigger] init[k] == Sample::Infinite;
                    assert(frame[k] == init[k]);
                }
            },
            Extent::Empty => {},
        }
    }
}

/// An extent is no wider than its samples: its ends are levels that occur, and
/// it is unbounded only where an infinite sample does.
pub proof fn law_extents_are_reached(frames: Seq<Seq<Sample>>, from: int)
    requires
        0 <= from,
    ensures
        match extent_from(frames, from) {
            Extent::Range { lo, hi } => occurs(frames, from, Sample::Level(lo)) && occurs(
                frames,
                from,
                Sample::Level(hi),
            ),
            Extent::Unbounded => occurs(frames, from, Sample::Infinite),
            Extent::Empty => true,
        },
    decreases frames.len(),
{
    if from < frames.len() {
        let init = frames.drop_last();
        let n = init.len() as int;
        law_extents_are_reached(init, from);
        lemma_reached(extent_from(init, from), frames.last());
        assert forall|s: Sample| occurs(init, from, s) implies #[trigger] occurs(
            frames,
            from,
            s,
        ) by {
            let (i, k) = choose|i: int, k: int|
                from <= i < init.len() && 0 <= k < init[i].len() && #[trigger] init[i][k] == s;
            assert(frames[i][k] == s);
        }
        assert forall|s: Sample|
            (exists|k: int| 0 <= k < frames.last().len() && #[trigger] frames.last()[k]
                == s) implies #[trigger] occurs(frames, from, s) by {
            let k = choose|k: int|
                0 <= k < frames.last().len() && #[trigger] frames.last()[k] == s;
            assert(frames[n][k] == s);
        }
    }
}

/// Frame `i` belongs to window `w`: it starts within the window's hundredth of
/// a second.
pub open spec fn in_window(rate: int, w: int, i: int) -> bool {
    w * rate <= 100 * i < (w + 1) * rate
}

/// A sample occurs, on some channel, in a frame of window `w`.
pub open spec fn window_has(
    rate: int,
    frames: Seq<Seq<Sample>>,
    w: int,
    sample: Sample,
) -> bool {
    exists|i: int, k: int|
        0 <= i < frames.len() && in_window(rate, w, i) && 0 <= k < frames[i].len()
            && #[trigger] frames[i][k] == sample
}

/// Every window of a stream of at least a hundred frames per second, the last
/// one too, is the least and the greatest level of its frames on all channels;
/// it is zeros where it has an infinite sample or no level at all.
pub proof fn law_windows_are_the_extent_of_their_frames(
    rate: int,
    frames: Seq<Seq<Sample>>,
    w: int,
)
    requires
        rate >= 100,
        0 <= w < all_windows(rate, frames).len(),
    ensures
        ({
            let (lo, hi) = all_windows(rate, frames)[w];
            if window_has(rate, frames, w, Sample::Infinite) || !(exists|v: i8|
                #[trigger] window_has(rate, frames, w, Sample::Level(v))) {
                lo == 0 && hi == 0
            } else {
                &&& window_has(rate, frames, w, Sample::Level(lo))
                &&& window_has(rate, frames, w, Sample::Level(hi))
                &&& forall|v: i8|
                    #[trigger] window_has(rate, frames, w, Sample::Level(v)) ==> lo <= v <= hi
            }
        }),
{
    lemma_no_drift(rate, frames);
    let (pairs, from) = windows(rate, frames);
    let a = boundary(rate, w);
    let b = if w < pairs.len() {
        boundary(rate, w + 1)
    } else {
        frames.len() as int
    };
    lemma_boundaries(rate, w);
    let part = frames.take(b);
    assert(frames.take(frames.len() as int) =~= frames);
    assert(all_windows(rate, frames)[w] == pair_of(extent_from(part, a)));
    let e = extent_from(part, a);
    assert(0 <= a) by (nonlinear_arith)
        requires
            a == (w * rate + 99) / 100,
            0 <= w,
            100 <= rate,
    ;
    assert forall|i: int| #![trigger frames[i]] 0 <= i < frames.len() implies (in_window(
        rate,
        w,
        i,
    ) <==> a <= i < b) by {
        assert((w + 1) * rate == w * rate + rate) by (nonlinear_arith);
    }
    assert forall|s: Sample| #[trigger] window_has(rate, frames, w, s) <==> occurs(part, a, s) by {
        if window_has(rate, frames, w, s) {
            let (i, k) = choose|i: int, k: int|
                0 <= i < frames.len() && in_window(rate, w, i) && 0 <= k < frames[i].len()
                    && #[trigger] frames[i][k] == s;
            assert(part[i] == frames[i]);
            assert(part[i][k] == s);
        }
        if occurs(part, a, s) {
            let (i, k) = choose|i: int, k: int|
                a <= i < part.len() && 0 <= k < part[i].len() && #[trigger] part[i][k] == s;
            assert(part[i] == frames[i]);
            assert(frames[i][k] == s);
        }
    }
    law_extents_are_reached(part, a);
    assert forall|s: Sample| occurs(part, a, s) implies #[trigger] counted(e, s) by {
        let (i, k) = choose|i: int, k: int|
            a <= i < part.len() && 0 <= k < part[i].len() && #[trigger] part[i][k] == s;
        law_extents_count_every_sample(part, a, i, k);
    }
    if window_has(rate, frames, w, Sample::Infinite) {
        assert(counted(e, Sample::Infinite));
    } else if exists|v: i8| #[trigger] window_has(rate, frames, w, Sample::Level(v)) {
        let v = choose|v: i8| #[trigger] window_has(rate, frames, w, Sample::Level(v));
        assert(counted(e, Sample::Level(v)));
        assert forall|v: i8| #[trigger] window_has(
            rate,
            frames,
            w,
            Sample::Level(v),
        ) implies e->lo <= v <= e->hi by {
            assert(counted(e, Sample::Level(v)));
        }
    } else {
        if let Extent::Range { lo, hi } = e {
            assert(window_has(rate, frames, w, Sample::Level(lo)));
        }
    }
}

/// Below a hundred frames per second every frame is a window of its own.
pub proof fn law_slow_streams_have_a_window_per_frame(
    rate: int,
    frames: Seq<Seq<Sample>>,
    i: int,
)
    requires
        1 <= rate <= 100,
        0 <= i < frames.len(),
    ensures
        all_windows(rate, frames).len() == frames.len(),
        all_windows(rate, frames)[i] == pair_of(widened_by(Extent::Empty, frames[i])),
{
    lemma_window_per_frame(rate, frames);
}

proof fn lemma_window_per_frame(rate: int, frames: Seq<Seq<Sample>>)
    requires
        1 <= rate <= 100,
    ensures
        windows(rate, frames).1 == frames.len(),
        windows(rate, frames).0.len() == frames.len(),
        forall|i: int|
            0 <= i < frames.len() ==> #[trigger] windows(rate, frames).0[i] == pair_of(
                widened_by(Extent::Empty, frames[i]),
            ),
    decreases frames.len(),
{
    if frames.len() > 0 {
        let init = frames.drop_last();
        let n = init.len() as int;
        lemma_window_per_frame(rate, init);
        assert((n + 1) * rate <= (n + 1) * 100) by (nonlinear_arith)
            requires
                rate <= 100,
                0 <= n,
        ;
        assert(window_end(rate, n) <= n + 1);
        assert(extent_from(init, n) is Empty);
        assert(extent_from(frames, n) == widened_by(Extent::Empty, frames.last()));
        assert forall|i: int| 0 <= i < frames.len() implies #[trigger] windows(rate, frames).0[i]
            == pair_of(widened_by(Extent::Empty, frames[i])) by {
            if i < n {
                assert(windows(rate, init).0[i] == pair_of(widened_by(Extent::Empty, init[i])));
            }
        }
    }
}

/// A peak file starts with the letters `CPKS`, is of version 1 at 100 windows
/// per second, and holds each window as two signed bytes, the lower end first.
pub proof fn law_peak_file_bytes(pairs: Seq<(i8, i8)>, i: int)
    requires
        pairs.len() <= u32::MAX,
        0 <= i < pairs.len(),
    ensures
        ({
            let file = file_bytes(pairs);
            let (lo, hi) = (file[16 + 2 * i] as int, file[17 + 2 * i] as int);
            &&& file[0] == 0x43 && file[1] == 0x50 && file[2] == 0x4b && file[3] == 0x53
            &&& file[4] == 1 && file[5] == 0 && file[6] == 0 && file[7] == 0
            &&& file[8] == 100 && file[9] == 0 && file[10] == 0 && file[11] == 0
            &&& file[12] + 0x100 * file[13] + 0x1_0000 * file[14] + 0x100_0000 * file[15]
                == pairs.len()
            &&& lo == pairs[i].0 || lo == pairs[i].0 + 256
            &&& hi == pairs[i].1 || hi == pairs[i].1 + 256
        }),
{
    let file = file_bytes(pairs);
    law_peak_file_reads_back(pairs, i);
    bytes::law_four_bytes(1);
    bytes::law_four_bytes(100);
    bytes::law_four_bytes(pairs.len());
    let version = bytes::le_bytes(1, 4);
    let rate = bytes::le_bytes(100, 4);
    let count = bytes::le_bytes(pairs.len(), 4);
    assert(file[4] == version[0] && file[5] == version[1] && file[6] == version[2] && file[7]
        == version[3]);
    assert(file[8] == rate[0] && file[9] == rate[1] && file[10] == rate[2] && file[11] == rate[3]);
    assert(file[12] == count[0] && file[13] == count[1] && file[14] == count[2] && file[15]
        == count[3]);
    assert(file[0] == peaks_magic()[0] && file[1] == peaks_magic()[1] && file[2]
        == peaks_magic()[2] && file[3] == peaks_magic()[3]);
}

} // verus!
