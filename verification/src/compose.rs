//! The shared frame renderer's decisions: **one** definition of "the output
//! frame at time `t`", consumed by both render frontends.
//!
//! # The frame sampling rule
//!
//! The output frame grid drives everything. For each layer, the frame shown is
//! the **latest decoded source frame at or before the clip's source time**
//! (floor on the source frame grid). A source that runs dry before its clip
//! ends holds its last frame.
//!
//! Decoders advance forward frame-by-frame when the target is near (sequential
//! playback, small hops), and seek when it is not (scrubs, jump cuts). One
//! decoder serves each source across all tracks; the rare project that shows
//! the *same* source at two different offsets simultaneously gets one decoder
//! per occurrence.

use vstd::prelude::*;
use vstd::string::*;

use crate::decode;
use crate::decode::{plan_seek, SeekPlan};
use crate::error::MediaError;
use crate::ffmpeg_run;
use crate::ffmpeg_run::pack_rows;
use crate::project::holds_id;
use crate::strings;
use crate::strings::{push_dec, push_owned};

verus! {

/// Renderer counters (logged by the frontends).
#[derive(Clone, Copy, Debug, PartialEq, Eq, Structural)]
pub struct RenderStats {
    /// Frames composited.
    pub frames: u64,
    /// Decoders opened synchronously inside a render (a potential hitch during
    /// playback; prefetch exists to keep this rare).
    pub cold_opens: u64,
    /// In-stream seeks (scrubs, jump cuts, backward samples).
    pub seeks: u64,
    /// Frames decoded rolling forward.
    pub forward_decodes: u64,
}

impl Default for RenderStats {
    fn default() -> (out: RenderStats)
        ensures
            out == (RenderStats { frames: 0, cold_opens: 0, seeks: 0, forward_decodes: 0 }),
    {
        RenderStats { frames: 0, cold_opens: 0, seeks: 0, forward_decodes: 0 }
    }
}

/// A composited output frame, borrowed from the readback buffer.
pub struct FrameSlice<'a> {
    pub width: u32,
    pub height: u32,
    /// Row pitch in bytes (at least `width * 4`; GPU readbacks pad rows to 256).
    pub stride: usize,
    /// RGBA rows, `height * stride` bytes.
    pub data: &'a [u8],
}

impl<'a> FrameSlice<'a> {
    /// Rows are long enough and all there.
    pub open spec fn wf(self) -> bool {
        4 * self.width <= self.stride && self.height * self.stride <= self.data@.len()
    }

    /// The rows without their padding.
    pub fn packed(&self) -> (out: Vec<u8>)
        requires
            self.wf(),
        ensures
            out@ == ffmpeg_run::tight_rows(
                self.data@,
                self.stride as int,
                4 * self.width,
                self.height as int,
            ),
    {
        let mut out: Vec<u8> = Vec::new();
        proof {
            assert(0 < self.height ==> (self.height - 1) * self.stride + self.stride == self.height
                * self.stride) by (nonlinear_arith);
        }
        pack_rows(&mut out, self.data, self.stride, self.width, self.height);
        proof {
            assert(out@ =~= ffmpeg_run::tight_rows(
                self.data@,
                self.stride as int,
                4 * self.width,
                self.height as int,
            ));
        }
        out
    }
}

// ---------------------------------------------------------------------
// Sampling one source
// ---------------------------------------------------------------------

/// What a decoder holds, as frame indices on its source's grid.
#[derive(Clone, Copy, Debug, PartialEq, Eq, Structural)]
pub struct DecoderView {
    /// The frame in the decode buffer.
    pub current: Option<i64>,
    /// The frame that comes next, when known.
    pub next: Option<i64>,
    /// The stream is fully drained.
    pub exhausted: bool,
}

/// How to bring a source's texture to the wanted frame.
#[derive(Clone, Copy, Debug, PartialEq, Eq, Structural)]
pub enum SampleStep {
    /// The texture already shows the right frame.
    Hold,
    /// The decoder holds the wanted frame: upload it.
    UploadCurrent,
    /// The wanted frame is near: roll the stream forward, then upload.
    RollForward,
    /// Seek to the wanted frame and upload it.
    Seek,
}

/// The next frame is near enough before the wanted one.
pub open spec fn near(next: Option<i64>, needed: i64) -> bool {
    next matches Some(n) && decode::in_forward_window(n as int, needed as int)
}

/// The sampling decision. An exhausted stream holds its last frame for
/// anything later; everything else that is neither here nor near (backward,
/// far forward, a fresh or exhausted stream) takes one seek.
pub open spec fn sample_step(uploaded: Option<i64>, view: DecoderView, needed: i64) -> SampleStep {
    if uploaded == Some(needed) {
        SampleStep::Hold
    } else if view.current == Some(needed) {
        SampleStep::UploadCurrent
    } else if view.exhausted && (uploaded matches Some(idx) && needed > idx) {
        SampleStep::Hold
    } else if near(view.next, needed) {
        SampleStep::RollForward
    } else {
        SampleStep::Seek
    }
}

/// Decide how to sample a source.
pub fn plan_sample(uploaded: Option<i64>, view: DecoderView, needed: i64) -> (out: SampleStep)
    ensures
        out == sample_step(uploaded, view, needed),
{
    if let Some(idx) = uploaded {
        if idx == needed {
            return SampleStep::Hold;
        }
    }
    if let Some(idx) = view.current {
        if idx == needed {
            return SampleStep::UploadCurrent;
        }
    }
    if view.exhausted {
        if let Some(idx) = uploaded {
            if needed > idx {
                return SampleStep::Hold;
            }
        }
    }
    match plan_seek(view.next, needed) {
        SeekPlan::Forward => SampleStep::RollForward,
        SeekPlan::Seek => SampleStep::Seek,
    }
}

/// Whether rolling forward decodes another frame: the next one is known and
/// does not lie behind the wanted one.
pub fn keeps_rolling(next: Option<i64>, needed: i64) -> (out: bool)
    ensures
        out == (next matches Some(n) && n <= needed),
{
    match next {
        Some(n) => n <= needed,
        None => false,
    }
}

/// A decoder on a stream of `count` frames at a constant rate.
pub struct CfrDecoder {
    pub count: int,
    pub current: Option<i64>,
    pub exhausted: bool,
}

impl CfrDecoder {
    /// It holds a frame of its stream; once drained, the last one.
    pub open spec fn wf(self) -> bool {
        &&& 0 < self.count <= i64::MAX
        &&& self.current matches Some(c) ==> 0 <= c < self.count
        &&& self.exhausted ==> self.current == Some((self.count - 1) as i64)
    }

    /// What the renderer sees of it.
    pub open spec fn seen(self) -> DecoderView {
        DecoderView {
            current: self.current,
            next: match self.current {
                Some(c) => if self.exhausted {
                    None
                } else {
                    Some((c + 1) as i64)
                },
                None => None,
            },
            exhausted: self.exhausted,
        }
    }

    /// Rolled or sought to a frame: it holds that one, or its last; asked for
    /// more than it has, it is drained.
    pub open spec fn moved_to(self, needed: i64) -> CfrDecoder {
        CfrDecoder {
            count: self.count,
            current: Some(floor_frame(self.count, needed)),
            exhausted: needed >= self.count,
        }
    }
}

/// The frame a stream of `count` frames shows at index `needed`: that one, or
/// its last.
pub open spec fn floor_frame(count: int, needed: i64) -> i64 {
    if needed < count {
        needed
    } else {
        (count - 1) as i64
    }
}

/// A source's texture and decoder after one sample.
pub open spec fn after_sample(uploaded: Option<i64>, decoder: CfrDecoder, needed: i64) -> (
    Option<i64>,
    CfrDecoder,
) {
    match sample_step(uploaded, decoder.seen(), needed) {
        SampleStep::Hold => (uploaded, decoder),
        SampleStep::UploadCurrent => (decoder.current, decoder),
        _ => (decoder.moved_to(needed).current, decoder.moved_to(needed)),
    }
}

/// The texture never shows more than its stream has, and a drained stream has
/// shown its last frame or nothing.
pub open spec fn texture_fits(uploaded: Option<i64>, decoder: CfrDecoder) -> bool {
    uploaded matches Some(u) ==> 0 <= u < decoder.count && (decoder.exhausted ==> u
        == decoder.count - 1)
}

/// The frame sampling rule: whatever was on screen before, after a sample the
/// texture shows the frame under the source time, and the last frame of a
/// source that ran dry.
pub proof fn law_sample_shows_the_floor_frame(
    uploaded: Option<i64>,
    decoder: CfrDecoder,
    needed: i64,
)
    requires
        decoder.wf(),
        texture_fits(uploaded, decoder),
        0 <= needed,
    ensures
        after_sample(uploaded, decoder, needed).0 == Some(floor_frame(decoder.count, needed)),
        after_sample(uploaded, decoder, needed).1.wf(),
        texture_fits(
            after_sample(uploaded, decoder, needed).0,
            after_sample(uploaded, decoder, needed).1,
        ),
{
}

// ---------------------------------------------------------------------
// Layers and sources
// ---------------------------------------------------------------------

/// How often `id` occurs among the first `n` entries.
pub open spec fn occurrences(media: Seq<u64>, n: int, id: u64) -> int
    decreases n,
{
    if n <= 0 {
        0
    } else {
        occurrences(media, n - 1, id) + if media[n - 1] == id {
            1int
        } else {
            0int
        }
    }
}

/// The decoder key of every layer, bottom to top: its media and how many
/// layers below show the same media.
pub fn layer_keys(media: &Vec<u64>) -> (out: Vec<(u64, u32)>)
    requires
        media@.len() <= u32::MAX,
    ensures
        out@.len() == media@.len(),
        forall|i: int|
            0 <= i < out@.len() ==> (#[trigger] out@[i]).0 == media@[i] && out@[i].1 == occurrences(
                media@,
                i,
                media@[i],
            ),
{
    let mut out: Vec<(u64, u32)> = Vec::new();
    for i in 0..media.len()
        invariant
            media@.len() <= u32::MAX,
            out@.len() == i,
            forall|k: int|
                0 <= k < i ==> (#[trigger] out@[k]).0 == media@[k] && out@[k].1 == occurrences(
                    media@,
                    k,
                    media@[k],
                ),
    {
        let id: u64 = media[i];
        let mut n: u32 = 0;
        for j in 0..i
            invariant
                i < media@.len() <= u32::MAX,
                n == occurrences(media@, j as int, id),
                n <= j,
        {
            if media[j] == id {
                n = n + 1;
            }
        }
        out.push((id, n));
    }
    out
}

proof fn lemma_occurrences_grow(media: Seq<u64>, a: int, b: int, id: u64)
    requires
        0 <= a <= b,
    ensures
        occurrences(media, a, id) <= occurrences(media, b, id),
    decreases b,
{
    if a < b {
        lemma_occurrences_grow(media, a, b - 1, id);
    }
}

/// No two layers of a frame share a decoder: two layers of the same media get
/// different occurrence numbers.
pub proof fn law_layer_keys_are_unique(media: Seq<u64>, i: int, j: int)
    requires
        0 <= i < j < media.len(),
        media[i] == media[j],
    ensures
        occurrences(media, i, media[i]) < occurrences(media, j, media[j]),
{
    lemma_occurrences_grow(media, i + 1, j, media[i]);
}

/// An open source: its key, and the frame its texture shows.
#[derive(Clone, Copy, Debug)]
pub struct SourceSlot {
    pub key: (u64, u32),
    pub uploaded: Option<i64>,
}

/// Renders output frames for a project: the bookkeeping around decoders and
/// compositor.
#[derive(Debug)]
pub struct TimelineRenderer {
    pub out_w: u32,
    pub out_h: u32,
    /// `true`: any layer failure fails the frame (export). `false`: the layer
    /// is dropped and the message recorded (preview keeps playing).
    pub strict: bool,
    pub sources: Vec<SourceSlot>,
    pub issues: Vec<String>,
    pub stats: RenderStats,
}

/// Where a key stands among the open sources; their number if it is not open.
pub open spec fn slot_pos(sources: Seq<SourceSlot>, key: (u64, u32)) -> int
    decreases sources.len(),
{
    if sources.len() == 0 || sources[0].key == key {
        0
    } else {
        1 + slot_pos(sources.drop_first(), key)
    }
}

proof fn lemma_slot_pos(sources: Seq<SourceSlot>, key: (u64, u32), n: int)
    requires
        0 <= n <= sources.len(),
        forall|k: int| 0 <= k < n ==> (#[trigger] sources[k]).key != key,
        n < sources.len() ==> sources[n].key == key,
    ensures
        slot_pos(sources, key) == n,
    decreases sources.len(),
{
    if n > 0 {
        assert(sources[0].key != key);
        assert forall|k: int| 0 <= k < n - 1 implies (#[trigger] sources.drop_first()[k]).key
            != key by {
            assert(sources[k + 1].key != key);
        }
        lemma_slot_pos(sources.drop_first(), key, n - 1);
    }
}

/// No key is open twice.
pub open spec fn distinct_keys(sources: Seq<SourceSlot>) -> bool {
    forall|i: int, j: int|
        0 <= i < j < sources.len() ==> (#[trigger] sources[i]).key != (#[trigger] sources[j]).key
}

/// A source is open under a key, and its texture shows a frame.
pub open spec fn shows(sources: Seq<SourceSlot>, key: (u64, u32)) -> bool {
    exists|i: int|
        0 <= i < sources.len() && (#[trigger] sources[i]).key == key && sources[i].uploaded is Some
}

/// The sources that serve a kept media.
pub open spec fn kept_slots(sources: Seq<SourceSlot>, keep: Seq<u64>) -> Seq<SourceSlot>
    decreases sources.len(),
{
    if sources.len() == 0 {
        sources
    } else {
        let before = kept_slots(sources.drop_last(), keep);
        if keep.contains(sources.last().key.0) {
            before.push(sources.last())
        } else {
            before
        }
    }
}

/// The message of a layer whose media has no file to render from.
pub open spec fn no_file_text(media: u64) -> Seq<char> {
    "no renderable file for media "@ + strings::dec(media as nat) + " (proxy still generating?)"@
}

impl TimelineRenderer {
    /// The place of a key.
    pub open spec fn pos(self, key: (u64, u32)) -> int {
        slot_pos(self.sources@, key)
    }

    /// The key has an open source.
    pub open spec fn is_open(self, key: (u64, u32)) -> bool {
        self.pos(key) < self.sources@.len()
    }

    /// No key is open twice.
    pub open spec fn wf(self) -> bool {
        distinct_keys(self.sources@)
    }

    /// Everything but sources, issues and counters.
    pub open spec fn same_target(self, other: TimelineRenderer) -> bool {
        self.out_w == other.out_w && self.out_h == other.out_h && self.strict == other.strict
    }

    /// A renderer for an output size, with nothing open.
    pub fn new(out_w: u32, out_h: u32, strict: bool) -> (out: TimelineRenderer)
        ensures
            out.out_w == out_w,
            out.out_h == out_h,
            out.strict == strict,
            out.wf(),
            out.sources@.len() == 0,
            out.issues@.len() == 0,
            out.stats == (RenderStats { frames: 0, cold_opens: 0, seeks: 0, forward_decodes: 0 }),
    {
        TimelineRenderer {
            out_w,
            out_h,
            strict,
            sources: Vec::new(),
            issues: Vec::new(),
            stats: RenderStats { frames: 0, cold_opens: 0, seeks: 0, forward_decodes: 0 },
        }
    }

    /// The output size.
    pub fn output_size(&self) -> (out: (u32, u32))
        ensures
            out == (self.out_w, self.out_h),
    {
        (self.out_w, self.out_h)
    }

    /// The counters.
    pub fn stats(&self) -> (out: RenderStats)
        ensures
            out == self.stats,
    {
        self.stats
    }

    /// Non-fatal layer problems recorded since the last call (lenient mode
    /// only): missing sources, decode failures.
    pub fn take_issues(&mut self) -> (out: Vec<String>)
        ensures
            out@ == old(self).issues@,
            final(self).issues@.len() == 0,
            final(self).sources == old(self).sources,
            final(self).stats == old(self).stats,
            final(self).same_target(*old(self)),
    {
        let mut taken: Vec<String> = Vec::new();
        std::mem::swap(&mut taken, &mut self.issues);
        taken
    }

    fn find(&self, key: (u64, u32)) -> (out: usize)
        ensures
            out == self.pos(key),
            out <= self.sources@.len(),
            out < self.sources@.len() ==> self.sources@[out as int].key == key,
    {
        let n: usize = self.sources.len();
        let mut i: usize = 0;
        while i < n && !(self.sources[i].key.0 == key.0 && self.sources[i].key.1 == key.1)
            invariant
                i <= n,
                n == self.sources@.len(),
                forall|k: int| 0 <= k < i ==> (#[trigger] self.sources@[k]).key != key,
            decreases n - i,
        {
            i = i + 1;
        }
        proof {
            lemma_slot_pos(self.sources@, key, i as int);
        }
        i
    }

    /// Whether a decoder for `media_id` is currently open.
    pub fn has_source(&self, media_id: u64) -> (out: bool)
        ensures
            out == self.is_open((media_id, 0)),
    {
        self.find((media_id, 0)) < self.sources.len()
    }

    /// Whether a layer's decoder has to be opened first.
    pub fn needs_open(&self, key: (u64, u32)) -> (out: bool)
        ensures
            out == !self.is_open(key),
    {
        self.find(key) == self.sources.len()
    }

    /// Whether a prefetched decoder for `media_id` is worth installing: there
    /// is no running one, or it would have to seek to the needed frame.
    pub fn wants_decoder(&self, media_id: u64, view: DecoderView, needed: i64) -> (out: bool)
        ensures
            out == (!self.is_open((media_id, 0)) || !({
                let uploaded = self.sources@[self.pos((media_id, 0))].uploaded;
                uploaded == Some(needed) || view.current == Some(needed) || near(view.next, needed)
            })),
    {
        let i: usize = self.find((media_id, 0));
        if i == self.sources.len() {
            return true;
        }
        if let Some(idx) = self.sources[i].uploaded {
            if idx == needed {
                return false;
            }
        }
        if let Some(idx) = view.current {
            if idx == needed {
                return false;
            }
        }
        match plan_seek(view.next, needed) {
            SeekPlan::Forward => false,
            SeekPlan::Seek => true,
        }
    }

    /// Install a decoder under a key, with an empty texture, in place of the
    /// one it had.
    pub fn install(&mut self, key: (u64, u32))
        ensures
            final(self).sources@ == (if old(self).is_open(key) {
                old(self).sources@.update(old(self).pos(key), SourceSlot { key, uploaded: None })
            } else {
                old(self).sources@.push(SourceSlot { key, uploaded: None })
            }),
            final(self).is_open(key),
            old(self).wf() ==> final(self).wf(),
            final(self).issues == old(self).issues,
            final(self).stats == old(self).stats,
            final(self).same_target(*old(self)),
    {
        let i: usize = self.find(key);
        proof {
            lemma_slot_before(self.sources@, key);
        }
        let slot = SourceSlot { key, uploaded: None };
        if i < self.sources.len() {
            self.sources.set(i, slot);
        } else {
            self.sources.push(slot);
        }
        proof {
            lemma_slot_pos(self.sources@, key, i as int);
        }
    }

    /// A layer's decoder was opened on the spot.
    pub fn opened(&mut self, key: (u64, u32))
        requires
            !old(self).is_open(key),
            old(self).stats.cold_opens < u64::MAX,
        ensures
            final(self).sources@ == old(self).sources@.push(SourceSlot { key, uploaded: None }),
            final(self).is_open(key),
            old(self).wf() ==> final(self).wf(),
            final(self).stats == (RenderStats {
                cold_opens: (old(self).stats.cold_opens + 1) as u64,
                ..old(self).stats
            }),
            final(self).issues == old(self).issues,
            final(self).same_target(*old(self)),
    {
        self.stats.cold_opens = self.stats.cold_opens + 1;
        self.install(key);
    }

    /// Record a layer problem: fail the frame in strict mode, note it and drop
    /// the layer otherwise.
    pub fn layer_problem(&mut self, message: String) -> (out: Result<(), MediaError>)
        ensures
            final(self).sources == old(self).sources,
            final(self).stats == old(self).stats,
            final(self).same_target(*old(self)),
            old(self).strict ==> out == Err::<(), MediaError>(
                MediaError::ExportNotReady { message },
            ) && final(self).issues == old(self).issues,
            !old(self).strict ==> out is Ok && strings::views(final(self).issues@)
                == strings::views(old(self).issues@).push(message@),
    {
        if self.strict {
            return Err(MediaError::ExportNotReady { message });
        }
        push_owned(&mut self.issues, message);
        Ok(())
    }

    /// A layer's media has no file to render from.
    pub fn no_file(&mut self, media: u64) -> (out: Result<(), MediaError>)
        ensures
            final(self).sources == old(self).sources,
            final(self).stats == old(self).stats,
            final(self).same_target(*old(self)),
            old(self).strict ==> match out {
                Err(MediaError::ExportNotReady { message }) => message@ == no_file_text(media),
                _ => false,
            } && final(self).issues == old(self).issues,
            !old(self).strict ==> out is Ok && strings::views(final(self).issues@)
                == strings::views(old(self).issues@).push(no_file_text(media)),
    {
        let mut message = "no renderable file for media ".to_owned();
        push_dec(&mut message, media);
        message.append(" (proxy still generating?)");
        self.layer_problem(message)
    }

    /// Opening a layer's file failed.
    pub fn open_failed(&mut self, path: &str, detail: &str) -> (out: Result<(), MediaError>)
        requires
            old(self).stats.cold_opens < u64::MAX,
        ensures
            final(self).sources == old(self).sources,
            final(self).stats == (RenderStats {
                cold_opens: (old(self).stats.cold_opens + 1) as u64,
                ..old(self).stats
            }),
            final(self).same_target(*old(self)),
            old(self).strict ==> match out {
                Err(MediaError::ExportNotReady { message }) => message@ == "open "@ + path@
                    + " failed: "@ + detail@,
                _ => false,
            } && final(self).issues == old(self).issues,
            !old(self).strict ==> out is Ok && strings::views(final(self).issues@)
                == strings::views(old(self).issues@).push(
                "open "@ + path@ + " failed: "@ + detail@,
            ),
    {
        self.stats.cold_opens = self.stats.cold_opens + 1;
        let mut message = "open ".to_owned();
        message.append(path);
        message.append(" failed: ");
        message.append(detail);
        self.layer_problem(message)
    }

    /// Decide how to sample a layer, counting the seek it takes.
    pub fn sample(&mut self, key: (u64, u32), view: DecoderView, needed: i64) -> (out: SampleStep)
        requires
            old(self).is_open(key),
            old(self).stats.seeks < u64::MAX,
        ensures
            out == sample_step(old(self).sources@[old(self).pos(key)].uploaded, view, needed),
            final(self).stats == (RenderStats {
                seeks: (old(self).stats.seeks + if out is Seek {
                    1int
                } else {
                    0int
                }) as u64,
                ..old(self).stats
            }),
            final(self).sources == old(self).sources,
            final(self).issues == old(self).issues,
            final(self).same_target(*old(self)),
    {
        let i: usize = self.find(key);
        let step = plan_sample(self.sources[i].uploaded, view, needed);
        match step {
            SampleStep::Seek => {
                self.stats.seeks = self.stats.seeks + 1;
            },
            _ => {},
        }
        step
    }

    /// Count a frame decoded rolling forward.
    pub fn rolled(&mut self)
        requires
            old(self).stats.forward_decodes < u64::MAX,
        ensures
            final(self).stats == (RenderStats {
                forward_decodes: (old(self).stats.forward_decodes + 1) as u64,
                ..old(self).stats
            }),
            final(self).sources == old(self).sources,
            final(self).issues == old(self).issues,
            final(self).same_target(*old(self)),
    {
        self.stats.forward_decodes = self.stats.forward_decodes + 1;
    }

    /// Note what was uploaded to a layer's texture: the frame, or nothing where
    /// the decoder had none. Returns whether the texture shows anything (a
    /// stream with no frames at all contributes nothing).
    pub fn uploaded(&mut self, key: (u64, u32), frame: Option<i64>) -> (shows: bool)
        requires
            old(self).is_open(key),
        ensures
            final(self).sources@ == (match frame {
                Some(idx) => old(self).sources@.update(
                    old(self).pos(key),
                    SourceSlot { key, uploaded: Some(idx) },
                ),
                None => old(self).sources@,
            }),
            shows == (frame is Some || old(self).sources@[old(self).pos(key)].uploaded is Some),
            old(self).wf() ==> final(self).wf(),
            final(self).stats == old(self).stats,
            final(self).issues == old(self).issues,
            final(self).same_target(*old(self)),
    {
        let i: usize = self.find(key);
        match frame {
            Some(idx) => {
                self.sources.set(i, SourceSlot { key, uploaded: Some(idx) });
                true
            },
            None => self.sources[i].uploaded.is_some(),
        }
    }

    /// A layer's decoder broke: close it so the next frame reopens, and report.
    pub fn decode_failed(&mut self, key: (u64, u32), detail: &str) -> (out: Result<(), MediaError>)
        requires
            old(self).is_open(key),
        ensures
            final(self).sources@ == old(self).sources@.remove(old(self).pos(key)),
            old(self).wf() ==> final(self).wf(),
            final(self).stats == old(self).stats,
            final(self).same_target(*old(self)),
            old(self).strict ==> match out {
                Err(MediaError::ExportNotReady { message }) => message@ == "decode failed: "@
                    + detail@,
                _ => false,
            } && final(self).issues == old(self).issues,
            !old(self).strict ==> out is Ok && strings::views(final(self).issues@)
                == strings::views(old(self).issues@).push("decode failed: "@ + detail@),
    {
        let i: usize = self.find(key);
        let _ = self.sources.remove(i);
        let mut message = "decode failed: ".to_owned();
        message.append(detail);
        self.layer_problem(message)
    }

    /// A frame was composited.
    pub fn composited(&mut self)
        requires
            old(self).stats.frames < u64::MAX,
        ensures
            final(self).stats == (RenderStats {
                frames: (old(self).stats.frames + 1) as u64,
                ..old(self).stats
            }),
            final(self).sources == old(self).sources,
            final(self).issues == old(self).issues,
            final(self).same_target(*old(self)),
    {
        self.stats.frames = self.stats.frames + 1;
    }

    /// Close decoders for sources not in `keep` (media ids).
    pub fn retain_sources(&mut self, keep: &Vec<u64>)
        ensures
            final(self).sources@ == kept_slots(old(self).sources@, keep@),
            old(self).wf() ==> final(self).wf(),
            final(self).stats == old(self).stats,
            final(self).issues == old(self).issues,
            final(self).same_target(*old(self)),
    {
        let ghost all = self.sources@;
        let mut rest: Vec<SourceSlot> = Vec::new();
        for i in 0..self.sources.len()
            invariant
                self.sources@ == all,
                rest@ == kept_slots(all.take(i as int), keep@),
                self.stats == old(self).stats,
                self.issues == old(self).issues,
                self.same_target(*old(self)),
        {
            proof {
                assert(all.take(i + 1).drop_last() =~= all.take(i as int));
            }
            let slot = self.sources[i];
            if holds_id(keep, slot.key.0) {
                rest.push(slot);
            }
        }
        proof {
            assert(all.take(all.len() as int) =~= all);
            if distinct_keys(all) {
                lemma_kept_distinct(all, keep@);
            }
        }
        self.sources = rest;
    }

    /// Close every decoder (source files may have changed on disk).
    pub fn clear_sources(&mut self)
        ensures
            final(self).sources@.len() == 0,
            final(self).wf(),
            final(self).stats == old(self).stats,
            final(self).issues == old(self).issues,
            final(self).same_target(*old(self)),
    {
        self.sources.clear();
    }
}

proof fn lemma_kept_distinct(sources: Seq<SourceSlot>, keep: Seq<u64>)
    requires
        distinct_keys(sources),
    ensures
        distinct_keys(kept_slots(sources, keep)),
        forall|k: int|
            0 <= k < kept_slots(sources, keep).len() ==> exists|i: int|
                0 <= i < sources.len() && #[trigger] sources[i] == #[trigger] kept_slots(
                    sources,
                    keep,
                )[k],
    decreases sources.len(),
{
    if sources.len() > 0 {
        let init = sources.drop_last();
        assert forall|i: int, j: int| 0 <= i < j < init.len() implies (#[trigger] init[i]).key != (
        #[trigger] init[j]).key by {
            assert(init[i] == sources[i] && init[j] == sources[j]);
        }
        lemma_kept_distinct(init, keep);
        let before = kept_slots(init, keep);
        let all = kept_slots(sources, keep);
        assert forall|k: int| 0 <= k < all.len() implies exists|i: int|
            0 <= i < sources.len() && #[trigger] sources[i] == #[trigger] all[k] by {
            if k < before.len() {
                let i = choose|i: int| 0 <= i < init.len() && #[trigger] init[i] == before[k];
                assert(sources[i] == all[k]);
            } else {
                assert(sources[sources.len() - 1] == all[k]);
            }
        }
        assert forall|i: int, j: int| 0 <= i < j < all.len() implies (#[trigger] all[i]).key != (
        #[trigger] all[j]).key by {
            assert(all[i] == before[i]);
            let a = choose|a: int| 0 <= a < init.len() && #[trigger] init[a] == before[i];
            if j < before.len() {
                assert(all[j] == before[j]);
            } else {
                assert(sources[a].key != sources[sources.len() - 1].key);
            }
        }
    }
}

proof fn lemma_slot_before(sources: Seq<SourceSlot>, key: (u64, u32))
    ensures
        0 <= slot_pos(sources, key) <= sources.len(),
        forall|k: int| 0 <= k < slot_pos(sources, key) ==> (#[trigger] sources[k]).key != key,
    decreases sources.len(),
{
    if sources.len() > 0 && sources[0].key != key {
        lemma_slot_before(sources.drop_first(), key);
        assert forall|k: int| 0 <= k < slot_pos(sources, key) implies (#[trigger] sources[k]).key
            != key by {
            if k > 0 {
                assert(sources.drop_first()[k - 1] == sources[k]);
            }
        }
    }
}

// ---------------------------------------------------------------------
// One frame
// ---------------------------------------------------------------------

/// What a frame needs next.
#[derive(Clone, Copy, Debug, PartialEq, Eq)]
pub enum FrameAction {
    /// Open a decoder for this key.
    Open((u64, u32)),
    /// Bring the texture of this key to its layer's source time.
    Sample((u64, u32)),
    /// Composite the kept layers.
    Composite,
}

/// What became of an action.
#[derive(Debug)]
pub enum LayerEvent {
    /// The layer's media has no file to render from.
    NoFile,
    /// Its file could not be opened.
    OpenFailed { path: String, detail: String },
    /// Its decoder is open.
    Opened,
    /// Its decoder was sampled: the frame that was uploaded, if any.
    Sampled(Option<i64>),
    /// Its decoder broke.
    Broken { detail: String },
}

impl LayerEvent {
    /// It answers a request to open.
    pub open spec fn answers_open(self) -> bool {
        self is NoFile || self is OpenFailed || self is Opened
    }

    /// The layer problem it is, for a layer that shows `media`.
    pub open spec fn problem(self, media: u64) -> Option<Seq<char>> {
        match self {
            LayerEvent::NoFile => Some(no_file_text(media)),
            LayerEvent::OpenFailed { path, detail } => Some(
                "open "@ + path@ + " failed: "@ + detail@,
            ),
            LayerEvent::Broken { detail } => Some("decode failed: "@ + detail@),
            _ => None,
        }
    }

    /// The open sources after it.
    pub open spec fn sources_after(self, sources: Seq<SourceSlot>, key: (u64, u32)) -> Seq<
        SourceSlot,
    > {
        match self {
            LayerEvent::Opened => sources.push(SourceSlot { key, uploaded: None }),
            LayerEvent::Sampled(Some(idx)) => sources.update(
                slot_pos(sources, key),
                SourceSlot { key, uploaded: Some(idx) },
            ),
            LayerEvent::Broken { .. } => sources.remove(slot_pos(sources, key)),
            _ => sources,
        }
    }
}

/// The layers of one frame, bottom to top, on their way to the compositor.
#[derive(Debug)]
pub struct FramePlan {
    /// The decoder key of every layer.
    pub keys: Vec<(u64, u32)>,
    /// The layer that is being worked on.
    pub at: usize,
    /// The layers that are composited.
    pub kept: Vec<usize>,
}

/// Of the first `n` layers, those whose source is open and shows a frame.
pub open spec fn shown_layers(sources: Seq<SourceSlot>, keys: Seq<(u64, u32)>, n: int) -> Seq<
    usize,
>
    decreases n,
{
    if n <= 0 {
        Seq::empty()
    } else {
        let before = shown_layers(sources, keys, n - 1);
        if shows(sources, keys[n - 1]) {
            before.push((n - 1) as usize)
        } else {
            before
        }
    }
}

impl FramePlan {
    /// No two layers share a key, and of the layers done so far exactly those
    /// that show a frame are kept, in order.
    pub open spec fn wf(self, sources: Seq<SourceSlot>) -> bool {
        &&& self.at <= self.keys@.len()
        &&& forall|i: int, j: int|
            0 <= i < j < self.keys@.len() ==> #[trigger] self.keys@[i] != #[trigger] self.keys@[j]
        &&& self.kept@ == shown_layers(sources, self.keys@, self.at as int)
    }

    /// Every layer is done.
    pub open spec fn done(self) -> bool {
        self.at == self.keys@.len()
    }

    /// The key of the layer being worked on.
    pub open spec fn key(self) -> (u64, u32) {
        self.keys@[self.at as int]
    }

    /// A plan for layers that show these media.
    pub fn new(media: &Vec<u64>) -> (out: FramePlan)
        requires
            media@.len() <= u32::MAX,
        ensures
            out.at == 0,
            out.kept@.len() == 0,
            out.keys@.len() == media@.len(),
            forall|i: int|
                0 <= i < out.keys@.len() ==> (#[trigger] out.keys@[i]).0 == media@[i]
                    && out.keys@[i].1 == occurrences(media@, i, media@[i]),
            forall|sources: Seq<SourceSlot>| #[trigger] out.wf(sources),
    {
        let keys = layer_keys(media);
        proof {
            assert forall|i: int, j: int| 0 <= i < j < keys@.len() implies #[trigger] keys@[i]
                != #[trigger] keys@[j] by {
                if media@[i] == media@[j] {
                    law_layer_keys_are_unique(media@, i, j);
                }
            }
        }
        let out = FramePlan { keys, at: 0, kept: Vec::new() };
        proof {
            assert forall|sources: Seq<SourceSlot>| #[trigger] out.wf(sources) by {
                assert(out.kept@ =~= shown_layers(sources, out.keys@, 0));
            }
        }
        out
    }
}

/// What a frame needs next: a layer without a decoder opens one first, then is
/// sampled.
pub open spec fn frame_action(sources: Seq<SourceSlot>, plan: FramePlan) -> FrameAction {
    if plan.done() {
        FrameAction::Composite
    } else if slot_pos(sources, plan.key()) < sources.len() {
        FrameAction::Sample(plan.key())
    } else {
        FrameAction::Open(plan.key())
    }
}

impl TimelineRenderer {
    /// What the frame needs next.
    pub fn next_action(&self, plan: &FramePlan) -> (out: FrameAction)
        requires
            plan.at <= plan.keys@.len(),
        ensures
            out == frame_action(self.sources@, *plan),
    {
        if plan.at == plan.keys.len() {
            return FrameAction::Composite;
        }
        let key = plan.keys[plan.at];
        if self.needs_open(key) {
            FrameAction::Open(key)
        } else {
            FrameAction::Sample(key)
        }
    }

    /// Take in what became of the action that the frame needed. A problem
    /// fails the frame in strict mode and drops the layer otherwise; a sampled
    /// layer is kept when its texture shows a frame.
    pub fn layer_event(&mut self, plan: &mut FramePlan, event: LayerEvent) -> (out: Result<
        (),
        MediaError,
    >)
        requires
            old(self).wf(),
            old(plan).wf(old(self).sources@),
            !old(plan).done(),
            event.answers_open() <==> !old(self).is_open(old(plan).key()),
            event is Opened || event is OpenFailed ==> old(self).stats.cold_opens < u64::MAX,
        ensures
            final(self).wf(),
            final(self).sources@ == event.sources_after(old(self).sources@, old(plan).key()),
            final(self).stats == (RenderStats {
                cold_opens: (old(self).stats.cold_opens + if event is Opened || event is OpenFailed {
                    1int
                } else {
                    0int
                }) as u64,
                ..old(self).stats
            }),
            final(self).same_target(*old(self)),
            match event.problem(old(plan).key().0) {
                Some(text) => if old(self).strict {
                    final(self).issues == old(self).issues && match out {
                        Err(MediaError::ExportNotReady { message }) => message@ == text,
                        _ => false,
                    }
                } else {
                    out is Ok && strings::views(final(self).issues@) == strings::views(
                        old(self).issues@,
                    ).push(text)
                },
                None => out is Ok && final(self).issues == old(self).issues,
            },
            out is Err ==> *final(plan) == *old(plan),
            out is Ok ==> {
                &&& final(plan).wf(final(self).sources@)
                &&& final(plan).keys == old(plan).keys
                &&& final(plan).at == old(plan).at + if event is Opened {
                    0int
                } else {
                    1int
                }
                &&& final(plan).kept@ == (if event is Sampled && shows(
                    final(self).sources@,
                    old(plan).key(),
                ) {
                    old(plan).kept@.push(old(plan).at)
                } else {
                    old(plan).kept@
                })
            },
    {
        let ghost before = self.sources@;
        let ghost keys = plan.keys@;
        let at: usize = plan.at;
        let key = plan.keys[at];
        let count: usize = plan.keys.len();
        assert(at < count);
        proof {
            lemma_slot_before(before, key);
            lemma_other_layers(before, event, keys, at as int);
            lemma_shown(before, event, key);
        }
        match event {
            LayerEvent::Opened => {
                self.opened(key);
            },
            LayerEvent::NoFile => {
                match self.no_file(key.0) {
                    Ok(()) => {},
                    Err(e) => {
                        return Err(e);
                    },
                }
                plan.at = at + 1;
            },
            LayerEvent::OpenFailed { path, detail } => {
                match self.open_failed(path.as_str(), detail.as_str()) {
                    Ok(()) => {},
                    Err(e) => {
                        return Err(e);
                    },
                }
                plan.at = at + 1;
            },
            LayerEvent::Sampled(frame) => {
                if self.uploaded(key, frame) {
                    plan.kept.push(at);
                }
                plan.at = at + 1;
            },
            LayerEvent::Broken { detail } => {
                match self.decode_failed(key, detail.as_str()) {
                    Ok(()) => {},
                    Err(e) => {
                        return Err(e);
                    },
                }
                plan.at = at + 1;
            },
        }
        Ok(())
    }
}

/// An event changes nothing about what another key shows.
proof fn lemma_other_key(sources: Seq<SourceSlot>, event: LayerEvent, key: (u64, u32), other: (
    u64,
    u32,
))
    requires
        key != other,
        event.answers_open() <==> slot_pos(sources, key) >= sources.len(),
    ensures
        shows(event.sources_after(sources, key), other) == shows(sources, other),
{
    lemma_slot_before(sources, key);
    lemma_slot_at(sources, key);
    let after = event.sources_after(sources, key);
    let p = slot_pos(sources, key);
    if shows(sources, other) {
        let i = choose|i: int|
            0 <= i < sources.len() && (#[trigger] sources[i]).key == other
                && sources[i].uploaded is Some;
        if event is Broken && i > p {
            assert(after[i - 1] == sources[i]);
        } else {
            assert(after[i] == sources[i]);
        }
    }
    if shows(after, other) {
        let i = choose|i: int|
            0 <= i < after.len() && (#[trigger] after[i]).key == other
                && after[i].uploaded is Some;
        if event is Broken && i >= p {
            assert(after[i] == sources[i + 1]);
        } else {
            assert(after[i] == sources[i]);
        }
    }
}

proof fn lemma_slot_at(sources: Seq<SourceSlot>, key: (u64, u32))
    ensures
        slot_pos(sources, key) < sources.len() ==> sources[slot_pos(sources, key)].key == key,
    decreases sources.len(),
{
    if sources.len() > 0 && sources[0].key != key {
        lemma_slot_at(sources.drop_first(), key);
        lemma_slot_before(sources.drop_first(), key);
    }
}

/// What a key shows after its own event.
proof fn lemma_shown(sources: Seq<SourceSlot>, event: LayerEvent, key: (u64, u32))
    requires
        distinct_keys(sources),
        event.answers_open() <==> slot_pos(sources, key) >= sources.len(),
    ensures
        shows(event.sources_after(sources, key), key) == (event matches LayerEvent::Sampled(frame)
            && (frame is Some || sources[slot_pos(sources, key)].uploaded is Some)),
{
    lemma_slot_before(sources, key);
    lemma_slot_at(sources, key);
    let after = event.sources_after(sources, key);
    let p = slot_pos(sources, key);
    if event is Sampled {
        assert(after[p].key == key);
    }
    if shows(after, key) {
        let i = choose|i: int|
            0 <= i < after.len() && (#[trigger] after[i]).key == key && after[i].uploaded is Some;
        if event is Broken {
            if i >= p {
                assert(after[i] == sources[i + 1]);
                assert(sources[p].key != sources[i + 1].key);
            } else {
                assert(after[i] == sources[i]);
            }
        } else if event is Sampled {
            if i < p {
                assert(after[i] == sources[i]);
            } else if i > p {
                assert(after[i] == sources[i]);
                assert(sources[p].key != sources[i].key);
            }
        } else if i < sources.len() {
            assert(after[i] == sources[i]);
        }
    }
}

/// An event at one layer leaves the layers below as they were.
proof fn lemma_other_layers(
    sources: Seq<SourceSlot>,
    event: LayerEvent,
    keys: Seq<(u64, u32)>,
    at: int,
)
    requires
        0 <= at < keys.len(),
        forall|i: int, j: int| 0 <= i < j < keys.len() ==> #[trigger] keys[i] != #[trigger] keys[j],
        event.answers_open() <==> slot_pos(sources, keys[at]) >= sources.len(),
    ensures
        shown_layers(event.sources_after(sources, keys[at]), keys, at) == shown_layers(
            sources,
            keys,
            at,
        ),
{
    lemma_other_layers_below(sources, event, keys, at, at);
}

proof fn lemma_other_layers_below(
    sources: Seq<SourceSlot>,
    event: LayerEvent,
    keys: Seq<(u64, u32)>,
    at: int,
    n: int,
)
    requires
        0 <= n <= at < keys.len(),
        forall|i: int, j: int| 0 <= i < j < keys.len() ==> #[trigger] keys[i] != #[trigger] keys[j],
        event.answers_open() <==> slot_pos(sources, keys[at]) >= sources.len(),
    ensures
        shown_layers(event.sources_after(sources, keys[at]), keys, n) == shown_layers(
            sources,
            keys,
            n,
        ),
    decreases n,
{
    if n > 0 {
        lemma_other_layers_below(sources, event, keys, at, n - 1);
        assert(keys[n - 1] != keys[at]);
        lemma_other_key(sources, event, keys[at], keys[n - 1]);
    }
}

/// A frame whose layers are all done composites, bottom to top, exactly the
/// layers whose source opened and shows a frame.
pub proof fn law_frame_keeps_what_shows(sources: Seq<SourceSlot>, plan: FramePlan, i: int)
    requires
        plan.wf(sources),
        plan.done(),
        0 <= i < plan.keys@.len(),
        plan.keys@.len() <= usize::MAX,
    ensures
        plan.kept@.contains(i as usize) <==> shows(sources, plan.keys@[i]),
        forall|a: int, b: int|
            0 <= a < b < plan.kept@.len() ==> (#[trigger] plan.kept@[a]) < (#[trigger] plan.kept@[b])
                < plan.keys@.len(),
{
    lemma_shown_layers(sources, plan.keys@, plan.keys@.len() as int);
}

proof fn lemma_shown_layers(sources: Seq<SourceSlot>, keys: Seq<(u64, u32)>, n: int)
    requires
        0 <= n <= keys.len() <= usize::MAX,
    ensures
        forall|i: int|
            0 <= i < n ==> (#[trigger] shown_layers(sources, keys, n).contains(i as usize)
                <==> shows(sources, keys[i])),
        forall|a: int|
            0 <= a < shown_layers(sources, keys, n).len() ==> (#[trigger] shown_layers(
                sources,
                keys,
                n,
            )[a]) < n,
        forall|a: int, b: int|
            0 <= a < b < shown_layers(sources, keys, n).len() ==> (#[trigger] shown_layers(
                sources,
                keys,
                n,
            )[a]) < (#[trigger] shown_layers(sources, keys, n)[b]),
    decreases n,
{
    if n > 0 {
        lemma_shown_layers(sources, keys, n - 1);
        let before = shown_layers(sources, keys, n - 1);
        let all = shown_layers(sources, keys, n);
        assert forall|i: int| 0 <= i < n implies (#[trigger] all.contains(i as usize) <==> shows(
            sources,
            keys[i],
        )) by {
            if i < n - 1 {
                assert(before.contains(i as usize) <==> shows(sources, keys[i]));
                if before.contains(i as usize) {
                    let a = choose|a: int| 0 <= a < before.len() && before[a] == i as usize;
                    assert(all[a] == i as usize);
                }
                if all.contains(i as usize) {
                    let a = choose|a: int| 0 <= a < all.len() && all[a] == i as usize;
                    assert(a < before.len());
                    assert(before[a] == i as usize);
                }
            } else {
                if shows(sources, keys[i]) {
                    assert(all[before.len() as int] == i as usize);
                } else if all.contains(i as usize) {
                    let a = choose|a: int| 0 <= a < all.len() && all[a] == i as usize;
                    assert(before[a] < n - 1);
                }
            }
        }
    }
}

/// How a source is brought to the wanted frame: nothing is done where its
/// texture shows it, or where a drained stream has shown an earlier one; else
/// the frame in the decoder is used, else the stream rolls on up to 32 frames,
/// else it seeks.
pub proof fn law_samples_take_the_shortest_way(
    uploaded: Option<i64>,
    view: DecoderView,
    needed: i64,
)
    ensures
        ({
            let step = sample_step(uploaded, view, needed);
            let there = uploaded == Some(needed);
            let here = view.current == Some(needed);
            let dry = view.exhausted && uploaded is Some && uploaded->0 < needed;
            let close = view.next is Some && view.next->0 <= needed <= view.next->0 + 32;
            &&& step is Hold <==> there || (!here && dry)
            &&& step is UploadCurrent <==> !there && here
            &&& step is RollForward <==> !there && !here && !dry && close
            &&& step is Seek <==> !there && !here && !dry && !close
        }),
{
}

/// A media occurs once more with each further layer that shows it.
pub proof fn law_occurrences_count_layers(media: Seq<u64>, n: int, id: u64)
    requires
        0 <= n,
    ensures
        occurrences(media, 0, id) == 0,
        media[n] == id ==> occurrences(media, n + 1, id) == occurrences(media, n, id) + 1,
        media[n] != id ==> occurrences(media, n + 1, id) == occurrences(media, n, id),
{
}

/// A key is found at the first source that is open under it, and not found
/// exactly if none is.
pub proof fn law_keys_find_their_source(sources: Seq<SourceSlot>, key: (u64, u32))
    ensures
        0 <= slot_pos(sources, key) <= sources.len(),
        slot_pos(sources, key) < sources.len() ==> sources[slot_pos(sources, key)].key == key,
        forall|k: int| 0 <= k < slot_pos(sources, key) ==> (#[trigger] sources[k]).key != key,
        slot_pos(sources, key) == sources.len() <==> forall|k: int|
            0 <= k < sources.len() ==> (#[trigger] sources[k]).key != key,
{
    lemma_slot_before(sources, key);
    lemma_slot_at(sources, key);
}

/// Of the open sources exactly those of a kept media stay, in order, as they
/// are.
pub proof fn law_kept_media_keep_their_sources(
    sources: Seq<SourceSlot>,
    slot: SourceSlot,
    keep: Seq<u64>,
)
    ensures
        kept_slots(Seq::empty(), keep) == Seq::<SourceSlot>::empty(),
        keep.contains(slot.key.0) ==> kept_slots(sources.push(slot), keep) == kept_slots(
            sources,
            keep,
        ).push(slot),
        !keep.contains(slot.key.0) ==> kept_slots(sources.push(slot), keep) == kept_slots(
            sources,
            keep,
        ),
{
    assert(sources.push(slot).drop_last() =~= sources);
}

/// A frame asks for its layers in turn: a layer whose source is not open asks
/// to open it, one whose source is open to sample it, and only when all are
/// done the frame is composited.
pub proof fn law_layers_open_before_they_are_sampled(sources: Seq<SourceSlot>, plan: FramePlan)
    requires
        plan.at <= plan.keys@.len(),
    ensures
        ({
            let key = plan.keys@[plan.at as int];
            let open = exists|k: int| 0 <= k < sources.len() && (#[trigger] sources[k]).key == key;
            let action = frame_action(sources, plan);
            &&& plan.at == plan.keys@.len() <==> action == FrameAction::Composite
            &&& plan.at < plan.keys@.len() && open ==> action == FrameAction::Sample(key)
            &&& plan.at < plan.keys@.len() && !open ==> action == FrameAction::Open(key)
        }),
{
    let key = plan.keys@[plan.at as int];
    law_keys_find_their_source(sources, key);
}

/// What an event does to the source of its layer: an opened one shows nothing
/// yet, a sampled one shows the frame that came, a broken one is closed; where
/// nothing came or nothing was opened, all stays.
pub proof fn law_events_change_their_source(
    event: LayerEvent,
    sources: Seq<SourceSlot>,
    key: (u64, u32),
)
    requires
        distinct_keys(sources),
        event.answers_open() <==> slot_pos(sources, key) == sources.len(),
    ensures
        ({
            let after = event.sources_after(sources, key);
            &&& event is NoFile || event is OpenFailed || event == LayerEvent::Sampled(None) ==> after
                == sources
            &&& event is Opened ==> after.len() == sources.len() + 1 && after.last() == (
            SourceSlot { key, uploaded: None })
            &&& event matches LayerEvent::Sampled(Some(idx)) ==> after.len() == sources.len()
                && exists|k: int|
                0 <= k < after.len() && #[trigger] after[k] == (SourceSlot {
                    key,
                    uploaded: Some(idx),
                })
            &&& event is Broken ==> after.len() == sources.len() - 1 && forall|k: int|
                0 <= k < after.len() ==> (#[trigger] after[k]).key != key
        }),
{
    law_keys_find_their_source(sources, key);
    let n = slot_pos(sources, key);
    let after = event.sources_after(sources, key);
    if let LayerEvent::Sampled(Some(idx)) = event {
        assert(after[n] == (SourceSlot { key, uploaded: Some(idx) }));
    }
    if event is Broken {
        assert forall|k: int| 0 <= k < after.len() implies (#[trigger] after[k]).key != key by {
            if k < n {
                assert(after[k] == sources[k]);
            } else {
                assert(after[k] == sources[k + 1]);
                assert(sources[n].key != sources[k + 1].key);
            }
        }
    }
}

/// An event leaves the sources of all other layers open and showing what they
/// showed.
pub proof fn law_events_leave_other_sources(
    event: LayerEvent,
    sources: Seq<SourceSlot>,
    key: (u64, u32),
    slot: SourceSlot,
)
    requires
        event.answers_open() <==> slot_pos(sources, key) == sources.len(),
        slot.key != key,
    ensures
        sources.contains(slot) <==> event.sources_after(sources, key).contains(slot),
{
    law_keys_find_their_source(sources, key);
    let n = slot_pos(sources, key);
    let after = event.sources_after(sources, key);
    if sources.contains(slot) {
        let k = choose|k: int| 0 <= k < sources.len() && sources[k] == slot;
        if event is Broken && k > n {
            assert(after[k - 1] == slot);
        } else {
            assert(after[k] == slot);
        }
    }
    if after.contains(slot) {
        let k = choose|k: int| 0 <= k < after.len() && after[k] == slot;
        if event is Broken && k >= n {
            assert(sources[k + 1] == slot);
        } else {
            assert(sources[k] == slot);
        }
    }
}

/// A layer's problem is told: the media that has no file, the file that did not
/// open and why, or why its decoder broke; an opened or sampled layer has none.
pub proof fn law_layer_problems_are_told(event: LayerEvent, media: u64)
    ensures
        event.problem(media) is None <==> event is Opened || event is Sampled,
        event is NoFile ==> event.problem(media) == Some(
            "no renderable file for media "@ + strings::dec(media as nat)
                + " (proxy still generating?)"@,
        ),
        event matches LayerEvent::OpenFailed { path, detail } ==> event.problem(media) == Some(
            "open "@ + path@ + " failed: "@ + detail@,
        ),
        event matches LayerEvent::Broken { detail } ==> event.problem(media) == Some(
            "decode failed: "@ + detail@,
        ),
{
}

/// A finished frame composites a layer exactly if a source is open under its
/// key with a frame in its texture.
pub proof fn law_composited_layers_have_a_picture(
    sources: Seq<SourceSlot>,
    plan: FramePlan,
    i: int,
)
    requires
        plan.wf(sources),
        plan.at == plan.keys@.len(),
        0 <= i < plan.keys@.len(),
    ensures
        plan.kept@.contains(i as usize) <==> exists|k: int|
            0 <= k < sources.len() && (#[trigger] sources[k]).key == plan.keys@[i]
                && sources[k].uploaded is Some,
{
    law_frame_keeps_what_shows(sources, plan, i);
}

/// A source is open under a key exactly if one of the open ones carries it; and
/// two renderers have the same target if size and strictness agree.
pub proof fn law_open_sources(a: TimelineRenderer, b: TimelineRenderer, key: (u64, u32))
    ensures
        a.is_open(key) <==> exists|k: int|
            0 <= k < a.sources@.len() && (#[trigger] a.sources@[k]).key == key,
        a.is_open(key) ==> a.sources@[a.pos(key)].key == key,
        a.same_target(b) <==> a.out_w == b.out_w && a.out_h == b.out_h && a.strict == b.strict,
{
    law_keys_find_their_source(a.sources@, key);
}

} // verus!
