//! LRU-ish cache of encoded preview frames.
//!
//! Keyed by `(media id, source frame index)`: source-relative, so cached
//! frames stay valid across timeline edits and serve any clip that shows the
//! same source content.
//!
//! Eviction is insertion-ordered (oldest decoded first), which for video
//! playback approximates LRU: the most recently played region stays hot.

use std::collections::{HashMap, VecDeque};

use vstd::prelude::*;

use crate::double::Real;

verus! {

broadcast use vstd::std_specs::hash::group_hash_axioms;

/// Default capacity. 720p JPEG q80 frames run 60-120 KB, so this holds roughly
/// 20-35 seconds of 30 fps video.
pub const DEFAULT_CAPACITY_BYTES: usize = 67_108_864;

/// A cached, encoded frame.
#[derive(Debug)]
pub struct CachedFrame {
    /// Presentation time within the *source*, seconds.
    pub source_pts_sec: Real,
    pub width: u32,
    pub height: u32,
    pub jpeg: Vec<u8>,
}

/// Frame-keyed cache of encoded frames with a byte budget.
pub struct FrameCache {
    frames: HashMap<u128, CachedFrame>,
    order: VecDeque<u128>,
    bytes: usize,
    max_bytes: usize,
}

/// One number for a `(media id, source frame index)` pair.
pub open spec fn key_code(key: (u64, i64)) -> u128 {
    (key.0 * 0x1_0000_0000_0000_0000 + (key.1 + 0x8000_0000_0000_0000)) as u128
}

/// Distinct pairs have distinct codes: media id and frame index both count.
pub proof fn law_keys_do_not_collide(a: (u64, i64), b: (u64, i64))
    ensures
        key_code(a) == key_code(b) ==> a == b,
{
}

fn code_of(key: (u64, i64)) -> (out: u128)
    ensures
        out == key_code(key),
{
    let index: u128 = (key.1 as i128 + 0x8000_0000_0000_0000) as u128;
    key.0 as u128 * 0x1_0000_0000_0000_0000 + index
}

/// Bytes held by the frames of `order`.
pub open spec fn total(order: Seq<u128>, frames: Map<u128, CachedFrame>) -> int
    decreases order.len(),
{
    if order.len() == 0 {
        0
    } else {
        frames[order[0]].jpeg@.len() + total(order.drop_first(), frames)
    }
}

/// `order` with the first occurrence of `code` taken out.
pub open spec fn without(order: Seq<u128>, code: u128) -> Seq<u128>
    decreases order.len(),
{
    if order.len() == 0 {
        order
    } else if order[0] == code {
        order.drop_first()
    } else {
        seq![order[0]] + without(order.drop_first(), code)
    }
}

/// Frames dropped from the oldest on until the rest fits in `max` bytes.
pub open spec fn evict(order: Seq<u128>, frames: Map<u128, CachedFrame>, max: int) -> (
    Seq<u128>,
    Map<u128, CachedFrame>,
)
    decreases order.len(),
{
    if order.len() == 0 || total(order, frames) <= max {
        (order, frames)
    } else {
        evict(order.drop_first(), frames.remove(order[0]), max)
    }
}

/// Every code of `order` has its frame, no code is listed twice, and no other
/// frame is held.
pub open spec fn matched(order: Seq<u128>, frames: Map<u128, CachedFrame>) -> bool {
    &&& order.no_duplicates()
    &&& forall|code: u128| #[trigger] frames.contains_key(code) <==> order.contains(code)
}

proof fn lemma_total_other(order: Seq<u128>, a: Map<u128, CachedFrame>, b: Map<u128, CachedFrame>)
    requires
        forall|i: int| 0 <= i < order.len() ==> a[#[trigger] order[i]] == b[order[i]],
    ensures
        total(order, a) == total(order, b),
    decreases order.len(),
{
    if order.len() > 0 {
        assert(a[order[0]] == b[order[0]]);
        assert forall|i: int| 0 <= i < order.drop_first().len() implies a[#[trigger] order.drop_first()[i]]
            == b[order.drop_first()[i]] by {
            assert(order.drop_first()[i] == order[i + 1]);
        }
        lemma_total_other(order.drop_first(), a, b);
    }
}

proof fn lemma_total_push(order: Seq<u128>, frames: Map<u128, CachedFrame>, code: u128)
    ensures
        total(order.push(code), frames) == total(order, frames) + frames[code].jpeg@.len(),
    decreases order.len(),
{
    let longer = order.push(code);
    if order.len() == 0 {
        assert(longer.drop_first() =~= Seq::<u128>::empty());
        assert(total(longer.drop_first(), frames) == 0);
    } else {
        assert(longer.drop_first() =~= order.drop_first().push(code));
        lemma_total_push(order.drop_first(), frames, code);
    }
}

proof fn lemma_total_remove(order: Seq<u128>, frames: Map<u128, CachedFrame>, i: int)
    requires
        0 <= i < order.len(),
    ensures
        total(order.remove(i), frames) == total(order, frames) - frames[order[i]].jpeg@.len(),
    decreases order.len(),
{
    if i == 0 {
        assert(order.remove(0) =~= order.drop_first());
    } else {
        assert(order.remove(i).drop_first() =~= order.drop_first().remove(i - 1));
        lemma_total_remove(order.drop_first(), frames, i - 1);
    }
}

proof fn lemma_total_nonneg(order: Seq<u128>, frames: Map<u128, CachedFrame>)
    ensures
        total(order, frames) >= 0,
    decreases order.len(),
{
    if order.len() > 0 {
        lemma_total_nonneg(order.drop_first(), frames);
    }
}

proof fn lemma_without(order: Seq<u128>, code: u128, i: int)
    requires
        order.no_duplicates(),
        0 <= i < order.len(),
        order[i] == code,
    ensures
        without(order, code) == order.remove(i),
    decreases order.len(),
{
    if i == 0 {
        assert(order.remove(0) =~= order.drop_first());
    } else {
        assert(order[0] != order[i]);
        assert(order.drop_first()[i - 1] == code);
        lemma_without(order.drop_first(), code, i - 1);
        assert(seq![order[0]] + order.drop_first().remove(i - 1) =~= order.remove(i));
    }
}

proof fn lemma_without_absent(order: Seq<u128>, code: u128)
    requires
        !order.contains(code),
    ensures
        without(order, code) == order,
    decreases order.len(),
{
    if order.len() > 0 {
        assert(order.contains(order[0]));
        assert forall|i: int| 0 <= i < order.drop_first().len() implies order.drop_first()[i]
            != code by {
            assert(order.contains(order[i + 1]));
        }
        lemma_without_absent(order.drop_first(), code);
        assert(seq![order[0]] + order.drop_first() =~= order);
    }
}

proof fn lemma_drop_matched(order: Seq<u128>, frames: Map<u128, CachedFrame>)
    requires
        matched(order, frames),
        order.len() > 0,
    ensures
        matched(order.drop_first(), frames.remove(order[0])),
        total(order.drop_first(), frames.remove(order[0])) == total(order, frames)
            - frames[order[0]].jpeg@.len(),
{
    let rest = order.drop_first();
    let less = frames.remove(order[0]);
    assert forall|code: u128| #[trigger] less.contains_key(code) <==> rest.contains(code) by {
        if rest.contains(code) {
            let i = choose|i: int| 0 <= i < rest.len() && rest[i] == code;
            assert(order[i + 1] == code);
            assert(order.contains(code));
        }
        if order.contains(code) && code != order[0] {
            let i = choose|i: int| 0 <= i < order.len() && order[i] == code;
            assert(rest[i - 1] == code);
        }
    }
    assert forall|i: int| 0 <= i < rest.len() implies frames[#[trigger] rest[i]] == less[rest[i]] by {
        assert(rest[i] == order[i + 1]);
    }
    lemma_total_other(rest, frames, less);
}

proof fn lemma_evict(order: Seq<u128>, frames: Map<u128, CachedFrame>, max: int)
    requires
        matched(order, frames),
        0 <= max,
    ensures
        matched(evict(order, frames, max).0, evict(order, frames, max).1),
        total(evict(order, frames, max).0, evict(order, frames, max).1) <= max,
    decreases order.len(),
{
    if order.len() > 0 && total(order, frames) > max {
        lemma_drop_matched(order, frames);
        lemma_evict(order.drop_first(), frames.remove(order[0]), max);
    }
}

impl FrameCache {
    /// The frames held, by key code.
    pub closed spec fn held(&self) -> Map<u128, CachedFrame> {
        self.frames@
    }

    /// The key codes held, oldest first.
    pub closed spec fn ages(&self) -> Seq<u128> {
        self.order@
    }

    /// The byte budget.
    pub closed spec fn budget(&self) -> int {
        self.max_bytes as int
    }

    /// Order and frames match, the byte count is exact, and the budget holds.
    pub closed spec fn wf(&self) -> bool {
        &&& matched(self.order@, self.frames@)
        &&& self.bytes == total(self.order@, self.frames@)
        &&& self.bytes <= self.max_bytes
    }

    /// The cache after a frame was put into it: the newest under its key,
    /// with the oldest evicted until the budget holds.
    pub open spec fn took(&self, after: FrameCache, key: (u64, i64), frame: CachedFrame) -> bool {
        (after.ages(), after.held()) == evict(
            without(self.ages(), key_code(key)).push(key_code(key)),
            self.held().insert(key_code(key), frame),
            self.budget(),
        )
    }

    /// The cache after a copy of a picture was put into it.
    pub open spec fn took_copy(
        &self,
        after: FrameCache,
        key: (u64, i64),
        source_pts: Real,
        width: u32,
        height: u32,
        jpeg: Seq<u8>,
    ) -> bool {
        exists|frame: CachedFrame|
            #[trigger] self.took(after, key, frame) && frame.source_pts_sec == source_pts
                && frame.width == width && frame.height == height && frame.jpeg@ == jpeg
    }

    /// An empty cache with a byte budget.
    pub fn new(max_bytes: usize) -> (out: FrameCache)
        ensures
            out.wf(),
            out.held() == Map::<u128, CachedFrame>::empty(),
            out.ages() == Seq::<u128>::empty(),
            out.budget() == max_bytes,
    {
        FrameCache { frames: HashMap::new(), order: VecDeque::new(), bytes: 0, max_bytes }
    }

    /// The frame cached under a key.
    pub fn get(&self, key: (u64, i64)) -> (out: Option<&CachedFrame>)
        ensures
            match out {
                Some(frame) => self.held().contains_key(key_code(key)) && *frame
                    == self.held()[key_code(key)],
                None => !self.held().contains_key(key_code(key)),
            },
    {
        let code: u128 = code_of(key);
        self.frames.get(&code)
    }

    /// Cache a frame as the newest under its key, replacing what the key held,
    /// then evict from the oldest on until the budget holds again.
    pub fn insert(&mut self, key: (u64, i64), frame: CachedFrame)
        requires
            old(self).wf(),
        ensures
            final(self).wf(),
            final(self).budget() == old(self).budget(),
            old(self).took(*final(self), key, frame),
    {
        let code: u128 = code_of(key);
        let ghost order0 = self.order@;
        let ghost frames0 = self.frames@;
        match self.frames.remove(&code) {
            Some(previous) => {
                let n: usize = self.order.len();
                let mut at: usize = 0;
                proof {
                    assert(order0.contains(code));
                }
                while at < n && self.order[at] != code
                    invariant
                        at <= n,
                        n == self.order@.len(),
                        self.order@ == order0,
                        order0.contains(code),
                        forall|k: int| 0 <= k < at ==> order0[k] != code,
                    decreases n - at,
                {
                    at = at + 1;
                }
                proof {
                    let i = choose|i: int| 0 <= i < order0.len() && order0[i] == code;
                    assert(at < n);
                    lemma_without(order0, code, at as int);
                    lemma_total_remove(order0, frames0, at as int);
                    lemma_total_nonneg(order0.remove(at as int), frames0);
                }
                self.bytes = self.bytes - previous.jpeg.len();
                let _ = self.order.remove(at);
            },
            None => {
                proof {
                    lemma_without_absent(order0, code);
                    assert(frames0.remove(code) =~= frames0);
                }
            },
        }
        let ghost kept = without(order0, code);
        proof {
            assert(self.order@ == kept);
            assert(self.bytes == total(kept, frames0));
            assert(forall|k: int| 0 <= k < kept.len() ==> kept[k] != code && order0.contains(#[trigger] kept[k])) by {
                if order0.contains(code) {
                    let i = choose|i: int| 0 <= i < order0.len() && order0[i] == code;
                    lemma_without(order0, code, i);
                    assert forall|k: int| 0 <= k < kept.len() implies kept[k] != code && order0.contains(#[trigger] kept[k]) by {
                        if k < i {
                            assert(kept[k] == order0[k]);
                        } else {
                            assert(kept[k] == order0[k + 1]);
                        }
                    }
                }
            }
        }
        let mut sum: u128 = self.bytes as u128 + frame.jpeg.len() as u128;
        self.frames.insert(code, frame);
        self.order.push_back(code);
        let ghost order1 = kept.push(code);
        let ghost frames1 = frames0.insert(code, frame);
        proof {
            assert(self.frames@ =~= frames1);
            assert(self.order@ =~= order1);
            lemma_total_other(kept, frames0, frames1);
            lemma_total_push(kept, frames1, code);
            lemma_inserted_matched(order0, frames0, code, frame);
        }
        while sum > self.max_bytes as u128
            invariant
                matched(self.order@, self.frames@),
                sum == total(self.order@, self.frames@),
                self.max_bytes == old(self).max_bytes,
                evict(self.order@, self.frames@, self.max_bytes as int) == evict(
                    order1,
                    frames1,
                    self.max_bytes as int,
                ),
            decreases self.order@.len(),
        {
            proof {
                assert(self.order@.len() > 0);
                lemma_drop_matched(self.order@, self.frames@);
                lemma_total_nonneg(self.order@.drop_first(), self.frames@.remove(self.order@[0]));
                assert(self.order@.contains(self.order@[0]));
            }
            let ghost o = self.order@;
            let oldest: u128 = self.order.pop_front().unwrap();
            proof {
                assert(self.order@ =~= o.drop_first());
            }
            if let Some(evicted) = self.frames.remove(&oldest) {
                sum = sum - evicted.jpeg.len() as u128;
            }
        }
        self.bytes = sum as usize;
    }

    /// A cache in order holds each listed frame once and no other, within its
    /// budget.
    pub proof fn lemma_in_order(&self)
        requires
            self.wf(),
        ensures
            matched(self.ages(), self.held()),
            0 <= total(self.ages(), self.held()) <= self.budget(),
    {
    }

    /// How many frames are cached.
    pub fn len(&self) -> (out: usize)
        requires
            self.wf(),
        ensures
            out == self.ages().len(),
            out == self.held().len(),
    {
        proof {
            assert(self.order@.to_set() =~= self.frames@.dom());
            self.order@.unique_seq_to_set();
        }
        self.frames.len()
    }

    /// Whether nothing is cached.
    pub fn is_empty(&self) -> (out: bool)
        requires
            self.wf(),
        ensures
            out == (self.ages().len() == 0),
            out == (self.held().len() == 0),
    {
        self.len() == 0
    }

    /// Bytes of encoded frames held: never more than the budget.
    pub fn bytes(&self) -> (out: usize)
        requires
            self.wf(),
        ensures
            out == total(self.ages(), self.held()),
            out <= self.budget(),
    {
        self.bytes
    }
}

proof fn lemma_evict_suffix(order: Seq<u128>, frames: Map<u128, CachedFrame>, max: int)
    requires
        matched(order, frames),
    ensures
        ({
            let (rest, held) = evict(order, frames, max);
            let n = order.len() - rest.len();
            &&& 0 <= n <= order.len()
            &&& rest == order.skip(n)
            &&& forall|i: int| 0 <= i < rest.len() ==> held.contains_key(#[trigger] rest[i]) && held[rest[i]] == frames[rest[i]]
            &&& n > 0 ==> total(order.skip(n - 1), frames) > max
        }),
    decreases order.len(),
{
    if order.len() > 0 && total(order, frames) > max {
        let next = order.drop_first();
        let less = frames.remove(order[0]);
        lemma_drop_matched(order, frames);
        lemma_evict_suffix(next, less, max);
        let (rest, held) = evict(order, frames, max);
        let n = order.len() - rest.len();
        assert(next.skip(n - 1) =~= order.skip(n));
        assert forall|i: int| 0 <= i < rest.len() implies held.contains_key(#[trigger] rest[i]) && held[rest[i]] == frames[rest[i]] by {
            assert(rest[i] == order[n + i]);
            assert(order[0] != order[n + i]);
        }
        if n == 1 {
            assert(order.skip(0) =~= order);
        } else {
            assert(next.skip(n - 2) =~= order.skip(n - 1));
            let tail = order.skip(n - 1);
            assert forall|i: int| 0 <= i < tail.len() implies frames[#[trigger] tail[i]] == less[tail[i]] by {
                assert(tail[i] == order[n - 1 + i]);
                assert(order[0] != order[n - 1 + i]);
            }
            lemma_total_other(tail, frames, less);
        }
    } else {
        assert(order.skip(0) =~= order);
        assert forall|i: int| 0 <= i < order.len() implies frames.contains_key(#[trigger] order[i]) by {
            assert(order.contains(order[i]));
        }
    }
}

/// Eviction drops the oldest frames and no more than the budget asks for: what
/// stays is the end of the insertion order, unchanged, and one frame more
/// would have broken the budget.
pub proof fn law_evicts_oldest_first(order: Seq<u128>, frames: Map<u128, CachedFrame>, max: int)
    requires
        matched(order, frames),
    ensures
        exists|n: int|
            #![trigger order.skip(n)]
            {
                let (rest, held) = evict(order, frames, max);
                &&& 0 <= n <= order.len()
                &&& rest == order.skip(n)
                &&& forall|i: int| 0 <= i < rest.len() ==> held.contains_key(#[trigger] rest[i]) && held[rest[i]] == frames[rest[i]]
                &&& n > 0 ==> total(order.skip(n - 1), frames) > max
            },
{
    lemma_evict_suffix(order, frames, max);
    let n = order.len() - evict(order, frames, max).0.len();
    assert(order.skip(n) == evict(order, frames, max).0);
}

proof fn lemma_evict_last(order: Seq<u128>, frames: Map<u128, CachedFrame>, max: int)
    requires
        matched(order, frames),
        order.len() > 0,
        0 <= max,
    ensures
        frames[order.last()].jpeg@.len() <= max ==> evict(order, frames, max).1.contains_key(
            order.last(),
        ) && evict(order, frames, max).1[order.last()] == frames[order.last()],
        frames[order.last()].jpeg@.len() > max ==> evict(order, frames, max).0.len() == 0,
    decreases order.len(),
{
    assert(order.contains(order.last()));
    if order.len() == 1 {
        assert(order.drop_first() =~= Seq::<u128>::empty());
        assert(total(order, frames) == frames[order[0]].jpeg@.len()) by {
            assert(total(order.drop_first(), frames) == 0);
        }
        if frames[order.last()].jpeg@.len() > max {
            assert(evict(order.drop_first(), frames.remove(order[0]), max).0 == order.drop_first());
        }
    } else {
        let next = order.drop_first();
        let less = frames.remove(order[0]);
        lemma_drop_matched(order, frames);
        assert(next.last() == order.last());
        assert(order[0] != order.last());
        if total(order, frames) > max {
            lemma_evict_last(next, less, max);
        } else {
            lemma_total_at_least_last(order, frames);
        }
    }
}

proof fn lemma_total_at_least_last(order: Seq<u128>, frames: Map<u128, CachedFrame>)
    requires
        order.len() > 0,
    ensures
        total(order, frames) >= frames[order.last()].jpeg@.len(),
{
    assert(order.drop_last().push(order.last()) =~= order);
    lemma_total_push(order.drop_last(), frames, order.last());
    lemma_total_nonneg(order.drop_last(), frames);
}

/// A frame that fits the budget is there after it was inserted; one that does
/// not leaves the cache empty (and working).
pub proof fn law_inserted_frame_is_found(
    order: Seq<u128>,
    frames: Map<u128, CachedFrame>,
    code: u128,
    frame: CachedFrame,
    max: int,
)
    requires
        matched(order, frames),
        0 <= max,
    ensures
        ({
            let (rest, held) = evict(
                without(order, code).push(code),
                frames.insert(code, frame),
                max,
            );
            &&& frame.jpeg@.len() <= max ==> held.contains_key(code) && held[code] == frame
            &&& frame.jpeg@.len() > max ==> rest.len() == 0
        }),
{
    let order1 = without(order, code).push(code);
    let frames1 = frames.insert(code, frame);
    lemma_inserted_matched(order, frames, code, frame);
    lemma_evict_last(order1, frames1, max);
}

/// Inserting a frame into a cache keeps the newest frames, as many as the
/// budget allows: what is held afterwards is the longest end of the insertion
/// order, with the new key as the newest (counted once, with its latest
/// frame), whose bytes fit. So the new frame is found exactly if it fits by
/// itself.
pub proof fn law_insert_keeps_the_newest(cache: FrameCache, key: (u64, i64), frame: CachedFrame)
    requires
        cache.wf(),
    ensures
        ({
            let code = key_code(key);
            let order = without(cache.ages(), code).push(code);
            let frames = cache.held().insert(code, frame);
            let (rest, held) = evict(order, frames, cache.budget());
            let n = order.len() - rest.len();
            &&& order.no_duplicates()
            &&& 0 <= n <= order.len()
            &&& rest == order.skip(n)
            &&& matched(rest, held)
            &&& forall|i: int| 0 <= i < rest.len() ==> held[#[trigger] rest[i]] == frames[rest[i]]
            &&& total(rest, held) <= cache.budget()
            &&& n > 0 ==> total(order.skip(n - 1), frames) > cache.budget()
            &&& held.contains_key(code) <==> frame.jpeg@.len() <= cache.budget()
            &&& held.contains_key(code) ==> held[code] == frame
        }),
{
    let code = key_code(key);
    let order = without(cache.ages(), code).push(code);
    let frames = cache.held().insert(code, frame);
    lemma_inserted_matched(cache.ages(), cache.held(), code, frame);
    lemma_evict_suffix(order, frames, cache.budget());
    lemma_evict(order, frames, cache.budget());
    law_inserted_frame_is_found(cache.ages(), cache.held(), code, frame, cache.budget());
    let (rest, held) = evict(order, frames, cache.budget());
    if rest.len() == 0 {
        assert(!rest.contains(code));
    }
}

proof fn lemma_inserted_matched(
    order: Seq<u128>,
    frames: Map<u128, CachedFrame>,
    code: u128,
    frame: CachedFrame,
)
    requires
        matched(order, frames),
    ensures
        matched(without(order, code).push(code), frames.insert(code, frame)),
{
    let kept = without(order, code);
    let order1 = kept.push(code);
    let frames1 = frames.insert(code, frame);
    if order.contains(code) {
        let i = choose|i: int| 0 <= i < order.len() && order[i] == code;
        lemma_without(order, code, i);
        assert forall|c: u128| #[trigger] frames1.contains_key(c) <==> order1.contains(c) by {
            if c == code {
                assert(order1[order1.len() - 1] == code);
            } else {
                if order.contains(c) {
                    let k = choose|k: int| 0 <= k < order.len() && order[k] == c;
                    assert(order1[if k < i {
                        k
                    } else {
                        k - 1
                    }] == c);
                }
                if order1.contains(c) {
                    let k = choose|k: int| 0 <= k < order1.len() && order1[k] == c;
                    assert(order[if k < i {
                        k
                    } else {
                        k + 1
                    }] == c);
                }
            }
        }
    } else {
        lemma_without_absent(order, code);
        assert forall|c: u128| #[trigger] frames1.contains_key(c) <==> order1.contains(c) by {
            if c == code {
                assert(order1[order1.len() - 1] == code);
            } else {
                if order.contains(c) {
                    let k = choose|k: int| 0 <= k < order.len() && order[k] == c;
                    assert(order1[k] == c);
                }
                if order1.contains(c) {
                    let k = choose|k: int| 0 <= k < order1.len() && order1[k] == c;
                    assert(order[k] == c);
                }
            }
        }
    }
}

/// The bytes held are the sum over the frames listed.
pub proof fn law_bytes_add_up(order: Seq<u128>, frames: Map<u128, CachedFrame>, code: u128)
    ensures
        total(Seq::empty(), frames) == 0,
        total(order.push(code), frames) == total(order, frames) + frames[code].jpeg@.len(),
{
    lemma_total_push(order, frames, code);
}

/// After an insertion the new frame is found under its key, exactly if it fits
/// the budget by itself; whatever else is held was held before, unchanged.
pub proof fn law_insertion_changes_nothing_else(
    cache: FrameCache,
    after: FrameCache,
    key: (u64, i64),
    frame: CachedFrame,
    other: u128,
)
    requires
        cache.wf(),
        cache.took(after, key, frame),
        other != key_code(key),
    ensures
        after.held().contains_key(key_code(key)) <==> frame.jpeg@.len() <= cache.budget(),
        after.held().contains_key(key_code(key)) ==> after.held()[key_code(key)] == frame
            && after.ages().last() == key_code(key),
        after.held().contains_key(other) ==> cache.held().contains_key(other) && after.held()[other]
            == cache.held()[other],
        total(cache.ages(), cache.held()) + frame.jpeg@.len() <= cache.budget()
            && cache.held().contains_key(other) ==> after.held().contains_key(other),
{
    let code = key_code(key);
    let order = without(cache.ages(), code).push(code);
    let frames = cache.held().insert(code, frame);
    let (rest, held) = evict(order, frames, cache.budget());
    law_insert_keeps_the_newest(cache, key, frame);
    lemma_inserted_matched(cache.ages(), cache.held(), code, frame);
    let n = order.len() - rest.len();
    if held.contains_key(code) {
        assert(rest.contains(code));
        assert(rest[rest.len() - 1] == order[order.len() - 1]);
    }
    if held.contains_key(other) {
        assert(rest.contains(other));
        let k = choose|k: int| 0 <= k < rest.len() && rest[k] == other;
        assert(order[n + k] == other);
        assert(order.contains(other));
        assert(frames.contains_key(other));
    }
    let kept = without(cache.ages(), code);
    lemma_total_push(kept, frames, code);
    let ages = cache.ages();
    if ages.contains(code) {
        let i = choose|i: int| 0 <= i < ages.len() && ages[i] == code;
        lemma_without(ages, code, i);
        lemma_total_remove(ages, cache.held(), i);
        assert forall|j: int| 0 <= j < kept.len() implies frames[#[trigger] kept[j]]
            == cache.held()[kept[j]] by {
            if j < i {
                assert(kept[j] == ages[j]);
            } else {
                assert(kept[j] == ages[j + 1]);
            }
        }
    } else {
        lemma_without_absent(ages, code);
        assert forall|j: int| 0 <= j < kept.len() implies frames[#[trigger] kept[j]]
            == cache.held()[kept[j]] by {
            assert(ages.contains(ages[j]));
        }
    }
    lemma_total_other(kept, frames, cache.held());
    if total(ages, cache.held()) + frame.jpeg@.len() <= cache.budget() {
        assert(rest == order && held == frames);
    }
}

/// Frames leave in the order they came: while an older frame is still held, no
/// newer one was evicted, and the two keep their order.
pub proof fn law_older_frames_leave_first(
    cache: FrameCache,
    after: FrameCache,
    key: (u64, i64),
    frame: CachedFrame,
    i: int,
    j: int,
)
    requires
        cache.wf(),
        cache.took(after, key, frame),
        0 <= i < j < cache.ages().len(),
        cache.ages()[i] != key_code(key),
        cache.ages()[j] != key_code(key),
        after.held().contains_key(cache.ages()[i]),
    ensures
        after.held().contains_key(cache.ages()[j]),
        exists|p: int, q: int|
            0 <= p < q < after.ages().len() && #[trigger] after.ages()[p] == cache.ages()[i]
                && #[trigger] after.ages()[q] == cache.ages()[j],
{
    let code = key_code(key);
    let ages = cache.ages();
    let kept = without(ages, code);
    let order = kept.push(code);
    let frames = cache.held().insert(code, frame);
    let (rest, held) = evict(order, frames, cache.budget());
    law_insert_keeps_the_newest(cache, key, frame);
    let n = order.len() - rest.len();
    let at: int = if ages.contains(code) {
        choose|k: int| 0 <= k < ages.len() && ages[k] == code
    } else {
        ages.len() as int
    };
    let p = if i < at {
        i
    } else {
        i - 1
    };
    let q = if j < at {
        j
    } else {
        j - 1
    };
    if ages.contains(code) {
        lemma_without(ages, code, at);
    } else {
        lemma_without_absent(ages, code);
    }
    assert(order[p] == ages[i] && order[q] == ages[j]);
    assert(rest.contains(ages[i]));
    let r = choose|r: int| 0 <= r < rest.len() && rest[r] == ages[i];
    assert(order[n + r] == order[p]);
    assert(n + r == p);
    assert(rest[p - n] == ages[i] && rest[q - n] == ages[j]);
    assert(rest.contains(ages[j]));
}

} // verus!
