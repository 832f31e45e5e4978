//! Timeline playback: commands, the video side's view of the timeline, and the
//! walk to the next segment.

use std::collections::VecDeque;

use vstd::prelude::*;

use crate::double::Real;
use crate::project::{Clip, Project, Track};

verus! {

/// A command to the playback engine. `P` is a project snapshot.
pub enum Cmd<P> {
    SetProject(P),
    Play,
    Pause,
    TogglePlay,
    Seek(Real),
    Step(i64),
    /// Proxy generation finished (or media changed on disk): re-resolve source
    /// files and refresh what's on screen.
    RefreshSources,
    Stop,
}

/// `done` with one more command queued: it replaces a `Seek` or `SetProject`
/// of its own kind right before it, adds to a `Step` right before it, and
/// queues behind anything else.
pub open spec fn queued<P>(done: Seq<Cmd<P>>, cmd: Cmd<P>) -> Seq<Cmd<P>> {
    if done.len() == 0 {
        done.push(cmd)
    } else {
        match (done.last(), cmd) {
            (Cmd::Seek(_), Cmd::Seek(_)) => done.drop_last().push(cmd),
            (Cmd::SetProject(_), Cmd::SetProject(_)) => done.drop_last().push(cmd),
            (Cmd::Step(m), Cmd::Step(n)) => done.drop_last().push(Cmd::Step((m + n) as i64)),
            _ => done.push(cmd),
        }
    }
}

/// A queue of commands with redundant ones collapsed.
pub open spec fn collapsed<P>(cmds: Seq<Cmd<P>>) -> Seq<Cmd<P>>
    decreases cmds.len(),
{
    if cmds.len() == 0 {
        cmds
    } else {
        queued(collapsed(cmds.drop_last()), cmds.last())
    }
}

/// Adding a command to what is queued stays in range.
pub open spec fn step_fits<P>(done: Seq<Cmd<P>>, cmd: Cmd<P>) -> bool {
    done.len() > 0 ==> match (done.last(), cmd) {
        (Cmd::Step(m), Cmd::Step(n)) => i64::MIN <= m + n <= i64::MAX,
        _ => true,
    }
}

/// Every run of steps sums up in range.
pub open spec fn steps_fit<P>(cmds: Seq<Cmd<P>>) -> bool {
    forall|k: int|
        0 <= k < cmds.len() ==> step_fits(collapsed(cmds.take(k)), #[trigger] cmds[k])
}

/// Collapse redundant queued commands: only the last of a *run* of `Seek`s
/// matters, only the last of a run of `SetProject`s (each carries a full
/// snapshot), and a run of `Step`s is one summed step (key auto-repeat must
/// not queue up seeks). Order relative to other commands is preserved.
pub fn collapse_backlog<P>(backlog: &mut VecDeque<Cmd<P>>)
    requires
        steps_fit(old(backlog)@),
    ensures
        final(backlog)@ == collapsed(old(backlog)@),
{
    let ghost all = backlog@;
    let mut done: VecDeque<Cmd<P>> = VecDeque::new();
    let total: usize = backlog.len();
    proof {
        assert(all.take(0) =~= Seq::<Cmd<P>>::empty());
        assert(all.skip(0) =~= all);
    }
    for i in 0..total
        invariant
            total == all.len(),
            steps_fit(all),
            backlog@ == all.skip(i as int),
            done@ == collapsed(all.take(i as int)),
    {
        let cmd = backlog.pop_front().unwrap();
        let ghost next = cmd;
        let ghost held = done@;
        proof {
            assert(next == all[i as int]);
            assert(backlog@ =~= all.skip(i + 1));
            assert(all.take(i + 1).drop_last() =~= all.take(i as int));
            assert(step_fits(collapsed(all.take(i as int)), all[i as int]));
        }
        match done.pop_back() {
            None => {
                done.push_back(cmd);
            },
            Some(last) => {
                proof {
                    assert(done@ =~= held.drop_last());
                    assert(last == held.last());
                    assert(done@.push(last) =~= held);
                }
                match (last, cmd) {
                    (Cmd::Seek(_), Cmd::Seek(t)) => done.push_back(Cmd::Seek(t)),
                    (Cmd::SetProject(_), Cmd::SetProject(p)) => done.push_back(Cmd::SetProject(p)),
                    (Cmd::Step(m), Cmd::Step(n)) => done.push_back(Cmd::Step(m + n)),
                    (last, cmd) => {
                        done.push_back(last);
                        done.push_back(cmd);
                    },
                }
            },
        }
        proof {
            assert(done@ =~= queued(held, next));
        }
    }
    proof {
        assert(all.take(total as int) =~= all);
        assert(backlog@.len() == 0);
    }
    std::mem::swap(backlog, &mut done);
}

/// The state after a run of commands.
pub open spec fn after_cmds<P, S>(
    state: S,
    apply: spec_fn(S, Cmd<P>) -> S,
    cmds: Seq<Cmd<P>>,
) -> S
    decreases cmds.len(),
{
    if cmds.len() == 0 {
        state
    } else {
        apply(after_cmds(state, apply, cmds.drop_last()), cmds.last())
    }
}

/// A later seek or project overrides an earlier one right before it, and steps
/// add up.
pub open spec fn absorbs<P, S>(apply: spec_fn(S, Cmd<P>) -> S) -> bool {
    &&& forall|s: S, a: Real, b: Real|
        #[trigger] apply(apply(s, Cmd::Seek(a)), Cmd::Seek(b)) == apply(s, Cmd::Seek(b))
    &&& forall|s: S, a: P, b: P|
        #[trigger] apply(apply(s, Cmd::SetProject(a)), Cmd::SetProject(b)) == apply(
            s,
            Cmd::SetProject(b),
        )
    &&& forall|s: S, m: i64, n: i64|
        i64::MIN <= m + n <= i64::MAX ==> #[trigger] apply(apply(s, Cmd::Step(m)), Cmd::Step(n))
            == apply(s, Cmd::Step((m + n) as i64))
}

/// Collapsing changes nothing about where the commands lead, for any engine in
/// which a later seek or snapshot overrides the one right before it and steps
/// add up.
pub proof fn law_collapse_keeps_the_outcome<P, S>(
    state: S,
    apply: spec_fn(S, Cmd<P>) -> S,
    cmds: Seq<Cmd<P>>,
)
    requires
        absorbs(apply),
        steps_fit(cmds),
    ensures
        after_cmds(state, apply, collapsed(cmds)) == after_cmds(state, apply, cmds),
    decreases cmds.len(),
{
    if cmds.len() > 0 {
        let init = cmds.drop_last();
        let cmd = cmds.last();
        assert(steps_fit(init)) by {
            assert forall|k: int| 0 <= k < init.len() implies step_fits(
                collapsed(init.take(k)),
                #[trigger] init[k],
            ) by {
                assert(init.take(k) =~= cmds.take(k));
                assert(step_fits(collapsed(cmds.take(k)), cmds[k]));
            }
        }
        law_collapse_keeps_the_outcome(state, apply, init);
        let done = collapsed(init);
        assert(cmds.take(cmds.len() - 1) =~= init);
        assert(step_fits(collapsed(cmds.take(cmds.len() - 1)), cmds[cmds.len() - 1]));
        let now = collapsed(cmds);
        assert(now == queued(done, cmd));
        if done.len() == 0 {
            assert(now.drop_last() =~= done);
        } else {
            let base = after_cmds(state, apply, done.drop_last());
            assert(after_cmds(state, apply, done) == apply(base, done.last()));
            match (done.last(), cmd) {
                (Cmd::Seek(a), Cmd::Seek(b)) => {
                    assert(now.drop_last() =~= done.drop_last());
                    assert(apply(apply(base, Cmd::Seek(a)), Cmd::Seek(b)) == apply(
                        base,
                        Cmd::Seek(b),
                    ));
                },
                (Cmd::SetProject(a), Cmd::SetProject(b)) => {
                    assert(now.drop_last() =~= done.drop_last());
                    assert(apply(apply(base, Cmd::SetProject(a)), Cmd::SetProject(b)) == apply(
                        base,
                        Cmd::SetProject(b),
                    ));
                },
                (Cmd::Step(m), Cmd::Step(n)) => {
                    assert(now.drop_last() =~= done.drop_last());
                    assert(apply(apply(base, Cmd::Step(m)), Cmd::Step(n)) == apply(
                        base,
                        Cmd::Step((m + n) as i64),
                    ));
                },
                _ => {
                    assert(now.drop_last() =~= done);
                },
            }
        }
    }
}

// ---------------------------------------------------------------------
// Timeline segments (the video side's view of the timeline)
// ---------------------------------------------------------------------

/// The video clip window the player is inside (or approaching).
#[derive(Clone, Copy, Debug, PartialEq, Eq, Structural)]
pub struct Segment {
    pub clip_id: u64,
    pub media_id: u64,
    pub timeline_in: Real,
    pub timeline_out: Real,
    pub source_in: Real,
    pub source_out: Real,
    pub speed: Real,
}

impl Segment {
    /// The time lies inside the window, its end not counting.
    pub open spec fn covers(self, t: Real) -> bool {
        self.timeline_in.le(t) && t.lt(self.timeline_out)
    }

    /// Whether a time lies inside the window.
    pub fn is_at(&self, t: Real) -> (out: bool)
        ensures
            out == self.covers(t),
    {
        self.timeline_in.is_at_most(t) && t.is_below(self.timeline_out)
    }

    /// The same clip, cut and placed the same.
    pub open spec fn same(self, other: Segment) -> bool {
        &&& self.clip_id == other.clip_id
        &&& self.media_id == other.media_id
        &&& self.timeline_in.same(other.timeline_in)
        &&& self.timeline_out.same(other.timeline_out)
        &&& self.source_in.same(other.source_in)
        &&& self.source_out.same(other.source_out)
        &&& self.speed.same(other.speed)
    }

    /// Whether two windows are the same.
    pub fn is_same(&self, other: &Segment) -> (out: bool)
        ensures
            out == self.same(*other),
    {
        self.clip_id == other.clip_id && self.media_id == other.media_id
            && self.timeline_in.is_same(other.timeline_in) && self.timeline_out.is_same(
            other.timeline_out,
        ) && self.source_in.is_same(other.source_in) && self.source_out.is_same(other.source_out)
            && self.speed.is_same(other.speed)
    }
}

/// The window of a clip that shows media.
pub open spec fn segment_of(clip: Clip) -> Option<Segment> {
    match clip.media_id {
        Some(media_id) => Some(
            Segment {
                clip_id: clip.id,
                media_id,
                timeline_in: clip.timeline_in,
                timeline_out: clip.timeline_out,
                source_in: clip.source_in,
                source_out: clip.source_out,
                speed: clip.speed,
            },
        ),
        None => None,
    }
}

/// Where a clip stands in a track; the clip count if it is not there.
pub open spec fn clip_pos(clips: Seq<Clip>, id: u64) -> int
    decreases clips.len(),
{
    if clips.len() == 0 || clips[0].id == id {
        0
    } else {
        1 + clip_pos(clips.drop_first(), id)
    }
}

/// The clip with an id: the first in track order.
pub open spec fn clip_with(tracks: Seq<Track>, id: u64) -> Option<Clip>
    decreases tracks.len(),
{
    if tracks.len() == 0 {
        None
    } else if clip_pos(tracks[0].clips@, id) < tracks[0].clips@.len() {
        Some(tracks[0].clips@[clip_pos(tracks[0].clips@, id)])
    } else {
        clip_with(tracks.drop_first(), id)
    }
}

proof fn lemma_clip_pos(clips: Seq<Clip>, id: u64, n: int)
    requires
        0 <= n <= clips.len(),
        forall|k: int| 0 <= k < n ==> (#[trigger] clips[k]).id != id,
        n < clips.len() ==> clips[n].id == id,
    ensures
        clip_pos(clips, id) == n,
    decreases clips.len(),
{
    if n > 0 {
        assert(clips[0].id != id);
        assert forall|k: int| 0 <= k < n - 1 implies (#[trigger] clips.drop_first()[k]).id
            != id by {
            assert(clips[k + 1].id != id);
        }
        lemma_clip_pos(clips.drop_first(), id, n - 1);
    }
}

/// Find a clip by its id.
pub fn find_clip(project: &Project, id: u64) -> (out: Option<Clip>)
    ensures
        out == clip_with(project.tracks@, id),
{
    proof {
        assert(project.tracks@.skip(0) =~= project.tracks@);
    }
    for t in 0..project.tracks.len()
        invariant
            clip_with(project.tracks@, id) == clip_with(project.tracks@.skip(t as int), id),
    {
        let clips = &project.tracks[t].clips;
        let n: usize = clips.len();
        let mut i: usize = 0;
        while i < n && clips[i].id != id
            invariant
                i <= n,
                n == clips@.len(),
                forall|k: int| 0 <= k < i ==> (#[trigger] clips@[k]).id != id,
            decreases n - i,
        {
            i = i + 1;
        }
        proof {
            lemma_clip_pos(clips@, id, i as int);
            assert(project.tracks@.skip(t as int)[0] == project.tracks@[t as int]);
            assert(project.tracks@.skip(t as int).drop_first() =~= project.tracks@.skip(t + 1));
        }
        if i < n {
            return Some(clips[i]);
        }
    }
    None
}

/// The video segment visible where the timeline resolver found `active`.
pub fn video_segment_at(project: &Project, active: Option<u64>) -> (out: Option<Segment>)
    ensures
        out == match active {
            Some(id) => match clip_with(project.tracks@, id) {
                Some(clip) => segment_of(clip),
                None => None,
            },
            None => None,
        },
{
    match active {
        Some(id) => match find_clip(project, id) {
            Some(clip) => match clip.media_id {
                Some(media_id) => Some(
                    Segment {
                        clip_id: clip.id,
                        media_id,
                        timeline_in: clip.timeline_in,
                        timeline_out: clip.timeline_out,
                        source_in: clip.source_in,
                        source_out: clip.source_out,
                        speed: clip.speed,
                    },
                ),
                None => None,
            },
            None => None,
        },
        None => None,
    }
}

/// How many timeline boundaries the walk to the next segment looks at.
pub const MAX_BOUNDARIES: usize = 4096;

/// A boundary of the timeline, and the segment visible from there on.
#[derive(Clone, Copy, Debug, PartialEq, Eq, Structural)]
pub struct Boundary {
    pub at: Real,
    pub segment: Option<Segment>,
}

/// The boundary shows another clip than the current one.
pub open spec fn enters_other(b: Boundary, current: Option<u64>) -> bool {
    b.segment matches Some(seg) && current != Some(seg.clip_id)
}

/// The first boundary that shows another clip, with that clip's segment.
pub open spec fn next_segment(boundaries: Seq<Boundary>, current: Option<u64>) -> Option<
    (Real, Segment),
>
    decreases boundaries.len(),
{
    if boundaries.len() == 0 {
        None
    } else if enters_other(boundaries[0], current) {
        Some((boundaries[0].at, boundaries[0].segment->0))
    } else {
        next_segment(boundaries.drop_first(), current)
    }
}

/// A walk over the boundaries after a time, towards the next segment: runs of
/// gaps and non-video edges collapse.
#[derive(Clone, Copy, Debug, PartialEq, Eq, Structural)]
pub struct SegmentWalk {
    /// The clip visible where the walk starts.
    pub current: Option<u64>,
    /// Boundaries looked at so far.
    pub steps: usize,
}

/// What a step of the walk says.
pub enum WalkStep {
    /// Look at the next boundary.
    Continue,
    /// The next segment, and when it appears.
    Found(Real, Segment),
    /// There is none (within reach).
    Nothing,
}

impl SegmentWalk {
    /// A walk from where `current` is visible.
    pub fn new(current: Option<Segment>) -> (out: SegmentWalk)
        ensures
            out.steps == 0,
            out.current == match current {
                Some(seg) => Some(seg.clip_id),
                None => None,
            },
    {
        let current = match current {
            Some(seg) => Some(seg.clip_id),
            None => None,
        };
        SegmentWalk { current, steps: 0 }
    }

    /// Look at the next boundary, or at the end of the timeline.
    pub fn step(&mut self, boundary: Option<Boundary>) -> (out: WalkStep)
        requires
            old(self).steps < MAX_BOUNDARIES,
        ensures
            final(self).current == old(self).current,
            final(self).steps == old(self).steps + 1,
            match (boundary, out) {
                (None, WalkStep::Nothing) => true,
                (Some(b), WalkStep::Found(at, seg)) => enters_other(b, old(self).current) && at
                    == b.at && b.segment == Some(seg),
                (Some(b), WalkStep::Continue) => !enters_other(b, old(self).current) && final(self).steps < MAX_BOUNDARIES,
                (Some(b), WalkStep::Nothing) => !enters_other(b, old(self).current) && final(self).steps == MAX_BOUNDARIES,
                _ => false,
            },
    {
        self.steps = self.steps + 1;
        match boundary {
            None => WalkStep::Nothing,
            Some(b) => {
                if let Some(seg) = b.segment {
                    let other = match self.current {
                        Some(id) => id != seg.clip_id,
                        None => true,
                    };
                    if other {
                        return WalkStep::Found(b.at, seg);
                    }
                }
                if self.steps < MAX_BOUNDARIES {
                    WalkStep::Continue
                } else {
                    WalkStep::Nothing
                }
            },
        }
    }
}

/// The next video segment to become visible among the boundaries that follow,
/// and the time it appears.
pub fn next_video_segment_after(current: Option<Segment>, boundaries: &Vec<Boundary>) -> (out:
    Option<(Real, Segment)>)
    ensures
        out == next_segment(
            boundaries@.take(
                if boundaries@.len() <= MAX_BOUNDARIES {
                    boundaries@.len() as int
                } else {
                    MAX_BOUNDARIES as int
                },
            ),
            match current {
                Some(seg) => Some(seg.clip_id),
                None => None,
            },
        ),
{
    let mut walk = SegmentWalk::new(current);
    let ghost id = walk.current;
    let n: usize = if boundaries.len() <= MAX_BOUNDARIES {
        boundaries.len()
    } else {
        MAX_BOUNDARIES
    };
    let ghost reach = boundaries@.take(n as int);
    proof {
        assert(reach.skip(0) =~= reach);
    }
    for i in 0..n
        invariant
            n == (if boundaries@.len() <= MAX_BOUNDARIES {
                boundaries@.len() as int
            } else {
                MAX_BOUNDARIES as int
            }),
            id == match current {
                Some(seg) => Some(seg.clip_id),
                None => None,
            },
            reach == boundaries@.take(n as int),
            walk.steps == i,
            walk.current == id,
            next_segment(reach, id) == next_segment(reach.skip(i as int), id),
    {
        proof {
            assert(reach.skip(i as int)[0] == boundaries@[i as int]);
            assert(reach.skip(i as int).drop_first() =~= reach.skip(i + 1));
        }
        match walk.step(Some(boundaries[i])) {
            WalkStep::Found(at, seg) => {
                proof {
                    let rest = reach.skip(i as int);
                    assert(enters_other(rest[0], id));
                    assert(next_segment(rest, id) == Some((at, seg)));
                }
                return Some((at, seg));
            },
            _ => {},
        }
    }
    proof {
        assert(reach.skip(n as int).len() == 0);
    }
    None
}

// ---------------------------------------------------------------------
// The command loop
// ---------------------------------------------------------------------

/// What the engine does with a command.
pub enum Handling<P> {
    Stop,
    Apply(P),
    Play,
    Pause,
    Seek(Real),
    Step(i64),
    Refresh,
}

/// Dispatch a command. Toggling depends on whether playback is running.
pub fn dispatch<P>(cmd: Cmd<P>, playing: bool) -> (out: Handling<P>)
    ensures
        out == match cmd {
            Cmd::Stop => Handling::<P>::Stop,
            Cmd::SetProject(p) => Handling::Apply(p),
            Cmd::Play => Handling::Play,
            Cmd::Pause => Handling::Pause,
            Cmd::TogglePlay => if playing {
                Handling::Pause
            } else {
                Handling::Play
            },
            Cmd::Seek(t) => Handling::Seek(t),
            Cmd::Step(n) => Handling::Step(n),
            Cmd::RefreshSources => Handling::Refresh,
        },
{
    match cmd {
        Cmd::Stop => Handling::Stop,
        Cmd::SetProject(p) => Handling::Apply(p),
        Cmd::Play => Handling::Play,
        Cmd::Pause => Handling::Pause,
        Cmd::TogglePlay => if playing {
            Handling::Pause
        } else {
            Handling::Play
        },
        Cmd::Seek(t) => Handling::Seek(t),
        Cmd::Step(n) => Handling::Step(n),
        Cmd::RefreshSources => Handling::Refresh,
    }
}

// ---------------------------------------------------------------------
// What the timeline shows
// ---------------------------------------------------------------------

/// A clip is found by its id wherever it is: what is found is a clip of the
/// project with that id, and nothing is found only where no clip of any track
/// has the id.
pub proof fn law_clips_are_found_on_every_track(tracks: Seq<Track>, id: u64)
    ensures
        clip_with(tracks, id) matches Some(clip) ==> clip.id == id && exists|t: int, c: int|
            #![trigger tracks[t].clips@[c]]
            0 <= t < tracks.len() && 0 <= c < tracks[t].clips@.len() && tracks[t].clips@[c] == clip,
        clip_with(tracks, id) is None ==> forall|t: int, c: int|
            #![trigger tracks[t].clips@[c]]
            0 <= t < tracks.len() && 0 <= c < tracks[t].clips@.len() ==> tracks[t].clips@[c].id
                != id,
    decreases tracks.len(),
{
    if tracks.len() > 0 {
        let rest = tracks.drop_first();
        let clips = tracks[0].clips@;
        lemma_clip_place(clips, id);
        let p = clip_pos(clips, id);
        if p < clips.len() {
            assert(tracks[0].clips@[p].id == id);
        } else {
            law_clips_are_found_on_every_track(rest, id);
            if let Some(clip) = clip_with(tracks, id) {
                let (t, c) = choose|t: int, c: int|
                    #![trigger rest[t].clips@[c]]
                    0 <= t < rest.len() && 0 <= c < rest[t].clips@.len() && rest[t].clips@[c]
                        == clip;
                assert(tracks[t + 1].clips@[c] == clip);
            } else {
                assert forall|t: int, c: int|
                    #![trigger tracks[t].clips@[c]]
                    0 <= t < tracks.len() && 0 <= c < tracks[t].clips@.len() implies tracks[t].clips@[c].id
                    != id by {
                    if t > 0 {
                        assert(rest[t - 1].clips@[c].id != id);
                    }
                }
            }
        }
    }
}

/// Of several clips with the same id, the first counts, in track and clip
/// order.
pub proof fn law_the_first_clip_is_found(tracks: Seq<Track>, id: u64, t: int, c: int)
    requires
        0 <= t < tracks.len(),
        0 <= c < tracks[t].clips@.len(),
        tracks[t].clips@[c].id == id,
        forall|d: int| 0 <= d < c ==> (#[trigger] tracks[t].clips@[d]).id != id,
        forall|s: int, d: int|
            #![trigger tracks[s].clips@[d]]
            0 <= s < t && 0 <= d < tracks[s].clips@.len() ==> tracks[s].clips@[d].id != id,
    ensures
        clip_with(tracks, id) == Some(tracks[t].clips@[c]),
    decreases tracks.len(),
{
    let clips = tracks[0].clips@;
    lemma_clip_place(clips, id);
    let p = clip_pos(clips, id);
    if t == 0 {
        assert(clips[c].id == id);
        if p < c {
            assert(tracks[t].clips@[p].id != id);
        }
    } else {
        if p < clips.len() {
            assert(tracks[0].clips@[p].id != id);
        }
        let rest = tracks.drop_first();
        assert forall|d: int| 0 <= d < c implies (#[trigger] rest[t - 1].clips@[d]).id != id by {
            assert(tracks[t].clips@[d].id != id);
        }
        assert forall|s: int, d: int|
            #![trigger rest[s].clips@[d]]
            0 <= s < t - 1 && 0 <= d < rest[s].clips@.len() implies rest[s].clips@[d].id != id by {
            assert(tracks[s + 1].clips@[d].id != id);
        }
        law_the_first_clip_is_found(rest, id, t - 1, c);
    }
}

proof fn lemma_clip_place(clips: Seq<Clip>, id: u64)
    ensures
        0 <= clip_pos(clips, id) <= clips.len(),
        clip_pos(clips, id) < clips.len() ==> clips[clip_pos(clips, id)].id == id,
        forall|k: int| 0 <= k < clip_pos(clips, id) ==> (#[trigger] clips[k]).id != id,
    decreases clips.len(),
{
    if clips.len() > 0 && clips[0].id != id {
        let rest = clips.drop_first();
        lemma_clip_place(rest, id);
        assert forall|k: int| 0 <= k < clip_pos(clips, id) implies (#[trigger] clips[k]).id
            != id by {
            if k > 0 {
                assert(rest[k - 1] == clips[k]);
            }
        }
    }
}

/// A clip that shows media is played as it lies on the timeline, from its own
/// stretch of its own source; one without media has no picture.
pub proof fn law_segments_play_their_clip(clip: Clip)
    ensures
        segment_of(clip) is None <==> clip.media_id is None,
        segment_of(clip) matches Some(s) ==> {
            &&& s.clip_id == clip.id
            &&& clip.media_id == Some(s.media_id)
            &&& s.timeline_in == clip.timeline_in
            &&& s.timeline_out == clip.timeline_out
            &&& s.source_in == clip.source_in
            &&& s.source_out == clip.source_out
            &&& s.speed == clip.speed
        },
{
}

/// A segment covers the times from its in point up to its out point, which
/// belongs to whatever follows: two segments that meet never cover the same
/// time.
pub proof fn law_segments_do_not_overlap_at_a_cut(a: Segment, b: Segment, t: Real)
    requires
        !t.nan(),
        !a.timeline_in.nan(),
        !a.timeline_out.nan(),
        !b.timeline_in.nan(),
        a.timeline_out == b.timeline_in,
    ensures
        a.covers(t) <==> a.timeline_in.rank() <= t.rank() < a.timeline_out.rank(),
        !(a.covers(t) && b.covers(t)),
        a.timeline_in.rank() < a.timeline_out.rank() ==> a.covers(a.timeline_in),
        !a.covers(a.timeline_out),
{
}

/// Two segments are the same if clip, source, place and cut all agree; any
/// difference tells them apart.
pub proof fn law_same_segments_agree(a: Segment, b: Segment)
    ensures
        a.same(b) ==> a.clip_id == b.clip_id && a.media_id == b.media_id && a.timeline_in.rank()
            == b.timeline_in.rank() && a.timeline_out.rank() == b.timeline_out.rank()
            && a.source_in.rank() == b.source_in.rank() && a.source_out.rank()
            == b.source_out.rank() && a.speed.rank() == b.speed.rank(),
        a == b && !a.timeline_in.nan() && !a.timeline_out.nan() && !a.source_in.nan()
            && !a.source_out.nan() && !a.speed.nan() ==> a.same(b),
{
}

/// The next segment is the one that the first boundary showing another clip
/// shows, from that boundary's time on: every boundary before shows nothing or
/// the current clip. There is none only where no boundary shows another clip.
pub proof fn law_next_segment_is_the_first_other(boundaries: Seq<Boundary>, current: Option<u64>)
    ensures
        next_segment(boundaries, current) matches Some((at, seg)) ==> exists|i: int|
            #![trigger boundaries[i]]
            0 <= i < boundaries.len() && boundaries[i].at == at && boundaries[i].segment == Some(seg)
                && current != Some(seg.clip_id) && forall|k: int|
                0 <= k < i ==> ((#[trigger] boundaries[k]).segment is None || current == Some(
                    boundaries[k].segment->0.clip_id,
                )),
        next_segment(boundaries, current) is None ==> forall|k: int|
            0 <= k < boundaries.len() ==> ((#[trigger] boundaries[k]).segment is None || current
                == Some(boundaries[k].segment->0.clip_id)),
    decreases boundaries.len(),
{
    if boundaries.len() > 0 {
        if enters_other(boundaries[0], current) {
            assert(boundaries[0].segment is Some);
        } else {
            let rest = boundaries.drop_first();
            law_next_segment_is_the_first_other(rest, current);
            if let Some((at, seg)) = next_segment(boundaries, current) {
                let i = choose|i: int|
                    #![trigger rest[i]]
                    0 <= i < rest.len() && rest[i].at == at && rest[i].segment == Some(seg)
                        && current != Some(seg.clip_id) && forall|k: int|
                        0 <= k < i ==> ((#[trigger] rest[k]).segment is None || current == Some(
                            rest[k].segment->0.clip_id,
                        ));
                assert(boundaries[i + 1] == rest[i]);
                assert forall|k: int| 0 <= k < i + 1 implies ((#[trigger] boundaries[k]).segment
                    is None || current == Some(boundaries[k].segment->0.clip_id)) by {
                    if k > 0 {
                        assert(rest[k - 1] == boundaries[k]);
                    }
                }
            } else {
                assert forall|k: int| 0 <= k < boundaries.len() implies ((#[trigger] boundaries[k]).segment
                    is None || current == Some(boundaries[k].segment->0.clip_id)) by {
                    if k > 0 {
                        assert(rest[k - 1] == boundaries[k]);
                    }
                }
            }
        }
    }
}

/// A collapsed queue has no runs left: no two seeks, snapshots or steps stand
/// next to each other. It is never longer than the queue, and a command that
/// is none of these stands at its end if it stood at the queue's end.
pub proof fn law_collapsed_queues_have_no_runs<P>(cmds: Seq<Cmd<P>>, i: int)
    ensures
        collapsed(cmds).len() <= cmds.len(),
        cmds.len() > 0 ==> collapsed(cmds).len() > 0,
        0 <= i && i + 1 < collapsed(cmds).len() ==> {
            let (a, b) = (collapsed(cmds)[i], collapsed(cmds)[i + 1]);
            &&& !(a is Seek && b is Seek)
            &&& !(a is SetProject && b is SetProject)
            &&& !(a is Step && b is Step)
        },
        cmds.len() > 0 && !(cmds.last() is Step) ==> collapsed(cmds).last() == cmds.last(),
        cmds.len() > 0 && cmds.last() is Step ==> collapsed(cmds).last() is Step,
    decreases cmds.len(),
{
    if cmds.len() > 0 {
        law_collapsed_queues_have_no_runs(cmds.drop_last(), i);
        law_collapsed_queues_have_no_runs(cmds.drop_last(), i - 1);
    }
}

} // verus!
