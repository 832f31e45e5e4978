//! Where a clip's **audio** plays: which clips sound at all, and where once
//! video transitions are applied.
//!
//! A video transition implies a short equal-power crossfade of the two clips'
//! own audio across the same span as the picture: the outgoing clip keeps
//! sounding under the incoming one, and the incoming clip starts early (from
//! as far back as real audio exists).

use std::collections::HashMap;

use vstd::prelude::*;

use crate::double::Real;
use crate::project;
use crate::project::{Clip, Media, Project, Track};

verus! {

broadcast use vstd::std_specs::hash::group_hash_axioms;

/// The span of a transition between two clips.
#[derive(Clone, Copy, Debug, PartialEq, Eq, Structural)]
pub struct TransitionSpan {
    pub from_clip: u64,
    pub to_clip: u64,
    pub start: Real,
    pub end: Real,
}

/// An equal-power ramp.
#[derive(Clone, Copy, Debug, PartialEq, Eq, Structural)]
pub struct FadeRamp {
    pub start: Real,
    pub end: Real,
}

/// A clip's audio placement: possibly extended across transition spans, with
/// the matching ramps.
#[derive(Clone, Copy, Debug, PartialEq, Eq, Structural)]
pub struct AudioPlacement {
    pub timeline_in: Real,
    pub timeline_out: Real,
    /// The clip starts before its own in point: its source position shifts by
    /// as much.
    pub starts_early: bool,
    pub fade_in: Option<FadeRamp>,
    pub fade_out: Option<FadeRamp>,
}

/// The placement of a clip after the first spans. `earliest` is the timeline
/// time of the source's first sample: an incoming clip never starts further
/// back (clamping a negative source position would double up the opening).
pub open spec fn placed(clip: Clip, earliest: Real, spans: Seq<TransitionSpan>) -> AudioPlacement
    decreases spans.len(),
{
    if spans.len() == 0 {
        AudioPlacement {
            timeline_in: clip.timeline_in,
            timeline_out: clip.timeline_out,
            starts_early: false,
            fade_in: None,
            fade_out: None,
        }
    } else {
        let before = placed(clip, earliest, spans.drop_last());
        let span = spans.last();
        let ramp = Some(FadeRamp { start: span.start, end: span.end });
        if span.from_clip == clip.id {
            AudioPlacement { timeline_out: span.end, fade_out: ramp, ..before }
        } else if span.to_clip == clip.id {
            AudioPlacement {
                timeline_in: span.start.larger(earliest),
                starts_early: true,
                fade_in: ramp,
                ..before
            }
        } else {
            before
        }
    }
}

/// Resolve a clip's audio placement against the project's transition spans. A
/// clip inside a chain of transitions can be both the incoming side of one
/// span and the outgoing side of the next (both ramps set).
pub fn audio_placement(clip: &Clip, earliest: Real, spans: &Vec<TransitionSpan>) -> (out:
    AudioPlacement)
    ensures
        out == placed(*clip, earliest, spans@),
{
    let mut out = AudioPlacement {
        timeline_in: clip.timeline_in,
        timeline_out: clip.timeline_out,
        starts_early: false,
        fade_in: None,
        fade_out: None,
    };
    for i in 0..spans.len()
        invariant
            out == placed(*clip, earliest, spans@.take(i as int)),
    {
        let span = spans[i];
        proof {
            assert(spans@.take(i + 1).drop_last() =~= spans@.take(i as int));
        }
        if span.from_clip == clip.id {
            out.timeline_out = span.end;
            out.fade_out = Some(FadeRamp { start: span.start, end: span.end });
        } else if span.to_clip == clip.id {
            out.timeline_in = span.start.larger_of(earliest);
            out.starts_early = true;
            out.fade_in = Some(FadeRamp { start: span.start, end: span.end });
        }
    }
    proof {
        assert(spans@.take(spans@.len() as int) =~= spans@);
    }
    out
}

/// A clip that no transition touches sounds exactly where it is shown, without
/// ramps.
pub proof fn law_untouched_clip_stays(clip: Clip, earliest: Real, spans: Seq<TransitionSpan>)
    requires
        forall|i: int|
            0 <= i < spans.len() ==> (#[trigger] spans[i]).from_clip != clip.id && spans[i].to_clip
                != clip.id,
    ensures
        placed(clip, earliest, spans) == (AudioPlacement {
            timeline_in: clip.timeline_in,
            timeline_out: clip.timeline_out,
            starts_early: false,
            fade_in: None,
            fade_out: None,
        }),
    decreases spans.len(),
{
    if spans.len() > 0 {
        assert(spans.last() == spans[spans.len() - 1]);
        assert forall|i: int| 0 <= i < spans.drop_last().len() implies (#[trigger] spans.drop_last()[i]).from_clip != clip.id && spans.drop_last()[i].to_clip
            != clip.id by {
            assert(spans.drop_last()[i] == spans[i]);
        }
        law_untouched_clip_stays(clip, earliest, spans.drop_last());
    }
}

// ---------------------------------------------------------------------
// Which clips sound
// ---------------------------------------------------------------------

/// A clip that sounds, and the file it sounds from.
pub struct Sounding {
    pub track: int,
    pub clip: int,
    pub path: Seq<char>,
}

/// The clips that sound among the first `n` of track `t`.
pub open spec fn sounding_in_track(
    clips: Seq<Clip>,
    t: int,
    n: int,
    file_of: spec_fn(Clip) -> Option<Seq<char>>,
) -> Seq<Sounding>
    decreases n,
{
    if n <= 0 {
        Seq::empty()
    } else {
        let before = sounding_in_track(clips, t, n - 1, file_of);
        match file_of(clips[n - 1]) {
            Some(path) => before.push(Sounding { track: t, clip: n - 1, path }),
            None => before,
        }
    }
}

/// The clips that sound on the first `n` tracks: those of unmuted tracks that
/// have a file to sound from, track by track and in clip order.
pub open spec fn sounding(
    tracks: Seq<Track>,
    n: int,
    file_of: spec_fn(Clip) -> Option<Seq<char>>,
) -> Seq<Sounding>
    decreases n,
{
    if n <= 0 {
        Seq::empty()
    } else {
        let before = sounding(tracks, n - 1, file_of);
        let track = tracks[n - 1];
        if track.muted {
            before
        } else {
            before + sounding_in_track(track.clips@, n - 1, track.clips@.len() as int, file_of)
        }
    }
}

/// The original media file a clip sounds from, if its media has audio.
pub open spec fn original_audio(project: Project, clip: Clip) -> Option<Seq<char>> {
    match project::clip_media(project, clip) {
        Some(m) => if m.has_audio {
            Some(m.path@)
        } else {
            None
        },
        None => None,
    }
}

/// A clip that sounds in an export.
#[derive(Debug)]
pub struct AudioPick {
    pub track: usize,
    pub clip: usize,
    pub path: String,
}

pub open spec fn pick_view(p: AudioPick) -> Sounding {
    Sounding { track: p.track as int, clip: p.clip as int, path: p.path@ }
}

pub open spec fn pick_views(picks: Seq<AudioPick>) -> Seq<Sounding> {
    picks.map_values(|p: AudioPick| pick_view(p))
}

/// The mixer input for export: every audio-contributing clip on an unmuted
/// track, resolved to **original media**. Export never touches proxies (their
/// audio is a 128k stereo AAC transcode; the original is the real thing). Text
/// clips contribute no audio.
pub fn export_audio_timeline(project: &Project) -> (out: Vec<AudioPick>)
    ensures
        pick_views(out@) == sounding(
            project.tracks@,
            project.tracks@.len() as int,
            |c: Clip| original_audio(*project, c),
        ),
{
    let mut out: Vec<AudioPick> = Vec::new();
    let ghost file_of = |c: Clip| original_audio(*project, c);
    proof {
        assert(pick_views(out@) =~= Seq::<Sounding>::empty());
    }
    for t in 0..project.tracks.len()
        invariant
            file_of == (|c: Clip| original_audio(*project, c)),
            pick_views(out@) == sounding(project.tracks@, t as int, file_of),
    {
        let track = &project.tracks[t];
        if !track.muted {
            let ghost before = sounding(project.tracks@, t as int, file_of);
            proof {
                assert(before + sounding_in_track(track.clips@, t as int, 0, file_of) =~= before);
            }
            for c in 0..track.clips.len()
                invariant
                    t < project.tracks@.len(),
                    *track == project.tracks@[t as int],
                    file_of == (|c: Clip| original_audio(*project, c)),
                    pick_views(out@) == before + sounding_in_track(
                        track.clips@,
                        t as int,
                        c as int,
                        file_of,
                    ),
            {
                let ghost held = out@;
                if let Some(media) = project.media_of(&track.clips[c]) {
                    if media.has_audio {
                        out.push(AudioPick { track: t, clip: c, path: media.path.clone() });
                        proof {
                            assert(pick_views(out@) =~= pick_views(held).push(
                                pick_view(out@.last()),
                            ));
                        }
                    }
                }
                proof {
                    assert(pick_views(out@) =~= before + sounding_in_track(
                        track.clips@,
                        t as int,
                        c + 1,
                        file_of,
                    ));
                }
            }
        }
    }
    out
}

proof fn lemma_sounding_in_track(
    clips: Seq<Clip>,
    t: int,
    n: int,
    file_of: spec_fn(Clip) -> Option<Seq<char>>,
)
    requires
        0 <= n <= clips.len(),
    ensures
        forall|i: int|
            #![trigger sounding_in_track(clips, t, n, file_of)[i]]
            0 <= i < sounding_in_track(clips, t, n, file_of).len() ==> ({
                let s = sounding_in_track(clips, t, n, file_of)[i];
                s.track == t && 0 <= s.clip < n && file_of(clips[s.clip]) == Some(s.path)
            }),
    decreases n,
{
    if n > 0 {
        lemma_sounding_in_track(clips, t, n - 1, file_of);
        let before = sounding_in_track(clips, t, n - 1, file_of);
        let now = sounding_in_track(clips, t, n, file_of);
        assert forall|i: int| #![trigger now[i]] 0 <= i < now.len() implies ({
            let s = now[i];
            s.track == t && 0 <= s.clip < n && file_of(clips[s.clip]) == Some(s.path)
        }) by {
            if i < before.len() {
                assert(now[i] == before[i]);
            }
        }
    }
}

/// Muting a track silences it: nothing that sounds comes from a muted track,
/// and everything that sounds has a file.
pub proof fn law_muted_tracks_are_silent(
    tracks: Seq<Track>,
    n: int,
    file_of: spec_fn(Clip) -> Option<Seq<char>>,
    i: int,
)
    requires
        0 <= n <= tracks.len(),
        0 <= i < sounding(tracks, n, file_of).len(),
    ensures
        ({
            let s = sounding(tracks, n, file_of)[i];
            &&& 0 <= s.track < n
            &&& !tracks[s.track].muted
            &&& 0 <= s.clip < tracks[s.track].clips@.len()
            &&& file_of(tracks[s.track].clips@[s.clip]) == Some(s.path)
        }),
    decreases n,
{
    if n > 0 {
        let before = sounding(tracks, n - 1, file_of);
        let track = tracks[n - 1];
        if i < before.len() {
            law_muted_tracks_are_silent(tracks, n - 1, file_of, i);
            assert(sounding(tracks, n, file_of)[i] == before[i]);
        } else {
            let more = sounding_in_track(
                track.clips@,
                n - 1,
                track.clips@.len() as int,
                file_of,
            );
            lemma_sounding_in_track(track.clips@, n - 1, track.clips@.len() as int, file_of);
            assert(sounding(tracks, n, file_of)[i] == more[i - before.len()]);
        }
    }
}

/// One clip of a mix: where its audio plays, from which file, how fast and how
/// loud.
#[derive(Debug)]
pub struct MixSegment {
    pub track: usize,
    pub clip: usize,
    pub path: String,
    pub placement: AudioPlacement,
    /// The clip's own source position, at its own in point.
    pub source_in: Real,
    pub speed: Real,
    pub volume: Real,
}

/// For every clip of a project the timeline time of its source's first sample.
pub open spec fn per_clip(earliest: Seq<Vec<Real>>, tracks: Seq<Track>) -> bool {
    &&& earliest.len() == tracks.len()
    &&& forall|t: int|
        0 <= t < tracks.len() ==> (#[trigger] earliest[t])@.len() == tracks[t].clips@.len()
}

/// A sounding clip of the project.
pub open spec fn in_project(s: Sounding, tracks: Seq<Track>) -> bool {
    0 <= s.track < tracks.len() && 0 <= s.clip < tracks[s.track].clips@.len()
}

/// A segment stands for a sounding clip: its file, the placement that the
/// transition spans give it, and the clip's own source position, speed and
/// volume.
pub open spec fn mixes(
    segment: MixSegment,
    s: Sounding,
    tracks: Seq<Track>,
    earliest: Seq<Vec<Real>>,
    spans: Seq<TransitionSpan>,
) -> bool {
    let clip = tracks[s.track].clips@[s.clip];
    &&& segment.track == s.track
    &&& segment.clip == s.clip
    &&& segment.path@ == s.path
    &&& segment.placement == placed(clip, earliest[s.track]@[s.clip], spans)
    &&& segment.source_in == clip.source_in
    &&& segment.speed == clip.speed
    &&& segment.volume == clip.volume
}

/// The segments stand for the sounding clips, one each and in order.
pub open spec fn mix_of(
    segments: Seq<MixSegment>,
    sounding: Seq<Sounding>,
    tracks: Seq<Track>,
    earliest: Seq<Vec<Real>>,
    spans: Seq<TransitionSpan>,
) -> bool {
    &&& segments.len() == sounding.len()
    &&& forall|i: int|
        0 <= i < segments.len() ==> mixes(
            #[trigger] segments[i],
            sounding[i],
            tracks,
            earliest,
            spans,
        )
}

/// Place the clips that sound. The live mixer and the export mix are both
/// built from this one function, so a clip sounds in preview as it is
/// exported.
pub fn place_audio(
    project: &Project,
    picks: &Vec<AudioPick>,
    earliest: &Vec<Vec<Real>>,
    spans: &Vec<TransitionSpan>,
) -> (out: Vec<MixSegment>)
    requires
        per_clip(earliest@, project.tracks@),
        forall|i: int|
            0 <= i < picks@.len() ==> in_project(
                pick_view(#[trigger] picks@[i]),
                project.tracks@,
            ),
    ensures
        mix_of(out@, pick_views(picks@), project.tracks@, earliest@, spans@),
{
    let mut out: Vec<MixSegment> = Vec::new();
    for i in 0..picks.len()
        invariant
            per_clip(earliest@, project.tracks@),
            forall|i: int|
                0 <= i < picks@.len() ==> in_project(
                    pick_view(#[trigger] picks@[i]),
                    project.tracks@,
                ),
            out@.len() == i,
            forall|k: int|
                0 <= k < i ==> mixes(
                    #[trigger] out@[k],
                    pick_view(picks@[k]),
                    project.tracks@,
                    earliest@,
                    spans@,
                ),
    {
        let pick = &picks[i];
        proof {
            assert(in_project(pick_view(picks@[i as int]), project.tracks@));
            assert(earliest@[pick.track as int]@.len()
                == project.tracks@[pick.track as int].clips@.len());
        }
        let clip = &project.tracks[pick.track].clips[pick.clip];
        let placement = audio_placement(clip, earliest[pick.track][pick.clip], spans);
        out.push(
            MixSegment {
                track: pick.track,
                clip: pick.clip,
                path: pick.path.clone(),
                placement,
                source_in: clip.source_in,
                speed: clip.speed,
                volume: clip.volume,
            },
        );
    }
    out
}

/// The whole mix of an export: every audio-contributing clip on an unmuted
/// track, from original media, placed across the transition spans.
pub fn export_audio_mix(
    project: &Project,
    earliest: &Vec<Vec<Real>>,
    spans: &Vec<TransitionSpan>,
) -> (out: Vec<MixSegment>)
    requires
        per_clip(earliest@, project.tracks@),
    ensures
        mix_of(
            out@,
            sounding(
                project.tracks@,
                project.tracks@.len() as int,
                |c: Clip| original_audio(*project, c),
            ),
            project.tracks@,
            earliest@,
            spans@,
        ),
{
    let picks = export_audio_timeline(project);
    proof {
        let tracks = project.tracks@;
        let file_of = |c: Clip| original_audio(*project, c);
        let all = sounding(tracks, tracks.len() as int, file_of);
        assert forall|i: int| 0 <= i < picks@.len() implies in_project(
            pick_view(#[trigger] picks@[i]),
            tracks,
        ) by {
            assert(all[i] == pick_view(picks@[i]));
            law_muted_tracks_are_silent(tracks, tracks.len() as int, file_of, i);
        }
    }
    place_audio(project, &picks, earliest, spans)
}

// ---------------------------------------------------------------------
// Preview: media id to decodable files
// ---------------------------------------------------------------------

/// What a media file plays from in preview.
#[derive(Debug)]
pub enum SourceFiles {
    /// Video media with its proxy present (audio, when the media has it, also
    /// comes from the proxy: normalized stereo AAC).
    Ready { proxy: String, has_audio: bool },
    /// Video media whose proxy hasn't been generated yet: renders black/silent
    /// until the sources are refreshed.
    ProxyPending,
    /// Audio-only media: decoded straight from the original.
    AudioOnly { original: String },
}

/// What a media file plays from, given its proxy (if that exists).
pub open spec fn files_of(media: Media, proxy: Option<String>) -> Option<SourceFiles> {
    if media.has_video {
        match proxy {
            Some(proxy) => Some(SourceFiles::Ready { proxy, has_audio: media.has_audio }),
            None => Some(SourceFiles::ProxyPending),
        }
    } else if media.has_audio {
        Some(SourceFiles::AudioOnly { original: media.path })
    } else {
        None
    }
}

/// The files of the first `n` media.
pub open spec fn resolved(media: Seq<Media>, proxies: Seq<Option<String>>, n: int) -> Map<
    u64,
    SourceFiles,
>
    decreases n,
{
    if n <= 0 {
        Map::empty()
    } else {
        let before = resolved(media, proxies, n - 1);
        match files_of(media[n - 1], proxies[n - 1]) {
            Some(files) => before.insert(media[n - 1].id, files),
            None => before,
        }
    }
}

/// The file a media plays its picture from.
pub open spec fn picture_file(map: Map<u64, SourceFiles>, id: u64) -> Option<Seq<char>> {
    if map.contains_key(id) {
        match map[id] {
            SourceFiles::Ready { proxy, .. } => Some(proxy@),
            _ => None,
        }
    } else {
        None
    }
}

/// The file a media plays its sound from.
pub open spec fn sound_file(map: Map<u64, SourceFiles>, id: u64) -> Option<Seq<char>> {
    if map.contains_key(id) {
        match map[id] {
            SourceFiles::Ready { proxy, has_audio } => if has_audio {
                Some(proxy@)
            } else {
                None
            },
            SourceFiles::AudioOnly { original } => Some(original@),
            SourceFiles::ProxyPending => None,
        }
    } else {
        None
    }
}

/// Same text, or both absent.
pub open spec fn same_file(a: Option<String>, b: Option<Seq<char>>) -> bool {
    match (a, b) {
        (Some(x), Some(y)) => x@ == y,
        (None, None) => true,
        _ => false,
    }
}

/// Source resolution: media id to decodable files.
pub struct Sources {
    pub map: HashMap<u64, SourceFiles>,
    /// Source frame rate, learned from the first decoder session per media and
    /// kept across session closes (needed for cache keys).
    pub fps: HashMap<u64, Real>,
}

impl Sources {
    /// Nothing resolved.
    pub fn new() -> (out: Sources)
        ensures
            out.map@ == Map::<u64, SourceFiles>::empty(),
            out.fps@ == Map::<u64, Real>::empty(),
    {
        Sources { map: HashMap::new(), fps: HashMap::new() }
    }

    /// Resolve every media of a project anew. `proxies[k]` is the proxy of
    /// media `k`, if it exists. Learned frame rates stay.
    pub fn rebuild(&mut self, project: &Project, proxies: &Vec<Option<String>>)
        requires
            proxies@.len() == project.media@.len(),
        ensures
            final(self).map@ == resolved(
                project.media@,
                proxies@,
                project.media@.len() as int,
            ),
            final(self).fps == old(self).fps,
    {
        self.map.clear();
        for k in 0..project.media.len()
            invariant
                proxies@.len() == project.media@.len(),
                self.map@ == resolved(project.media@, proxies@, k as int),
                self.fps == old(self).fps,
        {
            let media = &project.media[k];
            if media.has_video {
                match &proxies[k] {
                    Some(proxy) => {
                        self.map.insert(
                            media.id,
                            SourceFiles::Ready { proxy: proxy.clone(), has_audio: media.has_audio },
                        );
                    },
                    None => {
                        self.map.insert(media.id, SourceFiles::ProxyPending);
                    },
                }
            } else if media.has_audio {
                self.map.insert(
                    media.id,
                    SourceFiles::AudioOnly { original: media.path.clone() },
                );
            }
        }
    }

    /// The file a media plays its picture from.
    pub fn video_path(&self, media_id: u64) -> (out: Option<String>)
        ensures
            same_file(out, picture_file(self.map@, media_id)),
    {
        match self.map.get(&media_id) {
            Some(SourceFiles::Ready { proxy, .. }) => Some(proxy.clone()),
            _ => None,
        }
    }

    /// The file a media plays its sound from.
    pub fn audio_path(&self, media_id: u64) -> (out: Option<String>)
        ensures
            same_file(out, sound_file(self.map@, media_id)),
    {
        match self.map.get(&media_id) {
            Some(SourceFiles::Ready { proxy, has_audio }) => if *has_audio {
                Some(proxy.clone())
            } else {
                None
            },
            Some(SourceFiles::AudioOnly { original }) => Some(original.clone()),
            _ => None,
        }
    }

    /// Whether a media waits for its proxy.
    pub fn is_pending(&self, media_id: u64) -> (out: bool)
        ensures
            out == (self.map@.contains_key(media_id) && self.map@[media_id] is ProxyPending),
    {
        match self.map.get(&media_id) {
            Some(SourceFiles::ProxyPending) => true,
            _ => false,
        }
    }
}

/// One clip for the mixer: which it is, so that it is placed as in an export
/// ([`audio_placement`]), and what it plays.
#[derive(Debug)]
pub struct AudioSegment {
    pub track: usize,
    pub clip: usize,
    pub path: String,
    pub timeline_in: Real,
    pub timeline_out: Real,
    pub source_in: Real,
    pub speed: Real,
    pub volume: Real,
}

/// The file a clip sounds from in preview: that of its media, if the media is
/// in the pool, has audio, and is resolved.
pub open spec fn preview_audio(project: Project, map: Map<u64, SourceFiles>, clip: Clip) -> Option<
    Seq<char>,
> {
    match project::clip_media(project, clip) {
        Some(m) => if m.has_audio {
            sound_file(map, clip.media_id->0)
        } else {
            None
        },
        None => None,
    }
}

/// A mixer segment carries its clip's placement and volume.
pub open spec fn segment_matches(segment: AudioSegment, clip: Clip, path: Seq<char>) -> bool {
    &&& segment.path@ == path
    &&& segment.timeline_in == clip.timeline_in
    &&& segment.timeline_out == clip.timeline_out
    &&& segment.source_in == clip.source_in
    &&& segment.speed == clip.speed
    &&& segment.volume == clip.volume
}

/// The segments stand for the sounding clips, one each and in order.
pub open spec fn segments_match(
    segments: Seq<AudioSegment>,
    tracks: Seq<Track>,
    sounding: Seq<Sounding>,
) -> bool {
    &&& segments.len() == sounding.len()
    &&& forall|i: int|
        0 <= i < segments.len() ==> (#[trigger] segments[i]).track == sounding[i].track
            && segments[i].clip == sounding[i].clip && segment_matches(
            segments[i],
            tracks[sounding[i].track].clips@[sounding[i].clip],
            sounding[i].path,
        )
}

/// Everything the mixer needs: one [`AudioSegment`] per audio-contributing
/// clip on an unmuted track. Video-track clips contribute their media's audio
/// (scaled by clip volume) from the proxy; audio-only media plays from its
/// original. A proxy that is not ready yet is silent until the sources are
/// refreshed.
pub fn mixer_timeline(project: &Project, sources: &Sources) -> (out: Vec<AudioSegment>)
    ensures
        segments_match(
            out@,
            project.tracks@,
            sounding(
                project.tracks@,
                project.tracks@.len() as int,
                |c: Clip| preview_audio(*project, sources.map@, c),
            ),
        ),
{
    let mut out: Vec<AudioSegment> = Vec::new();
    let ghost file_of = |c: Clip| preview_audio(*project, sources.map@, c);
    for t in 0..project.tracks.len()
        invariant
            file_of == (|c: Clip| preview_audio(*project, sources.map@, c)),
            segments_match(out@, project.tracks@, sounding(project.tracks@, t as int, file_of)),
    {
        let track = &project.tracks[t];
        if !track.muted {
            let ghost before = sounding(project.tracks@, t as int, file_of);
            proof {
                assert(before + sounding_in_track(track.clips@, t as int, 0, file_of) =~= before);
            }
            for c in 0..track.clips.len()
                invariant
                    t < project.tracks@.len(),
                    *track == project.tracks@[t as int],
                    file_of == (|c: Clip| preview_audio(*project, sources.map@, c)),
                    segments_match(
                        out@,
                        project.tracks@,
                        before + sounding_in_track(track.clips@, t as int, c as int, file_of),
                    ),
            {
                let clip = &track.clips[c];
                let ghost held = before + sounding_in_track(
                    track.clips@,
                    t as int,
                    c as int,
                    file_of,
                );
                let ghost next = before + sounding_in_track(
                    track.clips@,
                    t as int,
                    c + 1,
                    file_of,
                );
                if let Some(media) = project.media_of(clip) {
                    if media.has_audio {
                        let id: u64 = clip.media_id.unwrap();
                        if let Some(path) = sources.audio_path(id) {
                            let ghost files = path@;
                            out.push(
                                AudioSegment {
                                    track: t,
                                    clip: c,
                                    path,
                                    timeline_in: clip.timeline_in,
                                    timeline_out: clip.timeline_out,
                                    source_in: clip.source_in,
                                    speed: clip.speed,
                                    volume: clip.volume,
                                },
                            );
                            proof {
                                assert(next =~= held.push(
                                    Sounding { track: t as int, clip: c as int, path: files },
                                ));
                            }
                        }
                    }
                }
                proof {
                    if file_of(*clip) is None {
                        assert(next =~= held);
                    }
                }
            }
        }
    }
    out
}

/// The whole mix of the live preview: what [`mixer_timeline`] plays, placed
/// across the transition spans.
pub fn preview_audio_mix(
    project: &Project,
    sources: &Sources,
    earliest: &Vec<Vec<Real>>,
    spans: &Vec<TransitionSpan>,
) -> (out: Vec<MixSegment>)
    requires
        per_clip(earliest@, project.tracks@),
    ensures
        mix_of(
            out@,
            sounding(
                project.tracks@,
                project.tracks@.len() as int,
                |c: Clip| preview_audio(*project, sources.map@, c),
            ),
            project.tracks@,
            earliest@,
            spans@,
        ),
{
    let ghost tracks = project.tracks@;
    let ghost file_of = |c: Clip| preview_audio(*project, sources.map@, c);
    let ghost all = sounding(tracks, tracks.len() as int, file_of);
    let segments = mixer_timeline(project, sources);
    let mut picks: Vec<AudioPick> = Vec::new();
    for i in 0..segments.len()
        invariant
            segments_match(segments@, tracks, all),
            picks@.len() == i,
            forall|k: int| 0 <= k < i ==> pick_view(#[trigger] picks@[k]) == all[k],
    {
        let s = &segments[i];
        picks.push(AudioPick { track: s.track, clip: s.clip, path: s.path.clone() });
    }
    proof {
        assert(pick_views(picks@) =~= all);
        assert forall|i: int| 0 <= i < picks@.len() implies in_project(
            pick_view(#[trigger] picks@[i]),
            tracks,
        ) by {
            law_muted_tracks_are_silent(tracks, tracks.len() as int, file_of, i);
        }
    }
    place_audio(project, &picks, earliest, spans)
}

/// The same clips sound, in the same order, whatever files they sound from.
pub open spec fn same_clips(a: Seq<Sounding>, b: Seq<Sounding>) -> bool {
    &&& a.len() == b.len()
    &&& forall|i: int|
        0 <= i < a.len() ==> (#[trigger] a[i]).track == b[i].track && a[i].clip == b[i].clip
}

proof fn lemma_same_clips_in_track(
    clips: Seq<Clip>,
    t: int,
    n: int,
    one: spec_fn(Clip) -> Option<Seq<char>>,
    other: spec_fn(Clip) -> Option<Seq<char>>,
)
    requires
        forall|c: Clip| #![trigger one(c)] one(c) is Some <==> other(c) is Some,
    ensures
        same_clips(sounding_in_track(clips, t, n, one), sounding_in_track(clips, t, n, other)),
    decreases n,
{
    if n > 0 {
        lemma_same_clips_in_track(clips, t, n - 1, one, other);
        assert(one(clips[n - 1]) is Some <==> other(clips[n - 1]) is Some);
    }
}

proof fn lemma_same_clips(
    tracks: Seq<Track>,
    n: int,
    one: spec_fn(Clip) -> Option<Seq<char>>,
    other: spec_fn(Clip) -> Option<Seq<char>>,
)
    requires
        forall|c: Clip| #![trigger one(c)] one(c) is Some <==> other(c) is Some,
    ensures
        same_clips(sounding(tracks, n, one), sounding(tracks, n, other)),
    decreases n,
{
    if n > 0 {
        lemma_same_clips(tracks, n - 1, one, other);
        let track = tracks[n - 1];
        lemma_same_clips_in_track(track.clips@, n - 1, track.clips@.len() as int, one, other);
    }
}

/// Once every media with audio has a file to sound from in preview, the live
/// mixer and the export mix play the same clips in the same order.
pub proof fn law_preview_sounds_like_export(project: Project, map: Map<u64, SourceFiles>)
    requires
        forall|k: int|
            0 <= k < project.media@.len() && (#[trigger] project.media@[k]).has_audio
                ==> sound_file(map, project.media@[k].id) is Some,
    ensures
        same_clips(
            sounding(
                project.tracks@,
                project.tracks@.len() as int,
                |c: Clip| preview_audio(project, map, c),
            ),
            sounding(
                project.tracks@,
                project.tracks@.len() as int,
                |c: Clip| original_audio(project, c),
            ),
        ),
{
    let preview = |c: Clip| preview_audio(project, map, c);
    let original = |c: Clip| original_audio(project, c);
    assert forall|c: Clip| #![trigger preview(c)] preview(c) is Some <==> original(c) is Some by {
        if c.media_id is Some {
            project::lemma_media_pos(project.media@, c.media_id->0);
        }
    }
    lemma_same_clips(project.tracks@, project.tracks@.len() as int, preview, original);
}

/// What is heard in preview is what is exported: once every media with audio
/// has a file to sound from in preview, both mixes play the same clips at the
/// same places, with the same fades, source positions, speeds and volumes.
pub proof fn law_preview_mix_equals_export_mix(
    project: Project,
    map: Map<u64, SourceFiles>,
    earliest: Seq<Vec<Real>>,
    spans: Seq<TransitionSpan>,
    live: Seq<MixSegment>,
    exported: Seq<MixSegment>,
    i: int,
)
    requires
        forall|k: int|
            0 <= k < project.media@.len() && (#[trigger] project.media@[k]).has_audio
                ==> sound_file(map, project.media@[k].id) is Some,
        mix_of(
            live,
            sounding(
                project.tracks@,
                project.tracks@.len() as int,
                |c: Clip| preview_audio(project, map, c),
            ),
            project.tracks@,
            earliest,
            spans,
        ),
        mix_of(
            exported,
            sounding(
                project.tracks@,
                project.tracks@.len() as int,
                |c: Clip| original_audio(project, c),
            ),
            project.tracks@,
            earliest,
            spans,
        ),
        0 <= i < live.len(),
    ensures
        live.len() == exported.len(),
        live[i].track == exported[i].track,
        live[i].clip == exported[i].clip,
        live[i].placement == exported[i].placement,
        live[i].source_in == exported[i].source_in,
        live[i].speed == exported[i].speed,
        live[i].volume == exported[i].volume,
{
    law_preview_sounds_like_export(project, map);
    assert(mixes(
        live[i],
        sounding(
            project.tracks@,
            project.tracks@.len() as int,
            |c: Clip| preview_audio(project, map, c),
        )[i],
        project.tracks@,
        earliest,
        spans,
    ));
}

// ---------------------------------------------------------------------
// What a mix holds
// ---------------------------------------------------------------------

/// The mix is complete: every clip on a track that is not muted, and that has
/// a file to sound from, is in the list with that file, at exactly one place;
/// and the list is in timeline order, track by track and clip by clip.
pub proof fn law_every_audible_clip_sounds(
    tracks: Seq<Track>,
    file_of: spec_fn(Clip) -> Option<Seq<char>>,
    t: int,
    c: int,
)
    requires
        0 <= t < tracks.len(),
        0 <= c < tracks[t].clips@.len(),
    ensures
        !tracks[t].muted && file_of(tracks[t].clips@[c]) is Some ==> exists|i: int|
            #![trigger sounding(tracks, tracks.len() as int, file_of)[i]]
            0 <= i < sounding(tracks, tracks.len() as int, file_of).len() && sounding(
                tracks,
                tracks.len() as int,
                file_of,
            )[i].track == t && sounding(tracks, tracks.len() as int, file_of)[i].clip == c && Some(
                sounding(tracks, tracks.len() as int, file_of)[i].path,
            ) == file_of(tracks[t].clips@[c]),
        forall|i: int, j: int|
            0 <= i < j < sounding(tracks, tracks.len() as int, file_of).len() ==> {
                let a = #[trigger] sounding(tracks, tracks.len() as int, file_of)[i];
                let b = #[trigger] sounding(tracks, tracks.len() as int, file_of)[j];
                a.track < b.track || (a.track == b.track && a.clip < b.clip)
            },
{
    lemma_sounding_holds(tracks, tracks.len() as int, file_of, t, c);
    lemma_sounding_ordered(tracks, tracks.len() as int, file_of);
}

proof fn lemma_track_holds(
    clips: Seq<Clip>,
    t: int,
    n: int,
    file_of: spec_fn(Clip) -> Option<Seq<char>>,
    c: int,
)
    requires
        0 <= n <= clips.len(),
    ensures
        0 <= c < n && file_of(clips[c]) is Some ==> exists|i: int|
            #![trigger sounding_in_track(clips, t, n, file_of)[i]]
            0 <= i < sounding_in_track(clips, t, n, file_of).len() && sounding_in_track(
                clips,
                t,
                n,
                file_of,
            )[i] == (Sounding { track: t, clip: c, path: file_of(clips[c])->0 }),
        forall|i: int|
            0 <= i < sounding_in_track(clips, t, n, file_of).len() ==> (#[trigger] sounding_in_track(
                clips,
                t,
                n,
                file_of,
            )[i]).track == t && 0 <= sounding_in_track(clips, t, n, file_of)[i].clip < n,
        forall|i: int, j: int|
            0 <= i < j < sounding_in_track(clips, t, n, file_of).len() ==> (
            #[trigger] sounding_in_track(clips, t, n, file_of)[i]).clip < (
            #[trigger] sounding_in_track(clips, t, n, file_of)[j]).clip,
    decreases n,
{
    if n > 0 {
        lemma_track_holds(clips, t, n - 1, file_of, c);
        let before = sounding_in_track(clips, t, n - 1, file_of);
        let all = sounding_in_track(clips, t, n, file_of);
        if 0 <= c < n && file_of(clips[c]) is Some {
            let want = Sounding { track: t, clip: c, path: file_of(clips[c])->0 };
            if c == n - 1 {
                assert(all[before.len() as int] == want);
            } else {
                let i = choose|i: int| 0 <= i < before.len() && #[trigger] before[i] == want;
                assert(all[i] == want);
            }
        }
        assert forall|i: int| 0 <= i < all.len() implies (#[trigger] all[i]).track == t && 0
            <= all[i].clip < n by {
            if i < before.len() {
                assert(all[i] == before[i]);
            }
        }
        assert forall|i: int, j: int| 0 <= i < j < all.len() implies (#[trigger] all[i]).clip < (
        #[trigger] all[j]).clip by {
            assert(all[i] == before[i]);
            if j < before.len() {
                assert(all[j] == before[j]);
            }
        }
    }
}

proof fn lemma_sounding_holds(
    tracks: Seq<Track>,
    n: int,
    file_of: spec_fn(Clip) -> Option<Seq<char>>,
    t: int,
    c: int,
)
    requires
        0 <= n <= tracks.len(),
        0 <= t < tracks.len(),
        0 <= c < tracks[t].clips@.len(),
    ensures
        t < n && !tracks[t].muted && file_of(tracks[t].clips@[c]) is Some ==> exists|i: int|
            #![trigger sounding(tracks, n, file_of)[i]]
            0 <= i < sounding(tracks, n, file_of).len() && sounding(tracks, n, file_of)[i] == (
            Sounding { track: t, clip: c, path: file_of(tracks[t].clips@[c])->0 }),
    decreases n,
{
    if n > 0 && t < n && !tracks[t].muted && file_of(tracks[t].clips@[c]) is Some {
        lemma_sounding_holds(tracks, n - 1, file_of, t, c);
        let want = Sounding { track: t, clip: c, path: file_of(tracks[t].clips@[c])->0 };
        let before = sounding(tracks, n - 1, file_of);
        let all = sounding(tracks, n, file_of);
        if t < n - 1 {
            let i = choose|i: int| 0 <= i < before.len() && #[trigger] before[i] == want;
            assert(all[i] == want);
        } else {
            let clips = tracks[t].clips@;
            lemma_track_holds(clips, t, clips.len() as int, file_of, c);
            let own = sounding_in_track(clips, t, clips.len() as int, file_of);
            let i = choose|i: int| 0 <= i < own.len() && #[trigger] own[i] == want;
            assert(all[before.len() + i] == want);
        }
    }
}

proof fn lemma_sounding_ordered(
    tracks: Seq<Track>,
    n: int,
    file_of: spec_fn(Clip) -> Option<Seq<char>>,
)
    requires
        0 <= n <= tracks.len(),
    ensures
        forall|i: int|
            0 <= i < sounding(tracks, n, file_of).len() ==> 0 <= (#[trigger] sounding(
                tracks,
                n,
                file_of,
            )[i]).track < n,
        forall|i: int, j: int|
            0 <= i < j < sounding(tracks, n, file_of).len() ==> {
                let a = #[trigger] sounding(tracks, n, file_of)[i];
                let b = #[trigger] sounding(tracks, n, file_of)[j];
                a.track < b.track || (a.track == b.track && a.clip < b.clip)
            },
    decreases n,
{
    if n > 0 {
        lemma_sounding_ordered(tracks, n - 1, file_of);
        let clips = tracks[n - 1].clips@;
        lemma_track_holds(clips, n - 1, clips.len() as int, file_of, 0);
        let before = sounding(tracks, n - 1, file_of);
        let own = sounding_in_track(clips, n - 1, clips.len() as int, file_of);
        let all = sounding(tracks, n, file_of);
        assert forall|i: int| 0 <= i < all.len() implies 0 <= (#[trigger] all[i]).track < n by {
            if i < before.len() {
                assert(all[i] == before[i]);
            } else {
                assert(all[i] == own[i - before.len()]);
            }
        }
        assert forall|i: int, j: int| 0 <= i < j < all.len() implies ({
            let a = #[trigger] all[i];
            let b = #[trigger] all[j];
            a.track < b.track || (a.track == b.track && a.clip < b.clip)
        }) by {
            if j < before.len() {
                assert(all[i] == before[i] && all[j] == before[j]);
            } else if i < before.len() {
                assert(all[i] == before[i] && all[j] == own[j - before.len()]);
            } else {
                assert(all[i] == own[i - before.len()] && all[j] == own[j - before.len()]);
            }
        }
    }
}

/// In an export a clip sounds from the original file of the media it names, if
/// the pool holds that media and it has audio.
pub proof fn law_exports_sound_from_originals(project: Project, clip: Clip, k: int)
    requires
        0 <= k < project.media@.len(),
        clip.media_id == Some(project.media@[k].id),
        forall|j: int| 0 <= j < k ==> (#[trigger] project.media@[j]).id != project.media@[k].id,
    ensures
        project.media@[k].has_audio ==> original_audio(project, clip) == Some(
            project.media@[k].path@,
        ),
        !project.media@[k].has_audio ==> original_audio(project, clip) is None,
{
    project::lemma_media_pos(project.media@, project.media@[k].id);
}

/// A clip that names no media of the pool is silent in an export.
pub proof fn law_clips_without_media_are_silent(project: Project, clip: Clip)
    requires
        forall|k: int|
            0 <= k < project.media@.len() ==> clip.media_id != Some(
                (#[trigger] project.media@[k]).id,
            ),
    ensures
        original_audio(project, clip) is None,
{
    if let Some(id) = clip.media_id {
        project::lemma_media_pos(project.media@, id);
    }
}

/// What a media plays from in preview: its picture from its proxy only, its
/// sound from the proxy where it has audio, an audio-only media's sound from
/// its original, and nothing at all while the proxy is missing.
pub proof fn law_preview_files(map: Map<u64, SourceFiles>, id: u64)
    ensures
        !map.contains_key(id) ==> picture_file(map, id) is None && sound_file(map, id) is None,
        map.contains_key(id) ==> match map[id] {
            SourceFiles::Ready { proxy, has_audio } => picture_file(map, id) == Some(proxy@)
                && sound_file(map, id) == (if has_audio {
                Some(proxy@)
            } else {
                None
            }),
            SourceFiles::ProxyPending => picture_file(map, id) is None && sound_file(map, id)
                is None,
            SourceFiles::AudioOnly { original } => picture_file(map, id) is None && sound_file(
                map,
                id,
            ) == Some(original@),
        },
{
}

/// In preview a clip sounds from what its media plays its sound from, if the
/// pool holds the media and it has audio.
pub proof fn law_previews_sound_from_their_media(
    project: Project,
    map: Map<u64, SourceFiles>,
    clip: Clip,
)
    ensures
        preview_audio(project, map, clip) is Some ==> original_audio(project, clip) is Some,
        original_audio(project, clip) is Some ==> clip.media_id is Some && preview_audio(
            project,
            map,
            clip,
        ) == sound_file(map, clip.media_id->0),
{
    project::law_clips_show_the_media_they_name(project, clip);
}

/// Resolving the media of a project: a media with a picture plays from its
/// proxy, or waits for it; one with sound alone plays from its original; one
/// with neither is not resolved. Where an id occurs twice, the last media that
/// can play counts.
pub proof fn law_media_resolve_to_their_files(
    media: Seq<Media>,
    proxies: Seq<Option<String>>,
    k: int,
)
    requires
        0 <= k < media.len(),
        proxies.len() == media.len(),
    ensures
        ({
            let map = resolved(media, proxies, media.len() as int);
            let id = media[k].id;
            let plays = media[k].has_video || media[k].has_audio;
            let last = forall|j: int|
                k < j < media.len() ==> (#[trigger] media[j]).id != id || !(media[j].has_video
                    || media[j].has_audio);
            &&& plays ==> map.contains_key(id)
            &&& plays && last ==> {
                &&& media[k].has_video && proxies[k] is Some ==> map[id] == (SourceFiles::Ready {
                    proxy: proxies[k]->0,
                    has_audio: media[k].has_audio,
                })
                &&& media[k].has_video && proxies[k] is None ==> map[id] is ProxyPending
                &&& !media[k].has_video ==> map[id] == (SourceFiles::AudioOnly {
                    original: media[k].path,
                })
            }
            &&& (forall|j: int|
                0 <= j < media.len() && (#[trigger] media[j]).id == id ==> !media[j].has_video
                    && !media[j].has_audio) ==> !map.contains_key(id)
        }),
{
    lemma_resolved(media, proxies, media.len() as int, k);
}

proof fn lemma_resolved(media: Seq<Media>, proxies: Seq<Option<String>>, n: int, k: int)
    requires
        0 <= n <= media.len(),
        0 <= k < media.len(),
        proxies.len() == media.len(),
    ensures
        ({
            let map = resolved(media, proxies, n);
            let id = media[k].id;
            let plays = media[k].has_video || media[k].has_audio;
            let last = forall|j: int|
                k < j < n ==> (#[trigger] media[j]).id != id || !(media[j].has_video
                    || media[j].has_audio);
            &&& k < n && plays ==> map.contains_key(id)
            &&& k < n && plays && last ==> Some(map[id]) == files_of(media[k], proxies[k])
            &&& (forall|j: int|
                0 <= j < n && (#[trigger] media[j]).id == id ==> !media[j].has_video
                    && !media[j].has_audio) ==> !map.contains_key(id)
        }),
    decreases n,
{
    if n > 0 {
        lemma_resolved(media, proxies, n - 1, k);
        let m = media[n - 1];
        if k < n - 1 {
            let id = media[k].id;
            if forall|j: int|
                k < j < n ==> (#[trigger] media[j]).id != id || !(media[j].has_video
                    || media[j].has_audio) {
                assert(media[n - 1].id != id || !(media[n - 1].has_video || media[n
                    - 1].has_audio));
            }
        }
        if forall|j: int|
            0 <= j < n && (#[trigger] media[j]).id == media[k].id ==> !media[j].has_video
                && !media[j].has_audio {
            assert(m.id == media[k].id ==> !m.has_video && !m.has_audio);
        }
    }
}

/// A transition fades one clip out while the other fades in, over the same
/// span. The outgoing clip sounds on to the end of the last span it leaves by,
/// the incoming one starts with the last span it enters by, but never before
/// its source begins; a side without a span keeps its own cut and has no ramp.
pub proof fn law_transitions_crossfade(
    clip: Clip,
    earliest: Real,
    spans: Seq<TransitionSpan>,
    k: int,
)
    requires
        0 <= k < spans.len(),
    ensures
        ({
            let p = placed(clip, earliest, spans);
            let ramp = Some(FadeRamp { start: spans[k].start, end: spans[k].end });
            &&& spans[k].from_clip == clip.id && (forall|j: int|
                k < j < spans.len() ==> (#[trigger] spans[j]).from_clip != clip.id)
                ==> p.timeline_out == spans[k].end && p.fade_out == ramp
            &&& spans[k].to_clip == clip.id && spans[k].from_clip != clip.id && (forall|j: int|
                k < j < spans.len() ==> (#[trigger] spans[j]).to_clip != clip.id
                    || spans[j].from_clip == clip.id) ==> p.fade_in == ramp && p.starts_early
                && p.timeline_in == (if spans[k].start.nan() || spans[k].start.lt(earliest) {
                earliest
            } else {
                spans[k].start
            })
            &&& (forall|j: int| 0 <= j < spans.len() ==> (#[trigger] spans[j]).from_clip != clip.id)
                ==> p.timeline_out == clip.timeline_out && p.fade_out is None
            &&& (forall|j: int|
                0 <= j < spans.len() ==> (#[trigger] spans[j]).to_clip != clip.id) ==> p.timeline_in
                == clip.timeline_in && p.fade_in is None && !p.starts_early
        }),
    decreases spans.len(),
{
    let init = spans.drop_last();
    let last = spans[spans.len() - 1];
    assert forall|j: int| 0 <= j < init.len() implies #[trigger] init[j] == spans[j] by {}
    if init.len() == 0 {
        assert(placed(clip, earliest, init).fade_in is None);
    } else if k < init.len() {
        law_transitions_crossfade(clip, earliest, init, k);
        if forall|j: int| k < j < spans.len() ==> (#[trigger] spans[j]).from_clip != clip.id {
            assert(last.from_clip != clip.id);
            assert(forall|j: int| k < j < init.len() ==> (#[trigger] init[j]).from_clip != clip.id);
        }
        if forall|j: int|
            k < j < spans.len() ==> (#[trigger] spans[j]).to_clip != clip.id || spans[j].from_clip
                == clip.id {
            assert(last.to_clip != clip.id || last.from_clip == clip.id);
            assert(forall|j: int|
                k < j < init.len() ==> (#[trigger] init[j]).to_clip != clip.id || init[j].from_clip
                    == clip.id);
        }
    } else {
        law_transitions_crossfade(clip, earliest, init, 0);
    }
    if forall|j: int| 0 <= j < spans.len() ==> (#[trigger] spans[j]).from_clip != clip.id {
        assert(last.from_clip != clip.id);
        assert(forall|j: int| 0 <= j < init.len() ==> (#[trigger] init[j]).from_clip != clip.id);
    }
    if forall|j: int| 0 <= j < spans.len() ==> (#[trigger] spans[j]).to_clip != clip.id {
        assert(last.to_clip != clip.id);
        assert(forall|j: int| 0 <= j < init.len() ==> (#[trigger] init[j]).to_clip != clip.id);
    }
}

/// A segment of a mix plays its own clip: at the clip's source position, speed
/// and volume, where [`law_transitions_crossfade`] puts it.
pub proof fn law_mix_segments_play_their_clip(
    segments: Seq<MixSegment>,
    picks: Seq<Sounding>,
    tracks: Seq<Track>,
    earliest: Seq<Vec<Real>>,
    spans: Seq<TransitionSpan>,
    i: int,
)
    requires
        mix_of(segments, picks, tracks, earliest, spans),
        0 <= i < picks.len(),
    ensures
        segments.len() == picks.len(),
        segments[i].track == picks[i].track,
        segments[i].clip == picks[i].clip,
        segments[i].path@ == picks[i].path,
        ({
            let clip = tracks[picks[i].track].clips@[picks[i].clip];
            &&& segments[i].source_in == clip.source_in
            &&& segments[i].speed == clip.speed
            &&& segments[i].volume == clip.volume
            &&& segments[i].placement == placed(
                clip,
                earliest[picks[i].track]@[picks[i].clip],
                spans,
            )
        }),
{
    assert(mixes(segments[i], picks[i], tracks, earliest, spans));
}

/// A segment of the live mixer plays its own clip, as it lies on the timeline.
pub proof fn law_mixer_segments_play_their_clip(
    segments: Seq<AudioSegment>,
    picks: Seq<Sounding>,
    tracks: Seq<Track>,
    i: int,
)
    requires
        segments_match(segments, tracks, picks),
        0 <= i < picks.len(),
    ensures
        segments.len() == picks.len(),
        segments[i].track == picks[i].track,
        segments[i].clip == picks[i].clip,
        segments[i].path@ == picks[i].path,
        ({
            let clip = tracks[picks[i].track].clips@[picks[i].clip];
            &&& segments[i].timeline_in == clip.timeline_in
            &&& segments[i].timeline_out == clip.timeline_out
            &&& segments[i].source_in == clip.source_in
            &&& segments[i].speed == clip.speed
            &&& segments[i].volume == clip.volume
        }),
{
    assert(segments[i].track == picks[i].track);
}

/// The picks of an export name their track, clip and file.
pub proof fn law_picks_name_their_clip(picks: Seq<AudioPick>, i: int)
    requires
        0 <= i < picks.len(),
    ensures
        pick_views(picks).len() == picks.len(),
        pick_views(picks)[i].track == picks[i].track,
        pick_views(picks)[i].clip == picks[i].clip,
        pick_views(picks)[i].path == picks[i].path@,
{
}

/// A file is the same as another if both are there with the same text, or
/// neither is.
pub proof fn law_same_files(a: Option<String>, b: Option<Seq<char>>)
    ensures
        same_file(a, b) ==> (a is Some <==> b is Some),
        a is Some && b is Some ==> (same_file(a, b) <==> a->0@ == b->0),
        a is None && b is None ==> same_file(a, b),
{
}

} // verus!
