//! Timeline playback decisions.

use std::collections::VecDeque;

use cutty::audio_layout::{
    audio_placement, export_audio_mix, export_audio_timeline, mixer_timeline, preview_audio_mix,
    FadeRamp, SourceFiles, Sources, TransitionSpan,
};
use cutty::double::Real;
use cutty::framecache::CachedFrame;
use cutty::playback::{
    collapse_backlog, dispatch, find_clip, next_video_segment_after, video_segment_at, Boundary,
    Cmd, Handling, Segment,
};
use cutty::project::{BlendMode, Clip, Media, MediaKind, Project, Track, TrackKind};
use cutty::transport::{
    classify_frame, do_step, read_clock, Carryover, ClockSource, Decoded, EncodedFrame, FrameClass,
    PlayStep, Primed, PumpNext, PumpStep, ScrubEnd, ScrubStep, Scrubbed, SessionStep, Switch,
    Transport,
};

fn sec(v: f64) -> Real {
    Real { bits: v.to_bits() }
}

fn num(r: Real) -> f64 {
    f64::from_bits(r.bits)
}

fn clip(id: u64, media: Option<u64>, t_in: f64, s_in: f64, s_out: f64) -> Clip {
    Clip {
        id,
        media_id: media,
        timeline_in: sec(t_in),
        timeline_out: sec(t_in + (s_out - s_in)),
        source_in: sec(s_in),
        source_out: sec(s_out),
        speed: sec(1.0),
        volume: sec(1.0),
        opacity: sec(1.0),
        identity_transform: true,
        blend_mode: BlendMode::Normal,
        transition_out: false,
    }
}

fn track(id: u64, kind: TrackKind, clips: Vec<Clip>) -> Track {
    Track {
        id,
        kind,
        hidden: false,
        muted: false,
        clips,
    }
}

fn project_with(clips: &[(f64, f64, f64)]) -> Project {
    Project {
        media: vec![Media {
            id: 1,
            path: "/tmp/does-not-exist.mp4".to_string(),
            kind: MediaKind::Video,
            has_video: true,
            has_audio: true,
            has_alpha: false,
        }],
        tracks: vec![track(
            10,
            TrackKind::Video,
            clips
                .iter()
                .enumerate()
                .map(|(i, &(t, a, b))| clip(100 + i as u64, Some(1), t, a, b))
                .collect(),
        )],
    }
}

/// The clip shown at `t`: the first that covers it, tracks from the top.
fn active(p: &Project, t: f64) -> Option<u64> {
    p.tracks
        .iter()
        .filter(|tr| tr.kind == TrackKind::Video && !tr.hidden)
        .flat_map(|tr| tr.clips.iter())
        .find(|c| num(c.timeline_in) <= t && t < num(c.timeline_out))
        .map(|c| c.id)
}

fn segment_at(p: &Project, t: f64) -> Option<Segment> {
    video_segment_at(p, active(p, t))
}

fn boundaries_after(p: &Project, t: f64) -> Vec<Boundary> {
    let mut edges: Vec<f64> = p
        .tracks
        .iter()
        .flat_map(|tr| tr.clips.iter())
        .flat_map(|c| [num(c.timeline_in), num(c.timeline_out)])
        .filter(|&e| e > t)
        .collect();
    edges.sort_by(f64::total_cmp);
    edges.dedup();
    edges
        .into_iter()
        .map(|e| Boundary {
            at: sec(e),
            segment: segment_at(p, e),
        })
        .collect()
}

fn next_after(p: &Project, t: f64) -> Option<(f64, Segment)> {
    next_video_segment_after(segment_at(p, t), &boundaries_after(p, t)).map(|(at, s)| (num(at), s))
}

#[test]
fn video_segment_lookup_and_mapping() {
    let p = project_with(&[(1.0, 2.0, 5.0)]);
    assert!(segment_at(&p, 0.5).is_none());
    let seg = segment_at(&p, 2.0).unwrap();
    assert_eq!(num(seg.timeline_in), 1.0);
    let source_time = |t: f64| num(seg.source_in) + (t - num(seg.timeline_in)) * num(seg.speed);
    let timeline_pts = |s: f64| num(seg.timeline_in) + (s - num(seg.source_in)) / num(seg.speed);
    assert_eq!(source_time(2.0), 3.0);
    assert_eq!(timeline_pts(3.0), 2.0);
    assert_eq!((seg.clip_id, seg.media_id), (100, 1));
    assert!(seg.is_at(sec(1.0)) && seg.is_at(sec(3.9)));
    assert!(!seg.is_at(sec(4.0)) && !seg.is_at(sec(0.9)));
    assert!(find_clip(&p, 100).is_some());
    assert!(find_clip(&p, 7).is_none());
    assert!(video_segment_at(&p, Some(7)).is_none());
}

#[test]
fn next_segment_walks_gaps_and_cuts() {
    let p = project_with(&[(1.0, 0.0, 2.0), (3.0, 4.0, 6.0), (5.0, 0.0, 1.0)]);
    // From inside the first clip: the next segment starts at 3.
    let (at, seg) = next_after(&p, 1.5).unwrap();
    assert_eq!(at, 3.0);
    assert_eq!(num(seg.timeline_in), 3.0);
    // From the gap before clip 1.
    let (at, seg) = next_after(&p, 0.0).unwrap();
    assert_eq!(at, 1.0);
    assert_eq!(num(seg.timeline_in), 1.0);
    // Touching clips: from inside clip 2 the next is clip 3 at 5.
    let (at, seg) = next_after(&p, 4.0).unwrap();
    assert_eq!(at, 5.0);
    assert_eq!(num(seg.timeline_in), 5.0);
    // Past everything.
    assert!(next_after(&p, 6.0).is_none());
}

#[test]
fn backlog_collapses_seek_project_and_step_runs() {
    let mut backlog: VecDeque<Cmd<()>> = [
        Cmd::Seek(sec(1.0)),
        Cmd::Seek(sec(2.0)),
        Cmd::Seek(sec(3.0)),
        Cmd::Play,
        Cmd::Seek(sec(4.0)),
        Cmd::Step(1),
        Cmd::Step(1),
        Cmd::Step(-1),
    ]
    .into_iter()
    .collect();
    collapse_backlog(&mut backlog);
    assert_eq!(backlog.len(), 4);
    assert!(matches!(backlog[0], Cmd::Seek(t) if num(t) == 3.0));
    assert!(matches!(backlog[1], Cmd::Play));
    assert!(matches!(backlog[2], Cmd::Seek(t) if num(t) == 4.0));
    assert!(matches!(backlog[3], Cmd::Step(1)), "steps sum");
}

#[test]
fn only_the_last_project_of_a_run_survives() {
    let mut backlog: VecDeque<Cmd<u32>> = [
        Cmd::SetProject(1),
        Cmd::SetProject(2),
        Cmd::RefreshSources,
        Cmd::SetProject(3),
        Cmd::Pause,
        Cmd::Pause,
    ]
    .into_iter()
    .collect();
    collapse_backlog(&mut backlog);
    assert_eq!(backlog.len(), 5);
    assert!(matches!(backlog[0], Cmd::SetProject(2)));
    assert!(matches!(backlog[2], Cmd::SetProject(3)));
    assert!(matches!(backlog[4], Cmd::Pause), "other commands stay");
}

#[test]
fn commands_are_dispatched_by_transport_state() {
    assert!(matches!(dispatch::<()>(Cmd::TogglePlay, true), Handling::Pause));
    assert!(matches!(dispatch::<()>(Cmd::TogglePlay, false), Handling::Play));
    assert!(matches!(dispatch(Cmd::SetProject(4), true), Handling::Apply(4)));
    assert!(matches!(dispatch::<()>(Cmd::Stop, true), Handling::Stop));
    assert!(matches!(dispatch::<()>(Cmd::Play, true), Handling::Play));
    assert!(matches!(dispatch::<()>(Cmd::Pause, false), Handling::Pause));
    assert!(matches!(dispatch::<()>(Cmd::Step(-3), false), Handling::Step(-3)));
    assert!(matches!(dispatch::<()>(Cmd::RefreshSources, false), Handling::Refresh));
    assert!(matches!(dispatch::<()>(Cmd::Seek(sec(2.0)), false), Handling::Seek(t) if num(t) == 2.0));
}

#[test]
fn mixer_timeline_uses_volume_and_skips_muted_and_missing() {
    let mut p = project_with(&[(0.0, 0.0, 2.0)]);
    p.tracks[0].clips[0].volume = sec(0.5);
    let media_id = p.media[0].id;
    let mut sources = Sources::new();
    sources.map.insert(
        media_id,
        SourceFiles::Ready {
            proxy: "/proxy.mp4".to_string(),
            has_audio: true,
        },
    );
    let mt = mixer_timeline(&p, &sources);
    assert_eq!(mt.len(), 1);
    assert_eq!(num(mt[0].volume), 0.5);
    assert_eq!(mt[0].path, "/proxy.mp4");
    assert_eq!((mt[0].track, mt[0].clip), (0, 0));

    // Muted track → no segments.
    p.tracks[0].muted = true;
    assert!(mixer_timeline(&p, &sources).is_empty());
    p.tracks[0].muted = false;

    // Proxy pending → no segments (silence until refresh).
    sources.map.insert(media_id, SourceFiles::ProxyPending);
    assert!(mixer_timeline(&p, &sources).is_empty());
}

#[test]
fn audio_only_media_resolves_to_original_path() {
    let p = Project {
        media: vec![Media {
            id: 9,
            path: "/tmp/music.mp3".to_string(),
            kind: MediaKind::Audio,
            has_video: false,
            has_audio: true,
            has_alpha: false,
        }],
        tracks: vec![track(
            20,
            TrackKind::Audio,
            vec![clip(200, Some(9), 0.0, 0.0, 5.0)],
        )],
    };
    let mut sources = Sources::new();
    sources.rebuild(&p, &vec![None]);
    assert_eq!(sources.audio_path(9), Some("/tmp/music.mp3".to_string()));
    assert_eq!(sources.video_path(9), None);

    let mt = mixer_timeline(&p, &sources);
    assert_eq!(mt.len(), 1);
    assert_eq!(mt[0].path, "/tmp/music.mp3");
}

#[test]
fn the_live_mixer_plays_the_clips_of_the_export() {
    let mut p = project_with(&[(0.0, 0.0, 2.0), (3.0, 1.0, 2.0)]);
    p.media[0].path = "/original.mp4".to_string();
    p.tracks.push(track(77, TrackKind::Text, vec![clip(300, None, 0.0, 0.0, 5.0)]));
    p.tracks
        .push(track(78, TrackKind::Audio, vec![clip(301, Some(1), 5.0, 0.0, 1.0)]));
    let mut sources = Sources::new();
    sources.rebuild(&p, &vec![Some("/proxy.mp4".to_string())]);
    let live = mixer_timeline(&p, &sources);
    let export = export_audio_timeline(&p);
    assert_eq!(live.len(), 3);
    assert_eq!(export.len(), 3);
    for (a, b) in live.iter().zip(&export) {
        assert_eq!((a.track, a.clip), (b.track, b.clip));
        assert_eq!(a.path, "/proxy.mp4");
        assert_eq!(b.path, "/original.mp4");
    }
    assert_eq!((export[2].track, export[2].clip), (p.tracks.len() - 1, 0));
}

#[test]
fn video_media_wait_for_their_proxy() {
    let p = project_with(&[(0.0, 0.0, 2.0)]);
    let mut sources = Sources::new();
    sources.rebuild(&p, &vec![None]);
    assert!(sources.is_pending(1));
    assert_eq!(sources.video_path(1), None);
    assert_eq!(sources.audio_path(1), None);
    sources.rebuild(&p, &vec![Some("/proxy.mp4".to_string())]);
    assert!(!sources.is_pending(1));
    assert_eq!(sources.video_path(1), Some("/proxy.mp4".to_string()));
    assert_eq!(sources.audio_path(1), Some("/proxy.mp4".to_string()));
    assert!(!sources.is_pending(5));

    let mut silent = project_with(&[(0.0, 0.0, 2.0)]);
    silent.media[0].has_audio = false;
    sources.rebuild(&silent, &vec![Some("/proxy.mp4".to_string())]);
    assert_eq!(sources.audio_path(1), None);
    assert!(mixer_timeline(&silent, &sources).is_empty());
}

/// A|B touching at 2.0 with a 1s fade over [1.5, 2.5).
fn fade() -> Vec<TransitionSpan> {
    vec![TransitionSpan {
        from_clip: 1,
        to_clip: 2,
        start: sec(1.5),
        end: sec(2.5),
    }]
}

fn earliest(c: &Clip) -> Real {
    sec(num(c.timeline_in) - num(c.source_in) / num(c.speed))
}

fn placed_source_in(c: &Clip, timeline_in: f64, starts_early: bool) -> f64 {
    if starts_early {
        num(c.source_in) - (num(c.timeline_in) - timeline_in) * num(c.speed)
    } else {
        num(c.source_in)
    }
}

#[test]
fn outgoing_extends_to_span_end_with_fade_out() {
    let a = clip(1, Some(1), 0.0, 1.0, 3.0);
    let p = audio_placement(&a, earliest(&a), &fade());
    assert_eq!(num(p.timeline_in), 0.0);
    assert!((num(p.timeline_out) - 2.5).abs() < 1e-9, "extends to span end");
    assert_eq!(placed_source_in(&a, num(p.timeline_in), p.starts_early), 1.0);
    assert!(p.fade_in.is_none());
    let ramp = p.fade_out.unwrap();
    assert!((num(ramp.start) - 1.5).abs() < 1e-9);
    assert!((num(ramp.end) - 2.5).abs() < 1e-9);
}

#[test]
fn stepping_leaves_the_end_and_waiting_moves_on() {
    let mut t = Transport::new();
    assert_eq!((t.stats.cold_switches, t.stats.frames_presented), (0, 0));
    assert!(t.sources.map.is_empty() && t.sources.fps.is_empty());
    t.at_eof = true;
    assert_eq!(t.step(59, 1, 60), 59);
    assert!(!t.at_eof);
    t.waited(sec(1.25));
    assert_eq!(num(t.position), 1.25);
}

#[test]
fn mixes_place_every_sounding_clip() {
    let mut p = project_with(&[]);
    let mut a = clip(1, Some(1), 0.0, 1.0, 3.0);
    a.volume = sec(0.25);
    p.tracks[0].clips = vec![a, clip(2, Some(1), 2.0, 5.0, 7.0)];
    p.tracks[0].clips[1].speed = sec(2.0);
    let starts: Vec<Vec<Real>> = p
        .tracks
        .iter()
        .map(|t| t.clips.iter().map(earliest).collect())
        .collect();
    let mix = export_audio_mix(&p, &starts, &fade());
    assert_eq!(mix.len(), 2);
    for (i, s) in mix.iter().enumerate() {
        let c = &p.tracks[0].clips[i];
        assert_eq!((s.track, s.clip, s.path.as_str()), (0, i, "/tmp/does-not-exist.mp4"));
        assert_eq!(s.placement, audio_placement(c, earliest(c), &fade()));
        assert_eq!((s.source_in, s.speed, s.volume), (c.source_in, c.speed, c.volume));
    }
    assert_eq!(num(mix[0].placement.timeline_out), 2.5);
    assert_eq!(num(mix[1].placement.timeline_in), 1.5);

    // The live mix is the same, from the proxies.
    let mut sources = Sources::new();
    sources.rebuild(&p, &vec![Some("/proxy.mp4".to_string())]);
    let live = preview_audio_mix(&p, &sources, &starts, &fade());
    assert_eq!(live.len(), 2);
    for (l, e) in live.iter().zip(&mix) {
        assert_eq!(l.path, "/proxy.mp4");
        assert_eq!((l.track, l.clip, l.placement), (e.track, e.clip, e.placement));
        assert_eq!((l.source_in, l.speed, l.volume), (e.source_in, e.speed, e.volume));
    }

    p.tracks[0].muted = true;
    assert!(export_audio_mix(&p, &starts, &fade()).is_empty());
}

#[test]
fn incoming_starts_early_with_fade_in() {
    let b = clip(2, Some(1), 2.0, 5.0, 7.0);
    let p = audio_placement(&b, earliest(&b), &fade());
    assert!((num(p.timeline_in) - 1.5).abs() < 1e-9, "starts at span start");
    assert!(
        (placed_source_in(&b, num(p.timeline_in), p.starts_early) - 4.5).abs() < 1e-9,
        "source shifted back"
    );
    assert_eq!(num(p.timeline_out), 4.0);
    assert!(p.fade_in.is_some());
    assert!(p.fade_out.is_none());
}

#[test]
fn incoming_without_audio_handle_starts_at_its_cut() {
    // B starts at source 0 — the transition freezes its first video
    // frame across the pre-cut half; audio has nothing before sample
    // 0, so it starts at the cut.
    let b = clip(2, Some(1), 2.0, 0.0, 2.0);
    let p = audio_placement(&b, earliest(&b), &fade());
    assert!(
        (num(p.timeline_in) - 2.0).abs() < 1e-9,
        "no audio before source 0"
    );
    assert_eq!(placed_source_in(&b, num(p.timeline_in), p.starts_early), 0.0);
    let ramp: FadeRamp = p.fade_in.unwrap();
    assert_eq!((num(ramp.start), num(ramp.end)), (1.5, 2.5));
}

#[test]
fn a_clip_in_a_chain_fades_on_both_ends() {
    let mut spans = fade();
    spans.push(TransitionSpan {
        from_clip: 2,
        to_clip: 3,
        start: sec(3.5),
        end: sec(4.5),
    });
    let b = clip(2, Some(1), 2.0, 5.0, 7.0);
    let p = audio_placement(&b, earliest(&b), &spans);
    assert_eq!((num(p.timeline_in), num(p.timeline_out)), (1.5, 4.5));
    assert!(p.fade_in.is_some() && p.fade_out.is_some());

    let lone = clip(9, Some(1), 2.0, 5.0, 7.0);
    let p = audio_placement(&lone, earliest(&lone), &spans);
    assert_eq!((num(p.timeline_in), num(p.timeline_out)), (2.0, 4.0));
    assert!(p.fade_in.is_none() && p.fade_out.is_none() && !p.starts_early);
}

#[test]
fn export_audio_comes_from_originals() {
    let mut p = project_with(&[(0.0, 0.0, 2.0), (2.0, 0.0, 1.0)]);
    p.tracks.push(track(
        11,
        TrackKind::Text,
        vec![clip(300, None, 0.0, 0.0, 1.0)],
    ));
    let picks = export_audio_timeline(&p);
    assert_eq!(picks.len(), 2);
    assert_eq!((picks[1].track, picks[1].clip), (0, 1));
    assert_eq!(picks[0].path, "/tmp/does-not-exist.mp4");
    p.tracks[0].muted = true;
    assert!(export_audio_timeline(&p).is_empty());
    p.tracks[0].muted = false;
    p.media[0].has_audio = false;
    assert!(export_audio_timeline(&p).is_empty());
}

fn seg(clip_id: u64, media_id: u64, t_in: f64, t_out: f64) -> Segment {
    Segment {
        clip_id,
        media_id,
        timeline_in: sec(t_in),
        timeline_out: sec(t_out),
        source_in: sec(0.0),
        source_out: sec(t_out - t_in),
        speed: sec(1.0),
    }
}

fn frame(media_id: u64, pts: f64) -> EncodedFrame {
    EncodedFrame {
        timeline_pts: sec(pts),
        source_pts: sec(pts),
        media_id,
        width: 4,
        height: 2,
        jpeg: vec![1, 2, 3],
    }
}

fn ready_transport() -> Transport {
    let mut t = Transport::new();
    t.sources.rebuild(
        &project_with(&[(0.0, 0.0, 2.0)]),
        &vec![Some("/proxy.mp4".to_string())],
    );
    t
}

#[test]
fn steps_clamp_to_the_timeline() {
    assert_eq!(do_step(5, 1, 60), 6);
    assert_eq!(do_step(5, -6, 60), 0);
    assert_eq!(do_step(58, 5, 60), 59);
    assert_eq!(do_step(3, 1, 0), 0, "empty timeline");
    assert_eq!(do_step(i64::MAX, i64::MAX, 10), 9);
    assert_eq!(do_step(do_step(10, 7, 60), -7, 60), 10);
}

#[test]
fn frames_are_classified_against_cut_and_clock() {
    let class = |src: f64, t: f64| classify_frame(sec(src), sec(2.0), sec(t), sec(1.0));
    assert_eq!(class(2.0, 5.0), FrameClass::PastCut);
    assert_eq!(class(1.0, 0.5), FrameClass::Late);
    assert_eq!(class(1.0, 1.0), FrameClass::Show);
}

#[test]
fn the_pump_finishes_paces_resolves_and_decodes() {
    let mut t = ready_transport();
    t.started();
    assert!(matches!(t.pump_begin(sec(0.0), sec(10.0), sec(10.0)), PumpStep::Resolve));
    t.switch_to(&seg(1, 1, 0.0, 2.0), false, false);
    assert!(matches!(
        t.pump_begin(sec(1.0), sec(10.0), sec(10.0)),
        PumpStep::Decode(s) if s.clip_id == 1
    ));
    t.stash(frame(1, 1.0));
    assert!(matches!(
        t.pump_begin(sec(1.0), sec(10.0), sec(10.0)),
        PumpStep::Pace(f) if num(f.timeline_pts) == 1.0
    ));
    assert!(matches!(t.pump_begin(sec(2.0), sec(10.0), sec(10.0)), PumpStep::Resolve));
    assert!(matches!(t.pump_begin(sec(10.0), sec(10.0), sec(10.0)), PumpStep::Finish));
    assert!(t.at_eof && !t.playing && t.active.is_none());
    assert_eq!(num(t.position), 10.0);
}

#[test]
fn decode_outcomes_drive_the_pump() {
    let mut t = ready_transport();
    let s = seg(1, 1, 0.0, 2.0);
    t.session_opened(1, sec(30.0));
    t.switch_to(&s, false, true);
    assert!(matches!(t.pump_decoded(&s, Decoded::Frame(frame(1, 0.5))), PumpNext::Pace(_)));
    assert!(matches!(t.pump_decoded(&s, Decoded::Late), PumpNext::Continue));
    assert_eq!(t.stats.frames_dropped, 1);
    assert!(matches!(t.pump_decoded(&s, Decoded::NoSession), PumpNext::BlackToEnd));
    assert!(t.active.is_some());
    let carry = Carryover {
        media_id: 1,
        source_pts: sec(2.0),
        width: 4,
        height: 2,
        jpeg: vec![7],
    };
    assert!(matches!(
        t.pump_decoded(&s, Decoded::PastCut(Some(carry))),
        PumpNext::WaitPastCut
    ));
    assert!(t.active.is_none() && t.carryover.is_some());

    t.switch_to(&s, false, false);
    let broken = || Decoded::Failed("decode failed: x".to_string());
    assert!(matches!(t.pump_decoded(&s, broken()), PumpNext::Drop { report: true }));
    assert!(t.sessions.is_empty(), "a broken decoder is closed");
    assert!(matches!(t.pump_decoded(&s, broken()), PumpNext::Drop { report: false }));
    t.switch_to(&s, false, false);
    assert!(matches!(t.pump_decoded(&s, Decoded::SourceDry), PumpNext::BlackToEnd));
    assert!(t.active.is_none());
}

fn primed(clip_id: u64, media_id: u64) -> Primed {
    Primed {
        clip_id,
        media_id,
        first_src_pts: sec(0.0),
        fps: sec(25.0),
        width: 4,
        height: 2,
        jpeg: vec![9],
    }
}

#[test]
fn switches_prefer_warm_paths() {
    let mut t = ready_transport();
    let s = seg(5, 1, 2.0, 4.0);
    t.session_opened(1, sec(30.0));
    let carry = |media_id| {
        Some(Carryover {
            media_id,
            source_pts: sec(2.0),
            width: 4,
            height: 2,
            jpeg: vec![7],
        })
    };
    t.carryover = carry(1);
    assert!(matches!(t.switch_to(&s, true, false), Switch::Continuous(_)));
    assert_eq!((t.stats.warm_switches, t.stats.cold_switches), (1, 0));

    // A far or foreign carryover is dropped.
    t.carryover = carry(1);
    assert!(matches!(t.switch_to(&s, false, true), Switch::Positioned));
    t.carryover = carry(2);
    assert!(matches!(t.switch_to(&s, true, true), Switch::Positioned));
    assert!(t.carryover.is_none());

    // Only a matching prime is consumed.
    t.in_flight = Some(8);
    assert!(t.primed_ready(primed(8, 3)));
    assert!(matches!(t.switch_to(&s, false, false), Switch::Cold));
    assert!(t.primed.is_some());
    let later = seg(8, 3, 4.0, 5.0);
    assert!(matches!(t.switch_to(&later, false, false), Switch::Primed(p) if p.media_id == 3));
    assert!(t.primed.is_none());
    assert_eq!(t.sessions, vec![1, 3]);
    assert_eq!(t.sources.fps.get(&3).map(|f| num(*f)), Some(25.0));
    assert_eq!((t.stats.warm_switches, t.stats.cold_switches), (4, 1));
    assert_eq!(t.active.unwrap().clip_id, 8);
}

#[test]
fn sessions_out_of_range_are_closed() {
    let mut t = ready_transport();
    for id in [1, 2, 3, 4] {
        t.session_opened(id, sec(30.0));
    }
    t.session_opened(2, sec(24.0));
    assert_eq!(t.sessions, vec![1, 2, 3, 4]);
    t.in_flight = Some(8);
    t.primed_ready(primed(8, 4));
    t.gc_sessions(1, Some(3));
    assert_eq!(t.sessions, vec![1, 3, 4]);
    t.primed = None;
    t.gc_sessions(4, None);
    assert_eq!(t.sessions, vec![4]);
}

#[test]
fn priming_is_asked_for_once() {
    let mut t = ready_transport();
    let current = seg(1, 1, 0.0, 2.0);
    let next = seg(2, 1, 2.0, 4.0);
    assert!(t.plan_lookahead(&current, Some(next), false, false).is_none(), "not in sight");
    assert!(t.plan_lookahead(&current, None, true, false).is_none(), "nothing follows");
    assert!(t.plan_lookahead(&current, Some(next), true, true).is_none(), "split point");
    let req = t.plan_lookahead(&current, Some(next), true, false).unwrap();
    assert_eq!((req.clip_id, req.media_id, req.path.as_str()), (2, 1, "/proxy.mp4"));
    assert!(t.request_prime(&next).is_none(), "already on it");
    assert!(!t.primed_ready(primed(7, 1)), "stale results are dropped");
    assert!(t.primed_ready(primed(2, 1)));
    assert!(t.request_prime(&next).is_none(), "already done");
    assert!(t.request_prime(&seg(3, 44, 4.0, 5.0)).is_none(), "no proxy");
    t.in_flight = Some(6);
    assert!(t.prime_failed(6, "boom"));
    assert_eq!(t.in_flight, None);
    assert!(!t.prime_failed(6, "boom"), "said once");
    assert_eq!(t.reported, vec!["priming next clip failed: boom".to_string()]);
}

#[test]
fn gaps_wake_at_the_next_segment() {
    let mut t = ready_transport();
    let next = seg(2, 1, 5.0, 6.0);
    let (req, wake) = t.idle_through_gap(Some((sec(5.0), next)), false, sec(1.1), sec(9.0));
    assert!(req.is_none());
    assert_eq!(num(wake), 1.1);
    let (req, wake) = t.idle_through_gap(Some((sec(5.0), next)), true, sec(5.05), sec(9.0));
    assert!(req.is_some());
    assert_eq!(num(wake), 5.0);
    let (req, wake) = t.idle_through_gap(None, true, sec(9.1), sec(9.0));
    assert!(req.is_none());
    assert_eq!(num(wake), 9.0);
}

#[test]
fn sessions_are_opened_or_explained() {
    let mut t = ready_transport();
    assert!(matches!(t.session_for(1), SessionStep::Open(p) if p == "/proxy.mp4"));
    let (text, report) = t.session_failed("/proxy.mp4", "bad file");
    assert_eq!(text, "open /proxy.mp4 failed: bad file");
    assert!(report);
    assert!(!t.session_failed("/proxy.mp4", "bad file").1);
    t.session_opened(1, sec(30.0));
    assert!(matches!(t.session_for(1), SessionStep::Ready));
    match t.session_for(77) {
        SessionStep::Unavailable { text, report } => {
            assert_eq!(text, "no playable video for media 77");
            assert!(report);
        }
        _ => panic!("nothing to open"),
    }
    t.sources.rebuild(&project_with(&[(0.0, 0.0, 2.0)]), &vec![None]);
    t.sessions.clear();
    match t.session_for(1) {
        SessionStep::Unavailable { text, .. } => {
            assert_eq!(text, "preview not ready yet — proxy still generating")
        }
        _ => panic!("proxy pending"),
    }
}

#[test]
fn scrubbing_serves_visited_content_from_the_cache() {
    let mut t = ready_transport();
    let s = seg(1, 1, 0.0, 2.0);
    assert!(matches!(t.scrub_begin(sec(3.0), None, None), ScrubStep::Black));
    assert_eq!(num(t.position), 3.0);
    assert!(matches!(t.scrub_begin(sec(1.0), Some(s), Some(30)), ScrubStep::Cold(_)));
    let event = t.present(frame(1, 1.0), sec(1.0), Some(30));
    assert_eq!((num(event.pts_sec), event.width, event.jpeg.len()), (1.0, 4, 3));
    assert_eq!(t.stats.frames_presented, 1);
    match t.scrub_begin(sec(1.0), Some(s), Some(30)) {
        ScrubStep::Cached { source_pts, jpeg, .. } => {
            assert_eq!(num(source_pts), 1.0);
            assert_eq!(jpeg, vec![1, 2, 3]);
        }
        _ => panic!("visited"),
    }
    assert!(matches!(t.scrub_begin(sec(1.0), Some(s), None), ScrubStep::Cold(_)));

    t.session_opened(1, sec(30.0));
    assert!(matches!(t.scrub_end(&s, Scrubbed::NoFrame), ScrubEnd::Black));
    assert!(matches!(t.scrub_end(&s, Scrubbed::Frame(frame(1, 1.0))), ScrubEnd::Present(_)));
    match t.scrub_end(&s, Scrubbed::JpegFailed("j".to_string())) {
        ScrubEnd::Report { text, report } => {
            assert_eq!(text, "jpeg encode: j");
            assert!(report);
        }
        _ => panic!("report"),
    }
    assert_eq!(t.sessions.len(), 1);
    match t.scrub_end(&s, Scrubbed::DecodeFailed("d".to_string())) {
        ScrubEnd::BlackAfterError { text, report } => {
            assert_eq!(text, "decode failed: d");
            assert!(report);
        }
        _ => panic!("black"),
    }
    assert!(t.sessions.is_empty());
}

#[test]
fn black_is_shown_once() {
    let mut t = ready_transport();
    assert!(t.present_black(sec(1.0)));
    t.black_shown();
    assert!(!t.present_black(sec(2.0)));
    assert_eq!(num(t.position), 2.0);
    t.present(frame(1, 2.0), sec(2.0), None);
    assert!(t.present_black(sec(3.0)), "a frame came in between");
}

#[test]
fn transport_commands_stay_on_the_timeline() {
    let mut t = ready_transport();
    assert_eq!(t.do_play(sec(0.0), sec(0.0)), PlayStep::Nothing);
    assert_eq!(t.do_play(sec(5.0), sec(5.0)), PlayStep::Start);
    t.position = sec(5.0);
    assert_eq!(t.do_play(sec(5.0), sec(5.0)), PlayStep::FromTop);
    t.started();
    assert!(t.playing);
    t.do_pause(sec(7.0), sec(5.0));
    assert_eq!(num(t.position), 5.0);
    assert!(!t.playing);
    assert_eq!(num(t.do_seek(sec(-3.0), sec(5.0))), 0.0);
    assert_eq!(num(t.do_seek(sec(2.5), sec(5.0))), 2.5);
    assert_eq!(num(t.do_seek(sec(9.0), sec(5.0))), 5.0);
    assert_eq!(num(t.do_seek(sec(9.0), sec(-1.0))), 0.0);
}

#[test]
fn edits_refresh_or_keep_rolling() {
    let mut t = ready_transport();
    t.position = sec(4.0);
    t.primed = Some(primed(2, 1));
    t.in_flight = Some(3);
    assert_eq!(t.apply_project(None, sec(3.0)).map(num), Some(3.0));
    assert!(t.primed.is_none() && t.in_flight.is_none());

    let s = seg(1, 1, 0.0, 2.0);
    t.started();
    t.switch_to(&s, false, true);
    t.stash(frame(1, 0.5));
    assert!(t.apply_project(Some(s), sec(3.0)).is_none());
    assert!(t.active.is_some() && t.pending_frame.is_some());
    let mut negative = s;
    negative.timeline_in = sec(-0.0);
    assert!(t.apply_project(Some(negative), sec(3.0)).is_none());
    assert!(t.active.is_some(), "negative zero is zero");
    assert!(t.apply_project(Some(seg(1, 1, 0.0, 1.5)), sec(3.0)).is_none());
    assert!(t.active.is_none() && t.pending_frame.is_none());

    t.black_shown();
    assert!(t.do_refresh().is_none());
    assert!(t.showing_black);
    t.do_pause(sec(1.0), sec(3.0));
    assert_eq!(t.do_refresh().map(num), Some(1.0));
    assert!(!t.showing_black);
}

#[test]
fn reports_are_made_once() {
    let mut t = Transport::new();
    assert!(t.report("a"));
    assert!(t.report("b"));
    assert!(!t.report("a"));
    assert_eq!(t.reported.len(), 2);
}

#[test]
fn a_stalled_clock_is_taken_over_and_handed_back() {
    let idle = read_clock(false, false, false, false, true);
    assert!(idle.source == ClockSource::Audio && !idle.engage);
    let moving = read_clock(false, false, true, true, true);
    assert!(moving.source == ClockSource::Audio && moving.advance && !moving.engage);
    let stalled = read_clock(false, false, true, false, true);
    assert!(stalled.source == ClockSource::Wall && stalled.engage);
    let held = read_clock(true, false, true, true, false);
    assert!(held.source == ClockSource::Wall && !held.hand_back && !held.engage);
    let back = read_clock(true, true, true, false, false);
    assert!(back.source == ClockSource::Audio && back.hand_back && back.advance);
}

#[test]
fn cached_frames_keep_their_size() {
    let mut t = ready_transport();
    t.cache.insert(
        (1, 3),
        CachedFrame {
            source_pts_sec: sec(0.1),
            width: 10,
            height: 20,
            jpeg: vec![5; 5],
        },
    );
    match t.scrub_begin(sec(0.1), Some(seg(1, 1, 0.0, 2.0)), Some(3)) {
        ScrubStep::Cached { width, height, jpeg, .. } => {
            assert_eq!((width, height, jpeg.len()), (10, 20, 5))
        }
        _ => panic!("cached"),
    }
}
