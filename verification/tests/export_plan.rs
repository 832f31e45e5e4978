//! Export planning and ffmpeg argument lists.

use cutty::double::Real;
use cutty::encoders::H264Encoder;
use cutty::project::{BlendMode, Clip, Media, MediaKind, Project, Track, TrackKind};
use cutty::render::{
    fast_path_eligible, plan_video_segments, sole_video_track, visually_default, CancelToken,
    ExportQuality, ExportSpec, FrameWindow, PlannedSegment, SegmentSource,
};
use cutty::render_args::{
    clip_filter, concat_list, encoder_args, mux_args, raw_export_args, segment_args, ClipTiming,
};

fn sec(v: f64) -> Real {
    Real { bits: v.to_bits() }
}

fn num(r: Real) -> f64 {
    f64::from_bits(r.bits)
}

fn spec(w: u32, h: u32, fps: f64) -> ExportSpec {
    ExportSpec {
        width: w,
        height: h,
        fps: sec(fps),
        fps_text: format!("{fps}"),
        gop: (fps * 2.0).round() as u32,
        quality: ExportQuality::Medium,
        dst: "/tmp/out.mp4".to_string(),
    }
}

fn clip(id: u64, media: Option<u64>, t_in: f64, s_in: f64, s_out: f64) -> Clip {
    Clip {
        id,
        media_id: media,
        timeline_in: sec(t_in),
        timeline_out: sec(t_in + (s_out - s_in)),
        source_in: sec(s_in),
        source_out: sec(s_out),
        speed: sec(1.0),
        volume: sec(1.0),
        opacity: sec(1.0),
        identity_transform: true,
        blend_mode: BlendMode::Normal,
        transition_out: false,
    }
}

fn track(id: u64, kind: TrackKind, clips: Vec<Clip>) -> Track {
    Track {
        id,
        kind,
        hidden: false,
        muted: false,
        clips,
    }
}

fn media(id: u64, path: &str, kind: MediaKind, has_video: bool) -> Media {
    Media {
        id,
        path: path.to_string(),
        kind,
        has_video,
        has_audio: true,
        has_alpha: false,
    }
}

/// One A/V media and the given video clips (timeline_in, source_in,
/// source_out), over an audio and a text lane.
fn project_with(clips: &[(f64, f64, f64)]) -> Project {
    Project {
        media: vec![media(1, "/tmp/a.mp4", MediaKind::Video, true)],
        tracks: vec![
            track(
                10,
                TrackKind::Video,
                clips
                    .iter()
                    .enumerate()
                    .map(|(i, &(t, a, b))| clip(100 + i as u64, Some(1), t, a, b))
                    .collect(),
            ),
            track(11, TrackKind::Audio, Vec::new()),
            track(12, TrackKind::Text, Vec::new()),
        ],
    }
}

fn frame_at(t: f64, fps: f64) -> i64 {
    (t * fps).round() as i64
}

fn timeline_end(p: &Project) -> f64 {
    p.tracks
        .iter()
        .flat_map(|t| t.clips.iter())
        .map(|c| num(c.timeline_out))
        .fold(0.0, f64::max)
}

fn plan(p: &Project, fps: f64) -> Vec<PlannedSegment> {
    let end = timeline_end(p);
    let windows: Vec<FrameWindow> = match sole_video_track(p) {
        Some(i) => p.tracks[i]
            .clips
            .iter()
            .map(|c| FrameWindow {
                start: frame_at(num(c.timeline_in), fps),
                end: frame_at(num(c.timeline_out).min(end), fps),
            })
            .collect(),
        None => Vec::new(),
    };
    plan_video_segments(p, &windows, frame_at(end, fps))
}

fn is_black(s: &PlannedSegment) -> bool {
    matches!(s.source, SegmentSource::Black)
}

/// The speed of a clip segment.
fn speed(p: &Project, s: &PlannedSegment) -> f64 {
    match &s.source {
        SegmentSource::Clip { clip, .. } => {
            num(p.tracks[sole_video_track(p).unwrap()].clips[*clip].speed)
        }
        SegmentSource::Black => panic!("expected clip"),
    }
}

/// Where in the source the first frame of a clip segment lies.
fn source_in(p: &Project, s: &PlannedSegment, fps: f64) -> f64 {
    match &s.source {
        SegmentSource::Clip { path, clip } => {
            assert_eq!(path, "/tmp/a.mp4");
            let c = &p.tracks[sole_video_track(p).unwrap()].clips[*clip];
            let grid = s.start_frame as f64 / fps;
            (num(c.source_in) + (grid - num(c.timeline_in)) * num(c.speed)).max(0.0)
        }
        SegmentSource::Black => panic!("expected clip"),
    }
}

#[test]
fn plans_clips_gaps_and_frame_grid_exactly() {
    // [1.0, 2.5) and [4.0, 6.0): leading gap, middle gap, no tail.
    let p = project_with(&[(1.0, 2.0, 3.5), (4.0, 0.0, 2.0)]);
    let segs = plan(&p, 30.0);
    assert_eq!(segs.len(), 4);

    assert!(is_black(&segs[0]));
    assert_eq!((segs[0].start_frame, segs[0].end_frame), (0, 30));
    assert!((source_in(&p, &segs[1], 30.0) - 2.0).abs() < 1e-9);
    assert_eq!(speed(&p, &segs[1]), 1.0);
    assert_eq!((segs[1].start_frame, segs[1].end_frame), (30, 75));
    assert!(is_black(&segs[2]));
    assert_eq!((segs[2].start_frame, segs[2].end_frame), (75, 120));
    assert_eq!((segs[3].start_frame, segs[3].end_frame), (120, 180));

    // Segments tile the whole timeline with no gaps or overlaps.
    for pair in segs.windows(2) {
        assert_eq!(pair[0].end_frame, pair[1].start_frame);
    }
}

#[test]
fn plans_black_tail_under_longer_audio() {
    let mut p = project_with(&[(0.0, 0.0, 2.0)]);
    p.media.push(media(2, "/tmp/m.mp3", MediaKind::Audio, false));
    p.tracks[1].clips.push(clip(200, Some(2), 0.0, 0.0, 5.0));
    let segs = plan(&p, 30.0);

    assert_eq!(segs.len(), 2);
    assert!(matches!(segs[0].source, SegmentSource::Clip { .. }));
    assert_eq!((segs[0].start_frame, segs[0].end_frame), (0, 60));
    assert!(is_black(&segs[1]));
    assert_eq!(
        (segs[1].start_frame, segs[1].end_frame),
        (60, 150),
        "black under the music tail"
    );
}

#[test]
fn plan_snaps_off_grid_cuts_without_drift() {
    // Cuts at 1/3-second positions: every boundary lands on one frame
    // index, and counts still sum to the total.
    let p = project_with(&[(0.0, 0.0, 1.0 / 3.0), (1.0 / 3.0, 5.0, 5.0 + 2.0 / 3.0)]);
    let segs = plan(&p, 30.0);
    assert_eq!(segs.len(), 2);
    assert_eq!((segs[0].start_frame, segs[0].end_frame), (0, 10));
    assert_eq!((segs[1].start_frame, segs[1].end_frame), (10, 30));
    // Grid start 10/30 == timeline_in exactly here.
    assert!((source_in(&p, &segs[1], 30.0) - 5.0).abs() < 1e-9);
}

#[test]
fn plan_of_empty_project_is_empty() {
    let p = project_with(&[]);
    assert!(plan(&p, 30.0).is_empty());
}

#[test]
fn hidden_video_track_plans_black() {
    let mut p = project_with(&[(0.0, 0.0, 2.0)]);
    for t in &mut p.tracks {
        if t.kind == TrackKind::Video {
            t.hidden = true;
        }
    }
    let segs = plan(&p, 30.0);
    assert_eq!(segs.len(), 1);
    assert!(is_black(&segs[0]));
    assert_eq!(segs[0].frames(), 60);

    // Muting, by contrast, silences audio only — the picture plans
    // as usual.
    let mut p = project_with(&[(0.0, 0.0, 2.0)]);
    for t in &mut p.tracks {
        t.muted = true;
    }
    let segs = plan(&p, 30.0);
    assert_eq!(segs.len(), 1);
    assert!(matches!(segs[0].source, SegmentSource::Clip { .. }));
}

#[test]
fn overlapping_windows_never_go_back() {
    let p = project_with(&[(0.0, 0.0, 2.0), (1.0, 4.0, 5.0), (1.5, 0.0, 2.0)]);
    let segs = plan(&p, 10.0);
    let spans: Vec<(i64, i64)> = segs.iter().map(|s| (s.start_frame, s.end_frame)).collect();
    assert_eq!(spans, vec![(0, 20), (20, 35)]);
    assert_eq!(segs.iter().map(|s| s.frames()).sum::<i64>(), 35);
}

#[test]
fn clip_filter_shape() {
    let s = spec(1080, 1920, 30.0);
    let f = clip_filter(&s, &None, false);
    assert!(f.starts_with("setpts=PTS-STARTPTS,fps=30,"));
    assert!(f.contains("scale=1080:1920:force_original_aspect_ratio=decrease"));
    assert!(f.contains("out_color_matrix=bt709"));
    assert!(f.contains("pad=1080:1920:(ow-iw)/2:(oh-ih)/2:color=black"));
    assert!(f.contains("setsar=1"));
    assert!(f.ends_with("tpad=stop_mode=clone:stop=-1"));

    let hw = clip_filter(&s, &None, true);
    assert!(hw.ends_with("format=nv12,hwupload"));

    let fast = clip_filter(&s, &Some(format!("{}", 2.0)), false);
    assert!(fast.starts_with("setpts=(PTS-STARTPTS)/2,"));
}

/// The texts of a clip read at `source_in` for `frames` output frames.
fn timing(spec: &ExportSpec, source_in: f64, speed: f64, frames: i64) -> ClipTiming {
    let fps = num(spec.fps);
    let span = frames as f64 / fps * speed;
    ClipTiming {
        source_in: format!("{source_in:.6}"),
        read_span: format!("{:.6}", span + 2.0 * speed / fps),
        speed: if (speed - 1.0).abs() < 1e-9 {
            None
        } else {
            Some(format!("{speed}"))
        },
    }
}

fn clip_segment(path: &str, start_frame: i64, end_frame: i64) -> PlannedSegment {
    PlannedSegment {
        source: SegmentSource::Clip {
            path: path.to_string(),
            clip: 0,
        },
        start_frame,
        end_frame,
    }
}

#[test]
fn segment_args_shape_clip_and_black() {
    let s = spec(1920, 1080, 30.0);
    let seg = clip_segment("/media/in.mkv", 0, 90);
    let t = timing(&s, 12.25, 1.0, 90);
    let args = segment_args(&s, &H264Encoder::X264, &seg, &t, "/t/seg.mp4");
    let joined = args.join(" ");
    assert!(joined.starts_with("-ss 12.250000 -t 3.066667 -i /media/in.mkv"));
    assert!(joined.contains("-frames:v 90"));
    assert!(joined.contains("-c:v libx264 -preset medium -crf 23"));
    assert!(joined.contains("-pix_fmt yuv420p"));
    assert!(joined.contains("-g 60"));
    assert!(joined.contains("-colorspace bt709"));
    assert!(joined.contains("-an"));
    assert!(joined.ends_with("-y /t/seg.mp4"));

    let black = PlannedSegment {
        source: SegmentSource::Black,
        start_frame: 90,
        end_frame: 120,
    };
    let args = segment_args(&s, &H264Encoder::X264, &black, &t, "/t/b.mp4");
    let joined = args.join(" ");
    assert!(joined.contains("-f lavfi -i color=black:size=1920x1080:rate=30"));
    assert!(joined.contains("-frames:v 30"));
}

#[test]
fn segment_args_vaapi_uses_device_and_hwupload() {
    let s = spec(1920, 1080, 30.0);
    let enc = H264Encoder::Vaapi {
        device: "/dev/dri/renderD128".to_string(),
    };
    let seg = clip_segment("/a.mp4", 0, 30);
    let t = timing(&s, 0.0, 1.0, 30);
    let joined = segment_args(&s, &enc, &seg, &t, "/t/s.mp4").join(" ");
    assert!(joined.starts_with("-vaapi_device /dev/dri/renderD128 "));
    assert!(joined.contains("hwupload"));
    assert!(joined.contains("-c:v h264_vaapi -rc_mode CQP -qp 24"));
    assert!(!joined.contains("-pix_fmt"), "vaapi formats via hwupload");
}

#[test]
fn encoder_args_in_full() {
    let tail = "-g 60 -colorspace bt709 -color_primaries bt709 -color_trc bt709 -fps_mode cfr";
    let s = spec(1920, 1080, 30.0);
    assert_eq!(
        encoder_args(&s, &H264Encoder::Nvenc).join(" "),
        format!("-c:v h264_nvenc -preset p5 -rc vbr -cq 24 -b:v 0 -pix_fmt yuv420p {tail}")
    );
    assert_eq!(
        encoder_args(&s, &H264Encoder::X264).join(" "),
        format!("-c:v libx264 -preset medium -crf 23 -pix_fmt yuv420p {tail}")
    );
    let vaapi = H264Encoder::Vaapi {
        device: "/d".to_string(),
    };
    assert_eq!(
        encoder_args(&s, &vaapi).join(" "),
        format!("-c:v h264_vaapi -rc_mode CQP -qp 24 {tail}")
    );
    let black = PlannedSegment {
        source: SegmentSource::Black,
        start_frame: 0,
        end_frame: 3,
    };
    let t = timing(&s, 0.0, 1.0, 3);
    assert_eq!(
        segment_args(&s, &vaapi, &black, &t, "/o.mp4").join(" "),
        format!(
            "-vaapi_device /d -f lavfi -i color=black:size=1920x1080:rate=30 \
             -vf format=nv12,hwupload -frames:v 3 -c:v h264_vaapi -rc_mode CQP -qp 24 {tail} \
             -an -y /o.mp4"
        )
    );
}

#[test]
fn fast_path_requires_single_default_track() {
    // Plain single track: eligible.
    let base = || project_with(&[(0.0, 0.0, 2.0), (2.0, 3.0, 5.0)]);
    assert!(fast_path_eligible(&base()));

    // Any non-default visual parameter disqualifies.
    let mut transformed = base();
    transformed.tracks[0].clips[0].identity_transform = false;
    assert!(!fast_path_eligible(&transformed));
    let mut faded = base();
    faded.tracks[0].clips[1].opacity = sec(0.9);
    assert!(!fast_path_eligible(&faded));
    let mut blended = base();
    blended.tracks[0].clips[0].blend_mode = BlendMode::Screen;
    assert!(!fast_path_eligible(&blended));

    // A second video track with clips disqualifies…
    let mut multi = base();
    multi.tracks.insert(
        0,
        track(999, TrackKind::Video, vec![clip(998, Some(1), 0.0, 0.0, 2.0)]),
    );
    assert!(!fast_path_eligible(&multi));
    // …unless it is hidden (⇒ nothing to composite). Muted alone
    // doesn't help — a muted track still shows its picture.
    multi.tracks[0].muted = true;
    assert!(!fast_path_eligible(&multi));
    multi.tracks[0].hidden = true;
    assert!(fast_path_eligible(&multi));

    // No video clips at all (audio-only timeline): eligible.
    let mut empty = base();
    empty.tracks[0].clips.clear();
    assert!(fast_path_eligible(&empty));
}

#[test]
fn special_media_and_text_need_the_compositor() {
    let base = || project_with(&[(0.0, 0.0, 2.0)]);
    let mut still = base();
    still.media[0].kind = MediaKind::Image;
    assert!(!fast_path_eligible(&still));
    let mut gif = base();
    gif.media[0].kind = MediaKind::Gif;
    assert!(!fast_path_eligible(&gif));
    let mut alpha = base();
    alpha.media[0].has_alpha = true;
    assert!(!fast_path_eligible(&alpha));
    let mut orphan = base();
    orphan.tracks[0].clips[0].media_id = Some(77);
    assert!(!fast_path_eligible(&orphan));
    let mut transition = base();
    transition.tracks[0].clips[0].transition_out = true;
    assert!(!visually_default(&transition.tracks[0].clips[0]));
    assert!(!fast_path_eligible(&transition));
    let mut titled = base();
    titled.tracks[2].clips.push(clip(300, None, 0.0, 0.0, 1.0));
    assert!(!fast_path_eligible(&titled));
    titled.tracks[2].hidden = true;
    assert!(fast_path_eligible(&titled));
}

#[test]
fn raw_export_args_shape() {
    let s = spec(1920, 1080, 30.0);
    let joined = raw_export_args(&s, &H264Encoder::X264, "/t/mix.wav", "/out/final.mp4.part").join(" ");
    assert!(joined
        .starts_with("-f rawvideo -pix_fmt rgba -video_size 1920x1080 -framerate 30 -i pipe:0"));
    assert!(joined.contains("-i /t/mix.wav"));
    assert!(joined.contains("-map 0:v:0 -map 1:a:0"));
    assert!(joined.contains("-vf scale=out_color_matrix=bt709:out_range=tv,format=yuv420p"));
    assert!(joined.contains("-c:v libx264"));
    assert!(joined.contains("-colorspace bt709"));
    assert!(joined.contains("-c:a aac -b:a 160k"));
    assert!(joined.contains("-movflags +faststart"));
    assert!(joined.ends_with("-f mp4 -y /out/final.mp4.part"));
    assert!(!joined.contains("-an"), "audio is muxed in the same pass");

    let vaapi = H264Encoder::Vaapi {
        device: "/dev/dri/renderD128".to_string(),
    };
    let joined = raw_export_args(&s, &vaapi, "/t/mix.wav", "/out/final.mp4.part").join(" ");
    assert!(joined.starts_with("-vaapi_device /dev/dri/renderD128 "));
    assert!(joined.contains("-vf scale=out_color_matrix=bt709:out_range=tv,format=nv12,hwupload"));
    assert!(joined.contains("-c:v h264_vaapi"));
}

#[test]
fn mux_args_shape() {
    let s = spec(1920, 1080, 30.0);
    let joined = mux_args(&s, "/t/concat.txt", "/t/mix.wav", "/out/final.mp4.part").join(" ");
    assert!(joined.starts_with("-f concat -safe 0 -i /t/concat.txt -i /t/mix.wav"));
    assert!(joined.contains("-map 0:v:0 -map 1:a:0"));
    assert!(joined.contains("-c:v copy"));
    assert!(joined.contains("-c:a aac -b:a 160k"));
    assert!(joined.contains("-movflags +faststart"));
    assert!(joined.contains("-f mp4"));
    assert!(joined.ends_with("-y /out/final.mp4.part"));
}

#[test]
fn concat_list_escapes_quotes() {
    let body = concat_list(&vec![
        "/t/seg-0000.mp4".to_string(),
        "/we'ird/seg.mp4".to_string(),
    ]);
    assert_eq!(body, "file '/t/seg-0000.mp4'\nfile '/we'\\''ird/seg.mp4'\n");
    assert_eq!(concat_list(&Vec::new()), "");
}

#[test]
fn quality_knobs_are_monotonic() {
    for enc in [
        H264Encoder::X264,
        H264Encoder::Nvenc,
        H264Encoder::Vaapi {
            device: "/dev/dri/renderD128".to_string(),
        },
    ] {
        let hi = ExportQuality::High.video_q(&enc);
        let med = ExportQuality::Medium.video_q(&enc);
        let small = ExportQuality::Small.video_q(&enc);
        assert!(hi < med && med < small, "{enc:?}: {hi} {med} {small}");
    }
}

#[test]
fn quality_knobs_in_full() {
    let knobs = |enc: &H264Encoder| {
        [ExportQuality::High, ExportQuality::Medium, ExportQuality::Small].map(|q| q.video_q(enc))
    };
    assert_eq!(knobs(&H264Encoder::X264), [18, 23, 28]);
    assert_eq!(knobs(&H264Encoder::Nvenc), [19, 24, 28]);
    assert_eq!(ExportQuality::High.audio_bitrate(), "192k");
    assert_eq!(ExportQuality::Medium.audio_bitrate(), "160k");
    assert_eq!(ExportQuality::Small.audio_bitrate(), "128k");
}

#[test]
fn cancelling_kills_the_watched_child() {
    let mut token = CancelToken::new();
    assert!(!token.is_cancelled());
    assert!(token.bail_if_cancelled().is_ok());
    token.watch_child(42);
    assert_eq!(token.cancel(), Some(42));
    assert!(token.is_cancelled());
    assert_eq!(
        token.bail_if_cancelled().unwrap_err().message(),
        "export cancelled"
    );
    token.clear_child();
    assert_eq!(token.cancel(), None, "a reaped child is never killed");
}
