//! The export job from validation to the renamed file.

use cutty::double::Real;
use cutty::encoders::H264Encoder;
use cutty::error::MediaError;
use cutty::export_job::{
    audio_result, job_dir, plan_export, summarize, validate_export, AudioOutcome, ExportJob,
    ExportSummary, JobAction,
};
use cutty::ffmpeg_run::{
    composite_outcome, pack_rows, reports_at, Exit, FfmpegRun, FrameLoop, FrameStep, RunEvent,
    StderrTail, TAIL_LINES,
};
use cutty::ipc::{admit_export, export_end, ExportEnd, ExportSlot};
use cutty::project::{BlendMode, Clip, Media, MediaKind, Project, Track, TrackKind};
use cutty::render::{ExportQuality, ExportSpec, FrameWindow, SegmentSource};
use cutty::render_args::ClipTiming;

fn sec(v: f64) -> Real {
    Real { bits: v.to_bits() }
}

fn spec(w: u32, h: u32, fps: f64) -> ExportSpec {
    ExportSpec {
        width: w,
        height: h,
        fps: sec(fps),
        fps_text: format!("{fps}"),
        gop: (fps * 2.0).round() as u32,
        quality: ExportQuality::Medium,
        dst: "/tmp/out.mp4".to_string(),
    }
}

fn clip(id: u64, media: u64, t_in: f64, s_in: f64, s_out: f64) -> Clip {
    Clip {
        id,
        media_id: Some(media),
        timeline_in: sec(t_in),
        timeline_out: sec(t_in + (s_out - s_in)),
        source_in: sec(s_in),
        source_out: sec(s_out),
        speed: sec(1.0),
        volume: sec(1.0),
        opacity: sec(1.0),
        identity_transform: true,
        blend_mode: BlendMode::Normal,
        transition_out: false,
    }
}

fn project_with(clips: &[(f64, f64, f64)]) -> Project {
    Project {
        media: vec![Media {
            id: 1,
            path: "/tmp/a.mp4".to_string(),
            kind: MediaKind::Video,
            has_video: true,
            has_audio: true,
            has_alpha: false,
        }],
        tracks: vec![Track {
            id: 10,
            kind: TrackKind::Video,
            hidden: false,
            muted: false,
            clips: clips
                .iter()
                .enumerate()
                .map(|(i, &(t, a, b))| clip(100 + i as u64, 1, t, a, b))
                .collect(),
        }],
    }
}

#[test]
fn export_rejects_empty_timeline_and_bad_specs() {
    let p = project_with(&[]);
    let err = validate_export(&p, &spec(1920, 1080, 30.0), &vec![true], 0).unwrap_err();
    assert!(matches!(err, MediaError::ExportNotReady { .. }), "{err:?}");
    assert_eq!(
        err.message(),
        "the timeline is empty — add clips before exporting"
    );

    let p = project_with(&[(0.0, 0.0, 1.0)]);
    for (bad, text) in [
        (spec(1921, 1080, 30.0), "invalid export resolution 1921x1080"),
        (spec(0, 1080, 30.0), "invalid export resolution 0x1080"),
        (spec(1920, 1080, 0.0), "invalid export frame rate 0"),
        (spec(1920, 1080, f64::NAN), "invalid export frame rate NaN"),
        (spec(1920, 1080, f64::INFINITY), "invalid export frame rate inf"),
        (spec(1920, 1080, -25.0), "invalid export frame rate -25"),
        (spec(1920, 0, 30.0), "invalid export resolution 1920x0"),
        (spec(1920, 3, 30.0), "invalid export resolution 1920x3"),
    ] {
        let err = validate_export(&p, &bad, &vec![true], 30).unwrap_err();
        assert!(matches!(err, MediaError::ExportNotReady { .. }), "{err:?}");
        assert_eq!(err.message(), text);
    }
    assert!(validate_export(&p, &spec(1920, 1080, 30.0), &vec![true], 30).is_ok());
}

#[test]
fn export_rejects_missing_source_files() {
    // /tmp/a.mp4 does not exist; the clip references it.
    let p = project_with(&[(0.0, 0.0, 1.0)]);
    let err = validate_export(&p, &spec(1920, 1080, 30.0), &vec![false], 30).unwrap_err();
    assert!(
        matches!(err, MediaError::ExportNotReady { ref message } if message.contains("missing")),
        "{err:?}"
    );
    assert_eq!(err.message(), "source file is missing: /tmp/a.mp4");

    // Unused media may be missing.
    let mut p = project_with(&[(0.0, 0.0, 1.0)]);
    p.media.push(Media {
        id: 2,
        path: "/tmp/unused.mp4".to_string(),
        kind: MediaKind::Video,
        has_video: true,
        has_audio: false,
        has_alpha: false,
    });
    assert!(validate_export(&p, &spec(1920, 1080, 30.0), &vec![true, false], 30).is_ok());
}

fn fast_job(spec: &ExportSpec) -> ExportJob {
    let p = project_with(&[(1.0, 2.0, 3.0)]);
    let windows = vec![FrameWindow { start: 30, end: 60 }];
    let (fast, segments) = plan_export(&p, &windows, 60);
    assert!(fast);
    assert_eq!(segments.len(), 2);
    match &segments[1].source {
        SegmentSource::Clip { path, clip } => assert_eq!((path.as_str(), *clip), ("/tmp/a.mp4", 0)),
        SegmentSource::Black => panic!("a clip follows the gap"),
    }
    let timings = segments
        .iter()
        .map(|_| ClipTiming {
            source_in: "2.000000".to_string(),
            read_span: "1.066667".to_string(),
            speed: None,
        })
        .collect();
    let dir = job_dir("/c/cutty/export", 7, 3);
    assert_eq!(dir, "/c/cutty/export/job-7-3");
    ExportJob::new(fast, segments, timings, 60, dir, spec)
}

#[test]
fn the_fast_job_runs_every_stage_in_order() {
    let spec = spec(1920, 1080, 30.0);
    let enc = H264Encoder::X264;
    let mut job = fast_job(&spec);
    assert_eq!(job.renderer(), "segment-concat");
    match job.action(&spec, &enc) {
        JobAction::RenderAudio { wav } => assert_eq!(wav, "/c/cutty/export/job-7-3/mix.wav"),
        _ => panic!("audio first"),
    }
    job.succeed();
    match job.action(&spec, &enc) {
        JobAction::Encode { args, context } => {
            assert_eq!(context, "encoding segment 1 of 2 (gap)");
            assert!(args.join(" ").ends_with("-y /c/cutty/export/job-7-3/seg-0000.mp4"));
        }
        _ => panic!("then the gap"),
    }
    job.succeed();
    match job.action(&spec, &enc) {
        JobAction::Encode { args, context } => {
            assert_eq!(context, "encoding segment 2 of 2 (a.mp4)");
            assert!(args.join(" ").contains("-ss 2.000000 -t 1.066667 -i /tmp/a.mp4"));
            assert!(args.join(" ").ends_with("-y /c/cutty/export/job-7-3/seg-0001.mp4"));
        }
        _ => panic!("then the clip"),
    }
    assert_eq!(job.frames_done, 30);
    job.succeed();
    assert_eq!(job.frames_done, 60);
    match job.action(&spec, &enc) {
        JobAction::WriteList { path, body } => {
            assert_eq!(path, "/c/cutty/export/job-7-3/concat.txt");
            assert_eq!(
                body,
                "file '/c/cutty/export/job-7-3/seg-0000.mp4'\nfile '/c/cutty/export/job-7-3/seg-0001.mp4'\n"
            );
        }
        _ => panic!("then the list"),
    }
    job.succeed();
    match job.action(&spec, &enc) {
        JobAction::Encode { args, context } => {
            assert_eq!(context, "muxing the final file");
            assert!(args.join(" ").ends_with("-y /tmp/out.mp4.part"));
        }
        _ => panic!("then the mux"),
    }
    job.succeed();
    match job.action(&spec, &enc) {
        JobAction::Rename { from, to } => {
            assert_eq!(from, "/tmp/out.mp4.part");
            assert_eq!(to, "/tmp/out.mp4");
        }
        _ => panic!("then the rename"),
    }
    assert!(job.discards_part(), "an unfinished job leaves nothing");
    job.succeed();
    assert!(matches!(job.action(&spec, &enc), JobAction::Nothing));
    assert!(!job.discards_part());
    let summary = summarize(&job, &spec, &enc);
    assert_eq!(summary.path, "/tmp/out.mp4");
    assert_eq!(summary.encoder, "libx264");
    assert!(!summary.hardware_encode);
    assert_eq!(summary.renderer, "segment-concat");
}

#[test]
fn a_failed_job_stops_and_discards() {
    let spec = spec(1920, 1080, 30.0);
    let mut job = fast_job(&spec);
    job.succeed();
    job.fail();
    assert!(matches!(
        job.action(&spec, &H264Encoder::X264),
        JobAction::Nothing
    ));
    assert!(job.discards_part());
}

#[test]
fn the_compositor_job_encodes_in_one_pass() {
    let spec = spec(640, 360, 25.0);
    let enc = H264Encoder::Nvenc;
    let mut job = ExportJob::new(false, Vec::new(), Vec::new(), 50, "/j".to_string(), &spec);
    assert_eq!(job.renderer(), "gpu-compositor");
    assert!(matches!(job.action(&spec, &enc), JobAction::RenderAudio { .. }));
    job.succeed();
    match job.action(&spec, &enc) {
        JobAction::Composite { args } => {
            assert!(args.join(" ").contains("-video_size 640x360 -framerate 25 -i pipe:0 -i /j/mix.wav"))
        }
        _ => panic!("composite"),
    }
    job.succeed();
    assert!(matches!(job.action(&spec, &enc), JobAction::Rename { .. }));
    job.succeed();
    assert!(matches!(job.action(&spec, &enc), JobAction::Nothing));
}

#[test]
fn audio_cancellation_is_not_a_failure() {
    assert!(audio_result(AudioOutcome::Rendered).is_ok());
    assert!(matches!(
        audio_result(AudioOutcome::Cancelled),
        Err(MediaError::ExportCancelled)
    ));
    assert_eq!(
        audio_result(AudioOutcome::Failed("no device".to_string()))
            .unwrap_err()
            .message(),
        "audio render failed: no device"
    );
}

fn exit(success: bool) -> Exit {
    Exit {
        success,
        text: if success { "exit status: 0" } else { "exit status: 1" }.to_string(),
    }
}

#[test]
fn ffmpeg_runs_report_kill_and_fail() {
    let mut run = FfmpegRun::new("muxing".to_string());
    let a = run.on_event(RunEvent::Progress, false);
    assert!(a.report && !a.kill);
    let a = run.on_event(RunEvent::Progress, true);
    assert!(a.report && a.kill, "a cancelled run is killed at once");
    let a = run.on_event(RunEvent::Other, true);
    assert!(!a.report && !a.kill);

    assert!(run.finish(Ok(exit(true)), false).is_ok());
    assert!(matches!(
        run.finish(Ok(exit(true)), true),
        Err(MediaError::ExportCancelled)
    ));
    assert_eq!(
        run.finish(Ok(exit(false)), false).unwrap_err().message(),
        "ffmpeg failed while muxing: ffmpeg exited with exit status: 1"
    );
    run.on_event(RunEvent::ErrorLog("x".to_string()), false);
    run.on_event(RunEvent::ErrorLog("y".to_string()), false);
    assert_eq!(
        run.finish(Ok(exit(false)), false).unwrap_err().message(),
        "ffmpeg failed while muxing: x; y"
    );
    assert!(matches!(
        run.finish(Err("gone".to_string()), true),
        Err(MediaError::Io(_))
    ));
}

#[test]
fn stderr_keeps_its_last_lines() {
    let mut tail = StderrTail::new();
    assert_eq!(tail.text(), "");
    for i in 0..TAIL_LINES + 2 {
        tail.push(format!("l{i}"));
    }
    let text = tail.text();
    assert!(text.starts_with("l2; l3; "));
    assert!(text.ends_with("; l41"));
    assert_eq!(tail.lines.len(), 40);
}

#[test]
fn composite_errors_in_order_of_precedence() {
    let broken = || Err(MediaError::Io("broken pipe".to_string()));
    let tail = || "boom".to_string();
    assert!(matches!(
        composite_outcome(true, Ok(exit(false)), tail(), broken(), Ok(())),
        Err(MediaError::ExportCancelled)
    ));
    assert_eq!(
        composite_outcome(false, Ok(exit(false)), tail(), broken(), Ok(()))
            .unwrap_err()
            .message(),
        "ffmpeg failed while compositor encode: boom"
    );
    assert_eq!(
        composite_outcome(false, Ok(exit(false)), String::new(), Ok(()), Ok(()))
            .unwrap_err()
            .message(),
        "ffmpeg failed while compositor encode: ffmpeg exited with exit status: 1"
    );
    assert_eq!(
        composite_outcome(false, Ok(exit(true)), tail(), broken(), Ok(()))
            .unwrap_err()
            .message(),
        "I/O error: broken pipe"
    );
    assert_eq!(
        composite_outcome(false, Ok(exit(true)), tail(), Ok(()), Err("full".to_string()))
            .unwrap_err()
            .message(),
        "I/O error: full"
    );
    assert!(matches!(
        composite_outcome(false, Err("wait".to_string()), tail(), Ok(()), Ok(())),
        Err(MediaError::Io(_))
    ));
    assert!(composite_outcome(false, Ok(exit(true)), tail(), Ok(()), Ok(())).is_ok());
}

#[test]
fn rows_lose_their_padding() {
    let data: Vec<u8> = (0..30).collect();
    let mut out = vec![99u8];
    pack_rows(&mut out, &data, 10, 2, 3);
    let mut expected = vec![99u8];
    expected.extend(0..8);
    expected.extend(10..18);
    expected.extend(20..28);
    assert_eq!(out, expected);

    // The last row needs no padding, and no rows give nothing.
    let mut out = Vec::new();
    pack_rows(&mut out, &data[..28], 10, 2, 3);
    assert_eq!(out, expected[1..]);
    pack_rows(&mut out, &[], 10, 2, 0);
    assert_eq!(out.len(), 24);
}

#[test]
fn the_frame_loop_stays_one_frame_ahead() {
    let mut l = FrameLoop::new(3);
    let mut seen = Vec::new();
    loop {
        match l.next(false) {
            FrameStep::Begin { frame, slot } => seen.push(format!("b{frame}/{slot}")),
            FrameStep::Emit { frame, slot } => seen.push(format!("e{frame}/{slot}")),
            FrameStep::Cancelled => panic!("not cancelled"),
            FrameStep::Done => break,
        }
    }
    assert_eq!(seen, vec!["b0/0", "b1/1", "e0/0", "b2/0", "e1/1", "e2/0"]);

    let mut empty = FrameLoop::new(0);
    assert!(matches!(empty.next(true), FrameStep::Done));

    let mut l = FrameLoop::new(3);
    assert!(matches!(l.next(false), FrameStep::Begin { frame: 0, slot: 0 }));
    assert!(matches!(l.next(true), FrameStep::Cancelled));
    assert!(reports_at(0) && reports_at(15) && !reports_at(14));
}

#[test]
fn one_export_at_a_time() {
    assert!(admit_export(ExportSlot::Empty).is_ok());
    assert!(admit_export(ExportSlot::Finished).is_ok());
    assert_eq!(
        admit_export(ExportSlot::Running).unwrap_err(),
        "an export is already running"
    );
}

#[test]
fn the_window_hears_how_an_export_ended() {
    let summary = ExportSummary {
        path: "/o.mp4".to_string(),
        encoder: "libx264".to_string(),
        hardware_encode: false,
        renderer: "segment-concat".to_string(),
    };
    match export_end(&Ok(summary), sec(2.5)) {
        ExportEnd::Done(e) => {
            assert_eq!(e.path, "/o.mp4");
            assert_eq!(f64::from_bits(e.duration.bits), 2.5);
            assert_eq!(e.encoder, "libx264");
            assert!(!e.hardware_encode);
        }
        _ => panic!("done"),
    }
    assert!(matches!(
        export_end(&Err(MediaError::ExportCancelled), sec(0.0)),
        ExportEnd::Cancelled
    ));
    match export_end(&Err(MediaError::Gpu("lost".to_string())), sec(0.0)) {
        ExportEnd::Failed(e) => assert_eq!(e.message, "GPU compositor: lost"),
        _ => panic!("failed"),
    }
}
