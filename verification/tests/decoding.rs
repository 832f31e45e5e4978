//! Decode sessions, frame sampling, audio sources, and the file player.

use cutty::audio_source::{
    audio_seek_step, backend_error, channel_count, needs_fallback, open_audio_source, AudioBackend,
    AudioSeekStep, LibavAudioSource,
};
use cutty::compose::{
    keeps_rolling, layer_keys, plan_sample, DecoderView, FrameAction, FramePlan, FrameSlice,
    LayerEvent, RenderStats, SampleStep, TimelineRenderer,
};
use cutty::decode::{
    catch_up, check_dimensions, decode_error, open_stream, plan_seek, CatchUp, DecodeAction,
    DecodeEvent, DecodeSession, SeekPlan,
};
use cutty::double::Real;
use cutty::error::MediaError;
use cutty::player::{
    check_proxy, FilePlayer, PlayerPump, PlayerStart, ReadyFrame, SeekStep, StepPlan,
};

fn sec(v: f64) -> Real {
    Real { bits: v.to_bits() }
}

fn num(r: Real) -> f64 {
    f64::from_bits(r.bits)
}

#[test]
fn streams_open_with_a_usable_rate() {
    assert_eq!(open_stream("/a", true, (30000, 1001), (25, 1)).unwrap(), (30000, 1001));
    assert_eq!(open_stream("/a", true, (0, 0), (25, 1)).unwrap(), (25, 1));
    assert_eq!(
        open_stream("/a", true, (0, 1), (-25, 1)).unwrap_err().message(),
        "ffmpeg failed while opening /a: no usable frame rate (got 0)"
    );
    assert!(matches!(
        open_stream("/a", false, (30, 1), (30, 1)),
        Err(MediaError::NoStreams { .. })
    ));
    assert!(check_dimensions("/a", 2, 2).is_ok());
    assert_eq!(
        check_dimensions("/a", 0, 2).unwrap_err().message(),
        "ffmpeg failed while opening /a: stream reports zero dimensions"
    );
    assert_eq!(
        decode_error("/a", "seeking", "no".to_string()).message(),
        "ffmpeg failed while seeking for /a: no"
    );
}

/// A stream of `frames` frames whose decoder buffers `delay` packets, with
/// foreign packets mixed in.
struct Stream {
    packets: Vec<bool>,
    buffered: usize,
    delay: usize,
    eof: bool,
}

impl Stream {
    fn pull(&mut self, session: &mut DecodeSession) -> Result<bool, MediaError> {
        let mut action = session.step("/a", DecodeEvent::Pull);
        loop {
            let event = match action {
                DecodeAction::Receive => {
                    if self.buffered > self.delay || (self.eof && self.buffered > 0) {
                        self.buffered -= 1;
                        DecodeEvent::Frame
                    } else if self.eof {
                        DecodeEvent::Eof
                    } else {
                        DecodeEvent::Again
                    }
                }
                DecodeAction::ReadPacket => match self.packets.pop() {
                    Some(true) => DecodeEvent::Packet,
                    Some(false) => DecodeEvent::ForeignPacket,
                    None => DecodeEvent::NoPacket,
                },
                DecodeAction::SendPacket => {
                    self.buffered += 1;
                    DecodeEvent::Accepted
                }
                DecodeAction::SendEof => {
                    assert!(!self.eof, "the end is told once");
                    self.eof = true;
                    DecodeEvent::Accepted
                }
                DecodeAction::Ready => return Ok(true),
                DecodeAction::Ended => return Ok(false),
                DecodeAction::Fail(e) => return Err(e),
            };
            action = session.step("/a", event);
        }
    }
}

#[test]
fn every_buffered_frame_comes_out() {
    let mut stream = Stream {
        packets: vec![true, false, false, true, true, false, true, true],
        buffered: 0,
        delay: 3,
        eof: false,
    };
    let mut session = DecodeSession::new();
    assert!(!session.has_next_hint());
    for _ in 0..5 {
        assert!(stream.pull(&mut session).unwrap());
        assert!(session.has_next_hint());
    }
    assert!(!stream.pull(&mut session).unwrap());
    assert!(!stream.pull(&mut session).unwrap(), "the end is sticky");
    assert!(session.exhausted && !session.has_next_hint());
    session.reset();
    assert!(!session.exhausted && !session.has_decoded && !session.eof_sent);
}

#[test]
fn failures_name_what_was_going_on() {
    let fail = || DecodeEvent::Failed("bad".to_string());
    let text = |steps: Vec<DecodeEvent>| {
        let mut s = DecodeSession::new();
        s.step("/a", DecodeEvent::Pull);
        for e in steps {
            s.step("/a", e);
        }
        match s.step("/a", fail()) {
            DecodeAction::Fail(e) => e.message(),
            _ => panic!("must fail"),
        }
    };
    assert_eq!(text(vec![]), "ffmpeg failed while decoding for /a: bad");
    assert_eq!(
        text(vec![DecodeEvent::Again]),
        "ffmpeg failed while demuxing for /a: bad"
    );
    assert_eq!(
        text(vec![DecodeEvent::Again, DecodeEvent::Packet]),
        "ffmpeg failed while decoding for /a: bad"
    );
    assert_eq!(
        text(vec![DecodeEvent::Again, DecodeEvent::NoPacket]),
        "ffmpeg failed while draining decoder for /a: bad"
    );
}

#[test]
fn small_forward_hops_decode_on() {
    assert_eq!(plan_seek(Some(10), 10), SeekPlan::Forward);
    assert_eq!(plan_seek(Some(10), 42), SeekPlan::Forward);
    assert_eq!(plan_seek(Some(10), 43), SeekPlan::Seek);
    assert_eq!(plan_seek(Some(10), 9), SeekPlan::Seek);
    assert_eq!(plan_seek(None, 0), SeekPlan::Seek);
}

#[test]
fn catching_up_stops_on_the_floor_frame() {
    let frames: Vec<i64> = (90..120).collect();
    assert_eq!(catch_up(&frames, 100), Some(100));
    assert_eq!(catch_up(&frames, 500), Some(119), "past the end: the last frame");
    assert_eq!(catch_up(&Vec::new(), 3), None);
    let mut c = CatchUp::new(2);
    assert!(!c.on_frame(1));
    assert!(c.on_frame(2));
    assert_eq!(c.current, Some(2));
}

fn view(current: Option<i64>, next: Option<i64>, exhausted: bool) -> DecoderView {
    DecoderView {
        current,
        next,
        exhausted,
    }
}

#[test]
fn sampling_picks_the_cheapest_way() {
    let running = view(Some(9), Some(10), false);
    assert_eq!(plan_sample(Some(12), running, 12), SampleStep::Hold);
    assert_eq!(plan_sample(Some(8), running, 9), SampleStep::UploadCurrent);
    assert_eq!(plan_sample(Some(9), running, 20), SampleStep::RollForward);
    assert_eq!(plan_sample(Some(9), running, 43), SampleStep::Seek);
    assert_eq!(plan_sample(Some(9), running, 3), SampleStep::Seek);
    let dry = view(Some(59), None, true);
    assert_eq!(plan_sample(Some(59), dry, 80), SampleStep::Hold, "holds its last frame");
    assert_eq!(plan_sample(Some(59), dry, 5), SampleStep::Seek);
    assert_eq!(plan_sample(None, dry, 80), SampleStep::Seek);
    assert_eq!(plan_sample(None, view(None, None, false), 0), SampleStep::Seek);
    assert!(keeps_rolling(Some(5), 5) && !keeps_rolling(Some(6), 5) && !keeps_rolling(None, 5));
}

#[test]
fn the_same_source_twice_gets_two_decoders() {
    assert_eq!(
        layer_keys(&vec![7, 8, 7, 7, 8]),
        vec![(7, 0), (8, 0), (7, 1), (7, 2), (8, 1)]
    );
}

#[test]
fn lenient_rendering_records_problems() {
    let mut r = TimelineRenderer::new(640, 360, false);
    assert_eq!(r.output_size(), (640, 360));
    assert!(r.no_file(4).is_ok());
    assert!(r.open_failed("/p.mp4", "gone").is_ok());
    r.install((1, 0));
    assert!(r.decode_failed((1, 0), "torn").is_ok());
    assert!(!r.has_source(1), "a broken decoder is closed");
    assert_eq!(
        r.take_issues(),
        vec![
            "no renderable file for media 4 (proxy still generating?)",
            "open /p.mp4 failed: gone",
            "decode failed: torn",
        ]
    );
    assert!(r.take_issues().is_empty());
    assert_eq!(r.stats().cold_opens, 1);
}

#[test]
fn strict_rendering_fails_the_frame() {
    let mut r = TimelineRenderer::new(640, 360, true);
    assert!(matches!(r.no_file(4), Err(MediaError::ExportNotReady { .. })));
    assert_eq!(
        r.open_failed("/p.mp4", "gone").unwrap_err().message(),
        "open /p.mp4 failed: gone"
    );
    assert!(r.take_issues().is_empty());
}

#[test]
fn a_frame_keeps_the_layers_that_show() {
    let mut r = TimelineRenderer::new(2, 2, false);
    r.install((7, 0));
    let mut frame = FramePlan::new(&vec![7, 8, 7, 9, 10, 11]);
    let mut step = |r: &mut TimelineRenderer, want: FrameAction, event: LayerEvent| {
        assert_eq!(r.next_action(&frame), want);
        r.layer_event(&mut frame, event).unwrap();
        (frame.at, frame.kept.clone())
    };
    let open = FrameAction::Open;
    let sample = FrameAction::Sample;
    assert_eq!(step(&mut r, sample((7, 0)), LayerEvent::Sampled(Some(3))), (1, vec![0]));
    assert_eq!(step(&mut r, open((8, 0)), LayerEvent::NoFile), (2, vec![0]));
    assert_eq!(step(&mut r, open((7, 1)), LayerEvent::Opened), (2, vec![0]));
    assert_eq!(step(&mut r, sample((7, 1)), LayerEvent::Sampled(Some(9))), (3, vec![0, 2]));
    let gone = LayerEvent::OpenFailed { path: "/p.mp4".into(), detail: "gone".into() };
    assert_eq!(step(&mut r, open((9, 0)), gone), (4, vec![0, 2]));
    assert_eq!(step(&mut r, open((10, 0)), LayerEvent::Opened), (4, vec![0, 2]));
    assert_eq!(step(&mut r, sample((10, 0)), LayerEvent::Sampled(None)), (5, vec![0, 2]));
    assert_eq!(step(&mut r, open((11, 0)), LayerEvent::Opened), (5, vec![0, 2]));
    let torn = LayerEvent::Broken { detail: "torn".into() };
    assert_eq!(step(&mut r, sample((11, 0)), torn), (6, vec![0, 2]));
    assert_eq!(r.next_action(&frame), FrameAction::Composite);
    assert!(r.has_source(10) && !r.has_source(11) && !r.has_source(9));
    assert_eq!(r.stats().cold_opens, 4);
    assert_eq!(
        r.take_issues(),
        vec![
            "no renderable file for media 8 (proxy still generating?)",
            "open /p.mp4 failed: gone",
            "decode failed: torn",
        ]
    );

    // The next frame holds what it shows and samples what showed nothing.
    let mut frame = FramePlan::new(&vec![7, 10]);
    r.layer_event(&mut frame, LayerEvent::Sampled(None)).unwrap();
    r.layer_event(&mut frame, LayerEvent::Sampled(None)).unwrap();
    assert_eq!(frame.kept, vec![0]);
}

#[test]
fn a_strict_frame_fails_with_its_first_problem() {
    let mut r = TimelineRenderer::new(2, 2, true);
    let mut frame = FramePlan::new(&vec![4]);
    let err = r.layer_event(&mut frame, LayerEvent::NoFile).unwrap_err();
    assert_eq!(err.message(), "no renderable file for media 4 (proxy still generating?)");
    r.layer_event(&mut frame, LayerEvent::Opened).unwrap();
    let torn = LayerEvent::Broken { detail: "torn".into() };
    let err = r.layer_event(&mut frame, torn).unwrap_err();
    assert_eq!(err.message(), "decode failed: torn");
    assert!(!r.has_source(4));
    assert_eq!((frame.at, frame.kept.len()), (0, 0));
}

#[test]
fn renderer_bookkeeping_follows_its_sources() {
    let mut r = TimelineRenderer::new(2, 2, false);
    assert!(r.needs_open((5, 0)));
    r.opened((5, 0));
    r.opened((5, 1));
    r.opened((6, 0));
    assert!(r.has_source(5) && !r.needs_open((5, 1)));
    assert_eq!(r.sample((5, 0), view(None, None, false), 3), SampleStep::Seek);
    assert!(!r.uploaded((5, 0), None), "no frames at all");
    assert!(r.uploaded((5, 0), Some(3)));
    assert!(r.uploaded((5, 0), None), "still shows what it had");
    assert_eq!(r.sample((5, 0), view(Some(3), Some(4), false), 3), SampleStep::Hold);
    r.rolled();
    r.composited();
    let stats = r.stats();
    assert_eq!(
        (stats.frames, stats.cold_opens, stats.seeks, stats.forward_decodes),
        (1, 3, 1, 1)
    );

    // A prefetched decoder replaces only one that would have to seek.
    assert!(!r.wants_decoder(5, view(Some(3), Some(4), false), 3));
    assert!(!r.wants_decoder(5, view(Some(3), Some(4), false), 10));
    assert!(r.wants_decoder(5, view(Some(3), Some(4), false), 99));
    assert!(r.wants_decoder(77, view(None, None, false), 0));
    r.install((5, 0));
    assert!(!r.uploaded((5, 0), None), "a new decoder has an empty texture");

    r.retain_sources(&vec![5]);
    assert!(r.has_source(5) && !r.has_source(6) && !r.needs_open((5, 1)));
    r.clear_sources();
    assert!(!r.has_source(5));
    let none = RenderStats::default();
    assert_eq!((none.frames, none.seeks), (0, 0));
}

#[test]
fn frame_slices_pack_their_rows() {
    let data: Vec<u8> = (0..32).collect();
    let slice = FrameSlice {
        width: 2,
        height: 2,
        stride: 16,
        data: &data,
    };
    assert_eq!(slice.packed(), [(0..8).collect::<Vec<u8>>(), (16..24).collect()].concat());
}

#[test]
fn audio_falls_back_to_libav() {
    let err = |t: &str| Err::<(), String>(t.to_string());
    assert!(!needs_fallback(&Ok(())));
    assert!(needs_fallback(&err("x")));
    assert_eq!(open_audio_source(Ok(()), err("unused")).unwrap(), AudioBackend::Symphonia);
    assert_eq!(open_audio_source(err("a"), Ok(())).unwrap(), AudioBackend::Libav);
    assert_eq!(
        open_audio_source(err("no ac3"), err("no file")).unwrap_err(),
        "no ac3; libav fallback: no file"
    );
    assert_eq!(backend_error("seeking", "/a", "x"), "seeking for /a: x");
    assert_eq!((channel_count(0), channel_count(6)), (1, 6));
}

#[test]
fn audio_reads_are_contiguous_and_trimmed() {
    let mut a = LibavAudioSource::new(2);
    assert!(a.wants_frame());
    a.discard_frames = 3;
    a.ingest(&(0..4).collect()); // two frames, both dropped
    assert!(a.wants_frame());
    assert_eq!(a.discard_frames, 1);
    a.ingest(&(10..18).collect()); // drops one more frame
    assert_eq!(a.read(3), vec![12, 13, 14]);
    assert!(!a.wants_frame());
    assert_eq!(a.read(100), vec![15, 16, 17]);
    assert_eq!(a.read(1), Vec::<u32>::new());

    a.ingest(&(0..8).collect());
    a.skip_into(2, 4);
    assert_eq!(a.read(8), vec![4, 5, 6, 7]);
    a.ingest(&(0..4).collect());
    a.skip_into(-9, 2);
    assert_eq!(a.pending.len(), 4);
    a.skip_into(9, 2);
    assert!(a.pending.is_empty());
    a.ingest(&(0..4).collect());
    a.reset();
    assert!(a.pending.is_empty() && a.wants_frame());
}

#[test]
fn audio_seeks_drop_what_lies_before() {
    assert_eq!(audio_seek_step(true, true, true), AudioSeekStep::PastEnd);
    assert_eq!(audio_seek_step(false, false, true), AudioSeekStep::StartHere);
    assert_eq!(audio_seek_step(false, true, true), AudioSeekStep::DropFrame);
    assert_eq!(audio_seek_step(false, true, false), AudioSeekStep::Skip);
}

fn ready(pts: f64) -> ReadyFrame {
    ReadyFrame {
        pts: sec(pts),
        width: 2,
        height: 2,
        jpeg: vec![1, 2],
    }
}

#[test]
fn proxies_need_a_frame_rate() {
    assert!(check_proxy("/p", Some(sec(30.0)), "30").is_ok());
    assert!(matches!(check_proxy("/p", None, ""), Err(MediaError::NoStreams { .. })));
    assert_eq!(
        check_proxy("/p", Some(sec(-1.0)), "-1").unwrap_err().message(),
        "ffmpeg failed while opening player: invalid fps -1 in proxy"
    );
}

#[test]
fn the_player_starts_pauses_and_lands() {
    let mut p = FilePlayer::new();
    p.started();
    assert!(p.playing);
    p.paused();
    assert!(!p.playing);
    p.landed(sec(3.5));
    assert_eq!(num(p.position), 3.5);
    p.stepped_past_end();
    assert!(p.at_eof && !p.playing);
}

#[test]
fn the_file_player_seeks_from_its_cache_while_paused() {
    let mut p = FilePlayer::new();
    assert!(matches!(p.do_seek(30), SeekStep::Restart));
    p.restarted(true);
    p.present(&ready(1.0), 30);
    assert_eq!(num(p.position), 1.0);
    p.stash(ready(1.1));
    match p.do_seek(30) {
        SeekStep::Cached(f) => assert_eq!(f.jpeg, vec![1, 2]),
        SeekStep::Restart => panic!("visited"),
    }
    assert!(!p.has_video && p.pending.is_none());
    p.playing = true;
    assert!(matches!(p.do_seek(30), SeekStep::Restart), "playing needs the decoder");
}

#[test]
fn the_file_player_steps_by_frames() {
    let mut p = FilePlayer::new();
    p.restarted(true);
    p.playing = true;
    p.stash(ready(0.4));
    assert!(matches!(p.do_step(10, 1, 60), StepPlan::Stashed(f) if num(f.pts) == 0.4));
    assert!(!p.playing);
    assert!(matches!(p.do_step(10, 1, 60), StepPlan::NextFrame));
    p.stash(ready(0.4));
    assert!(matches!(p.do_step(10, -1, 60), StepPlan::Restart(9)));
    assert!(p.pending.is_none(), "any other step invalidates the stash");
    p.present(&ready(0.3), 9);
    assert!(matches!(p.do_step(10, -1, 60), StepPlan::Cached(_)));
    assert!(!p.has_video);
    assert!(matches!(p.do_step(59, 1, 60), StepPlan::Restart(59)));
}

#[test]
fn the_file_player_pumps_and_ends() {
    let mut p = FilePlayer::new();
    assert!(matches!(p.pump(), PlayerPump::Restart));
    p.restarted(true);
    assert!(matches!(p.pump(), PlayerPump::Decode));
    p.stash(ready(0.1));
    assert!(matches!(p.pump(), PlayerPump::Pace(_)));
    assert!(matches!(p.do_play(sec(5.0)), PlayerStart::Start));
    p.playing = true;
    p.ended();
    assert!(p.at_eof && !p.playing && !p.has_video);
    assert!(matches!(p.do_play(sec(5.0)), PlayerStart::FromTop));
}
