//! Filmstrips, waveforms, proxies and thumbnails.

use cutty::crop::CropAxis;
use cutty::error::MediaError;
use cutty::ffmpeg_run::{Exit, RunEvent};
use cutty::filmstrip::{blit_cover, strip_file, StripBuilder, STRIP_VERSION, TILE_H, TILE_W};
use cutty::peaks::{peaks_file, PeakBuilder, Sample, PEAKS_PER_SEC, PEAKS_VERSION};
use cutty::proxy::{end_proxy, plan_proxy, proxy_args, start_proxy, time_fields, ProxyEnd, ProxyPlan};
use cutty::thumbnail::{thumbnail_args, thumbnail_outcome, THUMBNAIL_WIDTH};

fn u32_at(bytes: &[u8], o: usize) -> u32 {
    u32::from_le_bytes(bytes[o..o + 4].try_into().unwrap())
}

#[test]
fn cover_blit_center_crops() {
    // A 200×100 source, left half red, right half blue → a 16:9 cell
    // covers the middle: left of cell red, right blue.
    let (w, h) = (200u32, 100u32);
    let mut src = vec![0u8; (w * h * 4) as usize];
    for y in 0..h as usize {
        for x in 0..w as usize {
            let p = (y * w as usize + x) * 4;
            src[p] = if x < 100 { 255 } else { 0 };
            src[p + 2] = if x >= 100 { 255 } else { 0 };
            src[p + 3] = 255;
        }
    }
    let mut sprite = vec![0u8; (TILE_W * TILE_H * 4) as usize];
    blit_cover(&src, w as usize * 4, w, h, &mut sprite, TILE_W, 0);
    let px = |x: u32, y: u32| {
        let p = ((y * TILE_W + x) * 4) as usize;
        (sprite[p], sprite[p + 2])
    };
    let (r, b) = px(4, TILE_H / 2);
    assert!(r > 200 && b < 50, "left of cell is red, got ({r},{b})");
    let (r, b) = px(TILE_W - 4, TILE_H / 2);
    assert!(b > 200 && r < 50, "right of cell is blue, got ({r},{b})");
}

#[test]
fn cover_blit_averages_boxes() {
    // 192×108 is exactly two source pixels per cell pixel each way.
    let (w, h) = (192u32, 108u32);
    let stride = w as usize * 4 + 12;
    let mut src = vec![9u8; stride * h as usize];
    for y in 0..h as usize {
        for x in 0..w as usize {
            let p = y * stride + x * 4;
            src[p] = (x % 2 * 100) as u8;
            src[p + 1] = (y % 2 * 51) as u8;
            src[p + 2] = (x / 2) as u8;
            src[p + 3] = 0;
        }
    }
    let sprite_w = TILE_W * 2;
    let mut sprite = vec![7u8; (sprite_w * TILE_H * 4) as usize];
    blit_cover(&src, stride, w, h, &mut sprite, sprite_w, TILE_W);
    for y in 0..TILE_H {
        for x in 0..sprite_w {
            let p = ((y * sprite_w + x) * 4) as usize;
            if x < TILE_W {
                assert_eq!(&sprite[p..p + 4], &[7, 7, 7, 7], "other cells stay");
            } else {
                assert_eq!(&sprite[p..p + 4], &[50, 25, (x - TILE_W) as u8, 255]);
            }
        }
    }
}

#[test]
fn cover_blit_leaves_a_longer_sprite_alone() {
    let src = vec![10u8, 20, 30, 40];
    let cell = (TILE_W * TILE_H * 4) as usize;
    let mut sprite = vec![1u8; cell + 5];
    blit_cover(&src, 4, 1, 1, &mut sprite, TILE_W, 0);
    assert!(sprite[..cell].chunks(4).all(|px| px == [10, 20, 30, 255]));
    assert_eq!(&sprite[cell..], &[1, 1, 1, 1, 1]);
}

#[test]
fn cover_blit_stretches_tiny_sources() {
    let src = vec![10u8, 20, 30, 40];
    let mut sprite = vec![0u8; (TILE_W * TILE_H * 4) as usize];
    blit_cover(&src, 4, 1, 1, &mut sprite, TILE_W, 0);
    assert!(sprite.chunks(4).all(|px| px == [10, 20, 30, 255]));
}

/// The edges of a cell in double arithmetic.
fn float_edges(w: u32, h: u32) -> (Vec<u64>, Vec<u64>) {
    let aspect = 96.0f64 / 54.0;
    let (w, h) = (f64::from(w), f64::from(h));
    let (cw, ch) = if w / h > aspect { (h * aspect, h) } else { (w, w / aspect) };
    let (x, y) = ((w - cw) / 2.0, (h - ch) / 2.0);
    (
        (0..=96).map(|d| (x + f64::from(d) / 96.0 * cw) as u64).collect(),
        (0..=54).map(|d| (y + f64::from(d) / 54.0 * ch) as u64).collect(),
    )
}

#[test]
fn edges_are_cut_in_double_arithmetic() {
    let mut sizes = vec![(1, 1), (16, 9), (9, 16), (1920, 1080), (u32::MAX, 1), (1, u32::MAX)];
    sizes.push((u32::MAX, u32::MAX));
    let mut seed = 11u32;
    for i in 0..400u32 {
        let mut size = || {
            seed = seed.wrapping_mul(1_664_525).wrapping_add(1_013_904_223);
            (seed >> (i % 31)).max(1)
        };
        sizes.push((size(), size()));
    }
    for (w, h) in sizes {
        let (columns, rows) = (CropAxis::columns(w, h), CropAxis::rows(w, h));
        let (x, y) = float_edges(w, h);
        for d in 0..=96 {
            assert_eq!(columns.edge(96, d), x[d as usize], "column {d} of {w}x{h}");
        }
        for d in 0..=54 {
            assert_eq!(rows.edge(54, d), y[d as usize], "row {d} of {w}x{h}");
        }
    }
    // 49 / 96 lies below its quotient, so the column starts one pixel early.
    let columns = CropAxis::columns(1920, 1080);
    assert_eq!([48, 49, 50].map(|d| columns.edge(96, d)), [960, 979, 1000]);
}

#[test]
fn cover_blit_averages_from_the_cut_edges() {
    let (w, h) = (1920u32, 1080u32);
    let mut src = vec![0u8; (w * h * 4) as usize];
    for px in src.chunks_exact_mut(w as usize * 4) {
        px[979 * 4] = 210;
    }
    let mut sprite = vec![0u8; (TILE_W * TILE_H * 4) as usize];
    blit_cover(&src, w as usize * 4, w, h, &mut sprite, TILE_W, 0);
    // Columns 960..979 and 979..1000 of the source.
    assert_eq!([sprite[48 * 4], sprite[49 * 4], sprite[50 * 4]], [0, 10, 0]);
}

#[test]
fn crops_are_centered() {
    for (w, h) in [(1920u32, 800u32), (640, 480), (1081, 607), (100, 1000)] {
        let (columns, rows) = (CropAxis::columns(w, h), CropAxis::rows(w, h));
        let (left, right) = (columns.edge(96, 0), u64::from(w) - columns.edge(96, 96));
        let (above, below) = (rows.edge(54, 0), u64::from(h) - rows.edge(54, 54));
        if 9 * w > 16 * h {
            assert_eq!((above, below), (0, 0));
            assert!(left <= right && right <= left + 1, "{left} {right}");
        } else {
            assert_eq!((left, right), (0, 0));
            assert!(above <= below && below <= above + 1, "{above} {below}");
        }
    }
}

#[test]
fn a_strip_needs_at_least_one_frame() {
    let mut strip = StripBuilder::new(3);
    let err = strip.check("/v/a.mp4").unwrap_err();
    assert!(matches!(err, MediaError::NoStreams { ref path } if path == "/v/a.mp4"));
    let src = vec![200u8; 16 * 9 * 4];
    strip.place(1, &src, 64, 16, 9);
    assert!(strip.check("/v/a.mp4").is_ok());
    assert_eq!(strip.sprite.len(), (3 * TILE_W * TILE_H * 4) as usize);
    let row = &strip.sprite[..(3 * TILE_W * 4) as usize];
    assert_eq!(row[0], 0, "first cell untouched");
    assert_eq!(row[(TILE_W * 4) as usize], 200);
    assert_eq!(row[(2 * TILE_W * 4) as usize], 0);
}

#[test]
fn strip_file_has_header_and_jpeg() {
    let jpeg = [0xFF, 0xD8, 1, 2, 3, 0xFF, 0xD9];
    let bytes = strip_file(12, 250, &jpeg);
    assert_eq!(&bytes[0..4], b"CFLM");
    assert_eq!(u32_at(&bytes, 4), STRIP_VERSION);
    assert_eq!(u32_at(&bytes, 8), TILE_W);
    assert_eq!(u32_at(&bytes, 12), TILE_H);
    assert_eq!(u32_at(&bytes, 16), 12);
    assert_eq!(u32_at(&bytes, 20), 250);
    assert_eq!(&bytes[24..], &jpeg);
}

/// A sample as the waveform code sees it: quantized to a signed byte.
fn quantized(v: f32) -> Sample {
    if v.is_nan() {
        Sample::NotANumber
    } else if v.is_infinite() {
        Sample::Infinite
    } else {
        Sample::Level((v.clamp(-1.0, 1.0) * 127.0).round() as i8)
    }
}

fn peaks_of(rate: u32, frames: impl Iterator<Item = Vec<f32>>) -> Vec<u8> {
    let mut builder = PeakBuilder::new(rate);
    for frame in frames {
        let samples: Vec<Sample> = frame.into_iter().map(quantized).collect();
        builder.push_frame(&samples);
    }
    peaks_file(&builder.finish())
}

fn parse(bytes: &[u8]) -> (u32, u32, Vec<(i8, i8)>) {
    assert_eq!(&bytes[0..4], b"CPKS");
    let count = u32_at(bytes, 12) as usize;
    let pairs = bytes[16..16 + count * 2]
        .chunks_exact(2)
        .map(|p| (p[0] as i8, p[1] as i8))
        .collect();
    (u32_at(bytes, 4), u32_at(bytes, 8), pairs)
}

/// 1s at 48k: silence for 0.5s, then a full-scale square wave — the
/// peak pairs must show ~0 then ~±127.
#[test]
fn peaks_capture_silence_and_signal() {
    let bytes = peaks_of(
        48_000,
        (0..48_000u32).map(|i| {
            let t = f64::from(i) / 48_000.0;
            let v = if t < 0.5 {
                0.0
            } else if t % 0.01 < 0.005 {
                0.99
            } else {
                -0.99
            };
            vec![v]
        }),
    );
    let (version, per_sec, pairs) = parse(&bytes);
    assert_eq!(version, PEAKS_VERSION);
    assert_eq!(per_sec, PEAKS_PER_SEC);
    // 1s at 100/s → 100 windows (±1 for rounding).
    assert!(
        (99..=101).contains(&pairs.len()),
        "expected ≈100 windows, got {}",
        pairs.len()
    );
    // First 0.4s: silence.
    for (i, &(lo, hi)) in pairs[..40].iter().enumerate() {
        assert!(lo.abs() <= 1 && hi.abs() <= 1, "window {i}: ({lo},{hi})");
    }
    // After 0.6s: full-scale square.
    for (i, &(lo, hi)) in pairs[60..95].iter().enumerate() {
        assert!(
            lo <= -120 && hi >= 120,
            "window {}: ({lo},{hi}) must swing full-scale",
            60 + i
        );
    }
}

#[test]
fn peaks_span_all_channels_and_the_odd_tail() {
    // 250 Hz: windows of 3, 2, 3, 2, … frames.
    let frames: Vec<Vec<f32>> = vec![
        vec![0.5, -0.25],
        vec![0.1, 0.2],
        vec![-1.0, 0.0],
        vec![0.0, 1.0],
        vec![0.0, 0.0],
        vec![0.25, 0.25],
    ];
    let (_, _, pairs) = parse(&peaks_of(250, frames.into_iter()));
    assert_eq!(pairs, vec![(-127, 64), (0, 127), (32, 32)]);
}

#[test]
fn non_finite_samples_empty_their_window() {
    let frames = vec![vec![f32::INFINITY], vec![f32::NAN], vec![f32::NAN], vec![0.5]];
    let (_, _, pairs) = parse(&peaks_of(200, frames.into_iter()));
    assert_eq!(pairs, vec![(0, 0), (64, 64)]);
}

#[test]
fn proxy_args_shape() {
    let args = proxy_args("/in.mp4", "/out/proxy.mp4");
    let joined = args.join(" ");
    assert!(joined.contains("min(1280,iw)"), "must fit 1280 wide");
    assert!(joined.contains("min(720,ih)"), "must fit 720 tall");
    assert!(joined.contains("force_original_aspect_ratio=decrease"));
    assert!(joined.contains("-c:v libx264"));
    assert!(joined.contains("-g 30"), "dense keyframes for fast seek");
    assert!(joined.contains("-c:a aac"));
    assert!(joined.ends_with("/out/proxy.mp4"));
    assert_eq!(args.first().map(String::as_str), Some("-i"));
}

#[test]
fn proxy_args_in_full() {
    assert_eq!(
        proxy_args("/a b.mp4", "/p.mp4"),
        vec![
            "-i",
            "/a b.mp4",
            "-vf",
            "scale='min(1280,iw)':'min(720,ih)':force_original_aspect_ratio=decrease:force_divisible_by=2",
            "-c:v",
            "libx264",
            "-preset",
            "veryfast",
            "-crf",
            "23",
            "-pix_fmt",
            "yuv420p",
            "-fps_mode",
            "cfr",
            "-g",
            "30",
            "-c:a",
            "aac",
            "-b:a",
            "128k",
            "-ac",
            "2",
            "-y",
            "/p.mp4",
        ]
    );
}

fn progress_seconds(t: &str) -> f64 {
    match time_fields(t) {
        Some((h, m, s)) => match (h.parse::<f64>(), m.parse::<f64>(), s.parse::<f64>()) {
            (Ok(h), Ok(m), Ok(s)) => h * 3600.0 + m * 60.0 + s,
            _ => 0.0,
        },
        None => 0.0,
    }
}

#[test]
fn parses_progress_time() {
    assert_eq!(progress_seconds("00:00:00.00"), 0.0);
    assert_eq!(progress_seconds("00:03:29.04"), 209.04);
    assert_eq!(progress_seconds("01:00:00.50"), 3600.5);
    assert_eq!(progress_seconds("N/A"), 0.0);
    assert_eq!(progress_seconds("garbage"), 0.0);
    assert_eq!(progress_seconds("1:2"), 0.0);
}

#[test]
fn a_cached_proxy_is_not_encoded_again() {
    assert!(matches!(plan_proxy("/s.mov", "/c/x.mp4", true), ProxyPlan::Cached));
    match plan_proxy("/s.mov", "/c/x.mp4", false) {
        ProxyPlan::Encode { part, args } => {
            assert_eq!(part, "/c/x.part.mp4");
            assert_eq!(args, proxy_args("/s.mov", "/c/x.part.mp4"));
        }
        ProxyPlan::Cached => panic!("nothing is cached"),
    }
}

#[test]
fn a_failed_proxy_discards_its_part_file() {
    let mut run = start_proxy("/s.mov");
    run.on_event(RunEvent::ErrorLog("first".to_string()), false);
    run.on_event(RunEvent::Progress, false);
    run.on_event(RunEvent::ErrorLog("second".to_string()), false);
    let failed = Exit { success: false, text: "exit status: 1".to_string() };
    match end_proxy(&run, Ok(failed)) {
        ProxyEnd::Discard(e) => assert_eq!(
            e.message(),
            "ffmpeg failed while generating proxy for /s.mov: first; second"
        ),
        _ => panic!("a failed encode is discarded"),
    }

    let quiet = start_proxy("/s.mov");
    let failed = Exit { success: false, text: "exit status: 1".to_string() };
    match end_proxy(&quiet, Ok(failed)) {
        ProxyEnd::Discard(e) => assert_eq!(
            e.message(),
            "ffmpeg failed while generating proxy for /s.mov: ffmpeg exited with exit status: 1"
        ),
        _ => panic!("a failed encode is discarded"),
    }

    let ok = Exit { success: true, text: "exit status: 0".to_string() };
    assert!(matches!(end_proxy(&run, Ok(ok)), ProxyEnd::Publish));
    assert!(matches!(
        end_proxy(&run, Err("gone".to_string())),
        ProxyEnd::Fail(MediaError::Io(_))
    ));
}

#[test]
fn thumbnail_args_shape() {
    let args = thumbnail_args("/in.mp4", "/out/t.jpg", &format!("{:.3}", 1.5));
    let joined = args.join(" ");
    assert!(joined.starts_with("-ss 1.500 -i /in.mp4"), "{joined}");
    assert!(joined.contains("-frames:v 1"));
    assert!(joined.contains("scale=320:-2"));
    assert!(joined.ends_with("/out/t.jpg"));
}

#[test]
fn thumbnail_args_in_full() {
    assert_eq!(
        thumbnail_args("/in.mp4", "/t.jpg", "0.000").join(" "),
        "-ss 0.000 -i /in.mp4 -frames:v 1 -vf scale=320:-2 -q:v 4 -y /t.jpg"
    );
    assert_eq!(THUMBNAIL_WIDTH, 320);
}

#[test]
fn a_thumbnail_needs_exit_status_and_file() {
    assert!(thumbnail_outcome("/s.mp4", true, true, "").is_ok());
    let message = |success: bool, produced: bool, stderr: &str| {
        thumbnail_outcome("/s.mp4", success, produced, stderr)
            .unwrap_err()
            .message()
    };
    assert_eq!(
        message(true, false, ""),
        "ffmpeg failed while extracting thumbnail for /s.mp4: no output produced"
    );
    assert_eq!(
        message(false, true, "one\ntwo\r\nthree\n"),
        "ffmpeg failed while extracting thumbnail for /s.mp4: three"
    );
    assert_eq!(
        message(false, false, "only"),
        "ffmpeg failed while extracting thumbnail for /s.mp4: only"
    );
}
