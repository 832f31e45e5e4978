//! Probe results and lossless trims.

use cutty::double::Real;
use cutty::error::MediaError;
use cutty::probe::{
    parse_probe_output, probe_failed, rate_parts, usable_rate, MediaInfo, RawProbe, RawStream,
};
use cutty::trim::{check_trim, keyframe_at_or_before, keyframe_times, trim_args, trim_context};
use serde_json::Value;

fn sec(v: f64) -> Real {
    Real { bits: v.to_bits() }
}

fn value(r: Real) -> f64 {
    f64::from_bits(r.bits)
}

fn parse_rate(rate: &str) -> Option<f64> {
    let (num, den) = rate_parts(rate)?;
    let num = num.parse::<f64>().ok().map(sec);
    let den = den.parse::<f64>().ok().map(sec);
    usable_rate(num, den).map(|(n, d)| value(n) / value(d))
}

fn text(v: &Value, key: &str) -> Option<String> {
    v.get(key).and_then(Value::as_str).map(str::to_string)
}

fn number(v: &Value, key: &str) -> Option<u32> {
    v.get(key).and_then(Value::as_u64).map(|n| n as u32)
}

fn seconds(v: &Value, key: &str) -> Option<Real> {
    text(v, key).and_then(|d| d.parse::<f64>().ok()).map(sec)
}

fn rate(v: &Value, key: &str) -> Option<Real> {
    text(v, key).and_then(|r| parse_rate(&r)).map(sec)
}

fn parse(json: &str, path: &str) -> Result<MediaInfo, MediaError> {
    let raw: Value =
        serde_json::from_str(json).map_err(|e| MediaError::ProbeParse(e.to_string()))?;
    let streams = raw["streams"]
        .as_array()
        .map(|list| {
            list.iter()
                .map(|s| RawStream {
                    index: number(s, "index").unwrap_or(0),
                    codec_type: text(s, "codec_type"),
                    codec_name: text(s, "codec_name"),
                    width: number(s, "width"),
                    height: number(s, "height"),
                    avg_frame_rate: rate(s, "avg_frame_rate"),
                    r_frame_rate: rate(s, "r_frame_rate"),
                    sample_rate: text(s, "sample_rate"),
                    channels: number(s, "channels"),
                    duration: seconds(s, "duration"),
                })
                .collect()
        })
        .unwrap_or_default();
    let format = &raw["format"];
    parse_probe_output(
        &RawProbe {
            streams,
            format_name: text(format, "format_name").unwrap_or_default(),
            duration: seconds(format, "duration"),
            size: text(format, "size"),
        },
        path,
    )
}

const SAMPLE_4K: &str = r#"{
        "streams": [
            {
                "index": 0,
                "codec_name": "h264",
                "codec_type": "video",
                "width": 3840,
                "height": 2160,
                "r_frame_rate": "30/1",
                "avg_frame_rate": "30000/1001",
                "duration": "90.023267"
            },
            {
                "index": 1,
                "codec_name": "aac",
                "codec_type": "audio",
                "sample_rate": "48000",
                "channels": 2,
                "r_frame_rate": "0/0",
                "duration": "90.000000"
            }
        ],
        "format": {
            "format_name": "mov,mp4,m4a,3gp,3g2,mj2",
            "duration": "90.046000",
            "size": "231072941"
        }
    }"#;

#[test]
fn parses_typical_4k_probe() {
    let info = parse(SAMPLE_4K, "/tmp/clip.mp4").unwrap();
    assert_eq!(value(info.duration_sec), 90.046);
    assert_eq!(info.size_bytes, 231_072_941);
    assert_eq!(info.streams.len(), 2);

    let v = info.video.expect("video stream");
    assert_eq!((v.width, v.height), (3840, 2160));
    assert_eq!(v.codec, "h264");
    assert!((value(v.fps) - 29.97).abs() < 0.01);

    let a = info.audio.expect("audio stream");
    assert_eq!(a.codec, "aac");
    assert_eq!(a.sample_rate, 48000);
    assert_eq!(a.channels, 2);

    assert_eq!(info.path, "/tmp/clip.mp4");
    assert_eq!(info.container, "mov,mp4,m4a,3gp,3g2,mj2");
    assert_eq!(info.streams[1].index, 1);
    assert_eq!(info.streams[1].kind, "audio");
    assert_eq!(info.streams[0].codec, "h264");
}

#[test]
fn falls_back_to_r_frame_rate_and_stream_duration() {
    let json = r#"{
            "streams": [
                {
                    "index": 0,
                    "codec_name": "vp9",
                    "codec_type": "video",
                    "width": 1920,
                    "height": 1080,
                    "r_frame_rate": "60/1",
                    "avg_frame_rate": "0/0",
                    "duration": "12.5"
                }
            ],
            "format": { "format_name": "webm" }
        }"#;
    let info = parse(json, "x.webm").unwrap();
    let v = info.video.unwrap();
    assert_eq!(value(v.fps), 60.0);
    assert_eq!(value(info.duration_sec), 12.5);
    assert!(info.audio.is_none());
}

#[test]
fn audio_only_file_is_valid() {
    let json = r#"{
            "streams": [
                {
                    "index": 0,
                    "codec_name": "mp3",
                    "codec_type": "audio",
                    "sample_rate": "44100",
                    "channels": 2
                }
            ],
            "format": { "format_name": "mp3", "duration": "180.1" }
        }"#;
    let info = parse(json, "song.mp3").unwrap();
    assert!(info.video.is_none());
    assert_eq!(info.audio.unwrap().sample_rate, 44100);
}

#[test]
fn no_streams_is_an_error() {
    let json = r#"{ "streams": [], "format": { "format_name": "mp4" } }"#;
    let err = parse(json, "empty.mp4").unwrap_err();
    assert!(matches!(err, MediaError::NoStreams { .. }));
}

#[test]
fn garbage_json_is_a_parse_error() {
    let err = parse("not json", "x").unwrap_err();
    assert!(matches!(err, MediaError::ProbeParse(_)));
}

#[test]
fn parse_rate_handles_edge_cases() {
    assert_eq!(parse_rate("30/1"), Some(30.0));
    assert!((parse_rate("30000/1001").unwrap() - 29.97).abs() < 0.01);
    assert_eq!(parse_rate("0/0"), None);
    assert_eq!(parse_rate("5/0"), None);
    assert_eq!(parse_rate("garbage"), None);
    assert_eq!(parse_rate(""), None);
}

#[test]
fn only_the_first_usable_streams_count() {
    let json = r#"{
            "streams": [
                { "index": 0, "codec_type": "video", "width": 10, "height": 10 },
                { "index": 1, "codec_type": "audio" },
                { "index": 2, "codec_type": "video", "codec_name": "av1",
                  "width": 4, "height": 2, "avg_frame_rate": "25/1", "duration": "3.5" },
                { "index": 3, "codec_type": "video", "codec_name": "h264",
                  "width": 8, "height": 8, "avg_frame_rate": "25/1", "duration": "2.5" },
                { "index": 4, "codec_type": "audio", "codec_name": "aac",
                  "sample_rate": "48000", "channels": 1 },
                { "index": 5 }
            ],
            "format": { "size": "-3" }
        }"#;
    let info = parse(json, "m").unwrap();
    let v = info.video.unwrap();
    assert_eq!((v.codec.as_str(), v.width, v.height), ("av1", 4, 2));
    let a = info.audio.unwrap();
    assert_eq!((a.codec.as_str(), a.sample_rate, a.channels), ("unknown", 0, 0));
    assert_eq!(value(info.duration_sec), 3.5);
    assert_eq!(info.size_bytes, 0);
    assert_eq!(info.streams.len(), 6);
    assert_eq!(info.streams[5].kind, "unknown");
    assert_eq!(info.streams[5].codec, "unknown");
}

#[test]
fn a_failed_probe_quotes_trimmed_stderr() {
    assert_eq!(
        probe_failed("/a.mp4", " \n moov atom not found\n").message(),
        "could not read media file /a.mp4: moov atom not found"
    );
}

#[test]
fn trim_args_shape() {
    let args = trim_args(
        "/a.mp4",
        "/b.mp4",
        &format!("{:.6}", 1.5),
        &format!("{:.6}", 2.0),
    );
    let joined = args.join(" ");
    assert!(joined.starts_with("-ss 1.500000 -i /a.mp4"), "{joined}");
    assert!(joined.contains("-t 2.000000"));
    assert!(joined.contains("-c copy"));
    assert!(joined.contains("-avoid_negative_ts make_zero"));
    assert!(joined.ends_with("/b.mp4"));
}

fn check(in_sec: f64, out_sec: f64) -> Result<(), MediaError> {
    check_trim(
        sec(in_sec),
        sec(out_sec),
        &format!("{in_sec}"),
        &format!("{out_sec}"),
    )
}

#[test]
fn rejects_invalid_ranges() {
    assert!(check(2.0, 1.0).is_err());
    assert!(check(-1.0, 1.0).is_err());
    assert!(check(1.0, 1.0).is_err());
}

#[test]
fn range_errors_say_what_was_asked() {
    assert!(check(0.0, 0.5).is_ok());
    assert!(check(-0.0, 1.0).is_ok(), "negative zero is zero");
    assert!(check(f64::NAN, 1.0).is_err());
    assert!(check(0.0, f64::NAN).is_err());
    assert_eq!(
        check(2.0, 1.0).unwrap_err().message(),
        "ffmpeg failed while trim export: invalid trim range 2..1"
    );
    assert_eq!(trim_context("/a.mp4"), "trimming /a.mp4");
}

fn keyframe(listing: &str, t: f64) -> f64 {
    let times: Vec<Real> = keyframe_times(listing)
        .iter()
        .filter_map(|s| s.parse::<f64>().ok())
        .map(sec)
        .collect();
    value(keyframe_at_or_before(&times, sec(t), sec(t + 5e-7)))
}

#[test]
fn finds_the_keyframe_at_or_before_a_time() {
    // Packets of a 30 fps clip with a keyframe every second.
    let listing: String = (0..90)
        .map(|n| {
            let flags = if n % 30 == 0 { "K__" } else { "___" };
            format!("{:.6},{flags}\n", f64::from(n) / 30.0)
        })
        .collect();
    let kf = keyframe(&listing, 1.5);
    assert!((kf - 1.0).abs() < 0.05, "keyframe for 1.5 was {kf}");
    let kf = keyframe(&listing, 1.0);
    assert!((kf - 1.0).abs() < 0.05, "keyframe for 1.0 was {kf}");
    let kf = keyframe(&listing, 0.4);
    assert!(kf.abs() < 0.05, "keyframe for 0.4 was {kf}");
    // A keyframe just behind the point is not taken.
    assert_eq!(keyframe(&listing, 0.9995), 0.0);
    // One at the point is, though it is listed as 0.066667.
    let point = 2.0 / 30.0;
    assert_eq!(keyframe("0.0,K__\n0.066667,K__\n", point), point);
}

#[test]
fn keyframe_listing_edge_cases() {
    assert_eq!(keyframe_times(" 6.95 ,K__\nN/A,K\nno comma\n7.0,___\n8,_K_"), vec!["6.95", "N/A", "8"]);
    assert_eq!(keyframe("", 5.0), 0.0, "start of file when none is found");
    assert_eq!(keyframe("3.0,K__\n9.0,K__\n4.0,K__\n", 5.0), 4.0, "order does not matter");
    assert_eq!(keyframe("9.0,K__\n", 5.0), 0.0);
}
