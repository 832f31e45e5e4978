//! Encoder listing, probing and detection.

use cutty::encoders::{
    detected_h264_encoder, hardware_candidates, parse_encoder_list, probe_args, vaapi_devices,
    Detection, H264Encoder,
};
use cutty::ipc::encoder_info;

fn owned(list: &[&str]) -> Vec<String> {
    list.iter().map(|s| s.to_string()).collect()
}

#[test]
fn parses_encoder_listing() {
    let listing = "\
Encoders:
 V..... = Video
 A..... = Audio
 ------
 V....D libx264              libx264 H.264 / AVC (codec h264)
 V....D h264_nvenc           NVIDIA NVENC H.264 encoder (codec h264)
 V....D h264_vaapi           H.264/AVC (VAAPI) (codec h264)
 A....D aac                  AAC (Advanced Audio Coding)
";
    let names = parse_encoder_list(listing);
    assert!(names.contains(&"libx264".to_string()));
    assert!(names.contains(&"h264_vaapi".to_string()));
    assert!(names.contains(&"h264_nvenc".to_string()));
    assert!(names.contains(&"aac".to_string()));
    assert!(!names.contains(&"Encoders:".to_string()));
    assert!(!names.contains(&"=".to_string()));
}

#[test]
fn labels_and_names_are_consistent() {
    let vaapi = H264Encoder::Vaapi {
        device: "/dev/dri/renderD128".to_string(),
    };
    assert_eq!(vaapi.ffmpeg_name(), "h264_vaapi");
    assert!(vaapi.label().contains("renderD128"));
    assert!(vaapi.is_hardware());
    assert!(!H264Encoder::X264.is_hardware());
}

#[test]
fn labels_read_in_full() {
    let vaapi = H264Encoder::Vaapi {
        device: "/dev/dri/renderD129".to_string(),
    };
    assert_eq!(
        vaapi.label(),
        "VAAPI hardware (h264_vaapi on /dev/dri/renderD129)"
    );
    assert_eq!(H264Encoder::Nvenc.label(), "NVIDIA hardware (h264_nvenc)");
    assert_eq!(H264Encoder::X264.label(), "software (libx264)");
    assert_eq!(H264Encoder::Nvenc.ffmpeg_name(), "h264_nvenc");
    assert_eq!(H264Encoder::X264.ffmpeg_name(), "libx264");
}

#[test]
fn encoder_info_mirrors_the_encoder() {
    let info = encoder_info(&H264Encoder::Nvenc);
    assert_eq!(info.encoder, "h264_nvenc");
    assert_eq!(info.label, "NVIDIA hardware (h264_nvenc)");
    assert!(info.hardware);
    let info = encoder_info(&H264Encoder::X264);
    assert_eq!(info.encoder, "libx264");
    assert!(!info.hardware);
}

#[test]
fn listing_keeps_order_and_odd_rows_out() {
    let listing = "V one a\r\nX two b\nA th-ree\nS f_our c\nV\n\nV bad.name x\nV.....  five";
    assert_eq!(
        parse_encoder_list(listing),
        owned(&["one", "th-ree", "f_our", "five"])
    );
    assert_eq!(parse_encoder_list(""), Vec::<String>::new());
}

#[test]
fn render_nodes_come_sorted_as_paths() {
    let names = owned(&["renderD129", "card0", "renderD128", "by-path", "render"]);
    assert_eq!(
        vaapi_devices(&names),
        owned(&["/dev/dri/renderD128", "/dev/dri/renderD129"])
    );
    assert!(vaapi_devices(&Vec::new()).is_empty());
}

#[test]
fn probe_arguments_per_encoder() {
    let vaapi = probe_args(&H264Encoder::Vaapi {
        device: "/dev/dri/renderD128".to_string(),
    });
    assert_eq!(
        vaapi.join(" "),
        "-hide_banner -v error -vaapi_device /dev/dri/renderD128 -f lavfi -i \
         color=black:size=256x256:rate=30 -frames:v 3 -vf format=nv12,hwupload -c:v h264_vaapi \
         -f null -"
    );
    assert_eq!(
        probe_args(&H264Encoder::X264).join(" "),
        "-hide_banner -v error -f lavfi -i color=black:size=256x256:rate=30 -frames:v 3 \
         -pix_fmt yuv420p -c:v libx264 -f null -"
    );
}

/// Runs detection against a fixed outcome per candidate and counts the probes.
fn detect(candidates: &Vec<H264Encoder>, works: &[bool]) -> (H264Encoder, usize) {
    let mut passed: Vec<bool> = Vec::new();
    loop {
        match detected_h264_encoder(candidates, &passed) {
            Detection::Probe(_) => {
                let outcome = works[passed.len()];
                passed.push(outcome);
            }
            Detection::Chosen(encoder) => return (encoder, passed.len()),
        }
    }
}

#[test]
fn detection_prefers_hardware_that_works() {
    let available = owned(&["libx264", "h264_vaapi", "h264_nvenc"]);
    let devices = owned(&["/dev/dri/renderD128", "/dev/dri/renderD129"]);
    let candidates = hardware_candidates(&available, &devices);
    assert_eq!(candidates.len(), 3);

    let (encoder, probes) = detect(&candidates, &[true, true, true]);
    assert_eq!(encoder.label(), "VAAPI hardware (h264_vaapi on /dev/dri/renderD128)");
    assert_eq!(probes, 1);

    let (encoder, probes) = detect(&candidates, &[false, true, true]);
    assert_eq!(encoder.label(), "VAAPI hardware (h264_vaapi on /dev/dri/renderD129)");
    assert_eq!(probes, 2);

    let (encoder, probes) = detect(&candidates, &[false, false, true]);
    assert_eq!(encoder.ffmpeg_name(), "h264_nvenc");
    assert_eq!(probes, 3);

    let (encoder, probes) = detect(&candidates, &[false, false, false]);
    assert_eq!(encoder.ffmpeg_name(), "libx264");
    assert_eq!(probes, 3);
}

#[test]
fn unlisted_hardware_is_never_probed() {
    let devices = owned(&["/dev/dri/renderD128"]);
    let candidates = hardware_candidates(&owned(&["libx264"]), &devices);
    assert!(candidates.is_empty());
    let (encoder, probes) = detect(&candidates, &[]);
    assert_eq!(encoder.ffmpeg_name(), "libx264");
    assert_eq!(probes, 0);

    let only_nvenc = hardware_candidates(&owned(&["h264_nvenc"]), &devices);
    assert_eq!(only_nvenc.len(), 1);
    assert_eq!(only_nvenc[0].ffmpeg_name(), "h264_nvenc");
}
