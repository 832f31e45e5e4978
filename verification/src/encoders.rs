//! H.264 encoder detection: prefer hardware (VAAPI, then NVENC), fall back to
//! libx264 silently.
//!
//! `ffmpeg -encoders` only says an encoder was *compiled in*: a machine can
//! list `h264_nvenc` with no NVIDIA GPU, or `h264_vaapi` with a driver that
//! can't encode. So detection is functional: each candidate must actually
//! encode a few frames to the null muxer before it is chosen.

use vstd::prelude::*;
use vstd::string::*;

use crate::strings;
use crate::strings::{chars_of, has_prefix, insert_ascending, push_text, same_text, split_at_char, split_words, string_of};

verus! {

/// The encoder an export will use, with everything needed to build its
/// ffmpeg arguments.
#[derive(Debug)]
pub enum H264Encoder {
    /// `h264_vaapi` through the given DRM render node (Intel/AMD).
    Vaapi { device: String },
    /// `h264_nvenc` (NVIDIA).
    Nvenc,
    /// `libx264` software fallback, always assumed present.
    X264,
}

impl Clone for H264Encoder {
    fn clone(&self) -> (out: Self)
        ensures
            out == *self,
    {
        match self {
            H264Encoder::Vaapi { device } => H264Encoder::Vaapi { device: device.clone() },
            H264Encoder::Nvenc => H264Encoder::Nvenc,
            H264Encoder::X264 => H264Encoder::X264,
        }
    }
}

/// The `-c:v` value of an encoder.
pub open spec fn name_of(encoder: H264Encoder) -> Seq<char> {
    match encoder {
        H264Encoder::Vaapi { .. } => "h264_vaapi"@,
        H264Encoder::Nvenc => "h264_nvenc"@,
        H264Encoder::X264 => "libx264"@,
    }
}

/// The export dialog's label of an encoder.
pub open spec fn label_of(encoder: H264Encoder) -> Seq<char> {
    match encoder {
        H264Encoder::Vaapi { device } => "VAAPI hardware (h264_vaapi on "@ + device@ + ")"@,
        H264Encoder::Nvenc => "NVIDIA hardware (h264_nvenc)"@,
        H264Encoder::X264 => "software (libx264)"@,
    }
}

impl H264Encoder {
    /// The ffmpeg encoder name (`-c:v` value).
    pub fn ffmpeg_name(&self) -> (out: &'static str)
        ensures
            out@ == name_of(*self),
    {
        match self {
            H264Encoder::Vaapi { .. } => "h264_vaapi",
            H264Encoder::Nvenc => "h264_nvenc",
            H264Encoder::X264 => "libx264",
        }
    }

    /// Human-readable label for the export dialog.
    pub fn label(&self) -> (out: String)
        ensures
            out@ == label_of(*self),
    {
        match self {
            H264Encoder::Vaapi { device } => {
                let mut out = "VAAPI hardware (h264_vaapi on ".to_owned();
                out.append(device.as_str());
                out.append(")");
                out
            },
            H264Encoder::Nvenc => "NVIDIA hardware (h264_nvenc)".to_owned(),
            H264Encoder::X264 => "software (libx264)".to_owned(),
        }
    }

    /// Whether the encoder runs on dedicated hardware.
    pub fn is_hardware(&self) -> (out: bool)
        ensures
            out == (*self !is X264),
    {
        match self {
            H264Encoder::X264 => false,
            _ => true,
        }
    }
}

/// A character an encoder identifier may hold.
pub open spec fn name_char(c: char) -> bool {
    ||| '0' <= c <= '9'
    ||| 'A' <= c <= 'Z'
    ||| 'a' <= c <= 'z'
    ||| c == '_'
    ||| c == '-'
}

/// The encoder that one line of an `ffmpeg -encoders` listing names: the
/// second column, where the first is a capability block (it starts with V, A
/// or S) and the second looks like an identifier. The legend lines
/// (` V..... = Video`) fail on the second column.
pub open spec fn row_name(line: Seq<char>) -> Option<Seq<char>> {
    let cols = strings::words(line);
    if cols.len() >= 2 && (cols[0][0] == 'V' || cols[0][0] == 'A' || cols[0][0] == 'S') && (forall|
        k: int,
    |
        0 <= k < cols[1].len() ==> name_char(#[trigger] cols[1][k])) {
        Some(cols[1])
    } else {
        None
    }
}

/// The encoder names of a run of listing lines, in order.
pub open spec fn row_names(lines: Seq<Seq<char>>) -> Seq<Seq<char>>
    decreases lines.len(),
{
    if lines.len() == 0 {
        Seq::empty()
    } else {
        let before = row_names(lines.drop_last());
        match row_name(lines.last()) {
            Some(name) => before.push(name),
            None => before,
        }
    }
}

fn is_name_char(c: char) -> (r: bool)
    ensures
        r == name_char(c),
{
    ('0' <= c && c <= '9') || ('A' <= c && c <= 'Z') || ('a' <= c && c <= 'z') || c == '_' || c
        == '-'
}

fn parse_row(line: &Vec<char>) -> (out: Option<String>)
    ensures
        match (out, row_name(line@)) {
            (Some(name), Some(expected)) => name@ == expected,
            (None, None) => true,
            _ => false,
        },
{
    let cols = split_words(line);
    proof {
        strings::lemma_words_nonempty(line@);
        assert(strings::texts(cols@).len() == cols@.len());
    }
    if cols.len() < 2 {
        return None;
    }
    proof {
        assert(cols@[0]@ == strings::words(line@)[0]);
        assert(cols@[1]@ == strings::words(line@)[1]);
    }
    let flag: char = cols[0][0];
    if flag != 'V' && flag != 'A' && flag != 'S' {
        return None;
    }
    let name = &cols[1];
    for i in 0..name.len()
        invariant
            name@ == strings::words(line@)[1],
            forall|k: int| 0 <= k < i ==> name_char(#[trigger] name@[k]),
    {
        if !is_name_char(name[i]) {
            return None;
        }
    }
    Some(string_of(name.as_slice()))
}

/// Parse `ffmpeg -encoders` output into the encoder names it lists.
///
/// Lines look like ` V....D h264_vaapi           H.264/AVC (VAAPI)`; the
/// first column is a capability flag block, the second the name.
pub fn parse_encoder_list(text: &str) -> (out: Vec<String>)
    ensures
        strings::views(out@) == row_names(strings::pieces(text@, '\n')),
{
    let lines = split_at_char(&chars_of(text), '\n');
    let ghost all = strings::pieces(text@, '\n');
    let mut out: Vec<String> = Vec::new();
    proof {
        assert(strings::texts(lines@).len() == lines@.len());
        assert(strings::views(out@) =~= row_names(all.take(0)));
    }
    for i in 0..lines.len()
        invariant
            strings::texts(lines@) == all,
            lines@.len() == all.len(),
            strings::views(out@) == row_names(all.take(i as int)),
    {
        let row = parse_row(&lines[i]);
        proof {
            assert(all.take(i + 1).drop_last() =~= all.take(i as int));
            assert(lines@[i as int]@ == all[i as int]);
        }
        if let Some(name) = row {
            push_text(&mut out, name.as_str());
        }
    }
    proof {
        assert(all.take(all.len() as int) =~= all);
    }
    out
}

/// The arguments that make ffmpeg encode three black frames to the null muxer
/// with `candidate`: exit status 0 means the encoder (and its device) works.
pub open spec fn probe_arg_views(candidate: H264Encoder) -> Seq<Seq<char>> {
    let head = seq!["-hide_banner"@, "-v"@, "error"@];
    let source = seq!["-f"@, "lavfi"@, "-i"@, "color=black:size=256x256:rate=30"@];
    let middle = match candidate {
        H264Encoder::Vaapi { device } => seq!["-vaapi_device"@, device@] + source
            + seq!["-frames:v"@, "3"@, "-vf"@, "format=nv12,hwupload"@],
        _ => source + seq!["-frames:v"@, "3"@, "-pix_fmt"@, "yuv420p"@],
    };
    head + middle + seq!["-c:v"@, name_of(candidate), "-f"@, "null"@, "-"@]
}

/// The ffmpeg arguments of the functional probe of `candidate`.
pub fn probe_args(candidate: &H264Encoder) -> (out: Vec<String>)
    ensures
        strings::views(out@) == probe_arg_views(*candidate),
{
    let mut out: Vec<String> = Vec::new();
    push_text(&mut out, "-hide_banner");
    push_text(&mut out, "-v");
    push_text(&mut out, "error");
    let vaapi = match candidate {
        H264Encoder::Vaapi { device } => {
            push_text(&mut out, "-vaapi_device");
            push_text(&mut out, device.as_str());
            true
        },
        _ => false,
    };
    push_text(&mut out, "-f");
    push_text(&mut out, "lavfi");
    push_text(&mut out, "-i");
    push_text(&mut out, "color=black:size=256x256:rate=30");
    push_text(&mut out, "-frames:v");
    push_text(&mut out, "3");
    if vaapi {
        push_text(&mut out, "-vf");
        push_text(&mut out, "format=nv12,hwupload");
    } else {
        push_text(&mut out, "-pix_fmt");
        push_text(&mut out, "yuv420p");
    }
    push_text(&mut out, "-c:v");
    push_text(&mut out, candidate.ffmpeg_name());
    push_text(&mut out, "-f");
    push_text(&mut out, "null");
    push_text(&mut out, "-");
    proof {
        assert(strings::views(out@) =~= probe_arg_views(*candidate));
    }
    out
}

/// The render nodes among the names of `/dev/dri`, as device paths.
pub open spec fn render_nodes(names: Seq<Seq<char>>) -> Seq<Seq<char>>
    decreases names.len(),
{
    if names.len() == 0 {
        Seq::empty()
    } else {
        let before = render_nodes(names.drop_last());
        if strings::begins(names.last(), "renderD"@) {
            before.push("/dev/dri/"@ + names.last())
        } else {
            before
        }
    }
}

/// DRM render nodes to try for VAAPI, in order: of the entries of `/dev/dri`,
/// those named `renderD…`, ascending.
pub fn vaapi_devices(names: &Vec<String>) -> (out: Vec<String>)
    ensures
        strings::ascending(strings::views(out@)),
        strings::views(out@).to_multiset() == render_nodes(strings::views(names@)).to_multiset(),
{
    let prefix = chars_of("renderD");
    let ghost all = strings::views(names@);
    let mut out: Vec<String> = Vec::new();
    proof {
        assert(strings::views(out@) =~= render_nodes(all.take(0)));
    }
    for i in 0..names.len()
        invariant
            prefix@ == "renderD"@,
            all == strings::views(names@),
            strings::ascending(strings::views(out@)),
            strings::views(out@).to_multiset() == render_nodes(all.take(i as int)).to_multiset(),
    {
        proof {
            assert(all.take(i + 1).drop_last() =~= all.take(i as int));
        }
        if has_prefix(&chars_of(names[i].as_str()), &prefix) {
            let mut device = "/dev/dri/".to_owned();
            device.append(names[i].as_str());
            let ghost before = render_nodes(all.take(i as int));
            proof {
                before.to_multiset_ensures();
                assert(before.push(device@).to_multiset() =~= before.to_multiset().insert(device@));
            }
            insert_ascending(&mut out, device);
        }
    }
    proof {
        assert(all.take(all.len() as int) =~= all);
    }
    out
}

/// Whether a list holds a text.
pub open spec fn listed(available: Seq<String>, name: Seq<char>) -> bool {
    exists|i: int| 0 <= i < available.len() && (#[trigger] available[i])@ == name
}

fn is_listed(available: &Vec<String>, name: &str) -> (r: bool)
    ensures
        r == listed(available@, name@),
{
    for i in 0..available.len()
        invariant
            forall|k: int| 0 <= k < i ==> (#[trigger] available@[k])@ != name@,
    {
        if same_text(available[i].as_str(), name) {
            return true;
        }
    }
    false
}

/// The hardware encoders worth probing, in order of preference: VAAPI on each
/// render node, then NVENC, each only where ffmpeg lists the encoder.
pub open spec fn candidate_list(available: Seq<String>, devices: Seq<String>) -> Seq<H264Encoder> {
    let vaapi = if listed(available, "h264_vaapi"@) {
        devices.map_values(|device: String| H264Encoder::Vaapi { device })
    } else {
        Seq::empty()
    };
    if listed(available, "h264_nvenc"@) {
        vaapi.push(H264Encoder::Nvenc)
    } else {
        vaapi
    }
}

/// The hardware encoders to probe, best first.
pub fn hardware_candidates(available: &Vec<String>, devices: &Vec<String>) -> (out: Vec<
    H264Encoder,
>)
    ensures
        out@ == candidate_list(available@, devices@),
{
    let mut out: Vec<H264Encoder> = Vec::new();
    if is_listed(available, "h264_vaapi") {
        for i in 0..devices.len()
            invariant
                out@ == devices@.take(i as int).map_values(
                    |device: String| H264Encoder::Vaapi { device },
                ),
        {
            out.push(H264Encoder::Vaapi { device: devices[i].clone() });
            proof {
                assert(out@ =~= devices@.take(i + 1).map_values(
                    |device: String| H264Encoder::Vaapi { device },
                ));
            }
        }
        proof {
            assert(devices@.take(devices@.len() as int) =~= devices@);
        }
    }
    if is_listed(available, "h264_nvenc") {
        out.push(H264Encoder::Nvenc);
    }
    proof {
        assert(out@ =~= candidate_list(available@, devices@));
    }
    out
}

/// What encoder detection needs next.
pub enum Detection {
    /// Probe this candidate and report whether it passed.
    Probe(H264Encoder),
    /// Detection is over.
    Chosen(H264Encoder),
}

/// One step of encoder detection. `passed` holds the outcome of the probes run
/// so far, of the first candidates in order. The first candidate that passed
/// is the encoder; once every candidate has failed it is libx264, which works
/// wherever ffmpeg does.
pub fn detected_h264_encoder(candidates: &Vec<H264Encoder>, passed: &Vec<bool>) -> (out: Detection)
    requires
        passed@.len() <= candidates@.len(),
    ensures
        match out {
            Detection::Chosen(encoder) => {
                ||| exists|i: int|
                    #![trigger passed@[i]]
                    0 <= i < passed@.len() && passed@[i] && encoder == candidates@[i] && (forall|
                        k: int,
                    |
                        0 <= k < i ==> !passed@[k])
                ||| passed@.len() == candidates@.len() && encoder is X264 && forall|k: int|
                    0 <= k < passed@.len() ==> !passed@[k]
            },
            Detection::Probe(encoder) => {
                &&& passed@.len() < candidates@.len()
                &&& encoder == candidates@[passed@.len() as int]
                &&& forall|k: int| 0 <= k < passed@.len() ==> !passed@[k]
            },
        },
{
    for i in 0..passed.len()
        invariant
            passed@.len() <= candidates@.len(),
            forall|k: int| 0 <= k < i ==> !passed@[k],
    {
        if passed[i] {
            return Detection::Chosen(candidates[i].clone());
        }
    }
    if passed.len() < candidates.len() {
        Detection::Probe(candidates[passed.len()].clone())
    } else {
        Detection::Chosen(H264Encoder::X264)
    }
}

/// A line of a listing never yields an empty encoder name.
pub proof fn law_names_are_identifiers(line: Seq<char>)
    ensures
        row_name(line) matches Some(name) ==> name.len() >= 1 && forall|k: int|
            0 <= k < name.len() ==> name_char(#[trigger] name[k]),
{
    strings::lemma_words_nonempty(line);
}

/// A listing is read line by line, to its end: each further line adds the name
/// in its second column, if the first column starts with V, A or S and the
/// second holds only letters, digits, `_` and `-`, and adds nothing else.
pub proof fn law_every_row_is_read(lines: Seq<Seq<char>>, line: Seq<char>)
    ensures
        ({
            let cols = strings::words(line);
            let named = cols.len() >= 2 && (cols[0][0] == 'V' || cols[0][0] == 'A' || cols[0][0]
                == 'S') && forall|k: int|
                0 <= k < cols[1].len() ==> {
                    ||| 'a' <= #[trigger] cols[1][k] <= 'z'
                    ||| 'A' <= cols[1][k] <= 'Z'
                    ||| '0' <= cols[1][k] <= '9'
                    ||| cols[1][k] == '_'
                    ||| cols[1][k] == '-'
                };
            &&& named ==> row_names(lines.push(line)) == row_names(lines).push(cols[1])
            &&& !named ==> row_names(lines.push(line)) == row_names(lines)
        }),
        row_names(Seq::empty()) == Seq::<Seq<char>>::empty(),
{
    assert(lines.push(line).drop_last() =~= lines);
    let cols = strings::words(line);
    assert forall|k: int| #![trigger cols[1][k]] name_char(cols[1][k]) <==> {
        ||| 'a' <= cols[1][k] <= 'z'
        ||| 'A' <= cols[1][k] <= 'Z'
        ||| '0' <= cols[1][k] <= '9'
        ||| cols[1][k] == '_'
        ||| cols[1][k] == '-'
    } by {}
}

/// Every render node is offered: each further name of `/dev/dri` adds its path,
/// if it starts with `renderD`.
pub proof fn law_every_render_node_is_offered(names: Seq<Seq<char>>, name: Seq<char>)
    ensures
        ({
            let node = name.len() >= 7 && name.take(7) == "renderD"@;
            &&& node ==> render_nodes(names.push(name)) == render_nodes(names).push(
                "/dev/dri/"@ + name,
            )
            &&& !node ==> render_nodes(names.push(name)) == render_nodes(names)
        }),
        render_nodes(Seq::empty()) == Seq::<Seq<char>>::empty(),
{
    reveal_strlit("renderD");
    assert(names.push(name).drop_last() =~= names);
    let prefix = "renderD"@;
    assert(prefix.len() == 7);
    if name.len() >= 7 {
        assert(name.take(7) == prefix <==> strings::begins(name, prefix)) by {
            if strings::begins(name, prefix) {
                assert(name.take(7) =~= prefix);
            }
        }
    }
}

/// VAAPI is tried on every device, in their order, and NVENC behind it; each
/// only where ffmpeg lists the encoder.
pub proof fn law_hardware_is_tried_in_order(available: Seq<String>, devices: Seq<String>, i: int)
    ensures
        ({
            let out = candidate_list(available, devices);
            let vaapi = exists|k: int|
                0 <= k < available.len() && (#[trigger] available[k])@ == "h264_vaapi"@;
            let nvenc = exists|k: int|
                0 <= k < available.len() && (#[trigger] available[k])@ == "h264_nvenc"@;
            let before: int = if vaapi {
                devices.len() as int
            } else {
                0
            };
            &&& out.len() == if nvenc {
                before + 1
            } else {
                before
            }
            &&& 0 <= i < before ==> out[i] == (H264Encoder::Vaapi { device: devices[i] })
            &&& nvenc ==> out[before] == H264Encoder::Nvenc
        }),
{
}

/// A probe encodes three frames of a small black picture with the candidate,
/// on its device, and writes nothing.
pub proof fn law_probes_encode_with_the_candidate(candidate: H264Encoder)
    ensures
        ({
            let args = probe_arg_views(candidate);
            &&& strings::says(args, "-i"@, "color=black:size=256x256:rate=30"@)
            &&& strings::says(args, "-frames:v"@, "3"@)
            &&& candidate is X264 ==> strings::says(args, "-c:v"@, "libx264"@)
            &&& candidate is Nvenc ==> strings::says(args, "-c:v"@, "h264_nvenc"@)
            &&& candidate matches H264Encoder::Vaapi { device } ==> strings::says(
                args,
                "-c:v"@,
                "h264_vaapi"@,
            ) && strings::says(args, "-vaapi_device"@, device@) && strings::says(
                args,
                "-vf"@,
                "format=nv12,hwupload"@,
            )
            &&& candidate !is Vaapi ==> strings::says(args, "-pix_fmt"@, "yuv420p"@)
            &&& args[args.len() - 3] == "-f"@ && args[args.len() - 2] == "null"@ && args[args.len()
                - 1] == "-"@
        }),
{
    let args = probe_arg_views(candidate);
    if candidate is Vaapi {
        strings::lemma_says(args, 3);
        strings::lemma_says(args, 7);
        strings::lemma_says(args, 9);
        strings::lemma_says(args, 11);
        strings::lemma_says(args, 13);
    } else {
        strings::lemma_says(args, 5);
        strings::lemma_says(args, 7);
        strings::lemma_says(args, 9);
        strings::lemma_says(args, 11);
    }
}

/// The dialog tells hardware from software, names the encoder and, where it
/// has one, its device.
pub proof fn law_labels_name_the_encoder(encoder: H264Encoder)
    ensures
        encoder is X264 ==> label_of(encoder) == "software (libx264)"@ && name_of(encoder)
            == "libx264"@,
        encoder is Nvenc ==> label_of(encoder) == "NVIDIA hardware (h264_nvenc)"@ && name_of(
            encoder,
        ) == "h264_nvenc"@,
        encoder matches H264Encoder::Vaapi { device } ==> label_of(encoder)
            == "VAAPI hardware (h264_vaapi on "@ + device@ + ")"@ && name_of(encoder)
            == "h264_vaapi"@,
{
}

} // verus!
