//! What the editor's window sends and gets: frame messages, export job
//! policy, encoder info, and the small argument forms.

use vstd::prelude::*;

use crate::bytes;
use crate::bytes::{push_bytes, push_le};
use crate::double::Real;
use crate::encoders;
use crate::encoders::H264Encoder;
use crate::error;
use crate::error::MediaError;
use crate::export_job::ExportSummary;
use crate::strings;
use crate::strings::{chars_of, push_owned, same_text, split_at_char, string_of, trim_chars};

verus! {

/// The bytes of a frame message: a little-endian header
/// `[pts][width: u32][height: u32]`, then the JPEG.
pub open spec fn frame_bytes(pts: Real, width: u32, height: u32, jpeg: Seq<u8>) -> Seq<u8> {
    bytes::le_bytes(pts.bits as nat, 8) + bytes::le_bytes(width as nat, 4) + bytes::le_bytes(
        height as nat,
        4,
    ) + jpeg
}

/// Binary frame message: little-endian header + JPEG payload.
pub fn frame_message(pts: Real, width: u32, height: u32, jpeg: &Vec<u8>) -> (out: Vec<u8>)
    ensures
        out@ == frame_bytes(pts, width, height, jpeg@),
{
    let mut out: Vec<u8> = Vec::new();
    push_le(&mut out, pts.bits as u128, 8);
    push_le(&mut out, width as u128, 4);
    push_le(&mut out, height as u128, 4);
    push_bytes(&mut out, jpeg.as_slice());
    proof {
        assert(out@ =~= frame_bytes(pts, width, height, jpeg@));
    }
    out
}

/// What the header of a frame message says reads back, and the rest is the
/// JPEG.
pub proof fn law_frame_message_reads_back(pts: Real, width: u32, height: u32, jpeg: Seq<u8>)
    ensures
        ({
            let m = frame_bytes(pts, width, height, jpeg);
            &&& m.len() == 16 + jpeg.len()
            &&& bytes::le_value(m.subrange(0, 8)) == pts.bits
            &&& bytes::le_value(m.subrange(8, 12)) == width
            &&& bytes::le_value(m.subrange(12, 16)) == height
            &&& m.skip(16) == jpeg
        }),
{
    let m = frame_bytes(pts, width, height, jpeg);
    bytes::lemma_power256();
    bytes::lemma_le_len(pts.bits as nat, 8);
    bytes::lemma_le_len(width as nat, 4);
    bytes::lemma_le_len(height as nat, 4);
    bytes::lemma_le_round_trip(pts.bits as nat, 8);
    bytes::lemma_le_round_trip(width as nat, 4);
    bytes::lemma_le_round_trip(height as nat, 4);
    assert(m.subrange(0, 8) =~= bytes::le_bytes(pts.bits as nat, 8));
    assert(m.subrange(8, 12) =~= bytes::le_bytes(width as nat, 4));
    assert(m.subrange(12, 16) =~= bytes::le_bytes(height as nat, 4));
    assert(m.skip(16) =~= jpeg);
}

/// A call of the transport reaches the player, if one is attached.
pub fn check_attached(attached: bool) -> (out: Result<(), String>)
    ensures
        if attached {
            out is Ok
        } else {
            out matches Err(e) && e@ == "playback engine is not attached"@
        },
{
    if attached {
        Ok(())
    } else {
        Err("playback engine is not attached".to_owned())
    }
}

/// The non-empty pieces of a list.
pub open spec fn filled(list: Seq<Seq<char>>) -> Seq<Seq<char>>
    decreases list.len(),
{
    if list.len() == 0 {
        Seq::empty()
    } else if list.last().len() == 0 {
        filled(list.drop_last())
    } else {
        filled(list.drop_last()).push(list.last())
    }
}

/// Bench mode runs when its switch is exactly `1` (blanks around it aside) and
/// a media list is given: the `:`-separated files, empty ones left out.
pub fn bench_config(switch: &Option<String>, media: &Option<String>) -> (out: Option<Vec<String>>)
    ensures
        match (*switch, *media) {
            (Some(s), Some(m)) => if strings::trimmed(s@) == "1"@ {
                out matches Some(files) && strings::views(files@) == filled(
                    strings::pieces(m@, ':'),
                )
            } else {
                out is None
            },
            _ => out is None,
        },
{
    let switch = match switch {
        Some(s) => s,
        None => {
            return None;
        },
    };
    let trimmed = string_of(trim_chars(&chars_of(switch.as_str())).as_slice());
    if !same_text(trimmed.as_str(), "1") {
        return None;
    }
    let media = match media {
        Some(m) => m,
        None => {
            return None;
        },
    };
    let parts = split_at_char(&chars_of(media.as_str()), ':');
    let ghost all = strings::texts(parts@);
    let mut out: Vec<String> = Vec::new();
    for i in 0..parts.len()
        invariant
            all == strings::texts(parts@),
            strings::views(out@) == filled(all.take(i as int)),
    {
        proof {
            assert(all.take(i + 1).drop_last() =~= all.take(i as int));
            assert(all.take(i + 1).last() == parts@[i as int]@);
        }
        if parts[i].len() != 0 {
            push_owned(&mut out, string_of(parts[i].as_slice()));
        }
    }
    proof {
        assert(all.take(all.len() as int) =~= all);
    }
    Some(out)
}

/// Which edge of a clip a trim drags.
#[derive(Clone, Copy, Debug, PartialEq, Eq, Structural)]
pub enum TrimEdge {
    Start,
    End,
}

/// Wire form of [`TrimEdge`].
#[derive(Clone, Copy, Debug, PartialEq, Eq, Structural)]
pub enum TrimEdgeArg {
    Start,
    End,
}

impl From<TrimEdgeArg> for TrimEdge {
    fn from(edge: TrimEdgeArg) -> (out: Self) {
        match edge {
            TrimEdgeArg::Start => TrimEdge::Start,
            TrimEdgeArg::End => TrimEdge::End,
        }
    }
}

impl vstd::std_specs::convert::FromSpecImpl<TrimEdgeArg> for TrimEdge {
    open spec fn obeys_from_spec() -> bool {
        true
    }

    open spec fn from_spec(edge: TrimEdgeArg) -> Self {
        match edge {
            TrimEdgeArg::Start => TrimEdge::Start,
            TrimEdgeArg::End => TrimEdge::End,
        }
    }
}

/// Which encoder exports will use (for display in the dialog).
#[derive(Debug)]
pub struct EncoderInfo {
    /// ffmpeg encoder name, e.g. `h264_vaapi`.
    pub encoder: String,
    /// Human-readable label, e.g. `VAAPI hardware (h264_vaapi on
    /// /dev/dri/renderD128)`.
    pub label: String,
    pub hardware: bool,
}

/// The dialog's view of an encoder.
pub fn encoder_info(encoder: &H264Encoder) -> (out: EncoderInfo)
    ensures
        out.encoder@ == encoders::name_of(*encoder),
        out.label@ == encoders::label_of(*encoder),
        out.hardware == (*encoder !is X264),
{
    EncoderInfo {
        encoder: encoder.ffmpeg_name().to_owned(),
        label: encoder.label(),
        hardware: encoder.is_hardware(),
    }
}

/// The place of the export job: at most one at a time.
#[derive(Clone, Copy, Debug, PartialEq, Eq, Structural)]
pub enum ExportSlot {
    Empty,
    /// A job whose thread has ended and can be joined.
    Finished,
    Running,
}

/// Whether a new export may start, given the slot: a finished job gives way, a
/// running one refuses it.
pub fn admit_export(slot: ExportSlot) -> (out: Result<(), String>)
    ensures
        if slot == ExportSlot::Running {
            out matches Err(e) && e@ == "an export is already running"@
        } else {
            out is Ok
        },
{
    match slot {
        ExportSlot::Running => Err("an export is already running".to_owned()),
        _ => Ok(()),
    }
}

/// Failure of an export.
#[derive(Debug)]
pub struct ExportErrorEvent {
    pub message: String,
}

/// Successful completion of an export.
#[derive(Debug)]
pub struct ExportDoneEvent {
    pub path: String,
    pub duration: Real,
    pub encoder: String,
    pub hardware_encode: bool,
}

/// What the window hears at the end of an export.
#[derive(Debug)]
pub enum ExportEnd {
    Done(ExportDoneEvent),
    /// The user asked for it; cleanup is finished.
    Cancelled,
    Failed(ExportErrorEvent),
}

/// The event that reports how an export ended; `duration` is the length of the
/// exported timeline.
pub fn export_end(result: &Result<ExportSummary, MediaError>, duration: Real) -> (out: ExportEnd)
    ensures
        match *result {
            Ok(s) => out matches ExportEnd::Done(e) && e.path@ == s.path@ && e.duration == duration
                && e.encoder@ == s.encoder@ && e.hardware_encode == s.hardware_encode,
            Err(MediaError::ExportCancelled) => out is Cancelled,
            Err(e) => out matches ExportEnd::Failed(f) && f.message@ == error::error_text(e),
        },
{
    match result {
        Ok(s) => ExportEnd::Done(
            ExportDoneEvent {
                path: s.path.clone(),
                duration,
                encoder: s.encoder.clone(),
                hardware_encode: s.hardware_encode,
            },
        ),
        Err(e) => match e {
            MediaError::ExportCancelled => ExportEnd::Cancelled,
            _ => ExportEnd::Failed(ExportErrorEvent { message: e.message() }),
        },
    }
}

/// Of a media list every entry that is not empty is kept, in order, to its end.
pub proof fn law_every_entry_is_kept(list: Seq<Seq<char>>, entry: Seq<char>)
    ensures
        filled(Seq::empty()) == Seq::<Seq<char>>::empty(),
        entry.len() > 0 ==> filled(list.push(entry)) == filled(list).push(entry),
        entry.len() == 0 ==> filled(list.push(entry)) == filled(list),
{
    assert(list.push(entry).drop_last() =~= list);
}

} // verus!
