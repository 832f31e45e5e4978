//! Single-frame thumbnail extraction for media-pool items and clip labels:
//! small JPEGs, 320 px wide, aspect preserved.

use vstd::prelude::*;
use vstd::string::*;

use crate::error::MediaError;
use crate::strings;
use crate::strings::{chars_of, push_text, split_at_char, string_of};

verus! {

/// Thumbnail width in pixels. Height follows the source aspect ratio.
pub const THUMBNAIL_WIDTH: u32 = 320;

/// The ffmpeg argument list for extracting a thumbnail of `src` at `dst`.
pub open spec fn thumbnail_arg_views(src: Seq<char>, dst: Seq<char>, seek: Seq<char>) -> Seq<
    Seq<char>,
> {
    seq![
        "-ss"@, seek, "-i"@, src, "-frames:v"@, "1"@, "-vf"@,
        "scale="@ + strings::dec(THUMBNAIL_WIDTH as nat) + ":-2"@, "-q:v"@, "4"@, "-y"@, dst,
    ]
}

/// The ffmpeg argument list for extracting a thumbnail of `src` at `dst`.
///
/// `-ss` before `-i` is a fast keyframe seek: frame-exact placement is
/// irrelevant for a thumbnail.
pub fn thumbnail_args(src: &str, dst: &str, seek: &str) -> (out: Vec<String>)
    ensures
        strings::views(out@) == thumbnail_arg_views(src@, dst@, seek@),
{
    let mut out: Vec<String> = Vec::new();
    proof {
        assert(strings::views(out@) =~= Seq::<Seq<char>>::empty());
    }
    push_text(&mut out, "-ss");
    push_text(&mut out, seek);
    push_text(&mut out, "-i");
    push_text(&mut out, src);
    push_text(&mut out, "-frames:v");
    push_text(&mut out, "1");
    push_text(&mut out, "-vf");
    let mut scale = "scale=".to_owned();
    scale.append(strings::dec_text(THUMBNAIL_WIDTH as u64).as_str());
    scale.append(":-2");
    push_text(&mut out, scale.as_str());
    push_text(&mut out, "-q:v");
    push_text(&mut out, "4");
    push_text(&mut out, "-y");
    push_text(&mut out, dst);
    out
}

/// The last line of a text: what stands before a final line break (and the
/// carriage return before that), behind the one before it. An empty text has
/// none.
pub open spec fn last_line(s: Seq<char>) -> Option<Seq<char>> {
    let parts = strings::pieces(s, '\n');
    let n = parts.len() as int;
    if parts[n - 1].len() > 0 {
        Some(parts[n - 1])
    } else if n < 2 {
        None
    } else {
        let line = parts[n - 2];
        if line.len() > 0 && line.last() == '\r' {
            Some(line.drop_last())
        } else {
            Some(line)
        }
    }
}

fn last_line_of(text: &str) -> (out: Option<String>)
    ensures
        match (out, last_line(text@)) {
            (Some(line), Some(expected)) => line@ == expected,
            (None, None) => true,
            _ => false,
        },
{
    let mut parts = split_at_char(&chars_of(text), '\n');
    proof {
        strings::lemma_pieces_nonempty(text@, '\n');
        assert(strings::texts(parts@).len() == parts@.len());
    }
    let ghost all = strings::pieces(text@, '\n');
    let n: usize = parts.len();
    proof {
        assert(parts@[n - 1]@ == all[n - 1]);
        if n >= 2 {
            assert(parts@[n - 2]@ == all[n - 2]);
        }
    }
    if parts[n - 1].len() > 0 {
        return Some(string_of(parts[n - 1].as_slice()));
    }
    if n < 2 {
        return None;
    }
    let _ = parts.pop();
    let mut line = parts.pop().unwrap();
    let m: usize = line.len();
    if m > 0 && line[m - 1] == '\r' {
        let _ = line.pop();
        proof {
            assert(line@ =~= all[n - 2].drop_last());
        }
    }
    Some(string_of(line.as_slice()))
}

/// What an extraction came to. ffmpeg can exit 0 without producing output
/// (e.g. seek past EOF), so the file's existence is part of the success
/// condition; the message of a failure is the last line of stderr.
pub fn thumbnail_outcome(src: &str, success: bool, produced: bool, stderr: &str) -> (out: Result<
    (),
    MediaError,
>)
    ensures
        match out {
            Ok(_) => success && produced,
            Err(MediaError::FfmpegFailed { context: Some(c), message }) => {
                &&& !(success && produced)
                &&& c@ == "extracting thumbnail for "@ + src@
                &&& message@ == match last_line(stderr@) {
                    Some(line) => line,
                    None => "no output produced"@,
                }
            },
            Err(_) => false,
        },
{
    if success && produced {
        return Ok(());
    }
    let mut context = "extracting thumbnail for ".to_owned();
    context.append(src);
    let message = match last_line_of(stderr) {
        Some(line) => line,
        None => "no output produced".to_owned(),
    };
    Err(MediaError::FfmpegFailed { context: Some(context), message })
}

/// A thumbnail is one frame, 320 pixels wide, of the source at the seek time.
pub proof fn law_thumbnails_are_one_small_frame(src: Seq<char>, dst: Seq<char>, seek: Seq<char>)
    ensures
        ({
            let args = thumbnail_arg_views(src, dst, seek);
            &&& args[0] == "-ss"@ && args[1] == seek
            &&& strings::says(args, "-i"@, src)
            &&& strings::says(args, "-frames:v"@, "1"@)
            &&& strings::says(args, "-vf"@, "scale=320:-2"@)
            &&& strings::says(args, "-q:v"@, "4"@)
            &&& args.last() == dst
        }),
{
    let args = thumbnail_arg_views(src, dst, seek);
    reveal_with_fuel(strings::dec, 4);
    reveal_strlit("scale=");
    reveal_strlit(":-2");
    reveal_strlit("scale=320:-2");
    assert(strings::dec(320) =~= seq!['3', '2', '0']);
    assert(args[7] =~= "scale=320:-2"@);
    strings::lemma_says(args, 2);
    strings::lemma_says(args, 4);
    strings::lemma_says(args, 6);
    strings::lemma_says(args, 8);
}

/// The last line of a text is what follows its last line break; where nothing
/// does, it is the line before that break, without a carriage return at its
/// end. Only an empty text has no line.
pub proof fn law_last_line(before: Seq<char>, line: Seq<char>)
    requires
        before.len() == 0 || before.last() == '\n',
        !line.contains('\n'),
    ensures
        line.len() > 0 ==> last_line(before + line) == Some(line),
        line.len() == 0 || line.last() != '\r' ==> last_line(before + line.push('\n')) == Some(
            line,
        ),
        last_line(before + line.push('\r').push('\n')) == Some(line),
        last_line(Seq::empty()) is None,
{
    lemma_last_piece(before, line);
    let closed = line.push('\n');
    let all = before + closed;
    assert(all.drop_last() =~= before + line);
    strings::lemma_pieces_nonempty(before + line, '\n');
    assert(strings::pieces(all, '\n') == strings::pieces(before + line, '\n').push(
        Seq::<char>::empty(),
    ));
    let long = line.push('\r');
    assert forall|k: int| 0 <= k < long.len() implies #[trigger] long[k] != '\n' by {
        if k < line.len() {
            assert(line.contains(line[k]));
        }
    }
    lemma_last_piece(before, long);
    let most = before + long.push('\n');
    assert(most.drop_last() =~= before + long);
    strings::lemma_pieces_nonempty(before + long, '\n');
    assert(long.drop_last() =~= line);
}

proof fn lemma_last_piece(before: Seq<char>, line: Seq<char>)
    requires
        before.len() == 0 || before.last() == '\n',
        !line.contains('\n'),
    ensures
        strings::pieces(before + line, '\n').len() >= 1,
        strings::pieces(before + line, '\n').last() == line,
    decreases line.len(),
{
    let all = before + line;
    strings::lemma_pieces_nonempty(all, '\n');
    if line.len() == 0 {
        assert(all =~= before);
        assert(line =~= Seq::<char>::empty());
    } else {
        let init = line.drop_last();
        assert(!init.contains('\n')) by {
            if init.contains('\n') {
                let k = choose|k: int| 0 <= k < init.len() && init[k] == '\n';
                assert(line[k] == '\n');
            }
        }
        assert(line.contains(line.last()));
        lemma_last_piece(before, init);
        assert(all.drop_last() =~= before + init);
        assert(init.push(line.last()) =~= line);
    }
}

} // verus!
