//! Lossless trim export via ffmpeg stream copy.
//!
//! Stream copy cannot cut mid-GOP, so the in point snaps to the keyframe at or
//! before the requested time; cutting exactly there makes the output duration
//! deterministic.

use vstd::prelude::*;
use vstd::string::*;

use crate::double::Real;
use crate::error::MediaError;
use crate::strings;
use crate::strings::{chars_of, holds_char, push_text, split_at_char, split_once_at, string_of, trim_chars};

verus! {

/// A trim range is usable: it starts at or behind zero and ends behind its
/// start.
pub open spec fn valid_range(in_sec: Real, out_sec: Real) -> bool {
    Real::zero().le(in_sec) && in_sec.lt(out_sec)
}

/// Check a trim range. The texts are the bounds as the message shows them.
pub fn check_trim(in_sec: Real, out_sec: Real, in_text: &str, out_text: &str) -> (out: Result<
    (),
    MediaError,
>)
    ensures
        match out {
            Ok(_) => valid_range(in_sec, out_sec),
            Err(MediaError::FfmpegFailed { context: Some(c), message }) => !valid_range(
                in_sec,
                out_sec,
            ) && c@ == "trim export"@ && message@ == "invalid trim range "@ + in_text@ + ".."@
                + out_text@,
            Err(_) => false,
        },
{
    if (Real { bits: 0 }).is_at_most(in_sec) && in_sec.is_below(out_sec) {
        return Ok(());
    }
    let mut message = "invalid trim range ".to_owned();
    message.append(in_text);
    message.append("..");
    message.append(out_text);
    Err(MediaError::FfmpegFailed { context: Some("trim export".to_owned()), message })
}

/// The ffmpeg argument list for a stream-copy trim.
pub open spec fn trim_arg_views(
    src: Seq<char>,
    dst: Seq<char>,
    start: Seq<char>,
    duration: Seq<char>,
) -> Seq<Seq<char>> {
    seq![
        "-ss"@, start, "-i"@, src, "-t"@, duration, "-c"@, "copy"@, "-avoid_negative_ts"@,
        "make_zero"@, "-y"@, dst,
    ]
}

/// The ffmpeg argument list for a stream-copy trim. The start is a resolved
/// keyframe, so the seek lands exactly on it; timestamps are rebased to zero
/// so that strict players don't see negative ones.
pub fn trim_args(src: &str, dst: &str, start: &str, duration: &str) -> (out: Vec<String>)
    ensures
        strings::views(out@) == trim_arg_views(src@, dst@, start@, duration@),
{
    let mut out: Vec<String> = Vec::new();
    proof {
        assert(strings::views(out@) =~= Seq::<Seq<char>>::empty());
    }
    push_text(&mut out, "-ss");
    push_text(&mut out, start);
    push_text(&mut out, "-i");
    push_text(&mut out, src);
    push_text(&mut out, "-t");
    push_text(&mut out, duration);
    push_text(&mut out, "-c");
    push_text(&mut out, "copy");
    push_text(&mut out, "-avoid_negative_ts");
    push_text(&mut out, "make_zero");
    push_text(&mut out, "-y");
    push_text(&mut out, dst);
    out
}

/// The time field of a packet line like `6.950000,K__`, if the packet is a
/// keyframe.
pub open spec fn keyframe_field(line: Seq<char>) -> Option<Seq<char>> {
    match strings::cut_once(line, ',') {
        Some((pts, flags)) => if flags.contains('K') {
            Some(strings::trimmed(pts))
        } else {
            None
        },
        None => None,
    }
}

/// The time fields of the keyframes among some lines.
pub open spec fn keyframe_fields(lines: Seq<Seq<char>>) -> Seq<Seq<char>>
    decreases lines.len(),
{
    if lines.len() == 0 {
        Seq::empty()
    } else {
        let before = keyframe_fields(lines.drop_last());
        match keyframe_field(lines.last()) {
            Some(field) => before.push(field),
            None => before,
        }
    }
}

/// The keyframe times of a packet listing, as texts in order.
pub fn keyframe_times(listing: &str) -> (out: Vec<String>)
    ensures
        strings::views(out@) == keyframe_fields(strings::pieces(listing@, '\n')),
{
    let lines = split_at_char(&chars_of(listing), '\n');
    let ghost all = strings::pieces(listing@, '\n');
    let mut out: Vec<String> = Vec::new();
    proof {
        assert(strings::texts(lines@).len() == lines@.len());
        assert(strings::views(out@) =~= keyframe_fields(all.take(0)));
    }
    for i in 0..lines.len()
        invariant
            strings::texts(lines@) == all,
            lines@.len() == all.len(),
            strings::views(out@) == keyframe_fields(all.take(i as int)),
    {
        proof {
            assert(all.take(i + 1).drop_last() =~= all.take(i as int));
            assert(lines@[i as int]@ == all[i as int]);
        }
        if let Some((pts, flags)) = split_once_at(&lines[i], ',') {
            if holds_char(&flags, 'K') {
                let field = trim_chars(&pts);
                push_text(&mut out, string_of(field.as_slice()).as_str());
            }
        }
    }
    proof {
        assert(all.take(all.len() as int) =~= all);
    }
    out
}

/// `best` is the latest of the times up to `limit`.
pub open spec fn is_latest(times: Seq<Real>, limit: Real, best: Real) -> bool {
    &&& exists|k: int| 0 <= k < times.len() && (#[trigger] times[k]).le(limit) && times[k] == best
    &&& forall|k: int|
        0 <= k < times.len() && (#[trigger] times[k]).le(limit) ==> times[k].le(best)
}

/// A cut at `limit` starts at the latest keyframe up to it, or at the start of
/// the file where there is none.
pub open spec fn snaps_to(times: Seq<Real>, limit: Real, start: Real) -> bool {
    is_latest(times, limit, start) || (start == Real::zero() && forall|k: int|
        0 <= k < times.len() ==> !(#[trigger] times[k]).le(limit))
}

/// Where a cut at `in_sec` starts. A keyframe may be listed a rounding behind
/// its time, up to `limit`; the cut still starts no later than asked for.
pub open spec fn cuts_at(times: Seq<Real>, in_sec: Real, limit: Real, start: Real) -> bool {
    exists|listed: Real|
        #[trigger] snaps_to(times, limit, listed) && start == listed.smaller(in_sec)
}

/// The latest keyframe at or before `in_sec`; zero (the start of the file,
/// always a valid cut point) where there is none, as with very sparse
/// keyframes or audio-only files. Listed times count up to `limit`.
pub fn keyframe_at_or_before(times: &Vec<Real>, in_sec: Real, limit: Real) -> (out: Real)
    ensures
        cuts_at(times@, in_sec, limit, out),
{
    let mut best: Option<Real> = None;
    for i in 0..times.len()
        invariant
            match best {
                Some(b) => is_latest(times@.take(i as int), limit, b) && b.le(limit),
                None => forall|k: int| 0 <= k < i ==> !(#[trigger] times@[k]).le(limit),
            },
    {
        let t = times[i];
        let ghost seen = times@.take(i as int);
        let ghost next = times@.take(i + 1);
        proof {
            assert(next =~= seen.push(t));
        }
        if t.is_at_most(limit) {
            match best {
                Some(b) => {
                    let m = b.larger_of(t);
                    proof {
                        let k = choose|k: int|
                            0 <= k < seen.len() && (#[trigger] seen[k]).le(limit) && seen[k] == b;
                        assert(next[k] == b);
                        assert(next[i as int] == t);
                        assert forall|j: int|
                            0 <= j < next.len() && (#[trigger] next[j]).le(limit) implies next[j].le(
                            m,
                        ) by {
                            if j < i {
                                assert(next[j] == seen[j]);
                                assert(seen[j].le(b));
                            }
                        }
                    }
                    best = Some(m);
                },
                None => {
                    proof {
                        assert(next[i as int] == t);
                        assert forall|j: int|
                            0 <= j < next.len() && (#[trigger] next[j]).le(limit) implies next[j].le(
                            t,
                        ) by {
                            if j < i {
                                assert(next[j] == times@[j]);
                            }
                        }
                    }
                    best = Some(t);
                },
            }
        } else {
            proof {
                if best is Some {
                    let b = best->0;
                    let k = choose|k: int|
                        0 <= k < seen.len() && (#[trigger] seen[k]).le(limit) && seen[k] == b;
                    assert(next[k] == b);
                    assert forall|j: int|
                        0 <= j < next.len() && (#[trigger] next[j]).le(limit) implies next[j].le(
                        b,
                    ) by {
                        if j < i {
                            assert(next[j] == seen[j]);
                        }
                    }
                }
            }
        }
    }
    proof {
        assert(times@.take(times@.len() as int) =~= times@);
    }
    let listed = match best {
        Some(b) => b,
        None => Real { bits: 0 },
    };
    proof {
        assert(snaps_to(times@, limit, listed));
    }
    listed.smaller_of(in_sec)
}

/// The cut never starts behind the requested point, and no keyframe lies
/// between the two: it snaps back to the latest one, or to the start of the
/// file.
pub proof fn law_trim_snaps_back(times: Seq<Real>, in_sec: Real, limit: Real, start: Real)
    requires
        cuts_at(times, in_sec, limit, start),
        Real::zero().le(in_sec),
        in_sec.le(limit),
    ensures
        start.le(in_sec),
        forall|k: int|
            0 <= k < times.len() && (#[trigger] times[k]).le(in_sec) ==> times[k].le(start),
{
    let listed = choose|listed: Real|
        #[trigger] snaps_to(times, limit, listed) && start == listed.smaller(in_sec);
    assert(snaps_to(times, limit, listed));
}

/// The context that a trim of `src` fails with.
pub fn trim_context(src: &str) -> (out: String)
    ensures
        out@ == "trimming "@ + src@,
{
    let mut out = "trimming ".to_owned();
    out.append(src);
    out
}

/// A trim seeks in the source before it opens it, copies the streams for the
/// duration and writes the destination.
pub proof fn law_trims_copy_streams(
    src: Seq<char>,
    dst: Seq<char>,
    start: Seq<char>,
    duration: Seq<char>,
)
    ensures
        ({
            let args = trim_arg_views(src, dst, start, duration);
            &&& args[0] == "-ss"@ && args[1] == start
            &&& args[2] == "-i"@ && args[3] == src
            &&& strings::says(args, "-t"@, duration)
            &&& strings::says(args, "-c"@, "copy"@)
            &&& strings::says(args, "-avoid_negative_ts"@, "make_zero"@)
            &&& args.last() == dst
        }),
{
    let args = trim_arg_views(src, dst, start, duration);
    strings::lemma_says(args, 4);
    strings::lemma_says(args, 6);
    strings::lemma_says(args, 8);
}

/// A packet listing is read line by line, to its end: each line of the form
/// `time,flags` adds its time if its flags hold a K, and no other line adds
/// anything.
pub proof fn law_every_keyframe_is_read(
    lines: Seq<Seq<char>>,
    time: Seq<char>,
    flags: Seq<char>,
    other: Seq<char>,
)
    requires
        !time.contains(','),
        !other.contains(','),
    ensures
        keyframe_fields(Seq::empty()) == Seq::<Seq<char>>::empty(),
        flags.contains('K') ==> keyframe_fields(lines.push(time + seq![','] + flags))
            == keyframe_fields(lines).push(strings::trimmed(time)),
        !flags.contains('K') ==> keyframe_fields(lines.push(time + seq![','] + flags))
            == keyframe_fields(lines),
        keyframe_fields(lines.push(other)) == keyframe_fields(lines),
{
    let line = time + seq![','] + flags;
    assert(lines.push(line).drop_last() =~= lines);
    assert(lines.push(other).drop_last() =~= lines);
    assert(line[time.len() as int] == ',');
    strings::law_cut_is_at_the_first(line, ',');
    strings::law_cut_is_at_the_first(other, ',');
    let (a, b) = strings::cut_once(line, ',')->0;
    assert(line[a.len() as int] == ',');
    if a.len() < time.len() {
        assert(line[a.len() as int] == time[a.len() as int]);
        assert(time.contains(','));
    }
    if a.len() > time.len() {
        assert(a[time.len() as int] == line[time.len() as int]);
        assert(a.contains(','));
    }
    assert(a =~= time) by {
        assert forall|k: int| 0 <= k < a.len() implies a[k] == time[k] by {
            assert(line[k] == a[k] && line[k] == time[k]);
        }
    }
    assert(b =~= flags) by {
        assert(b.len() == flags.len());
        assert forall|k: int| 0 <= k < b.len() implies b[k] == flags[k] by {
            assert(line[a.len() + 1 + k] == b[k] && line[time.len() + 1 + k] == flags[k]);
        }
    }
}

/// A cut starts at the latest keyframe that is listed up to the limit, or at
/// the asked time if that lies before it; without such a keyframe it starts at
/// the start of the file. Wherever the keyframe stands in the list, it counts.
pub proof fn law_cuts_start_at_the_latest_keyframe(
    times: Seq<Real>,
    in_sec: Real,
    limit: Real,
    start: Real,
    k: int,
)
    requires
        cuts_at(times, in_sec, limit, start),
        0 <= k < times.len(),
        times[k].le(limit),
        forall|j: int|
            0 <= j < times.len() && j != k && (#[trigger] times[j]).le(limit) ==> times[j].lt(
                times[k],
            ),
    ensures
        start == (if in_sec.lt(times[k]) {
            in_sec
        } else {
            times[k]
        }),
{
    let listed = choose|listed: Real|
        #[trigger] snaps_to(times, limit, listed) && start == listed.smaller(in_sec);
    assert(snaps_to(times, limit, listed));
    assert(is_latest(times, limit, listed));
    let j = choose|j: int|
        0 <= j < times.len() && (#[trigger] times[j]).le(limit) && times[j] == listed;
    assert(times[k].le(listed));
    if j != k {
        assert(times[j].lt(times[k]));
    }
}

/// Without a keyframe up to the limit a cut starts at zero.
pub proof fn law_cuts_without_keyframes_start_at_zero(
    times: Seq<Real>,
    in_sec: Real,
    limit: Real,
    start: Real,
)
    requires
        cuts_at(times, in_sec, limit, start),
        Real::zero().le(in_sec),
        forall|j: int| 0 <= j < times.len() ==> !(#[trigger] times[j]).le(limit),
    ensures
        start == Real::zero(),
{
    let listed = choose|listed: Real|
        #[trigger] snaps_to(times, limit, listed) && start == listed.smaller(in_sec);
    assert(snaps_to(times, limit, listed));
}

/// A trim range is one that starts at zero or later and ends behind its start;
/// a bound that is not a number makes none.
pub proof fn law_trim_ranges(in_sec: Real, out_sec: Real)
    ensures
        valid_range(in_sec, out_sec) <==> !in_sec.lt(Real::zero()) && in_sec.lt(out_sec),
{
}

} // verus!
