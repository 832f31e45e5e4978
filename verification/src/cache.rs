//! Content-keyed cache paths shared by proxy, thumbnail, filmstrip and
//! waveform generation.
//!
//! Entries are keyed on source path + size + mtime, so an edited or replaced
//! source file automatically gets fresh derived artifacts.

use vstd::prelude::*;
use vstd::string::*;
use vstd::utf8;

use crate::bytes;
use crate::bytes::{push_bytes, push_le};
use crate::error::MediaError;
use crate::paths;
use crate::paths::{join_path, replace_extension};
use crate::strings;
use crate::strings::push_dec;

verus! {

/// What tells one state of a source file from another.
#[derive(Debug)]
pub struct SourceIdentity {
    pub path: String,
    pub size: u64,
    /// Modification time, nanoseconds since the Unix epoch (0 if unknown).
    pub mtime_nanos: u128,
}

/// The BLAKE3 digest of a byte sequence.
pub uninterp spec fn blake3_digest(input: Seq<u8>) -> Seq<u8>;

/// `blake3::hash` of the input: the 32 bytes of its BLAKE3 digest, a function
/// of the input alone. Nothing else is claimed of the digest, in particular
/// not that two inputs have two digests.
#[verifier::external_body]
fn digest(input: &[u8]) -> (out: Vec<u8>)
    ensures
        out@ == blake3_digest(input@),
        out@.len() == 32,
{
    blake3::hash(input).as_bytes().to_vec()
}

/// The lower-case hexadecimal digit of a value below sixteen.
pub open spec fn hex_digit(d: nat) -> char {
    if d < 10 {
        (48 + d) as char
    } else {
        (87 + d) as char
    }
}

/// Bytes in lower-case hexadecimal, two digits each.
pub open spec fn hex(s: Seq<u8>) -> Seq<char>
    decreases s.len(),
{
    if s.len() == 0 {
        Seq::empty()
    } else {
        hex(s.drop_last()) + seq![
            hex_digit(s.last() as nat / 16),
            hex_digit(s.last() as nat % 16),
        ]
    }
}

fn push_hex_digit(out: &mut String, d: u8)
    requires
        d < 16,
    ensures
        final(out)@ == old(out)@.push(hex_digit(d as nat)),
{
    let c: char = if d < 10 {
        (48u8 + d) as char
    } else {
        (87u8 + d) as char
    };
    out.push(c);
}

fn push_hex(out: &mut String, data: &Vec<u8>, n: usize)
    requires
        n <= data@.len(),
    ensures
        final(out)@ == old(out)@ + hex(data@.take(n as int)),
{
    let ghost start = out@;
    proof {
        assert(start + hex(data@.take(0)) =~= start);
    }
    for i in 0..n
        invariant
            n <= data@.len(),
            out@ == start + hex(data@.take(i as int)),
    {
        push_hex_digit(out, data[i] / 16);
        push_hex_digit(out, data[i] % 16);
        proof {
            assert(data@.take(i + 1).drop_last() =~= data@.take(i as int));
            assert(out@ =~= start + hex(data@.take(i + 1)));
        }
    }
}

/// The bytes a source identity is hashed as: the path's UTF-8, then size and
/// modification time little-endian.
pub open spec fn identity_bytes(path: Seq<char>, size: u64, mtime_nanos: u128) -> Seq<u8> {
    utf8::encode_utf8(path) + bytes::le_bytes(size as nat, 8) + bytes::le_bytes(
        mtime_nanos as nat,
        16,
    )
}

/// Two sources hash the same bytes only if path, size and modification time
/// all agree: any change of identity changes what is hashed.
pub proof fn law_identity_bytes_are_unique(
    path1: Seq<char>,
    size1: u64,
    mtime1: u128,
    path2: Seq<char>,
    size2: u64,
    mtime2: u128,
)
    requires
        identity_bytes(path1, size1, mtime1) == identity_bytes(path2, size2, mtime2),
    ensures
        path1 == path2,
        size1 == size2,
        mtime1 == mtime2,
{
    let a = identity_bytes(path1, size1, mtime1);
    let b = identity_bytes(path2, size2, mtime2);
    bytes::lemma_power256();
    bytes::lemma_le_round_trip(size1 as nat, 8);
    bytes::lemma_le_round_trip(size2 as nat, 8);
    bytes::lemma_le_round_trip(mtime1 as nat, 16);
    bytes::lemma_le_round_trip(mtime2 as nat, 16);
    let n1 = utf8::encode_utf8(path1).len() as int;
    let n2 = utf8::encode_utf8(path2).len() as int;
    assert(a.len() == n1 + 24);
    assert(b.len() == n2 + 24);
    assert(a.take(n1) =~= utf8::encode_utf8(path1));
    assert(b.take(n1) =~= utf8::encode_utf8(path2));
    assert(a.subrange(n1, n1 + 8) =~= bytes::le_bytes(size1 as nat, 8));
    assert(b.subrange(n1, n1 + 8) =~= bytes::le_bytes(size2 as nat, 8));
    assert(a.subrange(n1 + 8, n1 + 24) =~= bytes::le_bytes(mtime1 as nat, 16));
    assert(b.subrange(n1 + 8, n1 + 24) =~= bytes::le_bytes(mtime2 as nat, 16));
    utf8::encode_utf8_decode_utf8(path1);
    utf8::encode_utf8_decode_utf8(path2);
}

/// The file name that a digest gives: its first 32 hexadecimal digits and the
/// extension.
pub open spec fn name_from_digest(digest: Seq<u8>, ext: Seq<char>) -> Seq<char> {
    hex(digest.take(16)) + "."@ + ext
}

/// The cache file name of a digest.
pub fn filename_from_digest(digest: &Vec<u8>, ext: &str) -> (out: String)
    requires
        digest@.len() >= 16,
    ensures
        out@ == name_from_digest(digest@, ext@),
{
    let mut out = String::new();
    push_hex(&mut out, digest, 16);
    proof {
        assert(Seq::<char>::empty() + hex(digest@.take(16)) =~= hex(digest@.take(16)));
    }
    out.append(".");
    out.append(ext);
    out
}

/// What the file names of all artifacts of a source begin with: the first 32
/// hexadecimal digits of its digest.
pub open spec fn source_stem(path: Seq<char>, size: u64, mtime_nanos: u128) -> Seq<char> {
    hex(blake3_digest(identity_bytes(path, size, mtime_nanos)).take(16))
}

/// 32 lower-case hexadecimal digits.
pub open spec fn is_stem(stem: Seq<char>) -> bool {
    stem.len() == 32 && forall|i: int| 0 <= i < 32 ==> is_hex_digit(#[trigger] stem[i])
}

/// A lower-case hexadecimal digit.
pub open spec fn is_hex_digit(c: char) -> bool {
    '0' <= c <= '9' || 'a' <= c <= 'f'
}

/// The file name of the artifact of a source.
pub open spec fn cache_name(
    path: Seq<char>,
    size: u64,
    mtime_nanos: u128,
    ext: Seq<char>,
) -> Seq<char> {
    source_stem(path, size, mtime_nanos) + "."@ + ext
}

/// Deterministic cache file name for a source file's identity.
pub fn cache_filename(path: &str, size: u64, mtime_nanos: u128, ext: &str) -> (out: String)
    ensures
        out@ == cache_name(path@, size, mtime_nanos, ext@),
        is_stem(source_stem(path@, size, mtime_nanos)),
        out@.len() == 33 + ext@.len(),
{
    let mut input: Vec<u8> = Vec::new();
    push_bytes(&mut input, path.as_bytes());
    push_le(&mut input, size as u128, 8);
    push_le(&mut input, mtime_nanos, 16);
    proof {
        assert(input@ =~= identity_bytes(path@, size, mtime_nanos));
    }
    let hash = digest(input.as_slice());
    proof {
        lemma_hex(hash@.take(16));
        reveal_strlit(".");
    }
    filename_from_digest(&hash, ext)
}

/// The user's cache root, where the system names one.
pub fn cache_root(found: Option<String>) -> (out: Result<String, MediaError>)
    ensures
        match (found, out) {
            (Some(root), Ok(r)) => r@ == root@,
            (None, Err(MediaError::Io(detail))) => detail@
                == "could not determine the XDG cache directory"@,
            _ => false,
        },
{
    match found {
        Some(root) => Ok(root),
        None => Err(MediaError::Io("could not determine the XDG cache directory".to_owned())),
    }
}

/// A cache subdirectory below the user's cache root: `<root>/cutty/<kind>`.
pub fn cache_dir(root: &str, kind: &str) -> (out: String)
    ensures
        out@ == paths::joined(paths::joined(root@, "cutty"@), kind@),
{
    let base = join_path(root, "cutty");
    join_path(base.as_str(), kind)
}

/// Where the artifact of `kind` for a source lives.
pub open spec fn entry_path(
    root: Seq<char>,
    src: SourceIdentity,
    kind: Seq<char>,
    ext: Seq<char>,
) -> Seq<char> {
    paths::joined(
        paths::joined(paths::joined(root, "cutty"@), kind),
        cache_name(src.path@, src.size, src.mtime_nanos, ext),
    )
}

/// Where the cached artifact of `kind` for `src` lives (or will live).
pub fn cache_entry_for(root: &str, src: &SourceIdentity, kind: &str, ext: &str) -> (out: String)
    ensures
        out@ == entry_path(root@, *src, kind@, ext@),
        is_stem(source_stem(src.path@, src.size, src.mtime_nanos)),
{
    let name = cache_filename(src.path.as_str(), src.size, src.mtime_nanos, ext);
    let dir = cache_dir(root, kind);
    join_path(dir.as_str(), name.as_str())
}

/// Where the filmstrip for `src` lives (or will live) in the cache.
pub fn filmstrip_path_for(root: &str, src: &SourceIdentity) -> (out: String)
    ensures
        out@ == entry_path(root@, *src, "strips"@, "strip"@),
        is_stem(source_stem(src.path@, src.size, src.mtime_nanos)),
{
    cache_entry_for(root, src, "strips", "strip")
}

/// Where the peaks file for `src` lives (or will live) in the cache.
pub fn peaks_path_for(root: &str, src: &SourceIdentity) -> (out: String)
    ensures
        out@ == entry_path(root@, *src, "peaks"@, "pks"@),
        is_stem(source_stem(src.path@, src.size, src.mtime_nanos)),
{
    cache_entry_for(root, src, "peaks", "pks")
}

/// Where a thumbnail for `src` lives (or will live) in the cache.
pub fn thumbnail_path_for(root: &str, src: &SourceIdentity) -> (out: String)
    ensures
        out@ == entry_path(root@, *src, "thumbs"@, "jpg"@),
        is_stem(source_stem(src.path@, src.size, src.mtime_nanos)),
{
    cache_entry_for(root, src, "thumbs", "jpg")
}

/// Deterministic cache file name of a proxy, keyed on path + size + mtime so
/// that a modified source invalidates its proxy.
pub fn proxy_cache_filename(path: &str, size: u64, mtime_nanos: u128) -> (out: String)
    ensures
        out@ == cache_name(path@, size, mtime_nanos, "mp4"@),
        is_stem(source_stem(path@, size, mtime_nanos)),
{
    cache_filename(path, size, mtime_nanos, "mp4")
}

/// The proxy cache directory: `<root>/cutty/proxies`.
pub fn proxy_cache_dir(root: &str) -> (out: String)
    ensures
        out@ == paths::joined(paths::joined(root@, "cutty"@), "proxies"@),
{
    cache_dir(root, "proxies")
}

/// Where a proxy for `src` lives (or will live) in the cache.
pub fn proxy_path_for(root: &str, src: &SourceIdentity) -> (out: String)
    ensures
        out@ == entry_path(root@, *src, "proxies"@, "mp4"@),
        is_stem(source_stem(src.path@, src.size, src.mtime_nanos)),
{
    let name = proxy_cache_filename(src.path.as_str(), src.size, src.mtime_nanos);
    let dir = proxy_cache_dir(root);
    join_path(dir.as_str(), name.as_str())
}

/// The unfinished sibling of a cache file that one invocation writes before it
/// renames it into place: the extension becomes `part-<pid>-<seq>.<ext>`, so
/// concurrent generations never scribble on each other's partial file.
pub fn part_path(final_path: &str, pid: u32, seq: u64, ext: &str) -> (out: String)
    ensures
        out@ == paths::with_extension(
            final_path@,
            "part-"@ + strings::dec(pid as nat) + "-"@ + strings::dec(seq as nat) + "."@ + ext@,
        ),
{
    let mut part = "part-".to_owned();
    push_dec(&mut part, pid as u64);
    part.append("-");
    push_dec(&mut part, seq);
    part.append(".");
    part.append(ext);
    replace_extension(final_path, part.as_str())
}

proof fn lemma_hex(s: Seq<u8>)
    ensures
        hex(s).len() == 2 * s.len(),
        forall|i: int| 0 <= i < hex(s).len() ==> is_hex_digit(#[trigger] hex(s)[i]),
    decreases s.len(),
{
    if s.len() > 0 {
        lemma_hex(s.drop_last());
    }
}

proof fn lemma_entry_path(root: Seq<char>, src: SourceIdentity, kind: Seq<char>, ext: Seq<char>)
    requires
        kind.len() > 0,
        kind[0] != '/',
        kind.last() != '/',
        is_stem(source_stem(src.path@, src.size, src.mtime_nanos)),
    ensures
        entry_path(root, src, kind, ext) == paths::joined(root, "cutty"@) + "/"@ + kind + "/"@
            + source_stem(src.path@, src.size, src.mtime_nanos) + "."@ + ext,
{
    let base = paths::joined(root, "cutty"@);
    let stem = source_stem(src.path@, src.size, src.mtime_nanos);
    let name = stem + "."@ + ext;
    reveal_strlit("cutty");
    reveal_strlit("/");
    reveal_strlit(".");
    assert(base.last() == 'y');
    assert(is_hex_digit(stem[0]));
    assert(name[0] == stem[0]);
    let dir = paths::joined(base, kind);
    assert(dir =~= base + "/"@ + kind);
    assert(dir.last() == kind.last());
    assert(paths::joined(dir, name) =~= base + "/"@ + kind + "/"@ + stem + "."@ + ext);
}

/// All artifacts of an unchanged source share one stem: each lies in the folder
/// of its kind below the cache root, under the stem and its own extension.
pub proof fn law_artifacts_share_their_stem(root: Seq<char>, src: SourceIdentity)
    ensures
        ({
            let base = paths::joined(root, "cutty"@);
            let stem = source_stem(src.path@, src.size, src.mtime_nanos);
            is_stem(stem) ==> {
                &&& entry_path(root, src, "strips"@, "strip"@) == base + "/"@ + "strips"@ + "/"@
                    + stem + "."@ + "strip"@
                &&& entry_path(root, src, "thumbs"@, "jpg"@) == base + "/"@ + "thumbs"@ + "/"@
                    + stem + "."@ + "jpg"@
                &&& entry_path(root, src, "peaks"@, "pks"@) == base + "/"@ + "peaks"@ + "/"@ + stem
                    + "."@ + "pks"@
                &&& entry_path(root, src, "proxies"@, "mp4"@) == base + "/"@ + "proxies"@ + "/"@
                    + stem + "."@ + "mp4"@
            }
        }),
{
    reveal_strlit("strips");
    reveal_strlit("thumbs");
    reveal_strlit("peaks");
    reveal_strlit("proxies");
    if is_stem(source_stem(src.path@, src.size, src.mtime_nanos)) {
        lemma_entry_path(root, src, "strips"@, "strip"@);
        lemma_entry_path(root, src, "thumbs"@, "jpg"@);
        lemma_entry_path(root, src, "peaks"@, "pks"@);
        lemma_entry_path(root, src, "proxies"@, "mp4"@);
    }
}

/// A cache file name is 32 hexadecimal digits, a dot and the extension.
pub proof fn law_cache_name_shape(digest: Seq<u8>, ext: Seq<char>)
    requires
        digest.len() >= 16,
    ensures
        name_from_digest(digest, ext).len() == 33 + ext.len(),
        is_stem(name_from_digest(digest, ext).take(32)),
        name_from_digest(digest, ext)[32] == '.',
        name_from_digest(digest, ext).skip(33) == ext,
{
    lemma_hex(digest.take(16));
    reveal_strlit(".");
    assert(name_from_digest(digest, ext).take(32) =~= hex(digest.take(16)));
    assert(name_from_digest(digest, ext).skip(33) =~= ext);
}

/// What a lower-case hexadecimal digit stands for.
pub open spec fn hex_value(c: char) -> int {
    if c <= '9' {
        c as int - '0' as int
    } else {
        10 + (c as int - 'a' as int)
    }
}

/// Hexadecimal reads back: each byte is two digits, the higher first.
pub proof fn law_hex_reads_back(s: Seq<u8>, i: int)
    requires
        0 <= i < s.len(),
    ensures
        hex(s).len() == 2 * s.len(),
        16 * hex_value(hex(s)[2 * i]) + hex_value(hex(s)[2 * i + 1]) == s[i],
        is_hex_digit(hex(s)[2 * i]) && is_hex_digit(hex(s)[2 * i + 1]),
    decreases s.len(),
{
    let init = s.drop_last();
    lemma_hex(s);
    lemma_hex(init);
    if i < init.len() {
        law_hex_reads_back(init, i);
        assert(init[i] == s[i]);
        assert(hex(s)[2 * i] == hex(init)[2 * i] && hex(s)[2 * i + 1] == hex(init)[2 * i + 1]);
    } else {
        let b = s.last() as nat;
        assert(hex(s)[2 * i] == hex_digit(b / 16) && hex(s)[2 * i + 1] == hex_digit(b % 16));
    }
}

/// The name of an artifact spells the first sixteen bytes of the digest of its
/// source's path, size and modification time, and carries the extension.
pub proof fn law_names_spell_the_digest(
    path: Seq<char>,
    size: u64,
    mtime_nanos: u128,
    ext: Seq<char>,
    i: int,
)
    requires
        0 <= i < 16,
        blake3_digest(identity_bytes(path, size, mtime_nanos)).len() == 32,
    ensures
        ({
            let name = cache_name(path, size, mtime_nanos, ext);
            let input = utf8::encode_utf8(path) + bytes::le_bytes(size as nat, 8)
                + bytes::le_bytes(mtime_nanos as nat, 16);
            &&& 16 * hex_value(name[2 * i]) + hex_value(name[2 * i + 1]) == blake3_digest(input)[i]
            &&& name[32] == '.'
            &&& name.skip(33) == ext
        }),
{
    let d = blake3_digest(identity_bytes(path, size, mtime_nanos));
    law_cache_name_shape(d, ext);
    law_hex_reads_back(d.take(16), i);
    let stem = hex(d.take(16));
    let name = cache_name(path, size, mtime_nanos, ext);
    assert(name == name_from_digest(d, ext));
    assert(name[2 * i] == stem[2 * i] && name[2 * i + 1] == stem[2 * i + 1]);
}

} // verus!
