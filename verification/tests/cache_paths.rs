//! Cache file names and path texts.

use cutty::cache::{
    cache_dir, cache_entry_for, cache_filename, cache_root, filename_from_digest,
    filmstrip_path_for, part_path, peaks_path_for, proxy_cache_dir, proxy_cache_filename,
    proxy_path_for, thumbnail_path_for, SourceIdentity,
};
use cutty::error::MediaError;
use cutty::paths::{file_name_of, file_stem_of, has_extension, join_path, replace_extension};

fn source() -> SourceIdentity {
    SourceIdentity {
        path: "/videos/a.mp4".to_string(),
        size: 1000,
        mtime_nanos: 42,
    }
}

/// The name straight from the hash crate: path, size and mtime fed one by one.
fn expected_name(path: &str, size: u64, mtime_nanos: u128, ext: &str) -> String {
    let mut hasher = blake3::Hasher::new();
    hasher.update(path.as_bytes());
    hasher.update(&size.to_le_bytes());
    hasher.update(&mtime_nanos.to_le_bytes());
    let hash = hasher.finalize().to_hex();
    format!("{}.{ext}", &hash.as_str()[..32])
}

#[test]
fn filename_is_deterministic_and_keyed_on_identity() {
    let a = cache_filename("/videos/a.mp4", 1000, 42, "jpg");
    let b = cache_filename("/videos/a.mp4", 1000, 42, "jpg");
    assert_eq!(a, b);
    assert!(a.ends_with(".jpg"));
    assert_eq!(a.len(), 32 + 4);

    // Any identity component change yields a different entry.
    assert_ne!(a, cache_filename("/videos/b.mp4", 1000, 42, "jpg"));
    assert_ne!(a, cache_filename("/videos/a.mp4", 1001, 42, "jpg"));
    assert_ne!(a, cache_filename("/videos/a.mp4", 1000, 43, "jpg"));
}

#[test]
fn cache_filename_is_deterministic_and_keyed_on_identity() {
    let a = proxy_cache_filename("/videos/a.mp4", 1000, 42);
    let b = proxy_cache_filename("/videos/a.mp4", 1000, 42);
    assert_eq!(a, b);
    assert!(a.ends_with(".mp4"));
    assert_eq!(a.len(), 32 + 4);

    // Any identity component change yields a different proxy.
    assert_ne!(a, proxy_cache_filename("/videos/b.mp4", 1000, 42));
    assert_ne!(a, proxy_cache_filename("/videos/a.mp4", 1001, 42));
    assert_ne!(a, proxy_cache_filename("/videos/a.mp4", 1000, 43));
}

#[test]
fn all_artifacts_share_a_stem_of_hex_digits() {
    let src = source();
    let name = cache_filename(&src.path, src.size, src.mtime_nanos, "strip");
    let stem = &name[..32];
    assert!(stem.chars().all(|c| c.is_ascii_digit() || ('a'..='f').contains(&c)));
    assert_eq!(filmstrip_path_for("/r", &src), format!("/r/cutty/strips/{stem}.strip"));
    assert_eq!(thumbnail_path_for("/r", &src), format!("/r/cutty/thumbs/{stem}.jpg"));
    assert_eq!(peaks_path_for("/r", &src), format!("/r/cutty/peaks/{stem}.pks"));
    assert_eq!(proxy_path_for("/r", &src), format!("/r/cutty/proxies/{stem}.mp4"));
}

#[test]
fn names_are_the_blake3_digest_of_the_identity() {
    for (path, size, mtime) in [
        ("/videos/a.mp4", 1000u64, 42u128),
        ("", 0, 0),
        ("/vidéos/ü日本.mov", u64::MAX, u128::MAX),
    ] {
        assert_eq!(
            cache_filename(path, size, mtime, "jpg"),
            expected_name(path, size, mtime, "jpg")
        );
        assert_eq!(
            proxy_cache_filename(path, size, mtime),
            expected_name(path, size, mtime, "mp4")
        );
    }
}

#[test]
fn a_digest_becomes_its_first_half_in_hex() {
    let mut digest: Vec<u8> = (0u8..16).map(|i| i * 17).collect();
    digest.extend_from_slice(&[1; 16]);
    assert_eq!(
        filename_from_digest(&digest, "pks"),
        "00112233445566778899aabbccddeeff.pks"
    );
}

#[test]
fn artifacts_live_below_the_cache_root() {
    let src = source();
    assert_eq!(cache_dir("/home/u/.cache", "thumbs"), "/home/u/.cache/cutty/thumbs");
    assert_eq!(proxy_cache_dir("/home/u/.cache/"), "/home/u/.cache/cutty/proxies");
    let name = |ext: &str| expected_name("/videos/a.mp4", 1000, 42, ext);
    assert_eq!(
        filmstrip_path_for("/c", &src),
        format!("/c/cutty/strips/{}", name("strip"))
    );
    assert_eq!(
        peaks_path_for("/c", &src),
        format!("/c/cutty/peaks/{}", name("pks"))
    );
    assert_eq!(
        thumbnail_path_for("/c", &src),
        format!("/c/cutty/thumbs/{}", name("jpg"))
    );
    assert_eq!(
        proxy_path_for("/c", &src),
        format!("/c/cutty/proxies/{}", name("mp4"))
    );
    assert_eq!(
        cache_entry_for("/c", &src, "kind", "ext"),
        format!("/c/cutty/kind/{}", name("ext"))
    );
}

#[test]
fn part_files_are_unique_per_invocation() {
    assert_eq!(
        part_path("/c/cutty/thumbs/abc.jpg", 77, 0, "jpg"),
        "/c/cutty/thumbs/abc.part-77-0.jpg"
    );
    assert_ne!(
        part_path("/c/x.jpg", 77, 0, "jpg"),
        part_path("/c/x.jpg", 77, 1, "jpg")
    );
}

#[test]
fn a_missing_cache_root_is_an_error() {
    assert_eq!(cache_root(Some("/c".to_string())).unwrap(), "/c");
    let err = cache_root(None).unwrap_err();
    assert!(matches!(err, MediaError::Io(_)));
    assert_eq!(
        err.message(),
        "I/O error: could not determine the XDG cache directory"
    );
}

#[test]
fn path_texts_follow_the_platform_rules() {
    for path in [
        "/a/b.tar.gz", "b", ".hidden", ".hidden.txt", "/", "", "..", "a/..", "a/.", "./x.y", "a//b.c/",
        "/a/b/", "...", "a/.../b.", "x.", "/..", "dir.d/file", "日本/語.映画",
    ] {
        let std_path = std::path::Path::new(path);
        assert_eq!(
            file_name_of(path),
            std_path.file_name().map(|s| s.to_string_lossy().into_owned()),
            "file name of {path:?}"
        );
        assert_eq!(
            file_stem_of(path),
            std_path.file_stem().map(|s| s.to_string_lossy().into_owned()),
            "stem of {path:?}"
        );
        assert_eq!(
            has_extension(path),
            std_path.extension().is_some(),
            "extension of {path:?}"
        );
        for ext in ["cutty", "", "part-1.mp4"] {
            assert_eq!(
                replace_extension(path, ext),
                std_path.with_extension(ext).to_string_lossy(),
                "{path:?} with {ext:?}"
            );
        }
        for name in ["n.x", "", "/abs", "a/b"] {
            assert_eq!(
                join_path(path, name),
                std_path.join(name).to_string_lossy(),
                "{path:?} joined with {name:?}"
            );
        }
    }
}
