//! The encoded-frame cache.

use cutty::double::Real;
use cutty::framecache::{CachedFrame, FrameCache, DEFAULT_CAPACITY_BYTES};

fn frame(bytes: usize) -> CachedFrame {
    CachedFrame {
        source_pts_sec: Real { bits: 0f64.to_bits() },
        width: 2,
        height: 2,
        jpeg: vec![0u8; bytes],
    }
}

#[test]
fn stores_and_returns_frames_per_media() {
    let mut c = FrameCache::new(1000);
    c.insert((1, 5), frame(100));
    assert!(c.get((1, 5)).is_some());
    assert!(c.get((1, 6)).is_none());
    assert!(c.get((2, 5)).is_none(), "media id is part of the key");
    assert_eq!(c.bytes(), 100);
}

#[test]
fn evicts_oldest_when_over_budget() {
    let mut c = FrameCache::new(250);
    c.insert((1, 1), frame(100));
    c.insert((1, 2), frame(100));
    c.insert((1, 3), frame(100)); // 300 > 250: evict frame 1
    assert!(c.get((1, 1)).is_none());
    assert!(c.get((1, 2)).is_some());
    assert!(c.get((1, 3)).is_some());
    assert_eq!(c.bytes(), 200);
    assert_eq!(c.len(), 2);
}

#[test]
fn reinserting_a_frame_replaces_it_without_leaking_bytes() {
    let mut c = FrameCache::new(1000);
    c.insert((1, 1), frame(100));
    c.insert((1, 1), frame(300));
    assert_eq!(c.bytes(), 300);
    assert_eq!(c.len(), 1);
}

#[test]
fn oversized_single_frame_does_not_wedge_the_cache() {
    let mut c = FrameCache::new(50);
    c.insert((1, 1), frame(100)); // bigger than the whole budget
    assert!(c.is_empty());
    assert_eq!(c.bytes(), 0);
    // And the cache still works afterwards.
    c.insert((1, 2), frame(40));
    assert!(c.get((1, 2)).is_some());
}

#[test]
fn an_unbounded_budget_takes_every_frame() {
    let mut c = FrameCache::new(usize::MAX);
    for i in 0..5 {
        c.insert((1, i), frame(10));
    }
    assert_eq!((c.len(), c.bytes()), (5, 50));
}

#[test]
fn negative_and_extreme_indices_stay_apart() {
    let mut c = FrameCache::new(10_000);
    for (n, key) in [(1, -1), (1, 1), (0, -1), (u64::MAX, i64::MIN), (u64::MAX, i64::MAX)]
        .into_iter()
        .enumerate()
    {
        c.insert(key, frame(n + 1));
    }
    assert_eq!(c.len(), 5);
    assert_eq!(c.get((1, -1)).unwrap().jpeg.len(), 1);
    assert_eq!(c.get((0, -1)).unwrap().jpeg.len(), 3);
    assert_eq!(c.get((u64::MAX, i64::MIN)).unwrap().jpeg.len(), 4);
    assert_eq!(c.bytes(), 15);
}

#[test]
fn a_reinserted_frame_counts_as_new() {
    let mut c = FrameCache::new(250);
    c.insert((1, 1), frame(100));
    c.insert((1, 2), frame(100));
    c.insert((1, 1), frame(100));
    c.insert((1, 3), frame(100));
    assert!(c.get((1, 2)).is_none(), "the oldest insertion goes");
    assert!(c.get((1, 1)).is_some());
    assert_eq!(DEFAULT_CAPACITY_BYTES, 64 * 1024 * 1024);
}
