//! The hash-cache store: upserts, coalescing, validity and reset.

use dedupe_core::{CacheEntry, HashCache, FileMetadata};
use dedupe_core::pipeline::{cached_full, cached_partial};

fn entry(
    path: &str,
    size: u64,
    modified: u64,
    partial: Option<&str>,
    full: Option<&str>,
) -> CacheEntry {
    CacheEntry {
        path: path.to_string(),
        size,
        modified,
        partial_hash: partial.map(|s| s.to_string()),
        full_hash: full.map(|s| s.to_string()),
    }
}

fn record(path: &str, size: u64, modified: u64) -> FileMetadata {
    FileMetadata {
        path: path.to_string(),
        size,
        modified,
        partial_hash: None,
        full_hash: None,
    }
}

#[test]
fn empty_cache_answers_nothing() {
    let c = HashCache::new();
    assert_eq!(c.len(), 0);
    assert!(c.get(&"/a".to_string()).is_none());
}

#[test]
fn upsert_inserts_and_get_finds() {
    let mut c = HashCache::new();
    c.upsert(entry("/a", 10, 100, Some("p1"), None));
    assert_eq!(c.len(), 1);
    let e = c.get(&"/a".to_string()).unwrap();
    assert_eq!(e.size, 10);
    assert_eq!(e.modified, 100);
    assert_eq!(e.partial_hash.as_deref(), Some("p1"));
    assert_eq!(e.full_hash, None);
    assert!(c.get(&"/b".to_string()).is_none());
}

#[test]
fn upsert_overwrites_size_and_modified() {
    let mut c = HashCache::new();
    c.upsert(entry("/a", 10, 100, Some("p1"), Some("f1")));
    c.upsert(entry("/a", 11, 101, None, None));
    assert_eq!(c.len(), 1);
    let e = c.get(&"/a".to_string()).unwrap();
    assert_eq!(e.size, 11);
    assert_eq!(e.modified, 101);
}

#[test]
fn absent_incoming_hash_never_erases_a_stored_one() {
    let mut c = HashCache::new();
    c.upsert(entry("/a", 10, 100, Some("p1"), Some("f1")));
    c.upsert(entry("/a", 11, 101, None, None));
    let e = c.get(&"/a".to_string()).unwrap();
    assert_eq!(e.partial_hash.as_deref(), Some("p1"));
    assert_eq!(e.full_hash.as_deref(), Some("f1"));
}

#[test]
fn present_incoming_hash_overwrites_the_stored_one() {
    let mut c = HashCache::new();
    c.upsert(entry("/a", 10, 100, Some("p1"), Some("f1")));
    c.upsert(entry("/a", 10, 100, Some("p2"), Some("f2")));
    let e = c.get(&"/a".to_string()).unwrap();
    assert_eq!(e.partial_hash.as_deref(), Some("p2"));
    assert_eq!(e.full_hash.as_deref(), Some("f2"));
}

#[test]
fn batch_upsert_applies_in_order() {
    let mut c = HashCache::new();
    c.batch_upsert(vec![
        entry("/a", 1, 1, Some("pa"), None),
        entry("/b", 2, 2, None, Some("fb")),
        entry("/a", 3, 3, None, Some("fa")),
    ]);
    assert_eq!(c.len(), 2);
    let a = c.get(&"/a".to_string()).unwrap();
    assert_eq!(a.size, 3);
    assert_eq!(a.partial_hash.as_deref(), Some("pa"));
    assert_eq!(a.full_hash.as_deref(), Some("fa"));
    let b = c.get(&"/b".to_string()).unwrap();
    assert_eq!(b.full_hash.as_deref(), Some("fb"));
}

#[test]
fn clear_removes_every_row() {
    let mut c = HashCache::new();
    c.batch_upsert(vec![entry("/a", 1, 1, Some("p"), None), entry("/b", 2, 2, None, None)]);
    assert_eq!(c.len(), 2);
    c.clear();
    assert_eq!(c.len(), 0);
    assert!(c.get(&"/a".to_string()).is_none());
}

#[test]
fn rows_reports_every_stored_row() {
    let mut c = HashCache::new();
    c.upsert(entry("/a", 1, 1, Some("p"), None));
    c.upsert(entry("/b", 2, 2, None, Some("f")));
    let rows = c.rows();
    assert_eq!(rows.len(), 2);
    let mut paths: Vec<&str> = rows.iter().map(|e| e.path.as_str()).collect();
    paths.sort();
    assert_eq!(paths, vec!["/a", "/b"]);
}

#[test]
fn matching_row_answers_both_hashes() {
    let mut c = HashCache::new();
    c.upsert(entry("/a", 10, 100, Some("p1"), Some("f1")));
    let r = record("/a", 10, 100);
    assert_eq!(cached_partial(&r, &c).as_deref(), Some("p1"));
    assert_eq!(cached_full(&r, &c).as_deref(), Some("f1"));
}

#[test]
fn size_mismatch_invalidates_stored_hashes() {
    let mut c = HashCache::new();
    c.upsert(entry("/a", 10, 100, Some("p1"), Some("f1")));
    let r = record("/a", 11, 100);
    assert_eq!(cached_partial(&r, &c), None);
    assert_eq!(cached_full(&r, &c), None);
}

#[test]
fn modified_mismatch_invalidates_stored_hashes() {
    let mut c = HashCache::new();
    c.upsert(entry("/a", 10, 100, Some("p1"), Some("f1")));
    let r = record("/a", 10, 101);
    assert_eq!(cached_partial(&r, &c), None);
    assert_eq!(cached_full(&r, &c), None);
}

#[test]
fn unknown_path_answers_nothing() {
    let c = HashCache::new();
    let r = record("/nowhere", 1, 1);
    assert_eq!(cached_partial(&r, &c), None);
    assert_eq!(cached_full(&r, &c), None);
}

#[test]
fn stored_row_without_a_hash_answers_nothing() {
    let mut c = HashCache::new();
    c.upsert(entry("/a", 10, 100, None, None));
    let r = record("/a", 10, 100);
    assert_eq!(cached_partial(&r, &c), None);
    assert_eq!(cached_full(&r, &c), None);
}
