//! End-to-end scans over simulated trees, driven through the pipeline's
//! passes the way a real traversal-and-hashing driver runs them.

use dedupe_core::hasher::tail_read_needed;
use dedupe_core::pipeline::{
    build_cache_updates, cached_full, cached_partial, group_by_full, partial_progress_due,
    survivors_by_partial, survivors_by_size,
};
use dedupe_core::scanner::admit_file;
use dedupe_core::{full_digest, partial_digest, FileMetadata, HashCache, ScanFilters};

/// A simulated tree: path, content, modified time.
type Tree = Vec<(String, Vec<u8>, u64)>;

struct ScanStats {
    partial_computed: usize,
    full_computed: usize,
}

fn file(path: &str, content: &[u8], mtime: u64) -> (String, Vec<u8>, u64) {
    (path.to_string(), content.to_vec(), mtime)
}

fn lookup<'a>(tree: &'a Tree, path: &str) -> &'a [u8] {
    tree.iter().find(|(p, _, _)| p == path).map(|(_, c, _)| c.as_slice()).unwrap()
}

fn drive_scan(
    tree: &Tree,
    filters: &ScanFilters,
    cache: &mut HashCache,
    stats: &mut ScanStats,
) -> Vec<Vec<FileMetadata>> {
    let mut records: Vec<FileMetadata> = Vec::new();
    for (path, content, mtime) in tree {
        if admit_file(path, 0, content.len() as u64, filters) {
            records.push(FileMetadata {
                path: path.clone(),
                size: content.len() as u64,
                modified: *mtime,
                partial_hash: None,
                full_hash: None,
            });
        }
    }
    let s1 = survivors_by_size(records);
    let mut p2: Vec<FileMetadata> = Vec::new();
    for mut r in s1 {
        r.partial_hash = match cached_partial(&r, cache) {
            Some(h) => Some(h),
            None => {
                stats.partial_computed += 1;
                let content = lookup(tree, &r.path);
                let head_len = content.len().min(16384);
                let tail: &[u8] = if tail_read_needed(r.size) {
                    &content[content.len() - 16384..]
                } else {
                    &[]
                };
                partial_digest(r.size, &content[..head_len], tail)
            },
        };
        p2.push(r);
    }
    let s2 = survivors_by_partial(p2);
    let mut p3: Vec<FileMetadata> = Vec::new();
    for mut r in s2 {
        r.full_hash = match cached_full(&r, cache) {
            Some(h) => Some(h),
            None => {
                stats.full_computed += 1;
                Some(full_digest(lookup(tree, &r.path)))
            },
        };
        p3.push(r);
    }
    let updates = build_cache_updates(&p3);
    cache.batch_upsert(updates);
    group_by_full(p3)
}

fn all_filters(min: u64) -> ScanFilters {
    ScanFilters {
        scan_hidden: false,
        scan_images: true,
        scan_videos: true,
        scan_zips: true,
        min_file_size: min,
    }
}

fn group_paths(groups: &[Vec<FileMetadata>]) -> Vec<Vec<String>> {
    let mut out: Vec<Vec<String>> = groups
        .iter()
        .map(|g| {
            let mut paths: Vec<String> = g.iter().map(|f| f.path.clone()).collect();
            paths.sort();
            paths
        })
        .collect();
    out.sort();
    out
}

#[test]
fn identical_images_group_and_casing_differs() {
    // two identical 12-byte images group; a third with different bytes of
    // the same length is eliminated by its partial hash
    let tree = vec![
        file("/a.jpg", b"hello world!", 1),
        file("/b.jpg", b"hello world!", 2),
        file("/c.jpg", b"HELLO WORLD!", 3),
    ];
    let mut cache = HashCache::new();
    let mut stats = ScanStats { partial_computed: 0, full_computed: 0 };
    let groups = drive_scan(&tree, &all_filters(0), &mut cache, &mut stats);
    assert_eq!(
        group_paths(&groups),
        vec![vec!["/a.jpg".to_string(), "/b.jpg".to_string()]]
    );
    // the singleton (size, partial_hash) bucket never reaches full hashing
    assert_eq!(stats.partial_computed, 3);
    assert_eq!(stats.full_computed, 2);
}

#[test]
fn video_with_matching_ends_is_caught_by_full_pass() {
    // vid1 and vid2 are identical; vid3 shares the first and last 16 KiB
    // but differs at offset 10 MiB, so it survives the partial pass and is
    // eliminated by the full pass
    let len = 24 * 1024 * 1024;
    let base: Vec<u8> = (0..len).map(|i| (i % 253) as u8).collect();
    let mut odd = base.clone();
    odd[10 * 1024 * 1024] ^= 0xff;
    let tree = vec![
        file("/x/vid1.mp4", &base, 1),
        file("/y/vid2.mp4", &base, 2),
        file("/z/vid3.mp4", &odd, 3),
    ];
    let mut cache = HashCache::new();
    let mut stats = ScanStats { partial_computed: 0, full_computed: 0 };
    let groups = drive_scan(&tree, &all_filters(0), &mut cache, &mut stats);
    assert_eq!(
        group_paths(&groups),
        vec![vec!["/x/vid1.mp4".to_string(), "/y/vid2.mp4".to_string()]]
    );
    // all three survived the partial pass
    assert_eq!(stats.full_computed, 3);
}

#[test]
fn pruned_subtree_leaves_no_pair() {
    let tree = vec![
        file("/node_modules/foo.png", b"pixels", 1),
        file("/pictures/foo.png", b"pixels", 2),
    ];
    let mut cache = HashCache::new();
    let mut stats = ScanStats { partial_computed: 0, full_computed: 0 };
    let groups = drive_scan(&tree, &all_filters(0), &mut cache, &mut stats);
    assert!(groups.is_empty());
    assert_eq!(stats.partial_computed, 0);
}

#[test]
fn appending_a_byte_breaks_the_pair() {
    let content = vec![5u8; 5 * 1024 * 1024];
    let mut tree = vec![
        file("/docs/a.pdf", &content, 10),
        file("/docs/b.pdf", &content, 11),
    ];
    let mut cache = HashCache::new();
    let mut stats = ScanStats { partial_computed: 0, full_computed: 0 };
    let groups = drive_scan(&tree, &all_filters(0), &mut cache, &mut stats);
    assert_eq!(groups.len(), 1);
    // append one byte to a.pdf: its size now differs, so the next scan
    // finds no bucket of two and reports nothing
    tree[0].1.push(0);
    tree[0].2 = 12;
    let mut stats2 = ScanStats { partial_computed: 0, full_computed: 0 };
    let groups2 = drive_scan(&tree, &all_filters(0), &mut cache, &mut stats2);
    assert!(groups2.is_empty());
    assert_eq!(stats2.full_computed, 0);
}

#[test]
fn touched_file_is_rehashed_and_its_row_rewritten() {
    // same pair, but only the modified time changes: the cached hashes are
    // ignored, the file is rehashed, and its row ends with the new time
    let content = vec![6u8; 100_000];
    let mut tree = vec![
        file("/docs/a.pdf", &content, 10),
        file("/docs/b.pdf", &content, 11),
    ];
    let mut cache = HashCache::new();
    let mut stats = ScanStats { partial_computed: 0, full_computed: 0 };
    drive_scan(&tree, &all_filters(0), &mut cache, &mut stats);
    assert_eq!(cache.get(&"/docs/a.pdf".to_string()).unwrap().modified, 10);
    tree[0].2 = 99;
    let mut stats2 = ScanStats { partial_computed: 0, full_computed: 0 };
    let groups2 = drive_scan(&tree, &all_filters(0), &mut cache, &mut stats2);
    assert_eq!(groups2.len(), 1);
    // a.pdf was rehashed, b.pdf came from the cache
    assert_eq!(stats2.partial_computed, 1);
    assert_eq!(stats2.full_computed, 1);
    assert_eq!(cache.get(&"/docs/a.pdf".to_string()).unwrap().modified, 99);
    assert_eq!(cache.get(&"/docs/b.pdf".to_string()).unwrap().modified, 11);
}

#[test]
fn unique_sizes_hash_nothing_and_cache_nothing() {
    // 10,000 files with pairwise-distinct sizes: every size bucket is a
    // singleton, no hash is ever computed, and the cache stays empty
    let mut tree: Tree = Vec::new();
    for i in 0..10_000usize {
        tree.push((format!("/t/f{}.txt", i), vec![3u8; i + 1], i as u64));
    }
    let mut cache = HashCache::new();
    let mut stats = ScanStats { partial_computed: 0, full_computed: 0 };
    let groups = drive_scan(&tree, &all_filters(0), &mut cache, &mut stats);
    assert!(groups.is_empty());
    assert_eq!(stats.partial_computed, 0);
    assert_eq!(stats.full_computed, 0);
    assert_eq!(cache.len(), 0);
}

#[test]
fn empty_files_never_group() {
    let tree = vec![file("/e1.txt", b"", 1), file("/e2.txt", b"", 2)];
    let mut cache = HashCache::new();
    let mut stats = ScanStats { partial_computed: 0, full_computed: 0 };
    let groups = drive_scan(&tree, &all_filters(0), &mut cache, &mut stats);
    assert!(groups.is_empty());
    // the pair shares a size, so the partial pass ran — and refused both
    assert_eq!(stats.partial_computed, 2);
    assert_eq!(stats.full_computed, 0);
}

#[test]
fn second_scan_of_unchanged_tree_hashes_nothing() {
    let big = vec![8u8; 200_000];
    let tree = vec![
        file("/m/a.mp3", &big, 1),
        file("/m/b.mp3", &big, 2),
        file("/m/c.mp3", b"different", 3),
        file("/m/d.mp3", b"different", 4),
    ];
    let mut cache = HashCache::new();
    let mut stats = ScanStats { partial_computed: 0, full_computed: 0 };
    let groups1 = drive_scan(&tree, &all_filters(0), &mut cache, &mut stats);
    assert_eq!(stats.partial_computed, 4);
    assert_eq!(stats.full_computed, 4);
    let mut stats2 = ScanStats { partial_computed: 0, full_computed: 0 };
    let groups2 = drive_scan(&tree, &all_filters(0), &mut cache, &mut stats2);
    // the second run adopts every hash from the cache and reports the same
    // groups
    assert_eq!(stats2.partial_computed, 0);
    assert_eq!(stats2.full_computed, 0);
    assert_eq!(group_paths(&groups1), group_paths(&groups2));
}

#[test]
fn groups_share_size_and_content_and_paths_stay_distinct() {
    let tree = vec![
        file("/p/one.txt", b"alpha-alpha", 1),
        file("/p/two.txt", b"alpha-alpha", 2),
        file("/p/three.txt", b"beta-beta-b", 3),
        file("/p/four.txt", b"beta-beta-b", 4),
        file("/p/empty1.txt", b"", 5),
        file("/p/empty2.txt", b"", 6),
    ];
    let mut cache = HashCache::new();
    let mut stats = ScanStats { partial_computed: 0, full_computed: 0 };
    let groups = drive_scan(&tree, &all_filters(0), &mut cache, &mut stats);
    assert_eq!(groups.len(), 2);
    let mut seen_paths: Vec<String> = Vec::new();
    for g in &groups {
        // minimum cardinality
        assert!(g.len() >= 2);
        for a in g {
            // zero-byte files never appear
            assert!(a.size > 0);
            seen_paths.push(a.path.clone());
            for b in g {
                // soundness: equal size, equal full hash, equal bytes
                assert_eq!(a.size, b.size);
                assert_eq!(a.full_hash, b.full_hash);
                assert!(a.full_hash.is_some());
                assert_eq!(lookup(&tree, &a.path), lookup(&tree, &b.path));
            }
        }
    }
    // uniqueness: no path twice anywhere in the report
    let total = seen_paths.len();
    seen_paths.sort();
    seen_paths.dedup();
    assert_eq!(seen_paths.len(), total);
}

#[test]
fn progress_cadence_is_every_fifth_record() {
    assert!(!partial_progress_due(1));
    assert!(!partial_progress_due(4));
    assert!(partial_progress_due(5));
    assert!(!partial_progress_due(6));
    assert!(partial_progress_due(10));
    assert!(partial_progress_due(0));
}
