//! The traversal filter rules on concrete paths.

use dedupe_core::scanner::{admit_file, excluded_dir};
use dedupe_core::ScanFilters;

fn filters(hidden: bool, images: bool, videos: bool, zips: bool, min: u64) -> ScanFilters {
    ScanFilters {
        scan_hidden: hidden,
        scan_images: images,
        scan_videos: videos,
        scan_zips: zips,
        min_file_size: min,
    }
}

fn allowed(path: &str, f: &ScanFilters) -> bool {
    admit_file(&path.to_string(), 0, 100, f)
}

#[test]
fn documents_always_admitted() {
    let f = filters(false, false, false, false, 0);
    assert!(allowed("/home/u/notes.pdf", &f));
    assert!(allowed("/home/u/a.docx", &f));
    assert!(allowed("/home/u/a.xlsx", &f));
    assert!(allowed("/home/u/a.pptx", &f));
    assert!(allowed("/home/u/a.txt", &f));
    assert!(allowed("/home/u/a.md", &f));
}

#[test]
fn audio_always_admitted() {
    let f = filters(false, false, false, false, 0);
    assert!(allowed("/home/u/song.mp3", &f));
    assert!(allowed("/home/u/a.wav", &f));
    assert!(allowed("/home/u/a.flac", &f));
    assert!(allowed("/home/u/a.m4a", &f));
    assert!(allowed("/home/u/a.ogg", &f));
}

#[test]
fn image_extensions_follow_switch() {
    let off = filters(false, false, false, false, 0);
    let on = filters(false, true, false, false, 0);
    for ext in ["jpg", "jpeg", "png", "gif", "webp", "heic", "tiff", "bmp"] {
        let p = format!("/home/u/pic.{}", ext);
        assert!(!admit_file(&p, 0, 100, &off), "{} admitted with images off", ext);
        assert!(admit_file(&p, 0, 100, &on), "{} refused with images on", ext);
    }
}

#[test]
fn video_extensions_follow_switch() {
    let off = filters(false, false, false, false, 0);
    let on = filters(false, false, true, false, 0);
    for ext in ["mp4", "mov", "avi", "mkv", "wmv", "flv", "webm"] {
        let p = format!("/home/u/clip.{}", ext);
        assert!(!admit_file(&p, 0, 100, &off));
        assert!(admit_file(&p, 0, 100, &on));
    }
}

#[test]
fn archive_extensions_follow_switch() {
    let off = filters(false, false, false, false, 0);
    let on = filters(false, false, false, true, 0);
    for ext in ["zip", "tar", "gz", "7z", "rar"] {
        let p = format!("/home/u/pack.{}", ext);
        assert!(!admit_file(&p, 0, 100, &off));
        assert!(admit_file(&p, 0, 100, &on));
    }
}

#[test]
fn extensions_match_case_insensitively() {
    let f = filters(false, true, false, false, 0);
    assert!(allowed("/home/u/PHOTO.JPG", &f));
    assert!(allowed("/home/u/photo.JpEg", &f));
    assert!(allowed("/home/u/REPORT.PDF", &f));
}

#[test]
fn unknown_or_missing_extension_refused() {
    let f = filters(true, true, true, true, 0);
    assert!(!allowed("/home/u/binary", &f));
    assert!(!allowed("/home/u/archive.xyz", &f));
    assert!(!allowed("/home/u/.gitignore", &f));
    assert!(!allowed("/home/u/trailingdot.", &f));
}

#[test]
fn system_prefixes_refused() {
    let f = filters(true, true, true, true, 0);
    for p in [
        "/System/a.pdf",
        "/Library/a.pdf",
        "/Windows/a.pdf",
        "/bin/a.pdf",
        "/usr/bin/a.pdf",
        "/usr/sbin/a.pdf",
        "/dev/a.pdf",
        "/proc/a.pdf",
        "/sys/a.pdf",
        "/etc/a.pdf",
        "/var/lib/a.pdf",
        "/var/cache/a.pdf",
    ] {
        assert!(!allowed(p, &f), "{} admitted", p);
    }
}

#[test]
fn trash_directories_refused_anywhere() {
    let f = filters(true, true, true, true, 0);
    assert!(!allowed("/home/u/.Trash/a.pdf", &f));
    assert!(!allowed("/mnt/disk/$RECYCLE.BIN/a.pdf", &f));
}

#[test]
fn excluded_directory_components_refused() {
    let f = filters(true, true, true, true, 0);
    for d in [
        "node_modules",
        "venv",
        ".venv",
        "env",
        "target",
        "dist",
        "build",
        "__pycache__",
        ".git",
        ".hg",
        ".svn",
        ".vscode",
        ".idea",
    ] {
        let p = format!("/home/u/{}/a.pdf", d);
        assert!(!admit_file(&p, 0, 100, &f), "{} admitted", p);
        assert!(excluded_dir(&d.to_string()), "{} not excluded", d);
    }
    assert!(!excluded_dir(&"photos".to_string()));
    // the name must be a whole component, not a substring
    assert!(allowed("/home/u/distillery/a.pdf", &f));
    assert!(allowed("/home/u/my_target_dir/a.pdf", &f));
}

#[test]
fn hidden_filter_follows_switch() {
    let hidden_off = filters(false, true, false, false, 0);
    let hidden_on = filters(true, true, false, false, 0);
    assert!(!allowed("/home/u/.secret/a.jpg", &hidden_off));
    assert!(allowed("/home/u/.secret/a.jpg", &hidden_on));
    assert!(!allowed("/home/u/.a.jpg", &hidden_off));
    assert!(allowed("/home/u/.a.jpg", &hidden_on));
}

#[test]
fn hidden_filter_ignores_root_prefix() {
    let f = filters(false, true, false, false, 0);
    // scanning inside a hidden root: components within the root's own path
    // do not count, only what lies below it
    let root = "/home/u/.config";
    assert!(admit_file(&format!("{}/pics/a.jpg", root), root.len(), 100, &f));
    assert!(!admit_file(&format!("{}/.cache/a.jpg", root), root.len(), 100, &f));
}

#[test]
fn size_floor_refuses_small_files() {
    let f = filters(false, true, false, false, 1024);
    assert!(!admit_file(&"/home/u/a.jpg".to_string(), 0, 1023, &f));
    assert!(admit_file(&"/home/u/a.jpg".to_string(), 0, 1024, &f));
    assert!(admit_file(&"/home/u/a.jpg".to_string(), 0, u64::MAX, &f));
}

#[test]
fn disabling_a_category_only_shrinks_admission() {
    // filter monotonicity on a concrete family of paths
    let loose = filters(true, true, true, true, 0);
    let strict = filters(false, false, false, false, 512);
    for p in [
        "/home/u/a.jpg",
        "/home/u/b.mp4",
        "/home/u/c.zip",
        "/home/u/.d/e.pdf",
        "/home/u/f.txt",
        "/home/u/node_modules/g.png",
    ] {
        for size in [0u64, 511, 512, 4096] {
            let s = admit_file(&p.to_string(), 0, size, &strict);
            let l = admit_file(&p.to_string(), 0, size, &loose);
            assert!(!s || l, "{} ({} bytes): strict admitted, loose refused", p, size);
        }
    }
}
