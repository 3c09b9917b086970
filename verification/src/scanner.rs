//! File metadata records and the traversal filter rules.
//!
//! A scan admits a regular file when its path avoids the absolute-path
//! blacklist, no component of the path is an excluded directory name, no
//! component below the scan root is hidden (unless hidden files are scanned),
//! its extension is on the whitelist the filter switches enable, and its
//! size reaches the configured floor. The traversal itself — walking
//! directories and calling `stat` — is a driver's job; the admission
//! decision here is what makes a traversal correct.

use vstd::prelude::*;
use vstd::string::StrSliceExecFns;

verus! {

/// The view of an optional hash string: the character sequence it holds, if
/// any.
pub open spec fn opt_view(o: Option<String>) -> Option<Seq<char>> {
    match o {
        Some(s) => Some(s@),
        None => None,
    }
}

/// One record per regular file considered by the pipeline. The traverser
/// fills `path`, `size` and `modified`; the pipeline fills the hashes.
pub struct FileMetadata {
    pub path: String,
    pub size: u64,
    pub modified: u64,
    pub partial_hash: Option<String>,
    pub full_hash: Option<String>,
}

/// The filter switches a scan runs under.
pub struct ScanFilters {
    pub scan_hidden: bool,
    pub scan_images: bool,
    pub scan_videos: bool,
    pub scan_zips: bool,
    pub min_file_size: u64,
}

/// `s` begins with `p`.
pub open spec fn starts_with(s: Seq<char>, p: Seq<char>) -> bool {
    p.len() <= s.len() && s.take(p.len() as int) == p
}

/// `p` occurs somewhere in `s`.
pub open spec fn contains_seq(s: Seq<char>, p: Seq<char>) -> bool {
    exists|i: int| 0 <= i <= s.len() - p.len() && (#[trigger] s.subrange(i, i + p.len() as int))
        == p
}

/// The absolute-path blacklist: system prefixes, and trash directories
/// anywhere in the path.
pub open spec fn blacklisted_path(p: Seq<char>) -> bool {
    ||| starts_with(p, "/System"@)
    ||| starts_with(p, "/Library"@)
    ||| starts_with(p, "/Windows"@)
    ||| starts_with(p, "/bin"@)
    ||| starts_with(p, "/usr/bin"@)
    ||| starts_with(p, "/usr/sbin"@)
    ||| starts_with(p, "/dev"@)
    ||| starts_with(p, "/proc"@)
    ||| starts_with(p, "/sys"@)
    ||| starts_with(p, "/etc"@)
    ||| starts_with(p, "/var/lib"@)
    ||| starts_with(p, "/var/cache"@)
    ||| contains_seq(p, ".Trash"@)
    ||| contains_seq(p, "$RECYCLE.BIN"@)
}

pub(crate) fn chars_of(s: &str) -> (v: Vec<char>)
    ensures
        v@ == s@,
{
    let n = s.unicode_len();
    let mut v: Vec<char> = Vec::new();
    let mut i: usize = 0;
    while i < n
        invariant
            n == s@.len(),
            0 <= i <= n,
            v@ == s@.take(i as int),
        decreases n - i,
    {
        let c = s.get_char(i);
        v.push(c);
        proof {
            assert(s@.take(i + 1) =~= s@.take(i as int).push(s@[i as int]));
        }
        i = i + 1;
    }
    proof {
        assert(s@.take(n as int) =~= s@);
    }
    v
}

fn starts_with_lit(v: &Vec<char>, lit: &str) -> (r: bool)
    ensures
        r == starts_with(v@, lit@),
{
    let m = lit.unicode_len();
    if m > v.len() {
        return false;
    }
    let mut k: usize = 0;
    while k < m
        invariant
            m == lit@.len(),
            m <= v@.len(),
            0 <= k <= m,
            forall|t: int| 0 <= t < k ==> v@[t] == lit@[t],
        decreases m - k,
    {
        if v[k] != lit.get_char(k) {
            proof {
                assert(v@.take(m as int)[k as int] != lit@[k as int]);
            }
            return false;
        }
        k = k + 1;
    }
    proof {
        assert(v@.take(m as int) =~= lit@);
    }
    true
}

fn match_at(v: &Vec<char>, at: usize, lit: &str) -> (r: bool)
    requires
        at + lit@.len() <= v@.len(),
    ensures
        r == (v@.subrange(at as int, at + lit@.len() as int) == lit@),
{
    let n = v.len();
    let m = lit.unicode_len();
    let mut k: usize = 0;
    while k < m
        invariant
            n == v@.len(),
            m == lit@.len(),
            at + m <= n,
            0 <= k <= m,
            forall|t: int| 0 <= t < k ==> v@[at + t] == lit@[t],
        decreases m - k,
    {
        if v[at + k] != lit.get_char(k) {
            proof {
                assert(v@.subrange(at as int, at + lit@.len() as int)[k as int] != lit@[k as int]);
            }
            return false;
        }
        k = k + 1;
    }
    proof {
        assert(v@.subrange(at as int, at + lit@.len() as int) =~= lit@);
    }
    true
}

pub(crate) fn contains_lit(v: &Vec<char>, lit: &str) -> (r: bool)
    ensures
        r == contains_seq(v@, lit@),
{
    let n = v.len();
    let m = lit.unicode_len();
    if m > n {
        proof {
            assert(!contains_seq(v@, lit@));
        }
        return false;
    }
    if m == 0 {
        proof {
            assert(v@.subrange(0, 0 + lit@.len() as int) =~= lit@);
        }
        return true;
    }
    let mut i: usize = 0;
    while i <= n - m
        invariant
            n == v@.len(),
            m == lit@.len(),
            1 <= m <= n,
            0 <= i <= n - m + 1,
            forall|t: int|
                0 <= t < i ==> (#[trigger] v@.subrange(t, t + lit@.len() as int)) != lit@,
        decreases n - m + 1 - i,
    {
        if match_at(v, i, lit) {
            return true;
        }
        i = i + 1;
    }
    false
}

/// A maximal '/'-separated piece of the path: `[i, j)` with separators (or
/// the path's ends) on both sides and none inside.
pub open spec fn is_component(s: Seq<char>, i: int, j: int) -> bool {
    &&& 0 <= i <= j <= s.len()
    &&& (i == 0 || s[i - 1] == '/')
    &&& (j == s.len() || s[j] == '/')
    &&& forall|t: int| i <= t < j ==> (#[trigger] s[t]) != '/'
}

/// Directory names whose subtrees a scan never enters.
pub open spec fn excluded_dir_name(n: Seq<char>) -> bool {
    ||| n == "node_modules"@
    ||| n == "venv"@
    ||| n == ".venv"@
    ||| n == "env"@
    ||| n == "target"@
    ||| n == "dist"@
    ||| n == "build"@
    ||| n == "__pycache__"@
    ||| n == ".git"@
    ||| n == ".hg"@
    ||| n == ".svn"@
    ||| n == ".vscode"@
    ||| n == ".idea"@
}

/// Some component of the path is an excluded directory name.
pub open spec fn has_excluded_component(s: Seq<char>) -> bool {
    exists|i: int, j: int| is_component(s, i, j) && excluded_dir_name(#[trigger] s.subrange(i, j))
}

/// Some component at or after index `from` begins with a dot. With `from`
/// set to the scan root's length, this is what a traversal that skips
/// hidden entries below the root drops.
pub open spec fn has_hidden_component_from(s: Seq<char>, from: int) -> bool {
    exists|i: int|
        from <= i < s.len() && (i == 0 || s[i - 1] == '/') && (#[trigger] s[i]) == '.'
}

/// The index right after the last '/', or 0: where the leaf name begins.
pub open spec fn leaf_start(s: Seq<char>) -> int
    decreases s.len(),
{
    if s.len() == 0 {
        0
    } else if s.last() == '/' {
        s.len() as int
    } else {
        leaf_start(s.drop_last())
    }
}

/// The index of the last '.', or -1 when there is none.
pub open spec fn last_dot(s: Seq<char>) -> int
    decreases s.len(),
{
    if s.len() == 0 {
        -1
    } else if s.last() == '.' {
        s.len() - 1
    } else {
        last_dot(s.drop_last())
    }
}

/// The extension of a leaf name: what follows its last dot. A name without
/// a dot, or whose only dot leads it, has none.
pub open spec fn spec_extension(leaf: Seq<char>) -> Option<Seq<char>> {
    let d = last_dot(leaf);
    if d > 0 {
        Some(leaf.skip(d + 1))
    } else {
        None
    }
}

/// ASCII lowercasing of one character.
pub open spec fn lower_char(c: char) -> char {
    if 'A' <= c && c <= 'Z' {
        (((c as u8) + 32) as char)
    } else {
        c
    }
}

/// ASCII lowercasing of a character sequence.
pub open spec fn lower_seq(s: Seq<char>) -> Seq<char> {
    s.map_values(|c: char| lower_char(c))
}

/// Image extensions, admitted when image scanning is on.
pub open spec fn image_ext(e: Seq<char>) -> bool {
    ||| e == "jpg"@
    ||| e == "jpeg"@
    ||| e == "png"@
    ||| e == "gif"@
    ||| e == "webp"@
    ||| e == "heic"@
    ||| e == "tiff"@
    ||| e == "bmp"@
}

/// Video extensions, admitted when video scanning is on.
pub open spec fn video_ext(e: Seq<char>) -> bool {
    ||| e == "mp4"@
    ||| e == "mov"@
    ||| e == "avi"@
    ||| e == "mkv"@
    ||| e == "wmv"@
    ||| e == "flv"@
    ||| e == "webm"@
}

/// Archive extensions, admitted when archive scanning is on.
pub open spec fn archive_ext(e: Seq<char>) -> bool {
    ||| e == "zip"@
    ||| e == "tar"@
    ||| e == "gz"@
    ||| e == "7z"@
    ||| e == "rar"@
}

/// Document and audio extensions, always admitted.
pub open spec fn always_ext(e: Seq<char>) -> bool {
    ||| e == "pdf"@
    ||| e == "docx"@
    ||| e == "xlsx"@
    ||| e == "pptx"@
    ||| e == "txt"@
    ||| e == "md"@
    ||| e == "mp3"@
    ||| e == "wav"@
    ||| e == "flac"@
    ||| e == "m4a"@
    ||| e == "ogg"@
}

/// The extension whitelist, compared case-insensitively: documents and
/// audio always pass; images, videos and archives pass when their switch
/// is on. A file without an extension never passes.
pub open spec fn ext_admitted(ext: Option<Seq<char>>, fl: ScanFilters) -> bool {
    match ext {
        Option::None => false,
        Option::Some(e0) => {
            let e = lower_seq(e0);
            ||| always_ext(e)
            ||| fl.scan_images && image_ext(e)
            ||| fl.scan_videos && video_ext(e)
            ||| fl.scan_zips && archive_ext(e)
        },
    }
}

/// The whole admission rule for one regular file, `root_len` being the
/// length of the scan root the path came from (the hidden filter only
/// applies below the root).
pub open spec fn spec_admit_file(path: Seq<char>, root_len: int, size: u64, fl: ScanFilters) -> bool {
    &&& !blacklisted_path(path)
    &&& !has_excluded_component(path)
    &&& (fl.scan_hidden || !has_hidden_component_from(path, root_len))
    &&& ext_admitted(spec_extension(path.skip(leaf_start(path))), fl)
    &&& size >= fl.min_file_size
}

fn blacklisted_path_exec(v: &Vec<char>) -> (r: bool)
    ensures
        r == blacklisted_path(v@),
{
    starts_with_lit(v, "/System") || starts_with_lit(v, "/Library") || starts_with_lit(
        v,
        "/Windows",
    ) || starts_with_lit(v, "/bin") || starts_with_lit(v, "/usr/bin") || starts_with_lit(
        v,
        "/usr/sbin",
    ) || starts_with_lit(v, "/dev") || starts_with_lit(v, "/proc") || starts_with_lit(v, "/sys")
        || starts_with_lit(v, "/etc") || starts_with_lit(v, "/var/lib") || starts_with_lit(
        v,
        "/var/cache",
    ) || contains_lit(v, ".Trash") || contains_lit(v, "$RECYCLE.BIN")
}

fn eq_lit_range(v: &Vec<char>, from: usize, to: usize, lit: &str) -> (r: bool)
    requires
        from <= to <= v@.len(),
    ensures
        r == (v@.subrange(from as int, to as int) == lit@),
{
    let m = lit.unicode_len();
    if to - from != m {
        proof {
            assert(v@.subrange(from as int, to as int).len() != lit@.len());
        }
        return false;
    }
    let r = match_at(v, from, lit);
    proof {
        assert(to as int == from + lit@.len() as int);
    }
    r
}

fn excluded_name_at(v: &Vec<char>, from: usize, to: usize) -> (r: bool)
    requires
        from <= to <= v@.len(),
    ensures
        r == excluded_dir_name(v@.subrange(from as int, to as int)),
{
    eq_lit_range(v, from, to, "node_modules") || eq_lit_range(v, from, to, "venv") || eq_lit_range(
        v,
        from,
        to,
        ".venv",
    ) || eq_lit_range(v, from, to, "env") || eq_lit_range(v, from, to, "target") || eq_lit_range(
        v,
        from,
        to,
        "dist",
    ) || eq_lit_range(v, from, to, "build") || eq_lit_range(v, from, to, "__pycache__")
        || eq_lit_range(v, from, to, ".git") || eq_lit_range(v, from, to, ".hg") || eq_lit_range(
        v,
        from,
        to,
        ".svn",
    ) || eq_lit_range(v, from, to, ".vscode") || eq_lit_range(v, from, to, ".idea")
}

fn has_excluded_component_exec(v: &Vec<char>) -> (r: bool)
    ensures
        r == has_excluded_component(v@),
{
    let n = v.len();
    let mut start: usize = 0;
    let mut idx: usize = 0;
    while idx < n
        invariant
            n == v@.len(),
            start <= idx <= n,
            start == 0 || v@[start - 1] == '/',
            forall|t: int| start <= t < idx ==> (#[trigger] v@[t]) != '/',
            forall|i: int, j: int|
                is_component(v@, i, j) && j < idx ==> !excluded_dir_name(
                    #[trigger] v@.subrange(i, j),
                ),
        decreases n - idx,
    {
        if v[idx] == '/' {
            if excluded_name_at(v, start, idx) {
                proof {
                    assert(is_component(v@, start as int, idx as int));
                }
                return true;
            }
            proof {
                assert forall|i: int, j: int|
                    is_component(v@, i, j) && j < idx + 1 implies !excluded_dir_name(
                    #[trigger] v@.subrange(i, j),
                ) by {
                    if j == idx {
                        if i < start as int {
                            assert(v@[start - 1] == '/');
                        } else if i > start as int {
                            assert(v@[i - 1] == '/');
                        }
                        assert(i == start as int);
                    }
                }
            }
            start = idx + 1;
        } else {
            proof {
                assert forall|i: int, j: int|
                    is_component(v@, i, j) && j < idx + 1 implies !excluded_dir_name(
                    #[trigger] v@.subrange(i, j),
                ) by {
                    if j == idx {
                        assert(v@[j] != '/');
                    }
                }
            }
        }
        idx = idx + 1;
    }
    if excluded_name_at(v, start, n) {
        proof {
            assert(is_component(v@, start as int, n as int));
        }
        return true;
    }
    proof {
        assert forall|i: int, j: int|
            is_component(v@, i, j) implies !excluded_dir_name(#[trigger] v@.subrange(i, j)) by {
            if j == n {
                if i < start as int {
                    assert(v@[start - 1] == '/');
                } else if i > start as int {
                    assert(v@[i - 1] == '/');
                }
                assert(i == start as int);
            }
        }
    }
    false
}

fn has_hidden_component_from_exec(v: &Vec<char>, from: usize) -> (r: bool)
    ensures
        r == has_hidden_component_from(v@, from as int),
{
    let n = v.len();
    let mut i: usize = from;
    if from >= n {
        return false;
    }
    while i < n
        invariant
            n == v@.len(),
            from <= i <= n,
            forall|t: int|
                from <= t < i && (t == 0 || v@[t - 1] == '/') ==> (#[trigger] v@[t]) != '.',
        decreases n - i,
    {
        if (i == 0 || v[i - 1] == '/') && v[i] == '.' {
            return true;
        }
        i = i + 1;
    }
    false
}

fn leaf_start_exec(v: &Vec<char>) -> (r: usize)
    ensures
        r == leaf_start(v@),
{
    let mut i = v.len();
    proof {
        assert(v@.take(v@.len() as int) =~= v@);
    }
    while i > 0
        invariant
            0 <= i <= v@.len(),
            leaf_start(v@) == leaf_start(v@.take(i as int)),
        decreases i,
    {
        if v[i - 1] == '/' {
            proof {
                assert(v@.take(i as int).last() == v@[i - 1]);
            }
            return i;
        }
        proof {
            assert(v@.take(i as int).last() == v@[i - 1]);
            assert(v@.take(i as int).drop_last() =~= v@.take(i - 1));
        }
        i = i - 1;
    }
    proof {
        assert(v@.take(0).len() == 0);
    }
    0
}

fn last_dot_exec(v: &Vec<char>) -> (r: Option<usize>)
    ensures
        match r {
            Some(d) => last_dot(v@) == d,
            None => last_dot(v@) == -1,
        },
{
    let mut i = v.len();
    proof {
        assert(v@.take(v@.len() as int) =~= v@);
    }
    while i > 0
        invariant
            0 <= i <= v@.len(),
            last_dot(v@) == last_dot(v@.take(i as int)),
        decreases i,
    {
        if v[i - 1] == '.' {
            proof {
                assert(v@.take(i as int).last() == v@[i - 1]);
            }
            return Some(i - 1);
        }
        proof {
            assert(v@.take(i as int).last() == v@[i - 1]);
            assert(v@.take(i as int).drop_last() =~= v@.take(i - 1));
        }
        i = i - 1;
    }
    proof {
        assert(v@.take(0).len() == 0);
    }
    None
}

fn lower_char_exec(c: char) -> (r: char)
    ensures
        r == lower_char(c),
{
    if 'A' <= c && c <= 'Z' {
        ((c as u8) + 32) as char
    } else {
        c
    }
}

pub(crate) fn eq_lit(e: &Vec<char>, lit: &str) -> (r: bool)
    ensures
        r == (e@ == lit@),
{
    let n = e.len();
    let r = eq_lit_range(e, 0, n, lit);
    proof {
        assert(e@.subrange(0, n as int) =~= e@);
    }
    r
}

fn ext_admitted_exec(e: &Vec<char>, filters: &ScanFilters) -> (r: bool)
    ensures
        r == ({
            ||| always_ext(e@)
            ||| filters.scan_images && image_ext(e@)
            ||| filters.scan_videos && video_ext(e@)
            ||| filters.scan_zips && archive_ext(e@)
        }),
{
    let always = eq_lit(e, "pdf") || eq_lit(e, "docx") || eq_lit(e, "xlsx") || eq_lit(e, "pptx")
        || eq_lit(e, "txt") || eq_lit(e, "md") || eq_lit(e, "mp3") || eq_lit(e, "wav") || eq_lit(
        e,
        "flac",
    ) || eq_lit(e, "m4a") || eq_lit(e, "ogg");
    if always {
        return true;
    }
    if filters.scan_images {
        let img = eq_lit(e, "jpg") || eq_lit(e, "jpeg") || eq_lit(e, "png") || eq_lit(e, "gif")
            || eq_lit(e, "webp") || eq_lit(e, "heic") || eq_lit(e, "tiff") || eq_lit(e, "bmp");
        if img {
            return true;
        }
    }
    if filters.scan_videos {
        let vid = eq_lit(e, "mp4") || eq_lit(e, "mov") || eq_lit(e, "avi") || eq_lit(e, "mkv")
            || eq_lit(e, "wmv") || eq_lit(e, "flv") || eq_lit(e, "webm");
        if vid {
            return true;
        }
    }
    if filters.scan_zips {
        let arc = eq_lit(e, "zip") || eq_lit(e, "tar") || eq_lit(e, "gz") || eq_lit(e, "7z")
            || eq_lit(e, "rar");
        if arc {
            return true;
        }
    }
    false
}

/// Whether one directory name prunes its whole subtree: a driver may skip
/// descending into such a directory, since every file below it would be
/// refused anyway.
pub fn excluded_dir(name: &String) -> (r: bool)
    ensures
        r == excluded_dir_name(name@),
{
    let v = chars_of(name.as_str());
    let n = v.len();
    let r = excluded_name_at(&v, 0, n);
    proof {
        assert(v@.subrange(0, n as int) =~= v@);
    }
    r
}

/// The admission decision for one regular file found under a scan root of
/// length `root_len`.
pub fn admit_file(path: &String, root_len: usize, size: u64, filters: &ScanFilters) -> (r: bool)
    ensures
        r == spec_admit_file(path@, root_len as int, size, *filters),
{
    let v = chars_of(path.as_str());
    if blacklisted_path_exec(&v) {
        return false;
    }
    if has_excluded_component_exec(&v) {
        return false;
    }
    if !filters.scan_hidden && has_hidden_component_from_exec(&v, root_len) {
        return false;
    }
    let ls = leaf_start_exec(&v);
    let n = v.len();
    proof {
        lemma_leaf_start_bounds(v@);
    }
    let mut leaf: Vec<char> = Vec::new();
    let mut i: usize = ls;
    while i < n
        invariant
            n == v@.len(),
            ls <= i <= n,
            leaf@ == v@.subrange(ls as int, i as int),
        decreases n - i,
    {
        leaf.push(v[i]);
        proof {
            assert(v@.subrange(ls as int, i + 1) =~= v@.subrange(ls as int, i as int).push(
                v@[i as int],
            ));
        }
        i = i + 1;
    }
    proof {
        assert(leaf@ =~= v@.skip(leaf_start(v@)));
    }
    let d = match last_dot_exec(&leaf) {
        Some(d) => d,
        None => {
            return false;
        },
    };
    if d == 0 {
        return false;
    }
    proof {
        lemma_last_dot_bounds(leaf@);
    }
    let m = leaf.len();
    let mut ext: Vec<char> = Vec::new();
    let mut k: usize = d + 1;
    while k < m
        invariant
            m == leaf@.len(),
            d + 1 <= k <= m,
            ext@ == lower_seq(leaf@.subrange(d + 1, k as int)),
        decreases m - k,
    {
        ext.push(lower_char_exec(leaf[k]));
        proof {
            assert(leaf@.subrange(d + 1, k + 1) =~= leaf@.subrange(d + 1, k as int).push(
                leaf@[k as int],
            ));
            assert(lower_seq(leaf@.subrange(d + 1, k + 1)) =~= lower_seq(
                leaf@.subrange(d + 1, k as int),
            ).push(lower_char(leaf@[k as int])));
        }
        k = k + 1;
    }
    proof {
        assert(leaf@.subrange(d + 1, m as int) =~= leaf@.skip(d + 1));
    }
    if !ext_admitted_exec(&ext, filters) {
        return false;
    }
    size >= filters.min_file_size
}

/// Law (filter monotonicity): loosening the filters — enabling a category,
/// allowing hidden files, or lowering the size floor — only grows the set
/// of admitted files. A file admitted under the stricter filters is
/// admitted under the looser ones.
pub proof fn lemma_filter_monotonic(
    path: Seq<char>,
    root_len: int,
    size: u64,
    loose: ScanFilters,
    strict: ScanFilters,
)
    requires
        strict.scan_hidden ==> loose.scan_hidden,
        strict.scan_images ==> loose.scan_images,
        strict.scan_videos ==> loose.scan_videos,
        strict.scan_zips ==> loose.scan_zips,
        loose.min_file_size <= strict.min_file_size,
    ensures
        spec_admit_file(path, root_len, size, strict) ==> spec_admit_file(
            path,
            root_len,
            size,
            loose,
        ),
{
}

proof fn lemma_leaf_start_bounds(s: Seq<char>)
    ensures
        0 <= leaf_start(s) <= s.len(),
    decreases s.len(),
{
    if s.len() > 0 && s.last() != '/' {
        lemma_leaf_start_bounds(s.drop_last());
    }
}

proof fn lemma_last_dot_bounds(s: Seq<char>)
    ensures
        -1 <= last_dot(s) < s.len(),
    decreases s.len(),
{
    if s.len() > 0 && s.last() != '.' {
        lemma_last_dot_bounds(s.drop_last());
    }
}

} // verus!
