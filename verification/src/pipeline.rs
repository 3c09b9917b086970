//! The three-pass elimination pipeline.
//!
//! Pass 1 groups the traversal's records by size and discards singleton
//! buckets. Pass 2 fills partial hashes — from the cache snapshot where its
//! stored size and modified time still match, from the hasher otherwise —
//! and discards records whose `(size, partial_hash)` is unique. Pass 3 does
//! the same with full hashes and yields the final groups, each at least two
//! records sharing `(size, full_hash)`. The records that ended pass 3 with a
//! hash become the batch of cache upserts.
//!
//! The functions here are the decision core: a driver performs the file
//! reads between the passes and hands the bytes to the hasher. Each pass is
//! specified exactly, as a filter of its input sequence.

use vstd::prelude::*;

use crate::cache::CacheEntry;
use crate::cache::CacheRow;
use crate::cache::HashCache;
use crate::cache::merged_row;
use crate::cache::spec_upsert_all;
use crate::hasher::blake3_hex;
use crate::hasher::spec_partial_input;
use crate::scanner::FileMetadata;
use crate::scanner::opt_view;

verus! {

proof fn lemma_filter_push<A>(s: Seq<A>, pred: spec_fn(A) -> bool, x: A)
    ensures
        s.push(x).filter(pred) == if pred(x) {
            s.filter(pred).push(x)
        } else {
            s.filter(pred)
        },
{
    reveal(Seq::filter);
    assert(s.push(x).drop_last() =~= s);
    assert(s.push(x).last() == x);
}

proof fn lemma_filter_in<A>(s: Seq<A>, pred: spec_fn(A) -> bool, x: A)
    requires
        s.filter(pred).contains(x),
    ensures
        s.contains(x),
        pred(x),
    decreases s.len(),
{
    reveal(Seq::filter);
    if s.len() > 0 {
        if pred(s.last()) && x == s.last() {
            assert(s[s.len() - 1] == x);
        } else {
            lemma_filter_in(s.drop_last(), pred, x);
            let i = choose|i: int| 0 <= i < s.drop_last().len() && s.drop_last()[i] == x;
            assert(s[i] == x);
        }
    }
}

proof fn lemma_filter_all_out<A>(s: Seq<A>, pred: spec_fn(A) -> bool)
    requires
        forall|i: int| 0 <= i < s.len() ==> !pred(#[trigger] s[i]),
    ensures
        s.filter(pred) == Seq::<A>::empty(),
    decreases s.len(),
{
    reveal(Seq::filter);
    if s.len() > 0 {
        assert(!pred(s[s.len() - 1]));
        assert(forall|i: int| 0 <= i < s.drop_last().len() ==> !pred(#[trigger] s.drop_last()[i]));
        lemma_filter_all_out(s.drop_last(), pred);
    }
}

/// The predicate pass 1 keeps: the record's size occurs at least twice in
/// the whole traversal output.
pub open spec fn size_pred(whole: Seq<FileMetadata>) -> spec_fn(FileMetadata) -> bool {
    |f: FileMetadata| size_count(whole, f.size) >= 2
}

/// The records of size `z`.
pub open spec fn eq_size_pred(z: u64) -> spec_fn(FileMetadata) -> bool {
    |f: FileMetadata| f.size == z
}

/// How many records of `s` have size `z`.
pub open spec fn size_count(s: Seq<FileMetadata>, z: u64) -> nat {
    s.filter(eq_size_pred(z)).len()
}

/// Pass 1: the records whose size is shared with at least one other record,
/// in input order.
pub open spec fn spec_survivors_by_size(s: Seq<FileMetadata>) -> Seq<FileMetadata> {
    s.filter(size_pred(s))
}

fn count_size(files: &Vec<FileMetadata>, z: u64) -> (c: usize)
    ensures
        c == size_count(files@, z),
{
    let n = files.len();
    let mut c: usize = 0;
    let mut i: usize = 0;
    while i < n
        invariant
            n == files@.len(),
            0 <= i <= n,
            c == size_count(files@.take(i as int), z),
            c <= i,
        decreases n - i,
    {
        proof {
            assert(files@.take(i + 1) =~= files@.take(i as int).push(files@[i as int]));
            lemma_filter_push(files@.take(i as int), eq_size_pred(z), files@[i as int]);
        }
        if files[i].size == z {
            c = c + 1;
        }
        i = i + 1;
    }
    proof {
        assert(files@.take(n as int) =~= files@);
    }
    c
}

/// Pass 1 — group by size and discard singleton buckets.
pub fn survivors_by_size(files: Vec<FileMetadata>) -> (r: Vec<FileMetadata>)
    ensures
        r@ == spec_survivors_by_size(files@),
{
    let ghost orig = files@;
    let n = files.len();
    let mut keep: Vec<bool> = Vec::new();
    let mut i: usize = 0;
    while i < n
        invariant
            n == files@.len(),
            files@ == orig,
            0 <= i <= n,
            keep@.len() == i,
            forall|j: int| 0 <= j < i ==> keep@[j] == size_pred(orig)(orig[j]),
        decreases n - i,
    {
        let c = count_size(&files, files[i].size);
        keep.push(c >= 2);
        i = i + 1;
    }
    let mut files = files;
    let mut out: Vec<FileMetadata> = Vec::new();
    let mut i: usize = 0;
    while i < n
        invariant
            n == orig.len(),
            0 <= i <= n,
            files@ == orig.skip(i as int),
            out@ == orig.take(i as int).filter(size_pred(orig)),
            keep@.len() == n,
            forall|j: int| 0 <= j < n ==> keep@[j] == size_pred(orig)(orig[j]),
        decreases n - i,
    {
        let f = files.remove(0);
        proof {
            assert(orig.skip(i as int)[0] == orig[i as int]);
            assert(files@ =~= orig.skip(i + 1));
            assert(orig.take(i + 1) =~= orig.take(i as int).push(orig[i as int]));
            lemma_filter_push(orig.take(i as int), size_pred(orig), orig[i as int]);
        }
        if keep[i] {
            out.push(f);
        }
        i = i + 1;
    }
    proof {
        assert(orig.take(n as int) =~= orig);
    }
    out
}

/// A record carries size `z` and partial hash `h`.
pub open spec fn partial_key_pred(z: u64, h: Seq<char>) -> spec_fn(FileMetadata) -> bool {
    |f: FileMetadata| f.size == z && opt_view(f.partial_hash) == Some(h)
}

/// How many records of `s` share the partial key `(z, h)`.
pub open spec fn partial_key_count(s: Seq<FileMetadata>, z: u64, h: Seq<char>) -> nat {
    s.filter(partial_key_pred(z, h)).len()
}

/// The predicate pass 2 keeps: the record has a partial hash, and its
/// `(size, partial_hash)` occurs at least twice in the pass's input.
pub open spec fn partial_pred(whole: Seq<FileMetadata>) -> spec_fn(FileMetadata) -> bool {
    |f: FileMetadata| f.partial_hash is Some && partial_key_count(
        whole,
        f.size,
        f.partial_hash.unwrap()@,
    ) >= 2
}

/// Pass 2: the records whose `(size, partial_hash)` is shared, in input
/// order. Records without a partial hash are dropped.
pub open spec fn spec_survivors_by_partial(s: Seq<FileMetadata>) -> Seq<FileMetadata> {
    s.filter(partial_pred(s))
}

fn count_partial_key(files: &Vec<FileMetadata>, z: u64, h: &String) -> (c: usize)
    ensures
        c == partial_key_count(files@, z, h@),
{
    let n = files.len();
    let mut c: usize = 0;
    let mut i: usize = 0;
    while i < n
        invariant
            n == files@.len(),
            0 <= i <= n,
            c == partial_key_count(files@.take(i as int), z, h@),
            c <= i,
        decreases n - i,
    {
        proof {
            assert(files@.take(i + 1) =~= files@.take(i as int).push(files@[i as int]));
            lemma_filter_push(files@.take(i as int), partial_key_pred(z, h@), files@[i as int]);
        }
        let matches = files[i].size == z && match &files[i].partial_hash {
            Some(p) => *p == *h,
            None => false,
        };
        if matches {
            c = c + 1;
        }
        i = i + 1;
    }
    proof {
        assert(files@.take(n as int) =~= files@);
    }
    c
}

/// Pass 2 — group by `(size, partial_hash)` and discard singleton buckets
/// and records without a partial hash.
pub fn survivors_by_partial(files: Vec<FileMetadata>) -> (r: Vec<FileMetadata>)
    ensures
        r@ == spec_survivors_by_partial(files@),
{
    let ghost orig = files@;
    let n = files.len();
    let mut keep: Vec<bool> = Vec::new();
    let mut i: usize = 0;
    while i < n
        invariant
            n == files@.len(),
            files@ == orig,
            0 <= i <= n,
            keep@.len() == i,
            forall|j: int| 0 <= j < i ==> keep@[j] == partial_pred(orig)(orig[j]),
        decreases n - i,
    {
        let k = match &files[i].partial_hash {
            Some(h) => count_partial_key(&files, files[i].size, h) >= 2,
            None => false,
        };
        keep.push(k);
        i = i + 1;
    }
    let mut files = files;
    let mut out: Vec<FileMetadata> = Vec::new();
    let mut i: usize = 0;
    while i < n
        invariant
            n == orig.len(),
            0 <= i <= n,
            files@ == orig.skip(i as int),
            out@ == orig.take(i as int).filter(partial_pred(orig)),
            keep@.len() == n,
            forall|j: int| 0 <= j < n ==> keep@[j] == partial_pred(orig)(orig[j]),
        decreases n - i,
    {
        let f = files.remove(0);
        proof {
            assert(orig.skip(i as int)[0] == orig[i as int]);
            assert(files@ =~= orig.skip(i + 1));
            assert(orig.take(i + 1) =~= orig.take(i as int).push(orig[i as int]));
            lemma_filter_push(orig.take(i as int), partial_pred(orig), orig[i as int]);
        }
        if keep[i] {
            out.push(f);
        }
        i = i + 1;
    }
    proof {
        assert(orig.take(n as int) =~= orig);
    }
    out
}

/// What the cache snapshot answers for a record's partial hash: the stored
/// hash, if the record's path has a row whose size and modified time both
/// still match; nothing otherwise. A mismatched row is ignored.
pub open spec fn spec_cached_partial(
    m: Map<Seq<char>, CacheRow>,
    path: Seq<char>,
    size: u64,
    modified: u64,
) -> Option<Seq<char>> {
    if m.contains_key(path) && m[path].size == size && m[path].modified == modified {
        m[path].partial
    } else {
        None
    }
}

/// What the cache snapshot answers for a record's full hash, under the same
/// validity rule.
pub open spec fn spec_cached_full(
    m: Map<Seq<char>, CacheRow>,
    path: Seq<char>,
    size: u64,
    modified: u64,
) -> Option<Seq<char>> {
    if m.contains_key(path) && m[path].size == size && m[path].modified == modified {
        m[path].full
    } else {
        None
    }
}

/// The pipeline's cache consultation before a partial-hash computation.
pub fn cached_partial(rec: &FileMetadata, cache: &HashCache) -> (r: Option<String>)
    requires
        cache.wf(),
    ensures
        opt_view(r) == spec_cached_partial(cache.as_map(), rec.path@, rec.size, rec.modified),
{
    match cache.get(&rec.path) {
        Some(e) => {
            if e.size == rec.size && e.modified == rec.modified {
                match &e.partial_hash {
                    Some(h) => Some(h.clone()),
                    None => None,
                }
            } else {
                None
            }
        },
        None => None,
    }
}

/// A record carries size `z` and full hash `h`.
pub open spec fn full_key_pred(z: u64, h: Seq<char>) -> spec_fn(FileMetadata) -> bool {
    |f: FileMetadata| f.size == z && opt_view(f.full_hash) == Some(h)
}

/// The grouping key of a record that has a full hash.
pub open spec fn rec_key(f: FileMetadata) -> (u64, Seq<char>)
    recommends
        f.full_hash is Some,
{
    (f.size, f.full_hash.unwrap()@)
}

/// The distinct full keys of `s`, in order of first occurrence. Records
/// without a full hash contribute none.
pub open spec fn spec_first_keys(s: Seq<FileMetadata>) -> Seq<(u64, Seq<char>)>
    decreases s.len(),
{
    if s.len() == 0 {
        Seq::empty()
    } else {
        let ks = spec_first_keys(s.drop_last());
        if s.last().full_hash is Some {
            if ks.contains(rec_key(s.last())) {
                ks
            } else {
                ks.push(rec_key(s.last()))
            }
        } else {
            ks
        }
    }
}

/// The members of `s` that carry key `k`.
pub open spec fn group_of(s: Seq<FileMetadata>) -> spec_fn((u64, Seq<char>)) -> Seq<FileMetadata> {
    |k: (u64, Seq<char>)| s.filter(full_key_pred(k.0, k.1))
}

/// One bucket per distinct full key, in first-occurrence order, singletons
/// included.
pub open spec fn spec_all_groups(s: Seq<FileMetadata>) -> Seq<Seq<FileMetadata>> {
    spec_first_keys(s).map_values(group_of(s))
}

/// A bucket big enough to report.
pub open spec fn big_bucket_pred() -> spec_fn(Vec<FileMetadata>) -> bool {
    |b: Vec<FileMetadata>| b@.len() >= 2
}

/// A group big enough to report.
pub open spec fn big_group_pred() -> spec_fn(Seq<FileMetadata>) -> bool {
    |g: Seq<FileMetadata>| g.len() >= 2
}

/// The final grouping: one group per full key shared by at least two
/// records, each group holding exactly the records of `s` with that key.
pub open spec fn spec_groups(s: Seq<FileMetadata>) -> Seq<Seq<FileMetadata>> {
    spec_all_groups(s).filter(big_group_pred())
}

/// The contents of a sequence of buckets.
pub open spec fn vec_view() -> spec_fn(Vec<FileMetadata>) -> Seq<FileMetadata> {
    |b: Vec<FileMetadata>| b@
}

/// The abstract value of a grouping result.
pub open spec fn views_of(gs: Seq<Vec<FileMetadata>>) -> Seq<Seq<FileMetadata>> {
    gs.map_values(vec_view())
}

proof fn lemma_first_keys_distinct(s: Seq<FileMetadata>)
    ensures
        forall|a: int, b: int|
            0 <= a < b < spec_first_keys(s).len() ==> (#[trigger] spec_first_keys(s)[a]) != (
            #[trigger] spec_first_keys(s)[b]),
    decreases s.len(),
{
    if s.len() > 0 {
        lemma_first_keys_distinct(s.drop_last());
        let ks = spec_first_keys(s.drop_last());
        if s.last().full_hash is Some && !ks.contains(rec_key(s.last())) {
            let ks1 = spec_first_keys(s);
            assert(ks1 == ks.push(rec_key(s.last())));
            assert forall|a: int, b: int| 0 <= a < b < ks1.len() implies ks1[a] != ks1[b] by {
                if b == ks.len() {
                    assert(ks1[a] == ks[a]);
                    if ks[a] == rec_key(s.last()) {
                        assert(ks.contains(ks[a]));
                    }
                }
            }
        }
    }
}

proof fn lemma_first_keys_complete(s: Seq<FileMetadata>, i: int)
    requires
        0 <= i < s.len(),
        s[i].full_hash is Some,
    ensures
        spec_first_keys(s).contains(rec_key(s[i])),
    decreases s.len(),
{
    if i == s.len() - 1 {
        let ks = spec_first_keys(s.drop_last());
        if !ks.contains(rec_key(s.last())) {
            assert(spec_first_keys(s)[ks.len() as int] == rec_key(s[i]));
        }
    } else {
        assert(s.drop_last()[i] == s[i]);
        lemma_first_keys_complete(s.drop_last(), i);
        let ks = spec_first_keys(s.drop_last());
        let j = choose|j: int| 0 <= j < ks.len() && ks[j] == rec_key(s[i]);
        assert(spec_first_keys(s)[j] == rec_key(s[i]));
    }
}

fn same_full_key(a: &FileMetadata, b: &FileMetadata) -> (r: bool)
    ensures
        r == (a.full_hash is Some && b.full_hash is Some && a.size == b.size && opt_view(
            a.full_hash,
        ) == opt_view(b.full_hash)),
{
    match (&a.full_hash, &b.full_hash) {
        (Some(x), Some(y)) => a.size == b.size && *x == *y,
        _ => false,
    }
}

fn find_bucket(buckets: &Vec<Vec<FileMetadata>>, f: &FileMetadata) -> (r: Option<usize>)
    requires
        f.full_hash is Some,
        forall|j: int| 0 <= j < buckets@.len() ==> (#[trigger] buckets@[j]@).len() >= 1,
    ensures
        match r {
            Some(j) => j < buckets@.len() && buckets@[j as int]@[0].full_hash is Some && rec_key(
                buckets@[j as int]@[0],
            ) == rec_key(*f),
            None => forall|j: int|
                0 <= j < buckets@.len() ==> !((#[trigger] buckets@[j]@)[0].full_hash is Some
                    && rec_key(buckets@[j]@[0]) == rec_key(*f)),
        },
{
    let m = buckets.len();
    let mut j: usize = 0;
    while j < m
        invariant
            m == buckets@.len(),
            0 <= j <= m,
            f.full_hash is Some,
            forall|t: int| 0 <= t < m ==> (#[trigger] buckets@[t]@).len() >= 1,
            forall|t: int|
                0 <= t < j ==> !((#[trigger] buckets@[t]@)[0].full_hash is Some && rec_key(
                    buckets@[t]@[0],
                ) == rec_key(*f)),
        decreases m - j,
    {
        let b = &buckets[j];
        if same_full_key(&b[0], f) {
            return Some(j);
        }
        j = j + 1;
    }
    None
}

/// Pass 3's grouping and the report in one step: bucket the records that
/// have a full hash by `(size, full_hash)` and keep the buckets of two or
/// more.
pub fn group_by_full(files: Vec<FileMetadata>) -> (r: Vec<Vec<FileMetadata>>)
    ensures
        views_of(r@) == spec_groups(files@),
{
    let ghost orig = files@;
    let n = files.len();
    let mut files = files;
    let mut buckets: Vec<Vec<FileMetadata>> = Vec::new();
    let mut i: usize = 0;
    while i < n
        invariant
            n == orig.len(),
            0 <= i <= n,
            files@ == orig.skip(i as int),
            buckets@.len() == spec_first_keys(orig.take(i as int)).len(),
            forall|j: int| 0 <= j < buckets@.len() ==> (#[trigger] buckets@[j]@).len() >= 1,
            forall|j: int|
                0 <= j < buckets@.len() ==> (#[trigger] buckets@[j]@)[0].full_hash is Some
                    && rec_key(buckets@[j]@[0]) == spec_first_keys(orig.take(i as int))[j],
            forall|j: int|
                0 <= j < buckets@.len() ==> (#[trigger] buckets@[j]@) == orig.take(
                    i as int,
                ).filter(
                    full_key_pred(
                        spec_first_keys(orig.take(i as int))[j].0,
                        spec_first_keys(orig.take(i as int))[j].1,
                    ),
                ),
        decreases n - i,
    {
        let ghost p = orig.take(i as int);
        let ghost ks = spec_first_keys(p);
        let ghost bs0 = buckets@;
        let f = files.remove(0);
        proof {
            assert(orig.skip(i as int)[0] == orig[i as int]);
            assert(files@ =~= orig.skip(i + 1));
            assert(orig.take(i + 1) =~= p.push(orig[i as int]));
            assert(orig.take(i + 1).drop_last() =~= p);
            lemma_first_keys_distinct(p);
        }
        if f.full_hash.is_some() {
            let ghost k = rec_key(f);
            match find_bucket(&buckets, &f) {
                Some(j) => {
                    proof {
                        assert(ks[j as int] == k);
                        assert(ks.contains(k));
                        assert(spec_first_keys(orig.take(i + 1)) == ks);
                    }
                    let mut b = buckets.remove(j);
                    b.push(f);
                    let ghost bnew = b@;
                    buckets.insert(j, b);
                    proof {
                        assert(buckets@ =~= bs0.update(j as int, bs0[j as int]).update(
                            j as int,
                            buckets@[j as int],
                        ));
                        assert(buckets@ =~= bs0.update(j as int, buckets@[j as int]));
                        assert(buckets@[j as int]@ == bs0[j as int]@.push(orig[i as int]));
                        assert forall|t: int| 0 <= t < buckets@.len() implies (
                        #[trigger] buckets@[t]@) == orig.take(i + 1).filter(
                            full_key_pred(ks[t].0, ks[t].1),
                        ) by {
                            lemma_filter_push(p, full_key_pred(ks[t].0, ks[t].1), orig[i as int]);
                            if t == j {
                                assert(full_key_pred(ks[t].0, ks[t].1)(orig[i as int]));
                            } else {
                                assert(ks[t] != k);
                                assert(!full_key_pred(ks[t].0, ks[t].1)(orig[i as int]));
                            }
                        }
                    }
                },
                None => {
                    proof {
                        if ks.contains(k) {
                            let a = choose|a: int| 0 <= a < ks.len() && ks[a] == k;
                            assert(buckets@[a]@[0].full_hash is Some && rec_key(buckets@[a]@[0])
                                == k);
                            assert(false);
                        }
                        assert(spec_first_keys(orig.take(i + 1)) == ks.push(k));
                        assert forall|idx: int| 0 <= idx < p.len() implies !full_key_pred(
                            k.0,
                            k.1,
                        )(#[trigger] p[idx]) by {
                            if full_key_pred(k.0, k.1)(p[idx]) {
                                lemma_first_keys_complete(p, idx);
                                assert(rec_key(p[idx]) == k);
                            }
                        }
                        lemma_filter_all_out(p, full_key_pred(k.0, k.1));
                    }
                    let mut nb: Vec<FileMetadata> = Vec::new();
                    nb.push(f);
                    buckets.push(nb);
                    proof {
                        let ks1 = spec_first_keys(orig.take(i + 1));
                        assert(buckets@.len() == ks1.len());
                        assert forall|t: int| 0 <= t < buckets@.len() implies (
                        #[trigger] buckets@[t]@) == orig.take(i + 1).filter(
                            full_key_pred(ks1[t].0, ks1[t].1),
                        ) by {
                            lemma_filter_push(p, full_key_pred(ks1[t].0, ks1[t].1), orig[i as int]);
                            if t < bs0.len() {
                                assert(buckets@[t] == bs0[t]);
                                assert(ks1[t] == ks[t]);
                                assert(ks[t] != k);
                                assert(!full_key_pred(ks1[t].0, ks1[t].1)(orig[i as int]));
                            } else {
                                assert(ks1[t] == k);
                                assert(full_key_pred(k.0, k.1)(orig[i as int]));
                                assert(buckets@[t]@ =~= p.filter(full_key_pred(k.0, k.1)).push(
                                    orig[i as int],
                                ));
                            }
                        }
                    }
                },
            }
        } else {
            proof {
                assert(spec_first_keys(orig.take(i + 1)) == ks);
                assert forall|t: int| 0 <= t < buckets@.len() implies (#[trigger] buckets@[t]@)
                    == orig.take(i + 1).filter(full_key_pred(ks[t].0, ks[t].1)) by {
                    lemma_filter_push(p, full_key_pred(ks[t].0, ks[t].1), orig[i as int]);
                    assert(!full_key_pred(ks[t].0, ks[t].1)(orig[i as int]));
                }
            }
        }
        i = i + 1;
    }
    proof {
        assert(orig.take(n as int) =~= orig);
    }
    let ghost bs = buckets@;
    proof {
        assert(views_of(bs) =~= spec_all_groups(orig));
    }
    let m = buckets.len();
    let mut out: Vec<Vec<FileMetadata>> = Vec::new();
    let mut j: usize = 0;
    while j < m
        invariant
            m == bs.len(),
            0 <= j <= m,
            buckets@ == bs.skip(j as int),
            out@ == bs.take(j as int).filter(big_bucket_pred()),
        decreases m - j,
    {
        let b = buckets.remove(0);
        proof {
            assert(bs.skip(j as int)[0] == bs[j as int]);
            assert(buckets@ =~= bs.skip(j + 1));
            assert(bs.take(j + 1) =~= bs.take(j as int).push(bs[j as int]));
            lemma_filter_push(bs.take(j as int), big_bucket_pred(), bs[j as int]);
        }
        if b.len() >= 2 {
            out.push(b);
        }
        j = j + 1;
    }
    proof {
        assert(bs.take(m as int) =~= bs);
        lemma_views_filter(bs);
        assert(spec_all_groups(orig).filter(big_group_pred()) == views_of(bs).filter(
            big_group_pred(),
        ));
    }
    out
}

proof fn lemma_views_filter(bs: Seq<Vec<FileMetadata>>)
    ensures
        views_of(bs.filter(big_bucket_pred())) == views_of(bs).filter(big_group_pred()),
    decreases bs.len(),
{
    reveal(Seq::filter);
    if bs.len() == 0 {
        assert(views_of(bs.filter(big_bucket_pred())) =~= views_of(bs).filter(big_group_pred()));
    } else {
        lemma_views_filter(bs.drop_last());
        assert(views_of(bs).drop_last() =~= views_of(bs.drop_last()));
        assert(views_of(bs).last() == bs.last()@);
        if big_bucket_pred()(bs.last()) {
            assert(views_of(bs.filter(big_bucket_pred())) =~= views_of(
                bs.drop_last().filter(big_bucket_pred()),
            ).push(bs.last()@));
            assert(views_of(bs).filter(big_group_pred()) == views_of(bs).drop_last().filter(
                big_group_pred(),
            ).push(views_of(bs).last()));
        } else {
            assert(views_of(bs.filter(big_bucket_pred())) == views_of(
                bs.drop_last().filter(big_bucket_pred()),
            ));
        }
    }
}

/// A record worth persisting: it ended the scan with at least one hash.
pub open spec fn has_hash_pred() -> spec_fn(FileMetadata) -> bool {
    |f: FileMetadata| f.partial_hash is Some || f.full_hash is Some
}

/// The cache row a record is persisted as: all its fields, keyed by path.
pub open spec fn update_of() -> spec_fn(FileMetadata) -> CacheEntry {
    |f: FileMetadata|
        (CacheEntry {
            path: f.path,
            size: f.size,
            modified: f.modified,
            partial_hash: f.partial_hash,
            full_hash: f.full_hash,
        })
}

/// Pass 4's batch: one upsert per record that ended pass 3 with a partial
/// or full hash, singletons included.
pub open spec fn spec_cache_updates(s: Seq<FileMetadata>) -> Seq<CacheEntry> {
    s.filter(has_hash_pred()).map_values(update_of())
}

fn clone_hash(o: &Option<String>) -> (r: Option<String>)
    ensures
        r == *o,
{
    match o {
        Some(s) => Some(s.clone()),
        None => None,
    }
}

/// Build the end-of-scan batch of cache upserts from the records that ended
/// pass 3.
pub fn build_cache_updates(files: &Vec<FileMetadata>) -> (r: Vec<CacheEntry>)
    ensures
        r@ == spec_cache_updates(files@),
{
    let n = files.len();
    let mut out: Vec<CacheEntry> = Vec::new();
    let mut i: usize = 0;
    while i < n
        invariant
            n == files@.len(),
            0 <= i <= n,
            out@ == spec_cache_updates(files@.take(i as int)),
        decreases n - i,
    {
        proof {
            assert(files@.take(i + 1) =~= files@.take(i as int).push(files@[i as int]));
            lemma_filter_push(files@.take(i as int), has_hash_pred(), files@[i as int]);
        }
        let f = &files[i];
        if f.partial_hash.is_some() || f.full_hash.is_some() {
            let entry = CacheEntry {
                path: f.path.clone(),
                size: f.size,
                modified: f.modified,
                partial_hash: clone_hash(&f.partial_hash),
                full_hash: clone_hash(&f.full_hash),
            };
            proof {
                assert(entry == update_of()(files@[i as int]));
            }
            out.push(entry);
            proof {
                let kept = files@.take(i as int).filter(has_hash_pred());
                assert(out@ =~= kept.push(files@[i as int]).map_values(update_of()));
            }
        }
        i = i + 1;
    }
    proof {
        assert(files@.take(n as int) =~= files@);
    }
    out
}

/// A scan's outcome: the duplicate groups, each two or more records sharing
/// `(size, full_hash)`.
pub struct ScanResult {
    pub groups: Vec<Vec<FileMetadata>>,
}

/// The reporter: project the records that ended pass 3 into the final list
/// of groups.
pub fn report(files: Vec<FileMetadata>) -> (r: ScanResult)
    ensures
        views_of(r.groups@) == spec_groups(files@),
{
    ScanResult { groups: group_by_full(files) }
}

/// Pass 2's progress cadence: an event on every fifth record processed.
/// Pass 3 emits on every record.
pub fn partial_progress_due(processed: u64) -> (r: bool)
    ensures
        r == (processed % 5 == 0),
{
    processed % 5 == 0
}

/// Pairwise-distinct paths: the traverser's invariant for one scan.
pub open spec fn paths_unique_in(s: Seq<FileMetadata>) -> bool {
    forall|i: int, j: int|
        0 <= i < j < s.len() ==> (#[trigger] s[i].path@) != (#[trigger] s[j].path@)
}

proof fn lemma_filter_count_two<A>(s: Seq<A>, pred: spec_fn(A) -> bool, a: int, b: int)
    requires
        0 <= a < b < s.len(),
        pred(s[a]),
        pred(s[b]),
    ensures
        s.filter(pred).len() >= 2,
    decreases s.len(),
{
    reveal(Seq::filter);
    if b == s.len() - 1 {
        assert(s.drop_last()[a] == s[a]);
        s.drop_last().lemma_filter_contains(pred, a);
        let fd = s.drop_last().filter(pred);
        assert(fd.contains(s[a]));
        let w = choose|w: int| 0 <= w < fd.len() && fd[w] == s[a];
        assert(fd.len() >= 1);
    } else {
        assert(s.drop_last()[a] == s[a]);
        assert(s.drop_last()[b] == s[b]);
        lemma_filter_count_two(s.drop_last(), pred, a, b);
    }
}

proof fn lemma_filter_two<A>(s: Seq<A>, pred: spec_fn(A) -> bool, x: int, y: int)
    requires
        0 <= x < y < s.filter(pred).len(),
    ensures
        exists|c: int, d: int|
            0 <= c < d < s.len() && s[c] == s.filter(pred)[x] && s[d] == s.filter(pred)[y],
    decreases s.len(),
{
    reveal(Seq::filter);
    let fl = s.filter(pred);
    let fd = s.drop_last().filter(pred);
    if pred(s.last()) && y == fd.len() {
        assert(0 <= x < fd.len() && fd[x] == fd[x]);
        assert(fd.contains(fd[x]));
        lemma_filter_in(s.drop_last(), pred, fd[x]);
        let c = choose|c: int| 0 <= c < s.drop_last().len() && s.drop_last()[c] == fd[x];
        let d = s.len() - 1;
        assert(s[c] == fl[x] && s[d] == fl[y] && c < d);
    } else {
        lemma_filter_two(s.drop_last(), pred, x, y);
        let (c, d) = choose|c: int, d: int|
            0 <= c < d < s.drop_last().len() && s.drop_last()[c] == fd[x] && s.drop_last()[d]
                == fd[y];
        assert(s[c] == fl[x] && s[d] == fl[y]);
    }
}

proof fn lemma_filter_unique_paths(s: Seq<FileMetadata>, pred: spec_fn(FileMetadata) -> bool)
    requires
        paths_unique_in(s),
    ensures
        paths_unique_in(s.filter(pred)),
    decreases s.len(),
{
    reveal(Seq::filter);
    if s.len() > 0 {
        assert forall|i: int, j: int| 0 <= i < j < s.drop_last().len() implies (
        #[trigger] s.drop_last()[i].path@) != (#[trigger] s.drop_last()[j].path@) by {
            assert(s.drop_last()[i] == s[i]);
            assert(s.drop_last()[j] == s[j]);
        }
        lemma_filter_unique_paths(s.drop_last(), pred);
        if pred(s.last()) {
            let fd = s.drop_last().filter(pred);
            assert forall|x: int| 0 <= x < fd.len() implies (#[trigger] fd[x].path@)
                != s.last().path@ by {
                assert(fd.contains(fd[x]));
                lemma_filter_in(s.drop_last(), pred, fd[x]);
                let t = choose|t: int| 0 <= t < s.drop_last().len() && s.drop_last()[t] == fd[x];
                assert(s[t] == fd[x]);
                assert(s[t].path@ != s[s.len() - 1].path@);
            }
            assert forall|i: int, j: int| 0 <= i < j < s.filter(pred).len() implies (
            #[trigger] s.filter(pred)[i].path@) != (#[trigger] s.filter(pred)[j].path@) by {
                if j < fd.len() {
                    assert(s.filter(pred)[i] == fd[i]);
                    assert(s.filter(pred)[j] == fd[j]);
                } else {
                    assert(s.filter(pred)[i] == fd[i]);
                    assert(s.filter(pred)[j] == s.last());
                }
            }
        }
    }
}

/// Law (soundness): within one reported group, every two records share one
/// size and one full hash — the pipeline's witness that their contents
/// agree byte for byte, to the strength of the digest.
pub proof fn lemma_groups_sound(s: Seq<FileMetadata>, g: int, a: int, b: int)
    requires
        0 <= g < spec_groups(s).len(),
        0 <= a < spec_groups(s)[g].len(),
        0 <= b < spec_groups(s)[g].len(),
    ensures
        spec_groups(s)[g][a].size == spec_groups(s)[g][b].size,
        spec_groups(s)[g][a].full_hash is Some,
        opt_view(spec_groups(s)[g][a].full_hash) == opt_view(spec_groups(s)[g][b].full_hash),
{
    let grp = spec_groups(s)[g];
    assert(spec_all_groups(s).filter(big_group_pred()).contains(grp));
    lemma_filter_in(spec_all_groups(s), big_group_pred(), grp);
    let t = choose|t: int| 0 <= t < spec_all_groups(s).len() && spec_all_groups(s)[t] == grp;
    let k = spec_first_keys(s)[t];
    assert(grp == s.filter(full_key_pred(k.0, k.1)));
    s.lemma_filter_pred(full_key_pred(k.0, k.1), a);
    s.lemma_filter_pred(full_key_pred(k.0, k.1), b);
}

/// Law (minimum cardinality): every reported group holds at least two
/// records.
pub proof fn lemma_groups_min_card(s: Seq<FileMetadata>, g: int)
    requires
        0 <= g < spec_groups(s).len(),
    ensures
        spec_groups(s)[g].len() >= 2,
{
    spec_all_groups(s).lemma_filter_pred(big_group_pred(), g);
}

/// Law (uniqueness): when the scanned records carry pairwise-distinct
/// paths, no path appears twice in the report — neither in two different
/// groups nor twice within one.
pub proof fn lemma_groups_unique_paths(s: Seq<FileMetadata>, g1: int, x1: int, g2: int, x2: int)
    requires
        paths_unique_in(s),
        0 <= g1 <= g2 < spec_groups(s).len(),
        0 <= x1 < spec_groups(s)[g1].len(),
        0 <= x2 < spec_groups(s)[g2].len(),
        g1 != g2 || x1 != x2,
    ensures
        spec_groups(s)[g1][x1].path@ != spec_groups(s)[g2][x2].path@,
{
    lemma_first_keys_distinct(s);
    if g1 == g2 {
        let grp = spec_groups(s)[g1];
        assert(spec_all_groups(s).filter(big_group_pred()).contains(grp));
        lemma_filter_in(spec_all_groups(s), big_group_pred(), grp);
        let t = choose|t: int| 0 <= t < spec_all_groups(s).len() && spec_all_groups(s)[t] == grp;
        let k = spec_first_keys(s)[t];
        assert(grp == s.filter(full_key_pred(k.0, k.1)));
        lemma_filter_unique_paths(s, full_key_pred(k.0, k.1));
    } else {
        lemma_filter_two(spec_all_groups(s), big_group_pred(), g1, g2);
        let (t1, t2) = choose|t1: int, t2: int|
            0 <= t1 < t2 < spec_all_groups(s).len() && spec_all_groups(s)[t1] == spec_groups(s)[g1]
                && spec_all_groups(s)[t2] == spec_groups(s)[g2];
        let k1 = spec_first_keys(s)[t1];
        let k2 = spec_first_keys(s)[t2];
        assert(k1 != k2);
        let grp1 = spec_groups(s)[g1];
        let grp2 = spec_groups(s)[g2];
        assert(grp1 == s.filter(full_key_pred(k1.0, k1.1)));
        assert(grp2 == s.filter(full_key_pred(k2.0, k2.1)));
        s.lemma_filter_pred(full_key_pred(k1.0, k1.1), x1);
        s.lemma_filter_pred(full_key_pred(k2.0, k2.1), x2);
        let r1 = grp1[x1];
        let r2 = grp2[x2];
        if r1.path@ == r2.path@ {
            assert(grp1.contains(r1));
            lemma_filter_in(s, full_key_pred(k1.0, k1.1), r1);
            assert(grp2.contains(r2));
            lemma_filter_in(s, full_key_pred(k2.0, k2.1), r2);
            let a1 = choose|a1: int| 0 <= a1 < s.len() && s[a1] == r1;
            let a2 = choose|a2: int| 0 <= a2 < s.len() && s[a2] == r2;
            assert(s[a1].path@ == s[a2].path@);
            assert(a1 == a2);
            assert(full_key_pred(k1.0, k1.1)(r1) && full_key_pred(k2.0, k2.1)(r1));
            assert(k1 == k2);
            assert(false);
        }
    }
}

/// Law (completeness at the grouping step): any two distinct records that
/// share a size and a full hash are reported, in one and the same group.
pub proof fn lemma_groups_complete(s: Seq<FileMetadata>, a: int, b: int)
    requires
        0 <= a < s.len(),
        0 <= b < s.len(),
        a != b,
        s[a].full_hash is Some,
        s[b].full_hash is Some,
        s[a].size == s[b].size,
        opt_view(s[a].full_hash) == opt_view(s[b].full_hash),
    ensures
        exists|g: int|
            0 <= g < spec_groups(s).len() && (#[trigger] spec_groups(s)[g]).contains(s[a])
                && spec_groups(s)[g].contains(s[b]),
{
    let k = rec_key(s[a]);
    assert(rec_key(s[b]) == k);
    lemma_first_keys_complete(s, a);
    let t = choose|t: int|
        0 <= t < spec_first_keys(s).len() && spec_first_keys(s)[t] == rec_key(s[a]);
    let grp = s.filter(full_key_pred(k.0, k.1));
    assert(spec_all_groups(s)[t] == grp);
    assert(full_key_pred(k.0, k.1)(s[a]));
    assert(full_key_pred(k.0, k.1)(s[b]));
    s.lemma_filter_contains(full_key_pred(k.0, k.1), a);
    s.lemma_filter_contains(full_key_pred(k.0, k.1), b);
    if a < b {
        lemma_filter_count_two(s, full_key_pred(k.0, k.1), a, b);
    } else {
        lemma_filter_count_two(s, full_key_pred(k.0, k.1), b, a);
    }
    assert(big_group_pred()(grp));
    spec_all_groups(s).lemma_filter_contains(big_group_pred(), t);
    let g = choose|g: int|
        0 <= g < spec_groups(s).len() && spec_groups(s)[g] == grp;
    assert(spec_groups(s)[g].contains(s[a]) && spec_groups(s)[g].contains(s[b]));
}

/// Law (singleton buckets are never hashed): every record the size pass
/// hands onward shares its size with a second record of the pass's input,
/// and every record the partial pass hands onward carries a partial hash
/// shared, together with its size, by a second record. A driver that
/// computes partial hashes only for pass-1 survivors and full hashes only
/// for pass-2 survivors therefore never hashes a member of a singleton
/// bucket.
pub proof fn lemma_survivors_share_keys(s: Seq<FileMetadata>, p2: Seq<FileMetadata>, i: int, j: int)
    requires
        0 <= i < spec_survivors_by_size(s).len(),
        0 <= j < spec_survivors_by_partial(p2).len(),
    ensures
        size_count(s, spec_survivors_by_size(s)[i].size) >= 2,
        spec_survivors_by_partial(p2)[j].partial_hash is Some,
        partial_key_count(
            p2,
            spec_survivors_by_partial(p2)[j].size,
            spec_survivors_by_partial(p2)[j].partial_hash.unwrap()@,
        ) >= 2,
{
    s.lemma_filter_pred(size_pred(s), i);
    p2.lemma_filter_pred(partial_pred(p2), j);
}

/// An honest pass-2 fill of `before` against the disk, modelled as a map
/// from path to content bytes. Paths, sizes, modified times and full
/// hashes are untouched; a record either gains the partial digest its
/// content prescribes — whether computed or adopted from a correct cache —
/// or, where the file was empty or unreadable, stays without one.
pub open spec fn partial_fill_ok(
    before: Seq<FileMetadata>,
    after: Seq<FileMetadata>,
    disk: Map<Seq<char>, Seq<u8>>,
) -> bool {
    &&& after.len() == before.len()
    &&& forall|i: int|
        0 <= i < before.len() ==> {
            let b = before[i];
            let a = #[trigger] after[i];
            &&& a.path@ == b.path@
            &&& a.size == b.size
            &&& a.modified == b.modified
            &&& opt_view(a.full_hash) == opt_view(b.full_hash)
            &&& match a.partial_hash {
                Option::None => true,
                Option::Some(h) => disk.contains_key(b.path@) && b.size == disk[b.path@].len()
                    && b.size > 0 && h@ == blake3_hex(spec_partial_input(disk[b.path@])),
            }
        }
}

/// An honest pass-3 fill of `before`: paths, sizes, modified times and
/// partial hashes are untouched; a record either gains the full digest of
/// its content or stays without one.
pub open spec fn full_fill_ok(
    before: Seq<FileMetadata>,
    after: Seq<FileMetadata>,
    disk: Map<Seq<char>, Seq<u8>>,
) -> bool {
    &&& after.len() == before.len()
    &&& forall|i: int|
        0 <= i < before.len() ==> {
            let b = before[i];
            let a = #[trigger] after[i];
            &&& a.path@ == b.path@
            &&& a.size == b.size
            &&& a.modified == b.modified
            &&& opt_view(a.partial_hash) == opt_view(b.partial_hash)
            &&& match a.full_hash {
                Option::None => true,
                Option::Some(h) => disk.contains_key(b.path@) && b.size == disk[b.path@].len()
                    && h@ == blake3_hex(disk[b.path@]),
            }
        }
}

/// Law (completeness modulo filters): take one scan's records, with their
/// paths pairwise distinct and sizes as the disk holds them, run honestly
/// through both hash passes. Any two records whose files hold identical
/// bytes, both readable through both passes, are reported in one and the
/// same group.
pub proof fn lemma_pipeline_complete(
    files: Seq<FileMetadata>,
    p2: Seq<FileMetadata>,
    p3: Seq<FileMetadata>,
    disk: Map<Seq<char>, Seq<u8>>,
    a: int,
    b: int,
)
    requires
        paths_unique_in(files),
        partial_fill_ok(spec_survivors_by_size(files), p2, disk),
        full_fill_ok(spec_survivors_by_partial(p2), p3, disk),
        0 <= a < files.len(),
        0 <= b < files.len(),
        a != b,
        disk.contains_key(files[a].path@),
        disk.contains_key(files[b].path@),
        disk[files[a].path@] == disk[files[b].path@],
        files[a].size == disk[files[a].path@].len(),
        files[b].size == disk[files[b].path@].len(),
        forall|i: int|
            0 <= i < p2.len() && ((#[trigger] p2[i].path@) == files[a].path@ || p2[i].path@
                == files[b].path@) ==> p2[i].partial_hash is Some,
        forall|i: int|
            0 <= i < p3.len() && ((#[trigger] p3[i].path@) == files[a].path@ || p3[i].path@
                == files[b].path@) ==> p3[i].full_hash is Some,
    ensures
        exists|g: int|
            0 <= g < spec_groups(p3).len() && (exists|x: int|
                0 <= x < (#[trigger] spec_groups(p3)[g]).len() && spec_groups(p3)[g][x].path@
                    == files[a].path@) && (exists|y: int|
                0 <= y < spec_groups(p3)[g].len() && spec_groups(p3)[g][y].path@
                    == files[b].path@),
{
    let pa = files[a].path@;
    let pb = files[b].path@;
    assert(pa != pb);
    let z = files[a].size;
    assert(files[b].size == z);
    let s1 = spec_survivors_by_size(files);

    // both records survive pass 1
    if a < b {
        lemma_filter_count_two(files, eq_size_pred(z), a, b);
    } else {
        lemma_filter_count_two(files, eq_size_pred(z), b, a);
    }
    assert(size_pred(files)(files[a]));
    assert(size_pred(files)(files[b]));
    files.lemma_filter_contains(size_pred(files), a);
    files.lemma_filter_contains(size_pred(files), b);
    lemma_filter_unique_paths(files, size_pred(files));
    let ia = choose|ia: int| 0 <= ia < s1.len() && s1[ia] == files[a];
    let ib = choose|ib: int| 0 <= ib < s1.len() && s1[ib] == files[b];
    assert(ia != ib);

    // pass-2 fill gives both the digest of their common content
    let h = blake3_hex(spec_partial_input(disk[pa]));
    assert(p2[ia].path@ == pa && p2[ib].path@ == pb);
    assert(p2[ia].partial_hash is Some && p2[ib].partial_hash is Some);
    assert(opt_view(p2[ia].partial_hash) == Some(h));
    assert(opt_view(p2[ib].partial_hash) == Some(h));
    assert(p2[ia].size == z && p2[ib].size == z);

    // both survive pass 2
    assert(partial_key_pred(z, h)(p2[ia]));
    assert(partial_key_pred(z, h)(p2[ib]));
    if ia < ib {
        lemma_filter_count_two(p2, partial_key_pred(z, h), ia, ib);
    } else {
        lemma_filter_count_two(p2, partial_key_pred(z, h), ib, ia);
    }
    assert(p2[ia].partial_hash.unwrap()@ == h);
    assert(p2[ib].partial_hash.unwrap()@ == h);
    assert(partial_pred(p2)(p2[ia]));
    assert(partial_pred(p2)(p2[ib]));
    p2.lemma_filter_contains(partial_pred(p2), ia);
    p2.lemma_filter_contains(partial_pred(p2), ib);
    let s2 = spec_survivors_by_partial(p2);
    assert forall|i: int, j: int| 0 <= i < j < p2.len() implies (#[trigger] p2[i].path@) != (
    #[trigger] p2[j].path@) by {
        assert(s1[i].path@ == p2[i].path@ && s1[j].path@ == p2[j].path@);
    }
    lemma_filter_unique_paths(p2, partial_pred(p2));
    let ja = choose|ja: int| 0 <= ja < s2.len() && s2[ja] == p2[ia];
    let jb = choose|jb: int| 0 <= jb < s2.len() && s2[jb] == p2[ib];
    assert(ja != jb);

    // pass-3 fill gives both the full digest of their common content
    let hf = blake3_hex(disk[pa]);
    assert(p3[ja].path@ == pa && p3[jb].path@ == pb);
    assert(p3[ja].full_hash is Some && p3[jb].full_hash is Some);
    assert(opt_view(p3[ja].full_hash) == Some(hf));
    assert(opt_view(p3[jb].full_hash) == Some(hf));
    assert(p3[ja].size == z && p3[jb].size == z);

    // so the grouping step reports them together
    lemma_groups_complete(p3, ja, jb);
    let g = choose|g: int|
        0 <= g < spec_groups(p3).len() && (#[trigger] spec_groups(p3)[g]).contains(p3[ja])
            && spec_groups(p3)[g].contains(p3[jb]);
    let x = choose|x: int|
        0 <= x < spec_groups(p3)[g].len() && spec_groups(p3)[g][x] == p3[ja];
    let y = choose|y: int|
        0 <= y < spec_groups(p3)[g].len() && spec_groups(p3)[g][y] == p3[jb];
    assert(spec_groups(p3)[g][x].path@ == pa);
    assert(spec_groups(p3)[g][y].path@ == pb);
}

/// Law (soundness against the disk): under an honest pass-3 fill, two
/// records of one reported group point at disk contents of equal length
/// whose digests agree — byte-identical files, to the strength of the
/// digest.
pub proof fn lemma_groups_sound_disk(
    before: Seq<FileMetadata>,
    p3: Seq<FileMetadata>,
    disk: Map<Seq<char>, Seq<u8>>,
    g: int,
    a: int,
    b: int,
)
    requires
        full_fill_ok(before, p3, disk),
        0 <= g < spec_groups(p3).len(),
        0 <= a < spec_groups(p3)[g].len(),
        0 <= b < spec_groups(p3)[g].len(),
    ensures
        disk.contains_key(spec_groups(p3)[g][a].path@),
        disk.contains_key(spec_groups(p3)[g][b].path@),
        disk[spec_groups(p3)[g][a].path@].len() == disk[spec_groups(p3)[g][b].path@].len(),
        blake3_hex(disk[spec_groups(p3)[g][a].path@]) == blake3_hex(
            disk[spec_groups(p3)[g][b].path@],
        ),
{
    lemma_groups_sound(p3, g, a, b);
    let grp = spec_groups(p3)[g];
    assert(spec_all_groups(p3).filter(big_group_pred()).contains(grp));
    lemma_filter_in(spec_all_groups(p3), big_group_pred(), grp);
    let t = choose|t: int| 0 <= t < spec_all_groups(p3).len() && spec_all_groups(p3)[t] == grp;
    let k = spec_first_keys(p3)[t];
    assert(grp == p3.filter(full_key_pred(k.0, k.1)));
    assert(grp.contains(grp[a]));
    assert(grp.contains(grp[b]));
    lemma_filter_in(p3, full_key_pred(k.0, k.1), grp[a]);
    lemma_filter_in(p3, full_key_pred(k.0, k.1), grp[b]);
    let ia = choose|ia: int| 0 <= ia < p3.len() && p3[ia] == grp[a];
    let ib = choose|ib: int| 0 <= ib < p3.len() && p3[ib] == grp[b];
    assert(p3[ia].full_hash is Some && p3[ib].full_hash is Some);
    assert(disk.contains_key(before[ia].path@) && before[ia].size == disk[before[ia].path@].len());
    assert(disk.contains_key(before[ib].path@) && before[ib].size == disk[before[ib].path@].len());
    assert(p3[ia].full_hash.unwrap()@ == blake3_hex(disk[p3[ia].path@]));
    assert(p3[ib].full_hash.unwrap()@ == blake3_hex(disk[p3[ib].path@]));
}

/// Law (zero-byte files never group): whatever the passes were run on, a
/// record in a reported group has a positive size — empty files cannot
/// acquire a partial hash, so they drop out before full hashing.
pub proof fn lemma_zero_size_never_groups(
    p2: Seq<FileMetadata>,
    p3: Seq<FileMetadata>,
    disk: Map<Seq<char>, Seq<u8>>,
    s1: Seq<FileMetadata>,
    g: int,
    x: int,
)
    requires
        partial_fill_ok(s1, p2, disk),
        full_fill_ok(spec_survivors_by_partial(p2), p3, disk),
        0 <= g < spec_groups(p3).len(),
        0 <= x < spec_groups(p3)[g].len(),
    ensures
        spec_groups(p3)[g][x].size > 0,
{
    let grp = spec_groups(p3)[g];
    assert(spec_all_groups(p3).filter(big_group_pred()).contains(grp));
    lemma_filter_in(spec_all_groups(p3), big_group_pred(), grp);
    let t = choose|t: int| 0 <= t < spec_all_groups(p3).len() && spec_all_groups(p3)[t] == grp;
    let k = spec_first_keys(p3)[t];
    assert(grp == p3.filter(full_key_pred(k.0, k.1)));
    assert(grp.contains(grp[x]));
    lemma_filter_in(p3, full_key_pred(k.0, k.1), grp[x]);
    let idx = choose|idx: int| 0 <= idx < p3.len() && p3[idx] == grp[x];
    let s2 = spec_survivors_by_partial(p2);
    assert(p3[idx].size == s2[idx].size);
    assert(opt_view(p3[idx].partial_hash) == opt_view(s2[idx].partial_hash));
    assert(s2.contains(s2[idx]));
    lemma_filter_in(p2, partial_pred(p2), s2[idx]);
    let u = choose|u: int| 0 <= u < p2.len() && p2[u] == s2[idx];
    assert(partial_pred(p2)(p2[u]));
    assert(p2[u].partial_hash is Some);
    assert(p2[u].size > 0);
}

proof fn lemma_upsert_all_lookup(
    m0: Map<Seq<char>, CacheRow>,
    us: Seq<CacheEntry>,
    j: int,
)
    requires
        0 <= j < us.len(),
        forall|t: int| j < t < us.len() ==> (#[trigger] us[t].path@) != us[j].path@,
    ensures
        spec_upsert_all(m0, us).contains_key(us[j].path@),
        spec_upsert_all(m0, us)[us[j].path@] == merged_row(
            spec_upsert_all(m0, us.take(j)),
            us[j],
        ),
    decreases us.len(),
{
    if j == us.len() - 1 {
        assert(us.take(j) =~= us.drop_last());
    } else {
        assert forall|t: int| j < t < us.drop_last().len() implies (
        #[trigger] us.drop_last()[t].path@) != us.drop_last()[j].path@ by {
            assert(us.drop_last()[t] == us[t]);
        }
        lemma_upsert_all_lookup(m0, us.drop_last(), j);
        assert(us.drop_last()[j] == us[j]);
        assert(us.drop_last().take(j) =~= us.take(j));
        assert(us.last().path@ != us[j].path@);
    }
}

/// Law (cache idempotence): persist a scan's updates, leave the tree
/// untouched, and scan again — every record that ended pass 3 with a hash
/// finds exactly that hash in the cache under its unchanged size and
/// modified time. The second run's passes adopt the stored digests and the
/// hasher is never invoked; being pure functions of the same records and
/// hashes, the passes then report the same groups.
pub proof fn lemma_cache_idempotent(
    m0: Map<Seq<char>, CacheRow>,
    p3: Seq<FileMetadata>,
    i: int,
)
    requires
        paths_unique_in(p3),
        0 <= i < p3.len(),
    ensures
        p3[i].partial_hash is Some ==> spec_cached_partial(
            spec_upsert_all(m0, spec_cache_updates(p3)),
            p3[i].path@,
            p3[i].size,
            p3[i].modified,
        ) == opt_view(p3[i].partial_hash),
        p3[i].full_hash is Some ==> spec_cached_full(
            spec_upsert_all(m0, spec_cache_updates(p3)),
            p3[i].path@,
            p3[i].size,
            p3[i].modified,
        ) == opt_view(p3[i].full_hash),
{
    if p3[i].partial_hash is Some || p3[i].full_hash is Some {
        let kept = p3.filter(has_hash_pred());
        let us = spec_cache_updates(p3);
        assert(has_hash_pred()(p3[i]));
        p3.lemma_filter_contains(has_hash_pred(), i);
        lemma_filter_unique_paths(p3, has_hash_pred());
        let j = choose|j: int| 0 <= j < kept.len() && kept[j] == p3[i];
        assert(us[j] == update_of()(p3[i]));
        assert forall|t: int| j < t < us.len() implies (#[trigger] us[t].path@) != us[j].path@ by {
            assert(us[t] == update_of()(kept[t]));
            assert(kept[t].path@ != kept[j].path@);
        }
        lemma_upsert_all_lookup(m0, us, j);
    }
}

/// Law (cache invalidation): a stored row whose size or modified time no
/// longer matches a record's answers neither hash — the pipeline rehashes.
pub proof fn lemma_cache_invalidation(
    m: Map<Seq<char>, CacheRow>,
    path: Seq<char>,
    size: u64,
    modified: u64,
)
    requires
        m.contains_key(path) ==> m[path].size != size || m[path].modified != modified,
    ensures
        spec_cached_partial(m, path, size, modified) is None,
        spec_cached_full(m, path, size, modified) is None,
{
}

/// Law (upserts overwrite and coalesce): after one upsert the row under the
/// update's path carries the update's size and modified time; each hash
/// column takes the incoming value when present and keeps the stored one
/// otherwise — absence never erases a known hash.
pub proof fn lemma_upsert_overwrites(m: Map<Seq<char>, CacheRow>, u: CacheEntry)
    ensures
        crate::cache::spec_upsert(m, u).contains_key(u.path@),
        crate::cache::spec_upsert(m, u)[u.path@].size == u.size,
        crate::cache::spec_upsert(m, u)[u.path@].modified == u.modified,
        u.partial_hash is Some ==> crate::cache::spec_upsert(m, u)[u.path@].partial == opt_view(
            u.partial_hash,
        ),
        u.partial_hash is None && m.contains_key(u.path@) ==> crate::cache::spec_upsert(
            m,
            u,
        )[u.path@].partial == m[u.path@].partial,
        u.full_hash is Some ==> crate::cache::spec_upsert(m, u)[u.path@].full == opt_view(
            u.full_hash,
        ),
        u.full_hash is None && m.contains_key(u.path@) ==> crate::cache::spec_upsert(
            m,
            u,
        )[u.path@].full == m[u.path@].full,
{
}

/// The pipeline's cache consultation before a full-hash computation.
pub fn cached_full(rec: &FileMetadata, cache: &HashCache) -> (r: Option<String>)
    requires
        cache.wf(),
    ensures
        opt_view(r) == spec_cached_full(cache.as_map(), rec.path@, rec.size, rec.modified),
{
    match cache.get(&rec.path) {
        Some(e) => {
            if e.size == rec.size && e.modified == rec.modified {
                match &e.full_hash {
                    Some(h) => Some(h.clone()),
                    None => None,
                }
            } else {
                None
            }
        },
        None => None,
    }
}

} // verus!
