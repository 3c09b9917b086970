//! The hash-cache model: a store of rows keyed by path, each row holding the
//! file's size, modified time and the hashes known for it.
//!
//! The store is viewed as a map from path to row. An upsert overwrites size
//! and modified time and coalesces each hash column: an incoming hash
//! replaces the stored one, an absent incoming hash never erases it. A
//! cached hash is usable for a record only while the stored size and
//! modified time still match the record's; that validity check lives with
//! the pipeline, not here.

use vstd::prelude::*;

use crate::scanner::opt_view;

verus! {

/// One stored row, keyed by `path`.
pub struct CacheEntry {
    pub path: String,
    pub size: u64,
    pub modified: u64,
    pub partial_hash: Option<String>,
    pub full_hash: Option<String>,
}

/// The abstract value of a row, with the key left out.
pub struct CacheRow {
    pub size: u64,
    pub modified: u64,
    pub partial: Option<Seq<char>>,
    pub full: Option<Seq<char>>,
}

/// The abstract row an entry stands for.
pub open spec fn row_of(e: CacheEntry) -> CacheRow {
    CacheRow {
        size: e.size,
        modified: e.modified,
        partial: opt_view(e.partial_hash),
        full: opt_view(e.full_hash),
    }
}

/// The row stored after upserting `u` into a store whose current value is
/// `m`: size and modified time are overwritten, each hash column is taken
/// from the update when present and kept from the store otherwise.
pub open spec fn merged_row(m: Map<Seq<char>, CacheRow>, u: CacheEntry) -> CacheRow {
    CacheRow {
        size: u.size,
        modified: u.modified,
        partial: if u.partial_hash is Some {
            opt_view(u.partial_hash)
        } else if m.contains_key(u.path@) {
            m[u.path@].partial
        } else {
            None
        },
        full: if u.full_hash is Some {
            opt_view(u.full_hash)
        } else if m.contains_key(u.path@) {
            m[u.path@].full
        } else {
            None
        },
    }
}

/// The store after one upsert.
pub open spec fn spec_upsert(m: Map<Seq<char>, CacheRow>, u: CacheEntry) -> Map<
    Seq<char>,
    CacheRow,
> {
    m.insert(u.path@, merged_row(m, u))
}

/// The store after a batch of upserts, applied in order.
pub open spec fn spec_upsert_all(m: Map<Seq<char>, CacheRow>, us: Seq<CacheEntry>) -> Map<
    Seq<char>,
    CacheRow,
>
    decreases us.len(),
{
    if us.len() == 0 {
        m
    } else {
        spec_upsert(spec_upsert_all(m, us.drop_last()), us.last())
    }
}

spec fn paths_unique(es: Seq<CacheEntry>) -> bool {
    forall|i: int, j: int|
        0 <= i < j < es.len() ==> (#[trigger] es[i].path@) != (#[trigger] es[j].path@)
}

spec fn map_of_entries(es: Seq<CacheEntry>) -> Map<Seq<char>, CacheRow>
    decreases es.len(),
{
    if es.len() == 0 {
        Map::empty()
    } else {
        map_of_entries(es.drop_last()).insert(es.last().path@, row_of(es.last()))
    }
}

proof fn lemma_map_contains(es: Seq<CacheEntry>, p: Seq<char>)
    ensures
        map_of_entries(es).contains_key(p) <==> exists|i: int|
            0 <= i < es.len() && (#[trigger] es[i].path@) == p,
    decreases es.len(),
{
    if es.len() > 0 {
        lemma_map_contains(es.drop_last(), p);
        if es.last().path@ == p {
            assert(es[es.len() - 1].path@ == p);
        } else {
            if map_of_entries(es).contains_key(p) {
                let i = choose|i: int|
                    0 <= i < es.drop_last().len() && (#[trigger] es.drop_last()[i].path@) == p;
                assert(es[i].path@ == p);
            }
            if exists|i: int| 0 <= i < es.len() && (#[trigger] es[i].path@) == p {
                let i = choose|i: int| 0 <= i < es.len() && (#[trigger] es[i].path@) == p;
                assert(es.drop_last()[i].path@ == p);
            }
        }
    }
}

proof fn lemma_map_value(es: Seq<CacheEntry>, i: int)
    requires
        paths_unique(es),
        0 <= i < es.len(),
    ensures
        map_of_entries(es).contains_key(es[i].path@),
        map_of_entries(es)[es[i].path@] == row_of(es[i]),
    decreases es.len(),
{
    if i == es.len() - 1 {
    } else {
        lemma_map_value(es.drop_last(), i);
        assert(es.drop_last()[i] == es[i]);
        assert(es[i].path@ != es.last().path@);
    }
}

proof fn lemma_map_len(es: Seq<CacheEntry>)
    requires
        paths_unique(es),
    ensures
        map_of_entries(es).dom().finite(),
        map_of_entries(es).len() == es.len(),
    decreases es.len(),
{
    if es.len() > 0 {
        lemma_map_len(es.drop_last());
        lemma_map_contains(es.drop_last(), es.last().path@);
        assert(forall|i: int|
            0 <= i < es.drop_last().len() ==> (#[trigger] es.drop_last()[i].path@)
                != es.last().path@);
        assert(!map_of_entries(es.drop_last()).contains_key(es.last().path@));
    }
}

proof fn lemma_map_remove(es: Seq<CacheEntry>, i: int)
    requires
        paths_unique(es),
        0 <= i < es.len(),
    ensures
        map_of_entries(es.remove(i)) == map_of_entries(es).remove(es[i].path@),
    decreases es.len(),
{
    let p = es[i].path@;
    if i == es.len() - 1 {
        assert(es.remove(i) =~= es.drop_last());
        lemma_map_contains(es.drop_last(), p);
        assert(forall|j: int|
            0 <= j < es.drop_last().len() ==> (#[trigger] es.drop_last()[j].path@) != p);
        assert(!map_of_entries(es.drop_last()).contains_key(p));
        assert(map_of_entries(es.drop_last()) =~= map_of_entries(es).remove(p));
    } else {
        lemma_map_remove(es.drop_last(), i);
        assert(es.remove(i).drop_last() =~= es.drop_last().remove(i));
        assert(es.remove(i).last() == es.last());
        assert(map_of_entries(es.remove(i)) == map_of_entries(es.drop_last()).remove(p).insert(
            es.last().path@,
            row_of(es.last()),
        ));
        assert(es.last().path@ != p);
        assert(map_of_entries(es.drop_last()).remove(p).insert(es.last().path@, row_of(es.last()))
            =~= map_of_entries(es).remove(p));
    }
}

fn find_path(es: &Vec<CacheEntry>, path: &String) -> (r: Option<usize>)
    ensures
        match r {
            Some(k) => k < es@.len() && es@[k as int].path@ == path@,
            None => forall|j: int| 0 <= j < es@.len() ==> (#[trigger] es@[j].path@) != path@,
        },
{
    let n = es.len();
    let mut i: usize = 0;
    while i < n
        invariant
            n == es@.len(),
            0 <= i <= n,
            forall|j: int| 0 <= j < i ==> (#[trigger] es@[j].path@) != path@,
        decreases n - i,
    {
        if es[i].path == *path {
            return Some(i);
        }
        i = i + 1;
    }
    None
}

/// The durable key-value store of content hashes, held in memory as the
/// pipeline's snapshot. Paths are unique; the value of the store is the map
/// `as_map` gives.
pub struct HashCache {
    entries: Vec<CacheEntry>,
}

impl HashCache {
    /// Paths are pairwise distinct.
    pub closed spec fn wf(&self) -> bool {
        paths_unique(self.entries@)
    }

    /// The store as a map from path to row.
    pub closed spec fn as_map(&self) -> Map<Seq<char>, CacheRow> {
        map_of_entries(self.entries@)
    }

    /// An empty store.
    pub fn new() -> (c: Self)
        ensures
            c.wf(),
            c.as_map() == Map::<Seq<char>, CacheRow>::empty(),
    {
        HashCache { entries: Vec::new() }
    }

    /// The number of rows.
    pub fn len(&self) -> (n: usize)
        requires
            self.wf(),
        ensures
            n as nat == self.as_map().len(),
    {
        proof {
            lemma_map_len(self.entries@);
        }
        self.entries.len()
    }

    /// The row stored under `path`, if any.
    pub fn get(&self, path: &String) -> (r: Option<&CacheEntry>)
        requires
            self.wf(),
        ensures
            match r {
                Some(e) => self.as_map().contains_key(path@) && e.path@ == path@ && row_of(*e)
                    == self.as_map()[path@],
                None => !self.as_map().contains_key(path@),
            },
    {
        match find_path(&self.entries, path) {
            Some(k) => {
                proof {
                    lemma_map_value(self.entries@, k as int);
                }
                Some(&self.entries[k])
            },
            None => {
                proof {
                    lemma_map_contains(self.entries@, path@);
                }
                None
            },
        }
    }

    /// Insert or update one row: size and modified time are overwritten,
    /// hash columns are coalesced with what the store already holds.
    pub fn upsert(&mut self, update: CacheEntry)
        requires
            old(self).wf(),
        ensures
            final(self).wf(),
            final(self).as_map() == spec_upsert(old(self).as_map(), update),
    {
        let ghost m0 = self.as_map();
        let ghost pre = self.entries@;
        let found = find_path(&self.entries, &update.path);
        let CacheEntry { path, size, modified, partial_hash, full_hash } = update;
        match found {
            Some(k) => {
                proof {
                    lemma_map_value(pre, k as int);
                    lemma_map_remove(pre, k as int);
                }
                let existing = self.entries.remove(k);
                let ghost mid = self.entries@;
                proof {
                    assert(mid =~= pre.remove(k as int));
                    assert forall|j: int| 0 <= j < mid.len() implies (#[trigger] mid[j].path@)
                        != path@ by {
                        if j < k {
                            assert(mid[j] == pre[j]);
                        } else {
                            assert(mid[j] == pre[j + 1]);
                        }
                    }
                    assert forall|i: int, j: int| 0 <= i < j < mid.len() implies (
                    #[trigger] mid[i].path@) != (#[trigger] mid[j].path@) by {
                        let i0 = if i < k {
                            i
                        } else {
                            i + 1
                        };
                        let j0 = if j < k {
                            j
                        } else {
                            j + 1
                        };
                        assert(mid[i] == pre[i0]);
                        assert(mid[j] == pre[j0]);
                    }
                }
                let merged = CacheEntry {
                    path,
                    size,
                    modified,
                    partial_hash: if partial_hash.is_some() {
                        partial_hash
                    } else {
                        existing.partial_hash
                    },
                    full_hash: if full_hash.is_some() {
                        full_hash
                    } else {
                        existing.full_hash
                    },
                };
                self.entries.push(merged);
                proof {
                    assert(self.entries@.drop_last() =~= mid);
                    assert(self.entries@.last() == merged);
                    assert(self.as_map() == map_of_entries(mid).insert(
                        merged.path@,
                        row_of(merged),
                    ));
                    assert(map_of_entries(mid) == m0.remove(update.path@));
                    assert(row_of(merged) == merged_row(m0, update));
                    assert(self.as_map() =~= spec_upsert(m0, update));
                }
            },
            None => {
                proof {
                    lemma_map_contains(pre, path@);
                    assert(!m0.contains_key(update.path@));
                }
                let row = CacheEntry { path, size, modified, partial_hash, full_hash };
                self.entries.push(row);
                proof {
                    assert(self.entries@.drop_last() =~= pre);
                    assert(self.entries@.last() == row);
                    assert(self.as_map() == map_of_entries(pre).insert(row.path@, row_of(row)));
                    assert(row_of(row) == merged_row(m0, update));
                    assert(self.as_map() =~= spec_upsert(m0, update));
                }
            },
        }
    }

    /// Apply a batch of upserts in order: one atomic write at the end of a
    /// scan.
    pub fn batch_upsert(&mut self, updates: Vec<CacheEntry>)
        requires
            old(self).wf(),
        ensures
            final(self).wf(),
            final(self).as_map() == spec_upsert_all(old(self).as_map(), updates@),
    {
        let ghost m0 = self.as_map();
        let ghost us = updates@;
        let mut updates = updates;
        let n = updates.len();
        let mut i: usize = 0;
        while i < n
            invariant
                self.wf(),
                self.as_map() == spec_upsert_all(m0, us.take(i as int)),
                updates@ == us.skip(i as int),
                n == us.len(),
                0 <= i <= n,
            decreases n - i,
        {
            let u = updates.remove(0);
            proof {
                assert(u == us[i as int]);
            }
            self.upsert(u);
            proof {
                assert(us.take(i + 1).drop_last() =~= us.take(i as int));
                assert(us.take(i + 1).last() == us[i as int]);
                assert(updates@ =~= us.skip(i + 1));
            }
            i = i + 1;
        }
        proof {
            assert(us.take(n as int) =~= us);
        }
    }

    /// Remove every row.
    pub fn clear(&mut self)
        ensures
            final(self).wf(),
            final(self).as_map() == Map::<Seq<char>, CacheRow>::empty(),
    {
        self.entries.clear();
    }

    /// All rows, for a caller that persists the store: one per key of the
    /// map, each carrying the row stored under its path.
    pub fn rows(&self) -> (r: &Vec<CacheEntry>)
        requires
            self.wf(),
        ensures
            r@.len() == self.as_map().len(),
            forall|i: int|
                0 <= i < r@.len() ==> self.as_map().contains_key(#[trigger] r@[i].path@)
                    && self.as_map()[r@[i].path@] == row_of(r@[i]),
    {
        proof {
            lemma_map_len(self.entries@);
            assert forall|i: int| 0 <= i < self.entries@.len() implies self.as_map().contains_key(
                #[trigger] self.entries@[i].path@,
            ) && self.as_map()[self.entries@[i].path@] == row_of(self.entries@[i]) by {
                lemma_map_value(self.entries@, i);
            }
        }
        &self.entries
    }
}

} // verus!
