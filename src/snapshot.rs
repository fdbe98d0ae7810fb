use vstd::prelude::*;
use crate::paths::strs;
use crate::timestamp::{Timestamp, now, is_stale, stale, lemma_one_second_past_threshold_is_stale};

verus! {

/// A snapshot of the tracked files: each path with its modification time,
/// the time the snapshot was taken, and the packages whose last build failed.
pub struct Db {
    pub last_update: Timestamp,
    pub files: Vec<(String, Timestamp)>,
    pub failed_crates: Vec<String>,
}

/// Holds of a path when `db` does not record it.
pub open spec fn absent_from(db: Db) -> spec_fn(Seq<char>) -> bool {
    |k: Seq<char>| db.lookup(k).is_none()
}

/// Holds of a path of `db` when `other` records it with another time.
pub open spec fn changed_in(db: Db, other: Db) -> spec_fn(Seq<char>) -> bool {
    |k: Seq<char>| other.lookup(k).is_some() && other.lookup(k) != db.lookup(k)
}

impl Db {
    /// The recorded paths, in order of storage.
    pub open spec fn keys(self) -> Seq<Seq<char>> {
        self.files@.map_values(|e: (String, Timestamp)| e.0@)
    }

    /// Each path is recorded at most once.
    pub open spec fn wf(self) -> bool {
        self.keys().no_duplicates()
    }

    /// The modification time recorded for path `k`.
    pub open spec fn lookup(self, k: Seq<char>) -> Option<Timestamp> {
        lookup_in(self.files@, k)
    }

    /// Paths recorded here and not in `other`.
    pub open spec fn only_here(self, other: Db) -> Seq<Seq<char>> {
        self.keys().filter(absent_from(other))
    }

    /// Paths recorded in both with different times.
    pub open spec fn changed(self, other: Db) -> Seq<Seq<char>> {
        self.keys().filter(changed_in(self, other))
    }

    /// An empty snapshot taken now, with an empty ledger.
    pub fn new() -> (r: Db)
        ensures
            r.files@.len() == 0,
            r.failed_crates@.len() == 0,
    {
        Db { last_update: now(), files: Vec::new(), failed_crates: Vec::new() }
    }

    /// Position of path `k` in `files`.
    fn find(&self, k: &String) -> (r: Option<usize>)
        requires
            self.wf(),
        ensures
            match r {
                Some(i) => i < self.files@.len() && self.files@[i as int].0@ == k@
                    && self.lookup(k@) == Some(self.files@[i as int].1),
                None => self.lookup(k@).is_none(),
            },
    {
        let mut i: usize = 0;
        while i < self.files.len()
            invariant
                0 <= i <= self.files@.len(),
                self.wf(),
                forall|j: int| 0 <= j < i ==> self.files@[j].0@ != k@,
            decreases self.files@.len() - i,
        {
            if self.files[i].0 == *k {
                proof {
                    lemma_lookup_at(self.files@, i as int);
                }
                return Some(i);
            }
            i += 1;
        }
        proof {
            lemma_lookup_none(self.files@, k@);
        }
        None
    }

    /// Records `t` as the modification time of `path`, replacing an earlier entry.
    pub fn insert_file(&mut self, path: String, t: Timestamp)
        requires
            old(self).wf(),
        ensures
            final(self).wf(),
            final(self).lookup(path@) == Some(t),
            forall|k: Seq<char>| k != path@ ==> final(self).lookup(k) == old(self).lookup(k),
            final(self).last_update == old(self).last_update,
            final(self).failed_crates == old(self).failed_crates,
    {
        let ghost pre = *self;
        match self.find(&path) {
            Some(i) => {
                self.files.set(i, (path, t));
                proof {
                    assert(self.keys() =~= pre.keys());
                    lemma_lookup_at(self.files@, i as int);
                    assert forall|k: Seq<char>| k != path@ implies self.lookup(k) == pre.lookup(k) by {
                        lemma_lookup_same(pre.files@, self.files@, k);
                    }
                }
            },
            None => {
                self.files.push((path, t));
                proof {
                    let n = pre.files@.len();
                    assert(self.keys() =~= pre.keys().push(path@));
                    assert(!pre.keys().contains(path@)) by {
                        if pre.keys().contains(path@) {
                            let j = choose|j: int| 0 <= j < pre.keys().len() && pre.keys()[j] == path@;
                            lemma_lookup_at(pre.files@, j);
                        }
                    }
                    assert forall|a: int, b: int|
                        0 <= a < self.keys().len() && 0 <= b < self.keys().len() && a != b implies self.keys()[a]
                        != self.keys()[b] by {
                        if a < n && b < n {
                            assert(pre.keys()[a] != pre.keys()[b]);
                        } else if a < n {
                            assert(pre.keys()[a] == self.keys()[a]);
                        } else {
                            assert(pre.keys()[b] == self.keys()[b]);
                        }
                    }
                    assert(self.files@.drop_last() =~= pre.files@);
                }
            },
        }
    }

    /// Compares this snapshot, the older one, with `other`, the newer one.
    /// `this_only` holds the removed paths, `different_value` the modified
    /// ones (recorded in both with unequal times), `other_only` the added ones.
    pub fn diff(&self, other: &Self) -> (r: DbDiff)
        requires
            self.wf(),
            other.wf(),
        ensures
            strs(r.this_only@) == self.only_here(*other),
            strs(r.different_value@) == self.changed(*other),
            strs(r.other_only@) == other.only_here(*self),
    {
        let mut this_only: Vec<String> = Vec::new();
        let mut different_value: Vec<String> = Vec::new();
        let mut other_only: Vec<String> = Vec::new();
        let mut i: usize = 0;
        while i < self.files.len()
            invariant
                0 <= i <= self.files@.len(),
                self.wf(),
                other.wf(),
                strs(this_only@) == self.keys().subrange(0, i as int).filter(absent_from(*other)),
                strs(different_value@) == self.keys().subrange(0, i as int).filter(
                    changed_in(*self, *other),
                ),
            decreases self.files@.len() - i,
        {
            let key = &self.files[i].0;
            let ghost pre_this = this_only@;
            let ghost pre_diff = different_value@;
            proof {
                reveal(Seq::filter);
                lemma_lookup_at(self.files@, i as int);
                let s = self.keys().subrange(0, i + 1);
                assert(s.drop_last() =~= self.keys().subrange(0, i as int));
                assert(s.last() == key@);
            }
            match other.find(key) {
                None => {
                    this_only.push(key.clone());
                    assert(strs(this_only@) =~= strs(pre_this).push(key@));
                },
                Some(j) => {
                    if other.files[j].1 != self.files[i].1 {
                        different_value.push(key.clone());
                        assert(strs(different_value@) =~= strs(pre_diff).push(key@));
                    }
                },
            }
            i += 1;
        }
        assert(self.keys().subrange(0, i as int) =~= self.keys());
        let mut i: usize = 0;
        while i < other.files.len()
            invariant
                0 <= i <= other.files@.len(),
                self.wf(),
                other.wf(),
                strs(other_only@) == other.keys().subrange(0, i as int).filter(absent_from(*self)),
            decreases other.files@.len() - i,
        {
            let key = &other.files[i].0;
            let ghost pre_other = other_only@;
            proof {
                reveal(Seq::filter);
                let s = other.keys().subrange(0, i + 1);
                assert(s.drop_last() =~= other.keys().subrange(0, i as int));
                assert(s.last() == key@);
            }
            if self.find(key).is_none() {
                other_only.push(key.clone());
                assert(strs(other_only@) =~= strs(pre_other).push(key@));
            }
            i += 1;
        }
        assert(other.keys().subrange(0, i as int) =~= other.keys());
        DbDiff { this_only, different_value, other_only }
    }
}

/// What `effective_old` returns: on `reset`, an empty snapshot taken at `now`
/// with an empty ledger; when more than `stale_secs` seconds separate `old` from
/// `now`, an empty snapshot taken at `now` that keeps `old`'s ledger; else `old`.
pub open spec fn is_baseline(old: Db, now: Timestamp, stale_secs: u64, reset: bool, r: Db) -> bool {
    if reset {
        r.files@.len() == 0 && r.failed_crates@.len() == 0 && r.last_update == now
    } else if stale(old.last_update, now, stale_secs) {
        r.files@.len() == 0 && r.failed_crates@ == old.failed_crates@ && r.last_update == now
    } else {
        r == old
    }
}

/// The snapshot that a run taken at `now` compares against, given the one
/// loaded from the previous run.
pub fn effective_old(old: Db, now: Timestamp, stale_secs: u64, reset: bool) -> (r: Db)
    ensures
        is_baseline(old, now, stale_secs, reset, r),
{
    if reset {
        Db { last_update: now, files: Vec::new(), failed_crates: Vec::new() }
    } else if is_stale(old.last_update, now, stale_secs) {
        Db { last_update: now, files: Vec::new(), failed_crates: old.failed_crates }
    } else {
        old
    }
}

impl DbDiff {
    /// Every path of the diff: the removed, then the modified, then the added.
    pub open spec fn all(self) -> Seq<Seq<char>> {
        strs(self.this_only@) + strs(self.different_value@) + strs(self.other_only@)
    }

    /// Every changed path, in the order of `all`.
    pub fn changed_paths(&self) -> (r: Vec<String>)
        ensures
            strs(r@) == self.all(),
    {
        let mut r: Vec<String> = Vec::new();
        append_all(&mut r, &self.this_only);
        append_all(&mut r, &self.different_value);
        append_all(&mut r, &self.other_only);
        r
    }
}

fn append_all(r: &mut Vec<String>, items: &Vec<String>)
    ensures
        strs(final(r)@) == strs(old(r)@) + strs(items@),
{
    let ghost start = strs(r@);
    let mut i: usize = 0;
    while i < items.len()
        invariant
            0 <= i <= items.len(),
            strs(r@) == start + strs(items@).subrange(0, i as int),
        decreases items.len() - i,
    {
        let ghost pre = r@;
        r.push(items[i].clone());
        assert(strs(r@) =~= strs(pre).push(items@[i as int]@));
        assert(start + strs(items@).subrange(0, i + 1) =~= (start + strs(items@).subrange(0, i as int)).push(
            items@[i as int]@,
        ));
        i += 1;
    }
    assert(strs(items@).subrange(0, i as int) =~= strs(items@));
}

/// The diff of two snapshots depends on their recorded files alone, not on
/// when they were taken nor on their ledgers.
pub proof fn lemma_diff_depends_on_files_only(a1: Db, a2: Db, b1: Db, b2: Db)
    requires
        a1.files@ == a2.files@,
        b1.files@ == b2.files@,
    ensures
        a1.only_here(b1) == a2.only_here(b2),
        a1.changed(b1) == a2.changed(b2),
        b1.only_here(a1) == b2.only_here(a2),
{
    assert(absent_from(b1) =~= absent_from(b2));
    assert(absent_from(a1) =~= absent_from(a2));
    assert(changed_in(a1, b1) =~= changed_in(a2, b2));
}

/// No path of a diff is at once removed and added, removed and modified, or
/// added and modified.
pub proof fn lemma_diff_partition(old: Db, new: Db)
    ensures
        forall|k: Seq<char>| !(old.only_here(new).contains(k) && new.only_here(old).contains(k)),
        forall|k: Seq<char>| !(old.only_here(new).contains(k) && old.changed(new).contains(k)),
        forall|k: Seq<char>| !(new.only_here(old).contains(k) && old.changed(new).contains(k)),
{
    assert forall|k: Seq<char>| !(old.only_here(new).contains(k) && new.only_here(old).contains(k)) by {
        if old.only_here(new).contains(k) && new.only_here(old).contains(k) {
            lemma_filter_member(old.keys(), absent_from(new), k);
            lemma_filter_member(new.keys(), absent_from(old), k);
            lemma_key_recorded(old, k);
        }
    }
    assert forall|k: Seq<char>| !(old.only_here(new).contains(k) && old.changed(new).contains(k)) by {
        if old.only_here(new).contains(k) && old.changed(new).contains(k) {
            lemma_filter_member(old.keys(), absent_from(new), k);
            lemma_filter_member(old.keys(), changed_in(old, new), k);
        }
    }
    assert forall|k: Seq<char>| !(new.only_here(old).contains(k) && old.changed(new).contains(k)) by {
        if new.only_here(old).contains(k) && old.changed(new).contains(k) {
            lemma_filter_member(new.keys(), absent_from(old), k);
            lemma_filter_member(old.keys(), changed_in(old, new), k);
            lemma_key_recorded(old, k);
        }
    }
}

/// A snapshot compared with itself shows no removed, modified or added path.
pub proof fn lemma_diff_with_itself_is_empty(a: Db)
    ensures
        a.only_here(a).len() == 0,
        a.changed(a).len() == 0,
{
    assert forall|k: Seq<char>| a.keys().contains(k) implies !absent_from(a)(k) by {
        lemma_key_recorded(a, k);
    }
    lemma_filter_none(a.keys(), absent_from(a));
    lemma_filter_none(a.keys(), changed_in(a, a));
}

/// A run taken `threshold + 1` seconds after the old snapshot compares against
/// an empty snapshot, so every file of the new one counts as added.
pub proof fn lemma_stale_snapshot_makes_all_added(old: Db, base: Db, new: Db, threshold: u64)
    requires
        new.last_update.secs == old.last_update.secs + threshold + 1,
        new.last_update.nanos == old.last_update.nanos,
        is_baseline(old, new.last_update, threshold, false, base),
    ensures
        base.files@.len() == 0,
        base.only_here(new).len() == 0,
        base.changed(new).len() == 0,
        new.only_here(base) == new.keys(),
{
    lemma_one_second_past_threshold_is_stale(old.last_update, threshold);
    assert(stale(old.last_update, new.last_update, threshold));
    assert(base.keys() =~= Seq::<Seq<char>>::empty());
    reveal(Seq::filter);
    assert forall|k: Seq<char>| new.keys().contains(k) implies absent_from(base)(k) by {
        lemma_lookup_none(base.files@, k);
    }
    lemma_filter_all(new.keys(), absent_from(base));
}

proof fn lemma_filter_member(s: Seq<Seq<char>>, p: spec_fn(Seq<char>) -> bool, k: Seq<char>)
    requires
        s.filter(p).contains(k),
    ensures
        p(k),
        s.contains(k),
{
    broadcast use vstd::seq_lib::group_filter_ensures;

    s.lemma_filter_contains_rev(p, k);
    let i = choose|i: int| 0 <= i < s.filter(p).len() && s.filter(p)[i] == k;
    assert(p(s.filter(p)[i]));
}

proof fn lemma_filter_none(s: Seq<Seq<char>>, p: spec_fn(Seq<char>) -> bool)
    requires
        forall|k: Seq<char>| s.contains(k) ==> !p(k),
    ensures
        s.filter(p).len() == 0,
{
    if s.filter(p).len() > 0 {
        lemma_filter_member(s, p, s.filter(p)[0]);
    }
}

proof fn lemma_filter_all(s: Seq<Seq<char>>, p: spec_fn(Seq<char>) -> bool)
    requires
        forall|k: Seq<char>| s.contains(k) ==> p(k),
    ensures
        s.filter(p) == s,
    decreases s.len(),
{
    reveal(Seq::filter);
    if s.len() > 0 {
        assert forall|k: Seq<char>| s.drop_last().contains(k) implies p(k) by {
            let i = choose|i: int| 0 <= i < s.drop_last().len() && s.drop_last()[i] == k;
            assert(s[i] == k);
            assert(s.contains(k));
        }
        lemma_filter_all(s.drop_last(), p);
        assert(s.contains(s.last()));
        assert(s.drop_last().push(s.last()) =~= s);
    }
}

/// A recorded path has a recorded time.
proof fn lemma_key_recorded(db: Db, k: Seq<char>)
    requires
        db.keys().contains(k),
    ensures
        db.lookup(k).is_some(),
{
    let i = choose|i: int| 0 <= i < db.keys().len() && db.keys()[i] == k;
    assert(db.files@[i].0@ == k);
    lemma_lookup_none(db.files@, k);
}

/// The paths that differ between an older and a newer snapshot.
pub struct DbDiff {
    /// Paths only the older snapshot records (removed).
    pub this_only: Vec<String>,
    /// Paths both record, with different modification times (modified).
    pub different_value: Vec<String>,
    /// Paths only the newer snapshot records (added).
    pub other_only: Vec<String>,
}

/// The time recorded for path `k` in `files`; the last entry wins.
pub open spec fn lookup_in(files: Seq<(String, Timestamp)>, k: Seq<char>) -> Option<Timestamp>
    decreases files.len(),
{
    if files.len() == 0 {
        None
    } else if files.last().0@ == k {
        Some(files.last().1)
    } else {
        lookup_in(files.drop_last(), k)
    }
}

proof fn lemma_lookup_at(files: Seq<(String, Timestamp)>, i: int)
    requires
        files.map_values(|e: (String, Timestamp)| e.0@).no_duplicates(),
        0 <= i < files.len(),
    ensures
        lookup_in(files, files[i].0@) == Some(files[i].1),
    decreases files.len(),
{
    let keys = files.map_values(|e: (String, Timestamp)| e.0@);
    if i < files.len() - 1 {
        assert(keys[i] != keys[files.len() - 1]);
        let rest = files.drop_last();
        assert(rest.map_values(|e: (String, Timestamp)| e.0@) =~= keys.drop_last());
        assert(rest[i] == files[i]);
        lemma_lookup_at(rest, i);
    }
}

proof fn lemma_lookup_none(files: Seq<(String, Timestamp)>, k: Seq<char>)
    ensures
        lookup_in(files, k).is_none() <==> forall|j: int| 0 <= j < files.len() ==> files[j].0@ != k,
    decreases files.len(),
{
    if files.len() > 0 {
        let rest = files.drop_last();
        lemma_lookup_none(rest, k);
        assert forall|j: int| 0 <= j < rest.len() implies rest[j] == files[j] by {}
        if files.last().0@ != k && lookup_in(rest, k).is_none() {
            assert forall|j: int| 0 <= j < files.len() implies files[j].0@ != k by {
                if j < rest.len() {
                    assert(rest[j] == files[j]);
                }
            }
        }
    }
}

proof fn lemma_lookup_same(f1: Seq<(String, Timestamp)>, f2: Seq<(String, Timestamp)>, k: Seq<char>)
    requires
        f1.len() == f2.len(),
        forall|j: int| 0 <= j < f1.len() ==> ((f1[j].0@ == k) == (f2[j].0@ == k)),
        forall|j: int| 0 <= j < f1.len() && f1[j].0@ == k ==> f1[j].1 == f2[j].1,
    ensures
        lookup_in(f1, k) == lookup_in(f2, k),
    decreases f1.len(),
{
    if f1.len() > 0 {
        let (r1, r2) = (f1.drop_last(), f2.drop_last());
        assert forall|j: int| 0 <= j < r1.len() implies r1[j] == f1[j] && r2[j] == f2[j] by {}
        lemma_lookup_same(r1, r2, k);
    }
}

} // verus!
