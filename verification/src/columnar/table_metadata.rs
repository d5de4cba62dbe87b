//! Versioned table metadata: a table is the chain of its manifests, and a
//! version is a number of manifests.

use std::collections::HashSet;

use vstd::prelude::*;

use super::manifest::{
    described, eq_candidates, eq_preds_ok_in, range_candidates, range_preds_ok_in, Manifest,
};
use super::stats::{eq_preds_view, range_preds_view};
use super::{Schema, ValueView};
use std::ops::RangeInclusive;
use super::Value;

verus! {

broadcast use vstd::std_specs::hash::group_hash_axioms;

/// A table version: the number of manifests it consists of.
#[derive(Clone, Copy, Debug, PartialEq, Eq, Structural)]
pub struct Version(pub u64);

impl Version {
    /// Version `v`.
    pub fn new(v: u64) -> (r: Version)
        ensures
            r == Version(v),
    {
        Version(v)
    }

    /// The next version; after `u64::MAX` comes 0.
    pub fn successor(&self) -> (r: Version)
        ensures
            r.0 == if self.0 == u64::MAX { 0 } else { (self.0 + 1) as u64 },
    {
        Version(self.0.wrapping_add(1))
    }

    /// The version's number.
    pub fn value(&self) -> (r: u64)
        ensures
            r == self.0,
    {
        self.0
    }
}

impl Default for Version {
    fn default() -> (r: Version)
        ensures
            r == Version(0),
    {
        Version(0)
    }
}

/// Metadata of a table: its name, schema, current version and manifests.
pub struct TableMetadata {
    pub name: String,
    pub schema: Schema,
    pub version: Version,
    pub manifests: Vec<Manifest>,
}

/// The first `v` manifests when `v` is within the chain, else all of them.
pub open spec fn snapshot_of(ms: Seq<Manifest>, version: Option<Version>) -> Seq<Manifest> {
    match version {
        None => ms,
        Some(v) => if (v.0 as usize) < ms.len() {
            ms.subrange(0, v.0 as usize as int)
        } else {
            ms
        },
    }
}

/// Ids of the files live after the manifests `0..i`: each manifest adds its
/// added files, then removes its deleted ones.
pub open spec fn live_files(ms: Seq<Manifest>, i: int) -> Set<u128>
    decreases i,
{
    if i <= 0 {
        Set::empty()
    } else {
        let m = ms[i - 1];
        live_files(ms, i - 1).union(m.added@.map_values(|f: super::FileHandle| f.0).to_set()).difference(
            m.deleted@.map_values(|f: super::FileHandle| f.0).to_set(),
        )
    }
}

/// Ids of the files of manifests `0..i` that the equality predicates may
/// select.
pub open spec fn eq_selected(ms: Seq<Manifest>, ps: Seq<(ValueView, usize)>, i: int) -> Set<u128>
    decreases i,
{
    if i <= 0 {
        Set::empty()
    } else {
        eq_selected(ms, ps, i - 1).union(
            eq_candidates(&ms[i - 1], ps, described(&ms[i - 1])).map_values(|f: super::FileHandle| f.0).to_set(),
        )
    }
}

/// As [`eq_selected`], for range predicates.
pub open spec fn range_selected(ms: Seq<Manifest>, ps: Seq<(ValueView, ValueView, usize)>, i: int) -> Set<
    u128,
>
    decreases i,
{
    if i <= 0 {
        Set::empty()
    } else {
        range_selected(ms, ps, i - 1).union(
            range_candidates(&ms[i - 1], ps, described(&ms[i - 1])).map_values(|f: super::FileHandle| f.0).to_set(),
        )
    }
}

/// Adds the ids of `files` to `set`.
fn insert_all(set: &mut HashSet<u128>, files: &[super::FileHandle])
    ensures
        final(set)@ == old(set)@.union(files@.map_values(|f: super::FileHandle| f.0).to_set()),
{
    let ghost ids = files@.map_values(|f: super::FileHandle| f.0);
    let mut i: usize = 0;
    while i < files.len()
        invariant
            i <= files@.len(),
            ids == files@.map_values(|f: super::FileHandle| f.0),
            set@ == old(set)@.union(ids.subrange(0, i as int).to_set()),
        decreases files@.len() - i,
    {
        set.insert(files[i].0);
        proof {
            assert(ids.subrange(0, i + 1).to_set() =~= ids.subrange(0, i as int).to_set().insert(ids[i as int]))
                by {
                assert(ids.subrange(0, i + 1) =~= ids.subrange(0, i as int).push(ids[i as int]));
                ids.subrange(0, i as int).lemma_push_to_set_commute(ids[i as int]);
            }
        }
        i = i + 1;
        proof {
            assert(set@ =~= old(set)@.union(ids.subrange(0, i as int).to_set()));
        }
    }
    proof {
        assert(ids.subrange(0, files@.len() as int) == ids);
    }
}

/// Removes the ids of `files` from `set`.
fn remove_all(set: &mut HashSet<u128>, files: &[super::FileHandle])
    ensures
        final(set)@ == old(set)@.difference(files@.map_values(|f: super::FileHandle| f.0).to_set()),
{
    let ghost ids = files@.map_values(|f: super::FileHandle| f.0);
    let mut i: usize = 0;
    while i < files.len()
        invariant
            i <= files@.len(),
            ids == files@.map_values(|f: super::FileHandle| f.0),
            set@ == old(set)@.difference(ids.subrange(0, i as int).to_set()),
        decreases files@.len() - i,
    {
        set.remove(&files[i].0);
        proof {
            assert(ids.subrange(0, i + 1).to_set() =~= ids.subrange(0, i as int).to_set().insert(ids[i as int]))
                by {
                assert(ids.subrange(0, i + 1) =~= ids.subrange(0, i as int).push(ids[i as int]));
                ids.subrange(0, i as int).lemma_push_to_set_commute(ids[i as int]);
            }
        }
        i = i + 1;
        proof {
            assert(set@ =~= old(set)@.difference(ids.subrange(0, i as int).to_set()));
        }
    }
    proof {
        assert(ids.subrange(0, files@.len() as int) == ids);
    }
}

impl TableMetadata {
    /// A table with no versions.
    pub fn new(name: String, schema: Schema) -> (t: TableMetadata)
        ensures
            t.name@ == name@,
            t.schema@ == schema@,
            t.version == Version(0),
            t.manifests@.len() == 0,
    {
        TableMetadata { name, schema, version: Version::default(), manifests: Vec::new() }
    }

    /// The manifests up to `version`: the first `version` of them, or all
    /// when `version` is `None` or not below their number.
    pub fn snapshot(&self, version: Option<Version>) -> (r: &[Manifest])
        ensures
            r@ == snapshot_of(self.manifests@, version),
    {
        match version {
            None => self.manifests.as_slice(),
            Some(v) => {
                let index = v.0 as usize;
                if index < self.manifests.len() {
                    vstd::slice::slice_subrange(self.manifests.as_slice(), 0, index)
                } else {
                    self.manifests.as_slice()
                }
            },
        }
    }

    /// Ids of the files of the table at `version` (see [`Self::snapshot`]).
    pub fn files(&self, version: Option<Version>) -> (r: HashSet<u128>)
        ensures
            ({
                let ms = snapshot_of(self.manifests@, version);
                r@ == live_files(ms, ms.len() as int)
            }),
    {
        let snapshot = self.snapshot(version);
        let mut set: HashSet<u128> = HashSet::new();
        let mut i: usize = 0;
        while i < snapshot.len()
            invariant
                i <= snapshot@.len(),
                set@ == live_files(snapshot@, i as int),
            decreases snapshot@.len() - i,
        {
            let manifest = &snapshot[i];
            insert_all(&mut set, manifest.added());
            remove_all(&mut set, manifest.deleted());
            i = i + 1;
        }
        set
    }

    /// Ids of the files of the table at `version` whose statistics may
    /// satisfy all equality predicates `(value, column)`.
    pub fn contains(&self, predicates: Vec<(Value, usize)>, version: Option<Version>) -> (r: HashSet<u128>)
        requires
            forall|i: int|
                0 <= i < snapshot_of(self.manifests@, version).len() ==> eq_preds_ok_in(
                    &#[trigger] snapshot_of(self.manifests@, version)[i],
                    eq_preds_view(predicates@),
                ),
        ensures
            ({
                let ms = snapshot_of(self.manifests@, version);
                r@ == eq_selected(ms, eq_preds_view(predicates@), ms.len() as int).intersect(
                    live_files(ms, ms.len() as int),
                )
            }),
    {
        let snapshot = self.snapshot(version);
        let files = self.files(version);
        select_eq(snapshot, &predicates, &files)
    }

    /// Ids of the files of the table at `version` whose statistics may
    /// satisfy all range predicates `(range, column)`.
    pub fn contains_range(&self, predicates: Vec<(RangeInclusive<Value>, usize)>, version: Option<Version>) -> (r:
        HashSet<u128>)
        requires
            forall|i: int|
                0 <= i < snapshot_of(self.manifests@, version).len() ==> range_preds_ok_in(
                    &#[trigger] snapshot_of(self.manifests@, version)[i],
                    range_preds_view(predicates@),
                ),
        ensures
            ({
                let ms = snapshot_of(self.manifests@, version);
                r@ == range_selected(ms, range_preds_view(predicates@), ms.len() as int).intersect(
                    live_files(ms, ms.len() as int),
                )
            }),
    {
        let snapshot = self.snapshot(version);
        let files = self.files(version);
        select_range(snapshot, &predicates, &files)
    }

    /// Appends `manifest` as the next version and returns that version.
    pub fn add_version(&mut self, manifest: Manifest) -> (v: Version)
        ensures
            final(self).manifests@ == old(self).manifests@.push(manifest),
            final(self).version.0 == if old(self).version.0 == u64::MAX {
                0
            } else {
                (old(self).version.0 + 1) as u64
            },
            v == final(self).version,
            final(self).name == old(self).name,
            final(self).schema == old(self).schema,
    {
        self.manifests.push(manifest);
        self.version = self.version.successor();
        self.version
    }
}

/// Appending a version changes no earlier snapshot: the manifests of a
/// version up to the old chain length, and so the files read at it, stay as
/// they were.
pub proof fn lemma_add_version_keeps_snapshots(ms: Seq<Manifest>, m: Manifest, v: Version)
    requires
        v.0 <= ms.len(),
        ms.len() < usize::MAX,
    ensures
        snapshot_of(ms.push(m), Some(v)) == snapshot_of(ms, Some(v)),
{
    if v.0 < ms.len() {
        assert(ms.push(m).subrange(0, v.0 as int) =~= ms.subrange(0, v.0 as int));
    } else {
        assert(ms.push(m).subrange(0, v.0 as int) =~= ms);
    }
}

/// Manifest `m` adds the file with id `f`.
pub open spec fn adds_file(m: Manifest, f: u128) -> bool {
    exists|k: int| 0 <= k < m.added@.len() && (#[trigger] m.added@[k]).0 == f
}

/// Manifest `m` deletes the file with id `f`.
pub open spec fn deletes_file(m: Manifest, f: u128) -> bool {
    exists|k: int| 0 <= k < m.deleted@.len() && (#[trigger] m.deleted@[k]).0 == f
}

proof fn lemma_ids_contain(files: Seq<super::FileHandle>, f: u128)
    ensures
        files.map_values(|h: super::FileHandle| h.0).to_set().contains(f) <==> exists|k: int|
            0 <= k < files.len() && (#[trigger] files[k]).0 == f,
{
    let ids = files.map_values(|h: super::FileHandle| h.0);
    if ids.to_set().contains(f) {
        assert(ids.contains(f));
        let k = choose|k: int| 0 <= k < ids.len() && ids[k] == f;
        assert(files[k].0 == f);
    }
    if exists|k: int| 0 <= k < files.len() && (#[trigger] files[k]).0 == f {
        let k = choose|k: int| 0 <= k < files.len() && (#[trigger] files[k]).0 == f;
        assert(ids[k] == f);
        assert(ids.contains(f));
    }
}

/// A file is live after the manifests `0..i` exactly when one of them added
/// it and neither that manifest nor any later one deleted it.
pub proof fn lemma_live_files(ms: Seq<Manifest>, i: int, f: u128)
    requires
        0 <= i <= ms.len(),
    ensures
        live_files(ms, i).contains(f) <==> exists|j: int|
            0 <= j < i && #[trigger] adds_file(ms[j], f) && forall|l: int|
                j <= l < i ==> !#[trigger] deletes_file(ms[l], f),
    decreases i,
{
    if i > 0 {
        lemma_live_files(ms, i - 1, f);
        let m = ms[i - 1];
        lemma_ids_contain(m.added@, f);
        lemma_ids_contain(m.deleted@, f);
        assert(live_files(ms, i).contains(f) <==> (live_files(ms, i - 1).contains(f) || adds_file(m, f))
            && !deletes_file(m, f));
        if live_files(ms, i).contains(f) {
            if adds_file(m, f) {
                assert forall|l: int| i - 1 <= l < i implies !#[trigger] deletes_file(ms[l], f) by {
                    assert(l == i - 1);
                }
            } else {
                let j = choose|j: int|
                    0 <= j < i - 1 && #[trigger] adds_file(ms[j], f) && forall|l: int|
                        j <= l < i - 1 ==> !#[trigger] deletes_file(ms[l], f);
                assert forall|l: int| j <= l < i implies !#[trigger] deletes_file(ms[l], f) by {
                    if l == i - 1 {
                    }
                }
            }
        }
        if exists|j: int|
            0 <= j < i && #[trigger] adds_file(ms[j], f) && forall|l: int|
                j <= l < i ==> !#[trigger] deletes_file(ms[l], f) {
            let j = choose|j: int|
                0 <= j < i && #[trigger] adds_file(ms[j], f) && forall|l: int|
                    j <= l < i ==> !#[trigger] deletes_file(ms[l], f);
            assert(!deletes_file(ms[i - 1], f));
            if j < i - 1 {
                assert forall|l: int| j <= l < i - 1 implies !#[trigger] deletes_file(ms[l], f) by {}
            }
        }
    }
}

proof fn lemma_union_intersect(a: Set<u128>, b: Set<u128>, c: Set<u128>)
    ensures
        a.union(b).intersect(c) == a.intersect(c).union(b.intersect(c)),
{
    assert(a.union(b).intersect(c) =~= a.intersect(c).union(b.intersect(c)));
}

/// Adds the ids of `files` that `keep` holds to `set`.
fn insert_kept(set: &mut HashSet<u128>, files: &[super::FileHandle], keep: &HashSet<u128>)
    ensures
        final(set)@ == old(set)@.union(files@.map_values(|f: super::FileHandle| f.0).to_set().intersect(keep@)),
{
    let ghost ids = files@.map_values(|f: super::FileHandle| f.0);
    let mut i: usize = 0;
    while i < files.len()
        invariant
            i <= files@.len(),
            ids == files@.map_values(|f: super::FileHandle| f.0),
            set@ == old(set)@.union(ids.subrange(0, i as int).to_set().intersect(keep@)),
        decreases files@.len() - i,
    {
        if keep.contains(&files[i].0) {
            set.insert(files[i].0);
        }
        proof {
            assert(ids.subrange(0, i + 1) =~= ids.subrange(0, i as int).push(ids[i as int]));
            ids.subrange(0, i as int).lemma_push_to_set_commute(ids[i as int]);
        }
        i = i + 1;
        proof {
            assert(set@ =~= old(set)@.union(ids.subrange(0, i as int).to_set().intersect(keep@)));
        }
    }
    proof {
        assert(ids.subrange(0, files@.len() as int) == ids);
    }
}

/// Ids of the files of `snapshot` that the predicates may select and
/// `files` holds.
fn select_eq(snapshot: &[Manifest], predicates: &Vec<(Value, usize)>, files: &HashSet<u128>) -> (set: HashSet<u128>)
    requires
        forall|j: int|
            0 <= j < snapshot@.len() ==> eq_preds_ok_in(&#[trigger] snapshot@[j], eq_preds_view(predicates@)),
    ensures
        set@ == eq_selected(snapshot@, eq_preds_view(predicates@), snapshot@.len() as int).intersect(files@),
{
    let ghost pv = eq_preds_view(predicates@);
    let mut set: HashSet<u128> = HashSet::new();
    let mut i: usize = 0;
    proof {
        assert(set@ =~= Set::<u128>::empty().intersect(files@));
    }
    while i < snapshot.len()
        invariant
            i <= snapshot@.len(),
            pv == eq_preds_view(predicates@),
            forall|j: int| 0 <= j < snapshot@.len() ==> eq_preds_ok_in(&#[trigger] snapshot@[j], pv),
            set@ == eq_selected(snapshot@, pv, i as int).intersect(files@),
        decreases snapshot@.len() - i,
    {
        let selected = snapshot[i].contains(super::manifest::copy_eq_preds(predicates));
        insert_kept(&mut set, selected.as_slice(), files);
        proof {
            let a = eq_selected(snapshot@, pv, i as int);
            let b = selected@.map_values(|f: super::FileHandle| f.0).to_set();
            assert(eq_selected(snapshot@, pv, i + 1) == a.union(b));
            lemma_union_intersect(a, b, files@);
        }
        i = i + 1;
    }
    set
}

/// Ids of the files of `snapshot` that the predicates may select and
/// `files` holds.
fn select_range(snapshot: &[Manifest], predicates: &Vec<(RangeInclusive<Value>, usize)>, files: &HashSet<u128>) -> (set: HashSet<u128>)
    requires
        forall|j: int|
            0 <= j < snapshot@.len() ==> range_preds_ok_in(&#[trigger] snapshot@[j], range_preds_view(predicates@)),
    ensures
        set@ == range_selected(snapshot@, range_preds_view(predicates@), snapshot@.len() as int).intersect(files@),
{
    let ghost pv = range_preds_view(predicates@);
    let mut set: HashSet<u128> = HashSet::new();
    let mut i: usize = 0;
    proof {
        assert(set@ =~= Set::<u128>::empty().intersect(files@));
    }
    while i < snapshot.len()
        invariant
            i <= snapshot@.len(),
            pv == range_preds_view(predicates@),
            forall|j: int| 0 <= j < snapshot@.len() ==> range_preds_ok_in(&#[trigger] snapshot@[j], pv),
            set@ == range_selected(snapshot@, pv, i as int).intersect(files@),
        decreases snapshot@.len() - i,
    {
        let selected = snapshot[i].contains_range(super::manifest::copy_range_preds(predicates));
        insert_kept(&mut set, selected.as_slice(), files);
        proof {
            let a = range_selected(snapshot@, pv, i as int);
            let b = selected@.map_values(|f: super::FileHandle| f.0).to_set();
            assert(range_selected(snapshot@, pv, i + 1) == a.union(b));
            lemma_union_intersect(a, b, files@);
        }
        i = i + 1;
    }
    set
}

/// The tables of a database, by id.
pub struct Catalog {
    pub tables: Vec<TableMetadata>,
}

impl Catalog {
    /// A catalog without tables.
    pub fn new() -> (c: Catalog)
        ensures
            c.tables@.len() == 0,
    {
        Catalog { tables: Vec::new() }
    }

    /// Adds an empty table and returns its id.
    pub fn add_table(&mut self, name: String, schema: Schema) -> (id: usize)
        ensures
            id == old(self).tables@.len(),
            final(self).tables@.len() == old(self).tables@.len() + 1,
            forall|i: int| 0 <= i < id ==> #[trigger] final(self).tables@[i] == old(self).tables@[i],
            final(self).tables@[id as int].name@ == name@,
            final(self).tables@[id as int].version == Version(0),
            final(self).tables@[id as int].manifests@.len() == 0,
    {
        let id = self.tables.len();
        self.tables.push(TableMetadata::new(name, schema));
        id
    }

    /// Whether table `table_id` exists.
    pub fn check_table_exists(&self, table_id: usize) -> (r: bool)
        ensures
            r == (table_id < self.tables@.len()),
    {
        table_id < self.tables.len()
    }

    /// The metadata of table `table_id`, for update.
    pub fn get_table_metadata(&mut self, table_id: usize) -> (r: &mut TableMetadata)
        requires
            table_id < old(self).tables@.len(),
        ensures
            *r == old(self).tables@[table_id as int],
            final(self).tables@ == old(self).tables@.update(table_id as int, *final(r)),
    {
        &mut self.tables[table_id]
    }

    /// The metadata of table `table_id`.
    pub fn table(&self, table_id: usize) -> (r: &TableMetadata)
        requires
            table_id < self.tables@.len(),
        ensures
            *r == self.tables@[table_id as int],
    {
        &self.tables[table_id]
    }
}

} // verus!
