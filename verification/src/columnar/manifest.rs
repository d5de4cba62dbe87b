//! Manifests: the files a table version adds and deletes, with the
//! statistics of the added files.

use std::ops::RangeInclusive;

use vstd::prelude::*;

use super::stats::{
    range_end, range_start, eq_preds_hold, eq_preds_ok, eq_preds_view, range_preds_hold, range_preds_ok, range_preds_view, FileStats,
};
use super::ValueView;
use super::{FileHandle, Value};

verus! {

/// The changes of one table version. `stats[i]` describes `added[i]`.
pub struct Manifest {
    pub added: Vec<FileHandle>,
    pub deleted: Vec<FileHandle>,
    pub stats: Vec<FileStats>,
}

/// A copy of equality predicates.
pub fn copy_eq_preds(p: &Vec<(Value, usize)>) -> (r: Vec<(Value, usize)>)
    ensures
        eq_preds_view(r@) == eq_preds_view(p@),
{
    let mut r: Vec<(Value, usize)> = Vec::new();
    let mut i: usize = 0;
    while i < p.len()
        invariant
            i <= p@.len(),
            r@.len() == i,
            forall|j: int| 0 <= j < i ==> (#[trigger] r@[j]).0@ == p@[j].0@ && r@[j].1 == p@[j].1,
        decreases p@.len() - i,
    {
        let (v, c) = &p[i];
        r.push((v.copy(), *c));
        i = i + 1;
    }
    proof {
        assert(eq_preds_view(r@) =~= eq_preds_view(p@));
    }
    r
}

/// A copy of range predicates.
pub fn copy_range_preds(p: &Vec<(RangeInclusive<Value>, usize)>) -> (r: Vec<(RangeInclusive<Value>, usize)>)
    ensures
        range_preds_view(r@) == range_preds_view(p@),
{
    let mut r: Vec<(RangeInclusive<Value>, usize)> = Vec::new();
    let mut i: usize = 0;
    while i < p.len()
        invariant
            i <= p@.len(),
            r@.len() == i,
            forall|j: int|
                0 <= j < i ==> (#[trigger] r@[j]).0@.start@ == p@[j].0@.start@ && r@[j].0@.end@
                    == p@[j].0@.end@ && r@[j].1 == p@[j].1,
        decreases p@.len() - i,
    {
        let (range, c) = &p[i];
        let start = range_start(range).copy();
        let end = range_end(range).copy();
        r.push((RangeInclusive::new(start, end), *c));
        i = i + 1;
    }
    proof {
        assert(range_preds_view(r@) =~= range_preds_view(p@));
    }
    r
}

/// Number of added files that have statistics.
pub open spec fn described(m: &Manifest) -> int {
    if m.added@.len() <= m.stats@.len() {
        m.added@.len() as int
    } else {
        m.stats@.len() as int
    }
}

/// The added files `0..i` of `m` whose statistics may satisfy the equality
/// predicates `ps`.
pub open spec fn eq_candidates(m: &Manifest, ps: Seq<(ValueView, usize)>, i: int) -> Seq<FileHandle>
    decreases i,
{
    if i <= 0 {
        seq![]
    } else {
        eq_candidates(m, ps, i - 1) + if eq_preds_hold(m.stats@[i - 1].column_stats@, ps) {
            seq![m.added@[i - 1]]
        } else {
            seq![]
        }
    }
}

/// As [`eq_candidates`], for range predicates.
pub open spec fn range_candidates(m: &Manifest, ps: Seq<(ValueView, ValueView, usize)>, i: int) -> Seq<
    FileHandle,
>
    decreases i,
{
    if i <= 0 {
        seq![]
    } else {
        range_candidates(m, ps, i - 1) + if range_preds_hold(m.stats@[i - 1].column_stats@, ps) {
            seq![m.added@[i - 1]]
        } else {
            seq![]
        }
    }
}

/// A file is a candidate exactly when it is one of the added files `0..i`
/// whose statistics may satisfy the predicates (for equality and for range
/// predicates alike).
pub proof fn lemma_candidates(m: &Manifest, eps: Seq<(ValueView, usize)>, rps: Seq<(ValueView, ValueView, usize)>, i: int, h: FileHandle)
    requires
        0 <= i <= described(m),
    ensures
        eq_candidates(m, eps, i).contains(h) <==> exists|k: int|
            0 <= k < i && #[trigger] m.added@[k] == h && eq_preds_hold(m.stats@[k].column_stats@, eps),
        range_candidates(m, rps, i).contains(h) <==> exists|k: int|
            0 <= k < i && #[trigger] m.added@[k] == h && range_preds_hold(m.stats@[k].column_stats@, rps),
    decreases i,
{
    if i > 0 {
        lemma_candidates(m, eps, rps, i - 1, h);
        let e0 = eq_candidates(m, eps, i - 1);
        let r0 = range_candidates(m, rps, i - 1);
        let e1 = eq_candidates(m, eps, i);
        let r1 = range_candidates(m, rps, i);
        if eq_preds_hold(m.stats@[i - 1].column_stats@, eps) {
            assert(e1 == e0.push(m.added@[i - 1]));
        } else {
            assert(e1 == e0);
        }
        if range_preds_hold(m.stats@[i - 1].column_stats@, rps) {
            assert(r1 == r0.push(m.added@[i - 1]));
        } else {
            assert(r1 == r0);
        }
        if e0.contains(h) {
            let j = choose|j: int| 0 <= j < e0.len() && e0[j] == h;
            assert(e1[j] == h);
        }
        if r0.contains(h) {
            let j = choose|j: int| 0 <= j < r0.len() && r0[j] == h;
            assert(r1[j] == h);
        }
        if e1.contains(h) {
            let j = choose|j: int| 0 <= j < e1.len() && e1[j] == h;
            if j < e0.len() {
                assert(e0[j] == h);
            }
        }
        if r1.contains(h) {
            let j = choose|j: int| 0 <= j < r1.len() && r1[j] == h;
            if j < r0.len() {
                assert(r0[j] == h);
            }
        }
        if exists|k: int| 0 <= k < i && #[trigger] m.added@[k] == h && eq_preds_hold(m.stats@[k].column_stats@, eps) {
            let k = choose|k: int| 0 <= k < i && #[trigger] m.added@[k] == h && eq_preds_hold(m.stats@[k].column_stats@, eps);
            if k == i - 1 {
                assert(e1[e0.len() as int] == h);
            }
        }
        if exists|k: int| 0 <= k < i && #[trigger] m.added@[k] == h && range_preds_hold(m.stats@[k].column_stats@, rps) {
            let k = choose|k: int| 0 <= k < i && #[trigger] m.added@[k] == h && range_preds_hold(m.stats@[k].column_stats@, rps);
            if k == i - 1 {
                assert(r1[r0.len() as int] == h);
            }
        }
    }
}

/// The equality predicates can be tested on every described file of `m`.
pub open spec fn eq_preds_ok_in(m: &Manifest, ps: Seq<(ValueView, usize)>) -> bool {
    forall|i: int| 0 <= i < described(m) ==> eq_preds_ok(#[trigger] m.stats@[i].column_stats@, ps)
}

/// The range predicates can be tested on every described file of `m`.
pub open spec fn range_preds_ok_in(m: &Manifest, ps: Seq<(ValueView, ValueView, usize)>) -> bool {
    forall|i: int| 0 <= i < described(m) ==> range_preds_ok(#[trigger] m.stats@[i].column_stats@, ps)
}

impl Manifest {
    /// A manifest with the given changes.
    pub fn new(added: Vec<FileHandle>, deleted: Vec<FileHandle>, stats: Vec<FileStats>) -> (m: Manifest)
        ensures
            m.added@ == added@,
            m.deleted@ == deleted@,
            m.stats@ == stats@,
    {
        Manifest { added, deleted, stats }
    }

    /// An empty manifest.
    pub fn empty() -> (m: Manifest)
        ensures
            m.added@ == Seq::<FileHandle>::empty(),
            m.deleted@ == Seq::<FileHandle>::empty(),
            m.stats@.len() == 0,
    {
        Manifest { added: Vec::new(), deleted: Vec::new(), stats: Vec::new() }
    }

    /// Records `file` as added, with its statistics.
    pub fn add_file(&mut self, file: FileHandle, stats: FileStats)
        ensures
            final(self).added@ == old(self).added@.push(file),
            final(self).stats@ == old(self).stats@.push(stats),
            final(self).deleted@ == old(self).deleted@,
    {
        self.added.push(file);
        self.stats.push(stats);
    }

    /// Records `file` as deleted.
    pub fn delete_file(&mut self, file: FileHandle)
        ensures
            final(self).deleted@ == old(self).deleted@.push(file),
            final(self).added@ == old(self).added@,
            final(self).stats@ == old(self).stats@,
    {
        self.deleted.push(file);
    }

    /// The added files.
    pub fn added(&self) -> (r: &[FileHandle])
        ensures
            r@ == self.added@,
    {
        self.added.as_slice()
    }

    /// The deleted files.
    pub fn deleted(&self) -> (r: &[FileHandle])
        ensures
            r@ == self.deleted@,
    {
        self.deleted.as_slice()
    }

    /// The added files whose statistics may satisfy all equality
    /// predicates, in the order they were added.
    pub fn contains(&self, predicates: Vec<(Value, usize)>) -> (r: Vec<FileHandle>)
        requires
            eq_preds_ok_in(self, eq_preds_view(predicates@)),
        ensures
            r@ == eq_candidates(self, eq_preds_view(predicates@), described(self)),
    {
        let n = if self.added.len() <= self.stats.len() {
            self.added.len()
        } else {
            self.stats.len()
        };
        let mut r: Vec<FileHandle> = Vec::new();
        let mut i: usize = 0;
        while i < n
            invariant
                i <= n,
                n == described(self),
                eq_preds_ok_in(self, eq_preds_view(predicates@)),
                r@ == eq_candidates(self, eq_preds_view(predicates@), i as int),
            decreases n - i,
        {
            let preds = copy_eq_preds(&predicates);
            proof {
                assert(eq_preds_ok(self.stats@[i as int].column_stats@, eq_preds_view(predicates@)));
            }
            if self.stats[i].contains(preds) {
                r.push(self.added[i]);
            }
            i = i + 1;
        }
        r
    }

    /// The added files whose statistics may satisfy all range predicates,
    /// in the order they were added.
    pub fn contains_range(&self, predicates: Vec<(RangeInclusive<Value>, usize)>) -> (r: Vec<FileHandle>)
        requires
            range_preds_ok_in(self, range_preds_view(predicates@)),
        ensures
            r@ == range_candidates(self, range_preds_view(predicates@), described(self)),
    {
        let n = if self.added.len() <= self.stats.len() {
            self.added.len()
        } else {
            self.stats.len()
        };
        let mut r: Vec<FileHandle> = Vec::new();
        let mut i: usize = 0;
        while i < n
            invariant
                i <= n,
                n == described(self),
                range_preds_ok_in(self, range_preds_view(predicates@)),
                r@ == range_candidates(self, range_preds_view(predicates@), i as int),
            decreases n - i,
        {
            let preds = copy_range_preds(&predicates);
            proof {
                assert(range_preds_ok(self.stats@[i as int].column_stats@, range_preds_view(predicates@)));
            }
            if self.stats[i].contains_range(preds) {
                r.push(self.added[i]);
            }
            i = i + 1;
        }
        r
    }
}

} // verus!
