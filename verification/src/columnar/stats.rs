//! Per-file, per-column Min/Max statistics and the pruning tests on them.

use std::ops::RangeInclusive;

use vstd::prelude::*;

use super::value_order::{lemma_value_le_numeric, lemma_value_order, same_type, value_le};
use super::{Value, ValueView};

verus! {

/// Smallest and largest value of a column in a file.
pub struct MinMax {
    pub min: Value,
    pub max: Value,
}

/// Statistics of one column of a file.
pub enum ColumnStats {
    MinMax(MinMax),
}

/// Statistics of the columns of a file.
pub struct FileStats {
    pub column_stats: Vec<ColumnStats>,
}

/// `RangeInclusive::start`: the range's lower bound.
#[verifier::external_body]
pub(crate) fn range_start(range: &RangeInclusive<Value>) -> (r: &Value)
    ensures
        *r == range@.start,
{
    range.start()
}

/// `RangeInclusive::end`: the range's upper bound.
#[verifier::external_body]
pub(crate) fn range_end(range: &RangeInclusive<Value>) -> (r: &Value)
    ensures
        *r == range@.end,
{
    range.end()
}

impl MinMax {
    /// `min` and `max` have one type and `min <= max`.
    pub open spec fn wf(&self) -> bool {
        same_type(self.min@, self.max@) && value_le(self.min@, self.max@)
    }

    /// The statistics `[min, max]`.
    pub fn new(min: Value, max: Value) -> (r: MinMax)
        requires
            same_type(min@, max@),
            value_le(min@, max@),
        ensures
            r.min@ == min@,
            r.max@ == max@,
            r.wf(),
    {
        MinMax { min, max }
    }

    /// Whether `[min, max]` overlaps `[start, end]`.
    pub open spec fn overlaps(&self, start: ValueView, end: ValueView) -> bool {
        value_le(self.min@, end) && value_le(start, self.max@)
    }

    /// Whether `v` lies in `[min, max]`.
    pub open spec fn holds(&self, v: ValueView) -> bool {
        value_le(self.min@, v) && value_le(v, self.max@)
    }

    /// Whether the interval `[self.min, self.max]` overlaps `range`.
    pub fn contains_range(&self, range: RangeInclusive<Value>) -> (r: bool)
        requires
            same_type(self.min@, range@.end@),
            same_type(range@.start@, self.max@),
        ensures
            r == self.overlaps(range@.start@, range@.end@),
    {
        self.min.less_eq(range_end(&range)) && range_start(&range).less_eq(&self.max)
    }

    /// Whether `value` lies in `[self.min, self.max]`.
    pub fn contains(&self, value: Value) -> (r: bool)
        requires
            same_type(self.min@, value@),
            same_type(value@, self.max@),
        ensures
            r == self.holds(value@),
    {
        self.min.less_eq(&value) && value.less_eq(&self.max)
    }
}

/// The range test is an interval test: on statistics `[min, max]`, a range
/// `[start, end]` (with `start <= end`) overlaps exactly when some value lies
/// in both intervals.
pub proof fn lemma_overlaps_meet(m: MinMax, start: ValueView, end: ValueView)
    requires
        m.wf(),
        same_type(start, m.min@),
        same_type(end, m.min@),
        value_le(start, end),
    ensures
        m.overlaps(start, end) <==> exists|w: ValueView|
            #[trigger] m.holds(w) && value_le(start, w) && value_le(w, end),
{
    let mn = m.min@;
    let mx = m.max@;
    lemma_value_order(mn, start, end);
    lemma_value_order(start, mn, mx);
    lemma_value_order(start, mx, end);
    lemma_value_order(mn, mx, end);
    if m.overlaps(start, end) {
        let w = if value_le(start, mn) { mn } else { start };
        lemma_value_order(mn, start, mx);
        lemma_value_order(start, mn, end);
        assert(m.holds(w) && value_le(start, w) && value_le(w, end));
    }
    if exists|w: ValueView| #[trigger] m.holds(w) && value_le(start, w) && value_le(w, end) {
        let w = choose|w: ValueView| #[trigger] m.holds(w) && value_le(start, w) && value_le(w, end);
        lemma_value_le_numeric(start, w);
        lemma_value_le_numeric(mn, w);
        lemma_value_order(mn, w, end);
        lemma_value_order(start, w, mx);
    }
}

impl ColumnStats {
    /// The Min/Max statistics.
    pub open spec fn min_max(&self) -> MinMax {
        match self {
            ColumnStats::MinMax(m) => *m,
        }
    }

    /// Whether the column's values may overlap `range`.
    pub fn contains_range(&self, range: RangeInclusive<Value>) -> (r: bool)
        requires
            same_type(self.min_max().min@, range@.end@),
            same_type(range@.start@, self.min_max().max@),
        ensures
            r == self.min_max().overlaps(range@.start@, range@.end@),
    {
        match self {
            ColumnStats::MinMax(variant) => variant.contains_range(range),
        }
    }

    /// Whether the column may hold `value`.
    pub fn contains(&self, value: Value) -> (r: bool)
        requires
            same_type(self.min_max().min@, value@),
            same_type(value@, self.min_max().max@),
        ensures
            r == self.min_max().holds(value@),
    {
        match self {
            ColumnStats::MinMax(variant) => variant.contains(value),
        }
    }
}

/// An equality predicate `(value, column)`, by view.
pub open spec fn eq_pred_view(p: (Value, usize)) -> (ValueView, usize) {
    (p.0@, p.1)
}

/// Equality predicates, by view.
pub open spec fn eq_preds_view(ps: Seq<(Value, usize)>) -> Seq<(ValueView, usize)> {
    ps.map_values(|p: (Value, usize)| eq_pred_view(p))
}

/// A range predicate `(start..=end, column)`, by view.
pub open spec fn range_pred_view(p: (RangeInclusive<Value>, usize)) -> (ValueView, ValueView, usize) {
    (p.0@.start@, p.0@.end@, p.1)
}

/// Range predicates, by view.
pub open spec fn range_preds_view(ps: Seq<(RangeInclusive<Value>, usize)>) -> Seq<(ValueView, ValueView, usize)> {
    ps.map_values(|p: (RangeInclusive<Value>, usize)| range_pred_view(p))
}

/// Equality predicate `p = (value, column)` can be tested on `stats`.
pub open spec fn eq_pred_ok(stats: Seq<ColumnStats>, p: (ValueView, usize)) -> bool {
    &&& p.1 < stats.len()
    &&& same_type(stats[p.1 as int].min_max().min@, p.0)
    &&& same_type(p.0, stats[p.1 as int].min_max().max@)
}

/// Equality predicate `p` may hold in a file with `stats`.
pub open spec fn eq_pred_holds(stats: Seq<ColumnStats>, p: (ValueView, usize)) -> bool {
    stats[p.1 as int].min_max().holds(p.0)
}

/// Range predicate `p = (start, end, column)` can be tested on `stats`.
pub open spec fn range_pred_ok(stats: Seq<ColumnStats>, p: (ValueView, ValueView, usize)) -> bool {
    &&& p.2 < stats.len()
    &&& same_type(stats[p.2 as int].min_max().min@, p.1)
    &&& same_type(p.0, stats[p.2 as int].min_max().max@)
}

/// Range predicate `p` may hold in a file with `stats`.
pub open spec fn range_pred_holds(stats: Seq<ColumnStats>, p: (ValueView, ValueView, usize)) -> bool {
    stats[p.2 as int].min_max().overlaps(p.0, p.1)
}

/// The predicates `i..` are tested in order and testing stops at the first
/// that fails: each predicate reached can be tested.
pub open spec fn eq_preds_ok_from(stats: Seq<ColumnStats>, ps: Seq<(ValueView, usize)>, i: int) -> bool
    decreases ps.len() - i,
{
    if i < 0 || i >= ps.len() {
        true
    } else {
        eq_pred_ok(stats, ps[i]) && (eq_pred_holds(stats, ps[i]) ==> eq_preds_ok_from(stats, ps, i + 1))
    }
}

/// Every predicate that testing reaches can be tested.
pub open spec fn eq_preds_ok(stats: Seq<ColumnStats>, ps: Seq<(ValueView, usize)>) -> bool {
    eq_preds_ok_from(stats, ps, 0)
}

/// All equality predicates may hold.
pub open spec fn eq_preds_hold(stats: Seq<ColumnStats>, ps: Seq<(ValueView, usize)>) -> bool {
    forall|i: int| 0 <= i < ps.len() ==> eq_pred_holds(stats, #[trigger] ps[i])
}

/// As [`eq_preds_ok_from`], for range predicates.
pub open spec fn range_preds_ok_from(stats: Seq<ColumnStats>, ps: Seq<(ValueView, ValueView, usize)>, i: int) -> bool
    decreases ps.len() - i,
{
    if i < 0 || i >= ps.len() {
        true
    } else {
        range_pred_ok(stats, ps[i]) && (range_pred_holds(stats, ps[i]) ==> range_preds_ok_from(stats, ps, i + 1))
    }
}

/// As [`eq_preds_ok`], for range predicates.
pub open spec fn range_preds_ok(stats: Seq<ColumnStats>, ps: Seq<(ValueView, ValueView, usize)>) -> bool {
    range_preds_ok_from(stats, ps, 0)
}

/// All range predicates may hold.
pub open spec fn range_preds_hold(stats: Seq<ColumnStats>, ps: Seq<(ValueView, ValueView, usize)>) -> bool {
    forall|i: int| 0 <= i < ps.len() ==> range_pred_holds(stats, #[trigger] ps[i])
}

impl FileStats {
    /// Statistics with the given columns.
    pub fn new(column_stats: Vec<ColumnStats>) -> (r: FileStats)
        ensures
            r.column_stats@ == column_stats@,
    {
        FileStats { column_stats }
    }

    /// Whether the file may satisfy all equality predicates `(value,
    /// column)`.
    pub fn contains(&self, predicates: Vec<(Value, usize)>) -> (r: bool)
        requires
            eq_preds_ok(self.column_stats@, eq_preds_view(predicates@)),
        ensures
            r == eq_preds_hold(self.column_stats@, eq_preds_view(predicates@)),
    {
        let ghost pv = eq_preds_view(predicates@);
        let mut i: usize = 0;
        while i < predicates.len()
            invariant
                i <= predicates@.len(),
                pv == eq_preds_view(predicates@),
                pv.len() == predicates@.len(),
                eq_preds_ok_from(self.column_stats@, pv, i as int),
                forall|j: int| 0 <= j < i ==> eq_pred_holds(self.column_stats@, #[trigger] pv[j]),
            decreases predicates@.len() - i,
        {
            let (value, column) = &predicates[i];
            proof {
                assert(eq_pred_ok(self.column_stats@, pv[i as int]));
            }
            let ColumnStats::MinMax(min_max) = &self.column_stats[*column];
            if !min_max.contains(value.copy()) {
                return false;
            }
            i = i + 1;
        }
        true
    }

    /// Whether the file may satisfy all range predicates `(range, column)`.
    pub fn contains_range(&self, predicates: Vec<(RangeInclusive<Value>, usize)>) -> (r: bool)
        requires
            range_preds_ok(self.column_stats@, range_preds_view(predicates@)),
        ensures
            r == range_preds_hold(self.column_stats@, range_preds_view(predicates@)),
    {
        let ghost pv = range_preds_view(predicates@);
        let mut i: usize = 0;
        while i < predicates.len()
            invariant
                i <= predicates@.len(),
                pv == range_preds_view(predicates@),
                pv.len() == predicates@.len(),
                range_preds_ok_from(self.column_stats@, pv, i as int),
                forall|j: int| 0 <= j < i ==> range_pred_holds(self.column_stats@, #[trigger] pv[j]),
            decreases predicates@.len() - i,
        {
            let (range, column) = &predicates[i];
            proof {
                assert(range_pred_ok(self.column_stats@, pv[i as int]));
            }
            let ColumnStats::MinMax(min_max) = &self.column_stats[*column];
            if !(min_max.min.less_eq(range_end(range)) && range_start(range).less_eq(&min_max.max)) {
                return false;
            }
            i = i + 1;
        }
        true
    }
}

} // verus!
