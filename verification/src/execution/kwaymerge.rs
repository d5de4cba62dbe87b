//! External k-way merge sort over pages of at most ten `i32` records.
//!
//! A page's records are `records[0..length]`; a page with `length == 0` is
//! empty whatever its slots hold.

use vstd::multiset::Multiset;
use vstd::prelude::*;

use super::{PageID, RecordID, SlotID};

verus! {

/// Number of record slots of a [`KwayPage`].
pub const KWAY_CAPACITY: usize = 10;

/// A page of at most [`KWAY_CAPACITY`] `i32` records.
#[derive(Clone, Copy, Debug)]
pub struct KwayPage {
    pub records: [i32; 10],
    pub length: usize,
    pub header: u8,
    pub id: PageID,
}

/// Errors of page updates.
#[derive(Clone, Copy, Debug, PartialEq, Eq, Structural)]
pub enum KwayError {
    /// The slot lies beyond the page's capacity.
    SlotOutOfRange,
}

impl KwayPage {
    /// The page holds no more records than it has slots.
    pub open spec fn wf(&self) -> bool {
        self.length <= KWAY_CAPACITY
    }

    /// The records of the page, in slot order.
    pub open spec fn content(&self) -> Seq<i32> {
        self.records@.subrange(0, self.length as int)
    }

    /// An empty page with id `id`.
    pub fn new(id: PageID) -> (p: KwayPage)
        ensures
            p.id == id,
            p.length == 0,
            p.header == 0,
            p.records@ == Seq::new(10, |i: int| 0i32),
    {
        let p = KwayPage { records: [0i32; 10], length: 0, header: 0, id };
        proof {
            assert(p.records@ =~= Seq::new(10, |i: int| 0i32));
        }
        p
    }

    /// Number of records of the page.
    pub fn len(&self) -> (n: usize)
        ensures
            n == self.length,
    {
        self.length
    }

    /// Writes `value` into slot `index`, leaving the length alone.
    pub fn update(&mut self, value: i32, index: usize) -> (r: Result<(), KwayError>)
        ensures
            index < KWAY_CAPACITY ==> r is Ok && final(self).records@ == old(self).records@.update(
                index as int,
                value,
            ),
            index >= KWAY_CAPACITY ==> r == Err::<(), KwayError>(KwayError::SlotOutOfRange)
                && final(self).records@ == old(self).records@,
            final(self).length == old(self).length,
            final(self).header == old(self).header,
            final(self).id == old(self).id,
    {
        if index >= KWAY_CAPACITY {
            return Err(KwayError::SlotOutOfRange);
        }
        self.records[index] = value;
        Ok(())
    }
}

/// The records of `ps`, page after page.
pub open spec fn pages_content(ps: Seq<KwayPage>) -> Seq<i32>
    decreases ps.len(),
{
    if ps.len() == 0 {
        seq![]
    } else {
        pages_content(ps.drop_last()) + ps.last().content()
    }
}

/// `s` is in ascending order.
pub open spec fn ascending(s: Seq<i32>) -> bool {
    forall|i: int, j: int| 0 <= i < j < s.len() ==> s[i] <= s[j]
}

/// The run that starts at page `p` and ends before page `e` or at the first
/// empty page, whichever comes first: the records of its pages.
pub open spec fn run_of(ps: Seq<KwayPage>, p: int, e: int) -> Seq<i32>
    decreases e - p,
{
    if 0 <= p < e && p < ps.len() && ps[p].length > 0 {
        ps[p].content() + run_of(ps, p + 1, e)
    } else {
        seq![]
    }
}

/// Page index and slot of record `c` of the run that starts at page `p`
/// and ends before page `e`.
pub open spec fn locate(ps: Seq<KwayPage>, p: int, e: int, c: int) -> (int, int)
    decreases e - p,
{
    if 0 <= p < e && p < ps.len() && ps[p].length > 0 && c >= ps[p].length {
        locate(ps, p + 1, e, c - ps[p].length)
    } else {
        (p, c)
    }
}

/// Total length of the pages `p0..p`.
pub open spec fn offset(ps: Seq<KwayPage>, p0: int, p: int) -> int
    decreases p - p0,
{
    if p <= p0 {
        0
    } else {
        ps[p0].length + offset(ps, p0 + 1, p)
    }
}

/// The page after the last page of run `j` of a merge of `k` runs with
/// stride `step` over `n` pages.
pub open spec fn run_end(k: int, step: int, n: int, j: int) -> int {
    if j + 1 < k {
        (j + 1) * step
    } else {
        n
    }
}

/// The runs that a merge reads: run `j` starts at page `starts[j]` (or is
/// empty for `None`) and ends at [`run_end`] or at its first empty page.
pub open spec fn merge_runs(ps: Seq<KwayPage>, starts: Seq<Option<usize>>, step: int) -> Seq<
    Seq<i32>,
> {
    Seq::new(
        starts.len(),
        |j: int|
            match starts[j] {
                Some(p) => run_of(ps, p as int, run_end(starts.len() as int, step, ps.len() as int, j)),
                None => seq![],
            },
    )
}

/// Run `j` still has records at cursor `cs[j]`.
pub open spec fn active(rs: Seq<Seq<i32>>, cs: Seq<int>, j: int) -> bool {
    0 <= cs[j] < rs[j].len()
}

/// The first run among `0..i` whose next record is smallest, or -1 when
/// none of them has records left.
pub open spec fn pick(rs: Seq<Seq<i32>>, cs: Seq<int>, i: int) -> int
    decreases i,
{
    if i <= 0 {
        -1
    } else {
        let b = pick(rs, cs, i - 1);
        if active(rs, cs, i - 1) && (b < 0 || rs[i - 1][cs[i - 1]] < rs[b][cs[b]]) {
            i - 1
        } else {
            b
        }
    }
}

/// The run that a merge step takes its record from.
pub open spec fn winner(rs: Seq<Seq<i32>>, cs: Seq<int>) -> int {
    pick(rs, cs, rs.len() as int)
}

/// The cursors after one merge step.
pub open spec fn advance(rs: Seq<Seq<i32>>, cs: Seq<int>) -> Seq<int> {
    let w = winner(rs, cs);
    if w < 0 {
        cs
    } else {
        cs.update(w, cs[w] + 1)
    }
}

/// `n` cursors at the start of their runs.
pub open spec fn zeros(n: nat) -> Seq<int> {
    Seq::new(n, |j: int| 0int)
}

/// The cursors of a merge of `rs` after `t` steps.
pub open spec fn cursors(rs: Seq<Seq<i32>>, t: nat) -> Seq<int>
    decreases t,
{
    if t == 0 {
        zeros(rs.len())
    } else {
        advance(rs, cursors(rs, (t - 1) as nat))
    }
}

/// The records that a merge of `rs` emits in its first `t` steps: at each
/// step the smallest next record, from the first run that holds it.
pub open spec fn emitted(rs: Seq<Seq<i32>>, t: nat) -> Seq<i32>
    decreases t,
{
    if t == 0 {
        seq![]
    } else {
        let cs = cursors(rs, (t - 1) as nat);
        let w = winner(rs, cs);
        if w < 0 {
            emitted(rs, (t - 1) as nat)
        } else {
            emitted(rs, (t - 1) as nat).push(rs[w][cs[w]])
        }
    }
}

/// Records left in the runs `0..j` at cursors `cs`.
pub open spec fn remaining(rs: Seq<Seq<i32>>, cs: Seq<int>, j: int) -> int
    decreases j,
{
    if j <= 0 {
        0
    } else {
        remaining(rs, cs, j - 1) + (rs[j - 1].len() - cs[j - 1])
    }
}

/// Number of records of all runs.
pub open spec fn total(rs: Seq<Seq<i32>>) -> nat {
    remaining(rs, zeros(rs.len()), rs.len() as int) as nat
}

/// The merge of the runs `rs`.
pub open spec fn merged(rs: Seq<Seq<i32>>) -> Seq<i32> {
    emitted(rs, total(rs))
}

/// The address of record `c` of run `j` of a merge.
pub open spec fn cursor_rid(
    ps: Seq<KwayPage>,
    starts: Seq<Option<usize>>,
    step: int,
    j: int,
    c: int,
) -> RecordID {
    let loc = locate(
        ps,
        starts[j]->Some_0 as int,
        run_end(starts.len() as int, step, ps.len() as int, j),
        c,
    );
    RecordID { page_id: ps[loc.0].id, slot_id: SlotID(loc.1 as u16) }
}

/// The addresses of the next records of the runs `0..j` that have records left.
pub open spec fn active_rids(
    ps: Seq<KwayPage>,
    starts: Seq<Option<usize>>,
    step: int,
    cs: Seq<int>,
    j: int,
) -> Seq<RecordID>
    decreases j,
{
    if j <= 0 {
        seq![]
    } else {
        active_rids(ps, starts, step, cs, j - 1) + if active(merge_runs(ps, starts, step), cs, j - 1) {
            seq![cursor_rid(ps, starts, step, j - 1, cs[j - 1])]
        } else {
            seq![]
        }
    }
}

/// What a merge reports in its first `t` steps: whenever a step fills an
/// output page, the addresses of the runs' next records before the step's
/// run moves on.
pub open spec fn snapshots(ps: Seq<KwayPage>, starts: Seq<Option<usize>>, step: int, t: nat) -> Seq<
    RecordID,
>
    decreases t,
{
    if t == 0 {
        seq![]
    } else {
        let rs = merge_runs(ps, starts, step);
        snapshots(ps, starts, step, (t - 1) as nat) + if t % 10 == 0 {
            active_rids(ps, starts, step, cursors(rs, (t - 1) as nat), starts.len() as int)
        } else {
            seq![]
        }
    }
}

/// Output page `i` after a merge that emitted `e`, over its old value `o`:
/// slots that the merge reached hold the emitted records, the others keep
/// their values; full pages come first, then a partial one, then empty ones
/// (page 0 keeps its length when nothing was emitted).
pub open spec fn out_page(o: KwayPage, p: KwayPage, e: Seq<i32>, i: int) -> bool {
    &&& p.id == o.id
    &&& p.header == o.header
    &&& forall|s: int|
        0 <= s < 10 ==> #[trigger] p.records@[s] == if 10 * i + s < e.len() {
            e[10 * i + s]
        } else {
            o.records@[s]
        }
    &&& p.length == if e.len() == 0 && i == 0 {
        o.length as int
    } else if 10 * i + 10 <= e.len() {
        10
    } else if 10 * i < e.len() {
        e.len() - 10 * i
    } else {
        0
    }
}

proof fn lemma_offset_step(ps: Seq<KwayPage>, p0: int, p: int)
    requires
        p0 <= p,
    ensures
        offset(ps, p0, p + 1) == offset(ps, p0, p) + ps[p].length,
    decreases p - p0,
{
    if p0 < p {
        lemma_offset_step(ps, p0 + 1, p);
    } else {
        assert(offset(ps, p0 + 1, p + 1) == 0);
    }
}

/// A run read from page `p0` is its pages `p0..p` followed by the run read
/// from page `p`, when the pages `p0..p` are not empty.
proof fn lemma_run_split(ps: Seq<KwayPage>, p0: int, p: int, e: int)
    requires
        0 <= p0 <= p <= e,
        p <= ps.len(),
        forall|q: int| p0 <= q < p ==> (#[trigger] ps[q]).length > 0,
        forall|q: int| 0 <= q < ps.len() ==> (#[trigger] ps[q]).wf(),
    ensures
        offset(ps, p0, p) >= 0,
        run_of(ps, p0, e).len() == offset(ps, p0, p) + run_of(ps, p, e).len(),
        forall|s: int|
            0 <= s < run_of(ps, p, e).len() ==> run_of(ps, p0, e)[offset(ps, p0, p) + s] == #[trigger] run_of(
                ps,
                p,
                e,
            )[s],
        forall|s: int| s >= 0 ==> locate(ps, p0, e, offset(ps, p0, p) + s) == #[trigger] locate(ps, p, e, s),
    decreases p - p0,
{
    if p0 < p {
        lemma_run_split(ps, p0 + 1, p, e);
        let off1 = offset(ps, p0 + 1, p);
        let l = ps[p0].length as int;
        assert(run_of(ps, p0, e) == ps[p0].content() + run_of(ps, p0 + 1, e));
        assert(ps[p0].content().len() == l);
        assert forall|s: int| 0 <= s < run_of(ps, p, e).len() implies run_of(ps, p0, e)[offset(ps, p0, p) + s]
            == #[trigger] run_of(ps, p, e)[s] by {
            assert(run_of(ps, p0 + 1, e)[off1 + s] == run_of(ps, p, e)[s]);
        }
        assert forall|s: int| s >= 0 implies locate(ps, p0, e, offset(ps, p0, p) + s) == #[trigger] locate(
            ps,
            p,
            e,
            s,
        ) by {
            assert(locate(ps, p0 + 1, e, off1 + s) == locate(ps, p, e, s));
        }
    }
}

/// A run read from page `p` has at most ten records per page.
proof fn lemma_run_bound(ps: Seq<KwayPage>, p: int, e: int)
    requires
        forall|q: int| 0 <= q < ps.len() ==> (#[trigger] ps[q]).wf(),
    ensures
        run_of(ps, p, e).len() <= if e >= p { 10 * (e - p) } else { 0 },
    decreases e - p,
{
    if 0 <= p < e && p < ps.len() && ps[p].length > 0 {
        lemma_run_bound(ps, p + 1, e);
        assert(ps[p].wf());
    }
}

/// What [`pick`] finds: -1 when no run of `0..i` has records left, else the
/// first of those runs whose next record is smallest.
proof fn lemma_pick(rs: Seq<Seq<i32>>, cs: Seq<int>, i: int)
    requires
        0 <= i <= rs.len(),
        cs.len() == rs.len(),
    ensures
        pick(rs, cs, i) == -1 <==> forall|j: int| 0 <= j < i ==> !active(rs, cs, j),
        pick(rs, cs, i) >= 0 ==> {
            let b = pick(rs, cs, i);
            &&& b < i
            &&& active(rs, cs, b)
            &&& forall|j: int| 0 <= j < i && active(rs, cs, j) ==> rs[b][cs[b]] <= rs[j][cs[j]]
            &&& forall|j: int| 0 <= j < b && active(rs, cs, j) ==> rs[j][cs[j]] > rs[b][cs[b]]
        },
        pick(rs, cs, i) >= -1,
    decreases i,
{
    if i > 0 {
        lemma_pick(rs, cs, i - 1);
    }
}

proof fn lemma_remaining_update(rs: Seq<Seq<i32>>, cs: Seq<int>, w: int, j: int)
    requires
        0 <= w < cs.len(),
        0 <= j <= cs.len(),
        cs.len() == rs.len(),
    ensures
        remaining(rs, cs.update(w, cs[w] + 1), j) == remaining(rs, cs, j) - if w < j { 1int } else { 0 },
    decreases j,
{
    if j > 0 {
        lemma_remaining_update(rs, cs, w, j - 1);
    }
}

proof fn lemma_remaining_nonneg(rs: Seq<Seq<i32>>, cs: Seq<int>, j: int)
    requires
        0 <= j <= cs.len(),
        cs.len() == rs.len(),
        forall|i: int| 0 <= i < j ==> 0 <= #[trigger] cs[i] <= rs[i].len(),
    ensures
        remaining(rs, cs, j) >= 0,
        remaining(rs, cs, j) == 0 <==> forall|i: int| 0 <= i < j ==> !active(rs, cs, i),
    decreases j,
{
    if j > 0 {
        lemma_remaining_nonneg(rs, cs, j - 1);
        assert(0 <= cs[j - 1] <= rs[j - 1].len());
        if remaining(rs, cs, j) == 0 {
            assert forall|i: int| 0 <= i < j implies !active(rs, cs, i) by {
                if i < j - 1 {
                } else {
                    assert(cs[j - 1] == rs[j - 1].len());
                }
            }
        }
        if forall|i: int| 0 <= i < j ==> !active(rs, cs, i) {
            assert(!active(rs, cs, j - 1));
            assert forall|i: int| 0 <= i < j - 1 implies !active(rs, cs, i) by {
                assert(!active(rs, cs, i));
            }
        }
    }
}

/// The runs of a well-formed merge fit into as many pages as the input has.
proof fn lemma_total_bound(ps: Seq<KwayPage>, starts: Seq<Option<usize>>, step: int, j: int)
    requires
        merge_inputs_ok(starts, step, ps),
        0 <= j <= starts.len(),
    ensures
        remaining(merge_runs(ps, starts, step), zeros(starts.len()), j) <= 10 * (
        if j == 0 {
            0
        } else {
            run_end(starts.len() as int, step, ps.len() as int, j - 1)
        }),
    decreases j,
{
    let k = starts.len() as int;
    let n = ps.len() as int;
    let rs = merge_runs(ps, starts, step);
    if j > 0 {
        lemma_total_bound(ps, starts, step, j - 1);
        let prev = if j - 1 == 0 { 0 } else { run_end(k, step, n, j - 2) };
        let e = run_end(k, step, n, j - 1);
        assert(prev == (j - 1) * step) by {
            if j - 1 > 0 {
                assert(run_end(k, step, n, j - 2) == (j - 1) * step);
            }
        }
        assert((j - 1) * step <= e) by (nonlinear_arith)
            requires
                e == if j < k { j * step } else { n },
                j <= k,
                k * step <= n,
                step >= 0,
        ;
        match starts[j - 1] {
            Some(p) => {
                lemma_run_bound(ps, p as int, e);
            },
            None => {},
        }
    }
}

proof fn lemma_run_end(k: int, step: int, n: int, j: int)
    requires
        0 <= j < k,
        step >= 0,
        k * step <= n,
    ensures
        j * step <= run_end(k, step, n, j) <= n,
        (j + 1) * step <= run_end(k, step, n, j),
{
    assert(j * step <= (j + 1) * step <= k * step) by (nonlinear_arith)
        requires
            0 <= j < k,
            step >= 0,
    ;
}

/// A merge may run: every page holds at most ten records, the output has
/// as many pages as the input, the runs' strides fit in the input, and run
/// `j`, when it has records, starts at a non-empty page inside its stride.
pub open spec fn merge_inputs_ok(starts: Seq<Option<usize>>, step: int, ps: Seq<KwayPage>) -> bool {
    let k = starts.len() as int;
    let n = ps.len() as int;
    &&& step >= 0
    &&& k * step <= n
    &&& forall|q: int| 0 <= q < n ==> (#[trigger] ps[q]).wf()
    &&& forall|j: int|
        0 <= j < k && (#[trigger] starts[j]) is Some ==> j * step <= starts[j]->Some_0 < run_end(
            k,
            step,
            n,
            j,
        ) && ps[starts[j]->Some_0 as int].length > 0
}

/// The run cursors a merge leaves behind: after all steps, or, when the
/// output filled up exactly, before the last step's run moved on.
pub open spec fn final_cursors(rs: Seq<Seq<i32>>, out_len: int) -> Seq<int> {
    let tot = total(rs);
    if tot > 0 && tot == 10 * out_len {
        cursors(rs, (tot - 1) as nat)
    } else {
        cursors(rs, tot)
    }
}

/// The current pages a merge leaves in `pages_to_merge`: the page holding
/// each run's next record, or `None` for a run with none left.
pub open spec fn final_pages(ps: Seq<KwayPage>, starts: Seq<Option<usize>>, step: int, out_len: int) -> Seq<
    Option<usize>,
> {
    let rs = merge_runs(ps, starts, step);
    let cs = final_cursors(rs, out_len);
    Seq::new(
        starts.len(),
        |j: int|
            if active(rs, cs, j) {
                Some(
                    locate(
                        ps,
                        starts[j]->Some_0 as int,
                        run_end(starts.len() as int, step, ps.len() as int, j),
                        cs[j],
                    ).0 as usize,
                )
            } else {
                None
            },
    )
}

spec fn cursors_match(
    ps: Seq<KwayPage>,
    starts: Seq<Option<usize>>,
    step: int,
    ptm: Seq<Option<usize>>,
    slots: Seq<usize>,
    cs: Seq<int>,
) -> bool {
    let k = starts.len() as int;
    let n = ps.len() as int;
    let rs = merge_runs(ps, starts, step);
    &&& ptm.len() == k
    &&& slots.len() == k
    &&& cs.len() == k
    &&& forall|j: int| 0 <= j < k ==> 0 <= #[trigger] cs[j] <= rs[j].len()
    &&& forall|j: int| 0 <= j < k ==> ((#[trigger] ptm[j]) is Some <==> active(rs, cs, j))
    &&& forall|j: int|
        0 <= j < k && (#[trigger] ptm[j]) is Some ==> {
            let p = ptm[j]->Some_0 as int;
            let p0 = starts[j]->Some_0 as int;
            &&& starts[j] is Some
            &&& p0 <= p < run_end(k, step, n, j)
            &&& p < n
            &&& forall|q: int| p0 <= q <= p ==> (#[trigger] ps[q]).length > 0
            &&& cs[j] == offset(ps, p0, p) + slots[j]
            &&& slots[j] < ps[p].length
        }
}

/// Run `j`'s next record is slot `slots[j]` of page `ptm[j]`.
proof fn lemma_cursor_at(
    ps: Seq<KwayPage>,
    starts: Seq<Option<usize>>,
    step: int,
    ptm: Seq<Option<usize>>,
    slots: Seq<usize>,
    cs: Seq<int>,
    j: int,
)
    requires
        merge_inputs_ok(starts, step, ps),
        cursors_match(ps, starts, step, ptm, slots, cs),
        0 <= j < starts.len(),
        ptm[j] is Some,
    ensures
        ({
            let p = ptm[j]->Some_0 as int;
            let e = run_end(starts.len() as int, step, ps.len() as int, j);
            &&& merge_runs(ps, starts, step)[j][cs[j]] == ps[p].records@[slots[j] as int]
            &&& locate(ps, starts[j]->Some_0 as int, e, cs[j]) == (p, slots[j] as int)
            &&& slots[j] < 10
        }),
{
    let p = ptm[j]->Some_0 as int;
    let p0 = starts[j]->Some_0 as int;
    let e = run_end(starts.len() as int, step, ps.len() as int, j);
    let sl = slots[j] as int;
    assert(ps[p].wf());
    lemma_run_split(ps, p0, p, e);
    assert(run_of(ps, p, e) == ps[p].content() + run_of(ps, p + 1, e));
    assert(run_of(ps, p, e)[sl] == ps[p].records@[sl]);
    assert(locate(ps, p, e, sl) == (p, sl));
}

/// The first run with the smallest next record, and that record.
fn find_min(
    ptm: &Vec<Option<usize>>,
    slots: &Vec<usize>,
    input_pages: &[KwayPage],
    Ghost(starts): Ghost<Seq<Option<usize>>>,
    Ghost(step): Ghost<int>,
    Ghost(cs): Ghost<Seq<int>>,
) -> (r: Option<(usize, i32)>)
    requires
        merge_inputs_ok(starts, step, input_pages@),
        cursors_match(input_pages@, starts, step, ptm@, slots@, cs),
    ensures
        ({
            let rs = merge_runs(input_pages@, starts, step);
            match r {
                None => winner(rs, cs) == -1,
                Some(bv) => bv.0 == winner(rs, cs) && 0 <= bv.0 < starts.len() && active(rs, cs, bv.0 as int)
                    && bv.1 == rs[bv.0 as int][cs[bv.0 as int]],
            }
        }),
{
    let ghost rs = merge_runs(input_pages@, starts, step);
    let k = ptm.len();
    let mut best: usize = k;
    let mut min_elem: i32 = 0;
    let mut i: usize = 0;
    while i < k
        invariant
            k == ptm@.len(),
            k == starts.len(),
            rs == merge_runs(input_pages@, starts, step),
            rs.len() == k,
            merge_inputs_ok(starts, step, input_pages@),
            cursors_match(input_pages@, starts, step, ptm@, slots@, cs),
            i <= k,
            best <= k,
            best == k <==> pick(rs, cs, i as int) == -1,
            best < k ==> best == pick(rs, cs, i as int) && min_elem == rs[best as int][cs[best as int]],
        decreases k - i,
    {
        proof {
            lemma_pick(rs, cs, i as int);
        }
        match ptm[i] {
            Some(page_index) => {
                proof {
                    lemma_cursor_at(input_pages@, starts, step, ptm@, slots@, cs, i as int);
                    assert(ptm@[i as int] is Some);
                    assert(active(rs, cs, i as int));
                }
                let curr = input_pages[page_index].records[slots[i]];
                assert(curr == rs[i as int][cs[i as int]]);
                if best == k || curr < min_elem {
                    best = i;
                    min_elem = curr;
                }
            },
            None => {
                assert(ptm@[i as int] is None);
                assert(!active(rs, cs, i as int));
            },
        }
        i = i + 1;
    }
    proof {
        lemma_pick(rs, cs, k as int);
    }
    if best == k {
        None
    } else {
        Some((best, min_elem))
    }
}

/// Appends the addresses of the runs' next records.
fn push_snapshot(
    states: &mut Vec<RecordID>,
    ptm: &Vec<Option<usize>>,
    slots: &Vec<usize>,
    input_pages: &[KwayPage],
    Ghost(starts): Ghost<Seq<Option<usize>>>,
    Ghost(step): Ghost<int>,
    Ghost(cs): Ghost<Seq<int>>,
)
    requires
        merge_inputs_ok(starts, step, input_pages@),
        cursors_match(input_pages@, starts, step, ptm@, slots@, cs),
    ensures
        final(states)@ == old(states)@ + active_rids(input_pages@, starts, step, cs, starts.len() as int),
{
    let ghost base = states@;
    let ghost rs = merge_runs(input_pages@, starts, step);
    let k = ptm.len();
    let mut j: usize = 0;
    while j < k
        invariant
            k == ptm@.len(),
            k == starts.len(),
            merge_inputs_ok(starts, step, input_pages@),
            cursors_match(input_pages@, starts, step, ptm@, slots@, cs),
            j <= k,
            states@ == base + active_rids(input_pages@, starts, step, cs, j as int),
        decreases k - j,
    {
        match ptm[j] {
            Some(pi) => {
                proof {
                    lemma_cursor_at(input_pages@, starts, step, ptm@, slots@, cs, j as int);
                }
                states.push(RecordID::new(input_pages[pi].id, SlotID(slots[j] as u16)));
            },
            None => {},
        }
        proof {
            assert(states@ =~= base + active_rids(input_pages@, starts, step, cs, j + 1));
        }
        j = j + 1;
    }
}

/// Moving run `w`'s cursor keeps the cursors in step with the pages.
proof fn lemma_advance(
    ps: Seq<KwayPage>,
    starts: Seq<Option<usize>>,
    step: int,
    ptm: Seq<Option<usize>>,
    slots: Seq<usize>,
    cs: Seq<int>,
    w: int,
    ptm2: Seq<Option<usize>>,
    slots2: Seq<usize>,
)
    requires
        merge_inputs_ok(starts, step, ps),
        cursors_match(ps, starts, step, ptm, slots, cs),
        0 <= w < starts.len(),
        ptm[w] is Some,
        ps.len() <= usize::MAX,
        ({
            let p = ptm[w]->Some_0 as int;
            let e = run_end(starts.len() as int, step, ps.len() as int, w);
            let sl = slots[w] + 1;
            if sl < ps[p].length {
                ptm2 == ptm && slots2 == slots.update(w, sl as usize)
            } else if p + 1 == e || ps[p + 1].length == 0 {
                ptm2 == ptm.update(w, None) && slots2 == slots.update(w, sl as usize)
            } else {
                ptm2 == ptm.update(w, Some((p + 1) as usize)) && slots2 == slots.update(w, 0)
            }
        }),
    ensures
        cursors_match(ps, starts, step, ptm2, slots2, cs.update(w, cs[w] + 1)),
{
    let rs = merge_runs(ps, starts, step);
    let k = starts.len() as int;
    let n = ps.len() as int;
    let p = ptm[w]->Some_0 as int;
    let p0 = starts[w]->Some_0 as int;
    let e = run_end(k, step, n, w);
    let cs2 = cs.update(w, cs[w] + 1);
    lemma_cursor_at(ps, starts, step, ptm, slots, cs, w);
    lemma_run_split(ps, p0, p, e);
    lemma_offset_step(ps, p0, p);
    lemma_run_end(k, step, n, w);
    assert(ps[p].wf());
    assert(run_of(ps, p, e) == ps[p].content() + run_of(ps, p + 1, e));
    if slots[w] + 1 >= ps[p].length && (p + 1 == e || ps[p + 1].length == 0) {
        assert(run_of(ps, p + 1, e) == Seq::<i32>::empty());
    }
    assert forall|j: int| 0 <= j < k implies 0 <= #[trigger] cs2[j] <= rs[j].len() by {}
    assert forall|j: int| 0 <= j < k implies ((#[trigger] ptm2[j]) is Some <==> active(rs, cs2, j)) by {}
    assert forall|j: int| 0 <= j < k && (#[trigger] ptm2[j]) is Some implies {
        let p = ptm2[j]->Some_0 as int;
        let q0 = starts[j]->Some_0 as int;
        &&& starts[j] is Some
        &&& q0 <= p < run_end(k, step, n, j)
        &&& p < n
        &&& forall|q: int| q0 <= q <= p ==> (#[trigger] ps[q]).length > 0
        &&& cs2[j] == offset(ps, q0, p) + slots2[j]
        &&& slots2[j] < ps[p].length
    } by {
        if j == w {
            let p2 = ptm2[j]->Some_0 as int;
            assert forall|q: int| p0 <= q <= p2 implies (#[trigger] ps[q]).length > 0 by {
                if q <= p {
                    assert(ps[q].length > 0);
                }
            }
            if slots[w] + 1 < ps[p].length {
                assert(p2 == p);
                assert(cs2[j] == offset(ps, p0, p) + slots2[j]);
            } else {
                assert(p2 == p + 1);
                assert(cs2[j] == offset(ps, p0, p2) + slots2[j]);
                assert(p2 < e);
            }
        } else {
            assert(ptm2[j] == ptm[j]);
            assert(slots2[j] == slots[j]);
            assert(cs2[j] == cs[j]);
        }
    }
}

/// Moves run `w`'s cursor past its next record, to the next page of the run
/// when the page is used up, or to `None` at the run's end.
fn advance_cursor(
    ptm: &mut Vec<Option<usize>>,
    slots: &mut Vec<usize>,
    w: usize,
    input_pages: &[KwayPage],
    lists_start: &Vec<usize>,
    Ghost(starts): Ghost<Seq<Option<usize>>>,
    Ghost(step): Ghost<int>,
    Ghost(cs): Ghost<Seq<int>>,
)
    requires
        merge_inputs_ok(starts, step, input_pages@),
        cursors_match(input_pages@, starts, step, old(ptm)@, old(slots)@, cs),
        old(ptm)@.len() == starts.len(),
        old(slots)@.len() == starts.len(),
        0 <= w < starts.len(),
        active(merge_runs(input_pages@, starts, step), cs, w as int),
        lists_start@.len() == starts.len() + 1,
        forall|j: int|
            0 <= j < starts.len() ==> #[trigger] lists_start@[j + 1] == run_end(
                starts.len() as int,
                step,
                input_pages@.len() as int,
                j,
            ),
    ensures
        cursors_match(input_pages@, starts, step, final(ptm)@, final(slots)@, cs.update(w as int, cs[w as int] + 1)),
{
    let ghost ptm0 = ptm@;
    let ghost slots0 = slots@;
    let page_index_input = match ptm[w] {
        Some(pi) => pi,
        None => 0,
    };
    proof {
        assert(ptm0[w as int] is Some);
        lemma_cursor_at(input_pages@, starts, step, ptm0, slots0, cs, w as int);
        lemma_run_end(starts.len() as int, step, input_pages@.len() as int, w as int);
        assert(lists_start@[w + 1] == run_end(starts.len() as int, step, input_pages@.len() as int, w as int));
    }
    let ln = lists_start.len();
    let slot = slots[w] + 1;
    slots.set(w, slot);
    if slot == input_pages[page_index_input].length {
        let next = page_index_input + 1;
        if next == lists_start[w + 1] || input_pages[next].length == 0 {
            ptm.set(w, None);
        } else {
            ptm.set(w, Some(next));
            slots.set(w, 0);
            proof {
                assert(slots@ =~= slots0.update(w as int, 0));
            }
        }
    }
    proof {
        lemma_advance(input_pages@, starts, step, ptm0, slots0, cs, w as int, ptm@, slots@);
    }
}

/// The records that the first `t` merge steps wrote: page `i` holds
/// records `10 * i ..` of `e`; pages not reached yet keep their values.
spec fn out_progress(
    out0: Seq<KwayPage>,
    out: Seq<KwayPage>,
    e: Seq<i32>,
    t: int,
    oi: int,
    io: int,
) -> bool {
    &&& out.len() == out0.len()
    &&& e.len() == t
    &&& 10 * oi + io == t
    &&& 0 <= io < 10
    &&& forall|i: int| 0 <= i < out0.len() ==> #[trigger] page_progress(out0[i], out[i], e, t, oi, io, i)
}

/// Output page `i` (old value `o`, current value `p`) after `t` merge steps.
spec fn page_progress(o: KwayPage, p: KwayPage, e: Seq<i32>, t: int, oi: int, io: int, i: int) -> bool {
    &&& p.id == o.id
    &&& p.header == o.header
    &&& forall|s: int|
        0 <= s < 10 ==> #[trigger] p.records@[s] == if 10 * i + s < t {
            e[10 * i + s]
        } else {
            o.records@[s]
        }
    &&& p.length == if t == 0 || i > oi {
        o.length as int
    } else if i < oi {
        10
    } else {
        io
    }
}

/// Writes the record of step `t` to slot `io` of output page `oi`; fills and
/// starts pages as the merge does. Returns whether the output is full.
fn emit_record(
    output_pages: &mut [KwayPage],
    outpage_idx: &mut usize,
    index_out_page: &mut usize,
    value: i32,
    Ghost(out0): Ghost<Seq<KwayPage>>,
    Ghost(e): Ghost<Seq<i32>>,
) -> (full: bool)
    requires
        out_progress(out0, old(output_pages)@, e, e.len() as int, *old(outpage_idx) as int, *old(index_out_page) as int),
        *old(outpage_idx) < out0.len(),
    ensures
        final(output_pages)@.len() == out0.len(),
        full ==> *final(outpage_idx) == out0.len() && *final(index_out_page) == 0 && (e.len() + 1) % 10 == 0,
        !full ==> *final(outpage_idx) < out0.len(),
        (e.len() + 1) % 10 == 0 <==> *final(index_out_page) == 0,
        out_progress(
            out0,
            final(output_pages)@,
            e.push(value),
            e.len() + 1 as int,
            *final(outpage_idx) as int,
            *final(index_out_page) as int,
        ),
{
    let ghost t = e.len() as int;
    let ghost e2 = e.push(value);
    let ghost pre = output_pages@;
    let oi = *outpage_idx;
    let io = *index_out_page;
    let mut page = output_pages[oi];
    page.records[io] = value;
    page.length = io + 1;
    output_pages[oi] = page;
    let full = io + 1 == KWAY_CAPACITY && oi + 1 == output_pages.len();
    if io + 1 == KWAY_CAPACITY {
        *outpage_idx = oi + 1;
        *index_out_page = 0;
        if oi + 1 < output_pages.len() {
            let mut next_page = output_pages[oi + 1];
            next_page.length = 0;
            output_pages[oi + 1] = next_page;
        }
    } else {
        *index_out_page = io + 1;
    }
    proof {
        lemma_emit(out0, pre, output_pages@, e, value, oi as int, io as int);
    }
    full
}

proof fn lemma_emit(
    out0: Seq<KwayPage>,
    pre: Seq<KwayPage>,
    post: Seq<KwayPage>,
    e: Seq<i32>,
    value: i32,
    oi: int,
    io: int,
)
    requires
        out_progress(out0, pre, e, e.len() as int, oi, io),
        0 <= oi < out0.len(),
        post.len() == pre.len(),
        ({
            let written = KwayPage {
                records: vstd::array::spec_array_update(pre[oi].records, io, value),
                length: (io + 1) as usize,
                ..pre[oi]
            };
            forall|i: int|
                0 <= i < pre.len() ==> #[trigger] post[i] == if i == oi {
                    written
                } else if i == oi + 1 && io + 1 == 10 {
                    KwayPage { length: 0, ..pre[i] }
                } else {
                    pre[i]
                }
        }),
    ensures
        ({
            let t = e.len() + 1int;
            let oi2 = if io + 1 == 10 { oi + 1 } else { oi };
            let io2 = if io + 1 == 10 { 0 } else { io + 1 };
            out_progress(out0, post, e.push(value), t, oi2, io2)
        }),
{
    let t = e.len() + 1int;
    let e2 = e.push(value);
    let oi2 = if io + 1 == 10 { oi + 1 } else { oi };
    let io2 = if io + 1 == 10 { 0 } else { io + 1 };
    assert(e2.len() == t);
    assert(10 * oi2 + io2 == t);
    assert(post.len() == out0.len());
    assert forall|i: int| 0 <= i < out0.len() implies #[trigger] page_progress(out0[i], post[i], e2, t, oi2, io2, i) by {
        assert(page_progress(out0[i], pre[i], e, e.len() as int, oi, io, i));
        let o = out0[i];
        let p = post[i];
        assert forall|s: int| 0 <= s < 10 implies #[trigger] p.records@[s] == if 10 * i + s < t {
            e2[10 * i + s]
        } else {
            o.records@[s]
        } by {
            assert(pre[i].records@[s] == if 10 * i + s < e.len() {
                e[10 * i + s]
            } else {
                o.records@[s]
            });
            if i == oi {
                if s == io {
                    assert(p.records@[s] == value);
                } else {
                    assert(p.records@[s] == pre[i].records@[s]);
                }
            } else {
                assert(p.records@[s] == pre[i].records@[s]);
            }
        }
    }
    assert(0 <= io2 < 10);
    assert(out_progress(out0, post, e2, t, oi2, io2));
}

/// Merges the `k = pages_to_merge.len()` runs of `input_pages` into
/// `output_pages`.
///
/// Run `j` starts at page `pages_to_merge[j]` and ends before page
/// `(j + 1) * stepsize` (the last run: at the end of the input) or at its
/// first empty page. Each step writes the smallest next record of the runs,
/// from the first run that holds it, to the output; see [`merged`] and
/// [`out_page`]. Whenever an output page fills, the addresses of the runs'
/// next records are reported, before the run that gave the record moves on
/// ([`snapshots`]); `pages_to_merge` is left as [`final_pages`] says.
pub fn merge(
    pages_to_merge: &mut Vec<Option<usize>>,
    stepsize: usize,
    input_pages: &[KwayPage],
    output_pages: &mut [KwayPage],
) -> (states: Vec<RecordID>)
    requires
        merge_inputs_ok(old(pages_to_merge)@, stepsize as int, input_pages@),
        old(output_pages)@.len() == input_pages@.len(),
    ensures
        final(output_pages)@.len() == old(output_pages)@.len(),
        forall|i: int|
            0 <= i < old(output_pages)@.len() ==> out_page(
                old(output_pages)@[i],
                #[trigger] final(output_pages)@[i],
                merged(merge_runs(input_pages@, old(pages_to_merge)@, stepsize as int)),
                i,
            ),
        states@ == snapshots(
            input_pages@,
            old(pages_to_merge)@,
            stepsize as int,
            total(merge_runs(input_pages@, old(pages_to_merge)@, stepsize as int)),
        ),
        final(pages_to_merge)@ == final_pages(
            input_pages@,
            old(pages_to_merge)@,
            stepsize as int,
            old(output_pages)@.len() as int,
        ),
{
    let ghost ps = input_pages@;
    let ghost starts = pages_to_merge@;
    let ghost step = stepsize as int;
    let ghost rs = merge_runs(ps, starts, step);
    let ghost out0 = output_pages@;
    let k = pages_to_merge.len();
    let n = input_pages.len();
    let ghost kk = k as int;
    let ghost nn = n as int;
    let mut states_at_finalizing: Vec<RecordID> = Vec::new();
    let mut curr_slots: Vec<usize> = Vec::new();
    let mut lists_start: Vec<usize> = Vec::new();
    let mut i: usize = 0;
    while i < k
        invariant
            i <= k,
            kk == k,
            nn == n,
            step == stepsize as int,
            step >= 0,
            kk * step <= nn,
            curr_slots@ == Seq::new(i as nat, |j: int| 0usize),
            lists_start@.len() == i,
            forall|j: int| 0 <= j < i ==> #[trigger] lists_start@[j] == j * step,
        decreases k - i,
    {
        proof {
            assert(i * step <= kk * step) by (nonlinear_arith)
                requires
                    i < kk,
                    step >= 0,
            ;
        }
        curr_slots.push(0);
        lists_start.push(i * stepsize);
        i = i + 1;
        proof {
            assert(curr_slots@ =~= Seq::new(i as nat, |j: int| 0usize));
        }
    }
    lists_start.push(n);
    proof {
        lemma_merge_start(ps, starts, step, lists_start@, curr_slots@);
    }
    let mut outpage_idx: usize = 0;
    let mut index_out_page: usize = 0;
    let ghost mut t: nat = 0;
    let ghost mut full_stop = false;
    proof {
        assert(emitted(rs, 0) =~= Seq::<i32>::empty());
    }
    loop
        invariant_except_break
            !full_stop,
            t + remaining(rs, cursors(rs, t), kk) == total(rs),
            cursors_match(ps, starts, step, pages_to_merge@, curr_slots@, cursors(rs, t)),
            outpage_idx < nn || nn == 0,
        invariant
            k == kk,
            kk == starts.len(),
            nn == ps.len(),
            nn == n,
            rs == merge_runs(ps, starts, step),
            merge_inputs_ok(starts, step, ps),
            input_pages@ == ps,
            lists_start@.len() == kk + 1,
            forall|j: int| 0 <= j < kk ==> #[trigger] lists_start@[j + 1] == run_end(kk, step, nn, j),
            total(rs) <= 10 * nn,
            out0.len() == nn,
            t <= total(rs),
            out_progress(out0, output_pages@, emitted(rs, t), t as int, outpage_idx as int, index_out_page as int),
            states_at_finalizing@ == snapshots(ps, starts, step, t),
        ensures
            t == total(rs),
            total(rs) <= 10 * nn,
            out0.len() == nn,
            out_progress(out0, output_pages@, emitted(rs, t), t as int, outpage_idx as int, index_out_page as int),
            states_at_finalizing@ == snapshots(ps, starts, step, t),
            full_stop ==> t > 0 && t == 10 * nn && outpage_idx == nn && cursors_match(
                ps,
                starts,
                step,
                pages_to_merge@,
                curr_slots@,
                cursors(rs, (t - 1) as nat),
            ),
            !full_stop ==> (outpage_idx < nn || nn == 0) && cursors_match(
                ps,
                starts,
                step,
                pages_to_merge@,
                curr_slots@,
                cursors(rs, t),
            ) && forall|j: int| 0 <= j < kk ==> !active(rs, cursors(rs, t), j),
        decreases total(rs) - t,
    {
        let ghost cs = cursors(rs, t);
        proof {
            lemma_remaining_nonneg(rs, cs, kk);
        }
        let found = find_min(pages_to_merge, &curr_slots, input_pages, Ghost(starts), Ghost(step), Ghost(cs));
        let (best, min_elem) = match found {
            None => {
                proof {
                    lemma_pick(rs, cs, kk);
                }
                break ;
            },
            Some(bv) => bv,
        };
        proof {
            lemma_remaining_update(rs, cs, best as int, kk);
            assert(emitted(rs, t + 1) == emitted(rs, t).push(min_elem));
            assert(cursors(rs, t + 1) == cs.update(best as int, cs[best as int] + 1));
        }
        let full = emit_record(
            output_pages,
            &mut outpage_idx,
            &mut index_out_page,
            min_elem,
            Ghost(out0),
            Ghost(emitted(rs, t)),
        );
        if index_out_page == 0 {
            push_snapshot(
                &mut states_at_finalizing,
                pages_to_merge,
                &curr_slots,
                input_pages,
                Ghost(starts),
                Ghost(step),
                Ghost(cs),
            );
        }
        proof {
            assert(states_at_finalizing@ == snapshots(ps, starts, step, t + 1));
        }
        if full {
            proof {
                t = t + 1;
                full_stop = true;
            }
            break ;
        }
        advance_cursor(
            pages_to_merge,
            &mut curr_slots,
            best,
            input_pages,
            &lists_start,
            Ghost(starts),
            Ghost(step),
            Ghost(cs),
        );
        proof {
            t = t + 1;
        }
    }
    let ghost before = output_pages@;
    let mut i: usize = outpage_idx;
    while i < output_pages.len()
        invariant
            output_pages@.len() == before.len(),
            outpage_idx <= i,
            forall|j: int|
                0 <= j < before.len() ==> #[trigger] output_pages@[j] == if outpage_idx < j < i {
                    KwayPage { length: 0, ..before[j] }
                } else {
                    before[j]
                },
        decreases output_pages@.len() - i,
    {
        if i > outpage_idx {
            let mut p = output_pages[i];
            p.length = 0;
            output_pages[i] = p;
        }
        i = i + 1;
    }
    proof {
        lemma_merge_finish(out0, before, output_pages@, emitted(rs, t), outpage_idx as int, index_out_page as int);
        let cs = final_cursors(rs, nn);
        assert(cs == if full_stop { cursors(rs, (t - 1) as nat) } else { cursors(rs, t) });
        assert forall|j: int| 0 <= j < kk implies #[trigger] pages_to_merge@[j] == final_pages(ps, starts, step, nn)[j] by {
            if pages_to_merge@[j] is Some {
                lemma_cursor_at(ps, starts, step, pages_to_merge@, curr_slots@, cs, j);
            }
        }
        assert(pages_to_merge@ =~= final_pages(ps, starts, step, nn));
    }
    states_at_finalizing
}

/// The output pages once the merge has blanked the pages after the last
/// one it wrote.
proof fn lemma_merge_finish(
    out0: Seq<KwayPage>,
    before: Seq<KwayPage>,
    after: Seq<KwayPage>,
    e: Seq<i32>,
    oi: int,
    io: int,
)
    requires
        out_progress(out0, before, e, e.len() as int, oi, io),
        oi < out0.len() || (out0.len() == 0 && e.len() == 0) || (oi == out0.len() && io == 0),
        after.len() == before.len(),
        forall|j: int|
            0 <= j < before.len() ==> #[trigger] after[j] == if oi < j {
                KwayPage { length: 0, ..before[j] }
            } else {
                before[j]
            },
    ensures
        forall|i: int| 0 <= i < out0.len() ==> out_page(out0[i], #[trigger] after[i], e, i),
{
    assert forall|i: int| 0 <= i < out0.len() implies out_page(out0[i], #[trigger] after[i], e, i) by {
        let o = out0[i];
        assert(page_progress(o, before[i], e, e.len() as int, oi, io, i));
        assert(after[i].records == before[i].records);
        let p = after[i];
        assert forall|s: int| 0 <= s < 10 implies #[trigger] p.records@[s] == if 10 * i + s < e.len() {
            e[10 * i + s]
        } else {
            out0[i].records@[s]
        } by {
            assert(before[i].records@[s] == p.records@[s]);
        }
    }
}

/// The merge's state before its first step.
proof fn lemma_merge_start(
    ps: Seq<KwayPage>,
    starts: Seq<Option<usize>>,
    step: int,
    lists_start: Seq<usize>,
    slots: Seq<usize>,
)
    requires
        merge_inputs_ok(starts, step, ps),
        lists_start.len() == starts.len() + 1,
        forall|j: int| 0 <= j < starts.len() ==> #[trigger] lists_start[j] == j * step,
        lists_start[starts.len() as int] == ps.len(),
        slots == Seq::new(starts.len(), |j: int| 0usize),
    ensures
        forall|j: int|
            0 <= j < starts.len() ==> #[trigger] lists_start[j + 1] == run_end(
                starts.len() as int,
                step,
                ps.len() as int,
                j,
            ),
        total(merge_runs(ps, starts, step)) <= 10 * ps.len(),
        remaining(merge_runs(ps, starts, step), cursors(merge_runs(ps, starts, step), 0), starts.len() as int)
            == total(merge_runs(ps, starts, step)),
        cursors_match(ps, starts, step, starts, slots, cursors(merge_runs(ps, starts, step), 0)),
{
    let rs = merge_runs(ps, starts, step);
    let kk = starts.len() as int;
    let nn = ps.len() as int;
    lemma_total_bound(ps, starts, step, kk);
    lemma_remaining_nonneg(rs, zeros(rs.len()), kk);
    assert forall|j: int| 0 <= j < kk implies #[trigger] lists_start[j + 1] == run_end(kk, step, nn, j) by {
        if j + 1 < kk {
            assert(lists_start[j + 1] == (j + 1) * step);
        }
    }
    assert(rs.len() == kk);
    assert(zeros(rs.len()) == zeros(starts.len()));
    if kk > 0 {
        assert(run_end(kk, step, nn, kk - 1) == nn);
    }
    assert(cursors(rs, 0) =~= zeros(rs.len()));
    assert forall|j: int| 0 <= j < kk implies ((#[trigger] starts[j]) is Some <==> active(
        rs,
        cursors(rs, 0),
        j,
    )) by {
        lemma_run_end(kk, step, nn, j);
        match starts[j] {
            Some(p0) => {
                let e = run_end(kk, step, nn, j);
                assert(ps[p0 as int].wf());
                assert(run_of(ps, p0 as int, e) == ps[p0 as int].content() + run_of(ps, p0 as int + 1, e));
                assert(rs[j] == run_of(ps, p0 as int, e));
            },
            None => {},
        }
    }
    assert forall|j: int| 0 <= j < kk && (#[trigger] starts[j]) is Some implies {
        let p = starts[j]->Some_0 as int;
        p < nn
    } by {
        lemma_run_end(kk, step, nn, j);
    }
}

/// The records of the runs `0..j`, run after run.
pub open spec fn runs_content(rs: Seq<Seq<i32>>, j: int) -> Seq<i32>
    decreases j,
{
    if j <= 0 {
        seq![]
    } else {
        runs_content(rs, j - 1) + rs[j - 1]
    }
}

/// The records that the runs `0..j` still hold at cursors `cs`.
spec fn rest(rs: Seq<Seq<i32>>, cs: Seq<int>, j: int) -> Multiset<i32>
    decreases j,
{
    if j <= 0 {
        Multiset::empty()
    } else {
        rest(rs, cs, j - 1).add(rs[j - 1].subrange(cs[j - 1], rs[j - 1].len() as int).to_multiset())
    }
}

proof fn lemma_rest_start(rs: Seq<Seq<i32>>, j: int)
    requires
        0 <= j <= rs.len(),
    ensures
        rest(rs, zeros(rs.len()), j) == runs_content(rs, j).to_multiset(),
    decreases j,
{
    broadcast use vstd::seq_lib::group_to_multiset_ensures, vstd::seq_lib::lemma_multiset_commutative;

    if j > 0 {
        lemma_rest_start(rs, j - 1);
        assert(rs[j - 1].subrange(0, rs[j - 1].len() as int) == rs[j - 1]);
        vstd::seq_lib::lemma_multiset_commutative(runs_content(rs, j - 1), rs[j - 1]);
    } else {
        assert(runs_content(rs, j).to_multiset() =~= Multiset::empty());
    }
}

proof fn lemma_rest_step(rs: Seq<Seq<i32>>, cs: Seq<int>, w: int, j: int)
    requires
        cs.len() == rs.len(),
        0 <= w < rs.len(),
        0 <= j <= rs.len(),
        0 <= cs[w] < rs[w].len(),
    ensures
        rest(rs, cs, j) == if w < j {
            rest(rs, cs.update(w, cs[w] + 1), j).insert(rs[w][cs[w]])
        } else {
            rest(rs, cs.update(w, cs[w] + 1), j)
        },
    decreases j,
{
    broadcast use vstd::seq_lib::group_to_multiset_ensures, vstd::multiset::group_multiset_axioms;

    if j > 0 {
        lemma_rest_step(rs, cs, w, j - 1);
        if w == j - 1 {
            let s = rs[w];
            let c = cs[w];
            let a = s.subrange(c, s.len() as int);
            let b = s.subrange(c + 1, s.len() as int);
            assert(a == seq![s[c]] + b);
            vstd::seq_lib::lemma_multiset_commutative(seq![s[c]], b);
            assert(seq![s[c]].to_multiset() =~= Multiset::empty().insert(s[c])) by {
                assert(seq![s[c]] == Seq::<i32>::empty().push(s[c]));
                vstd::seq_lib::to_multiset_build(Seq::<i32>::empty(), s[c]);
            }
            assert(a.to_multiset() =~= b.to_multiset().insert(s[c]));
            let cs2 = cs.update(w, c + 1);
            assert(rest(rs, cs, j) =~= rest(rs, cs2, j).insert(s[c]));
        } else {
            let cs2 = cs.update(w, cs[w] + 1);
            if w < j {
                assert(rest(rs, cs, j) =~= rest(rs, cs2, j).insert(rs[w][cs[w]]));
            }
        }
    }
}

proof fn lemma_rest_empty(rs: Seq<Seq<i32>>, cs: Seq<int>, j: int)
    requires
        cs.len() == rs.len(),
        0 <= j <= rs.len(),
        forall|i: int| 0 <= i < j ==> #[trigger] cs[i] == rs[i].len(),
    ensures
        rest(rs, cs, j) == Multiset::<i32>::empty(),
    decreases j,
{
    broadcast use vstd::seq_lib::group_to_multiset_ensures, vstd::multiset::group_multiset_axioms;

    if j > 0 {
        lemma_rest_empty(rs, cs, j - 1);
        assert(rs[j - 1].subrange(cs[j - 1], rs[j - 1].len() as int) =~= Seq::<i32>::empty());
        assert(rest(rs, cs, j) =~= Multiset::<i32>::empty());
    }
}

/// The state of a merge of ascending runs after `t` steps.
proof fn lemma_merge_steps(rs: Seq<Seq<i32>>, t: nat)
    requires
        forall|j: int| 0 <= j < rs.len() ==> ascending(#[trigger] rs[j]),
        t <= total(rs),
    ensures
        cursors(rs, t).len() == rs.len(),
        forall|j: int| 0 <= j < rs.len() ==> 0 <= #[trigger] cursors(rs, t)[j] <= rs[j].len(),
        t + remaining(rs, cursors(rs, t), rs.len() as int) == total(rs),
        emitted(rs, t).len() == t,
        ascending(emitted(rs, t)),
        t > 0 ==> forall|j: int|
            0 <= j < rs.len() && active(rs, cursors(rs, t), j) ==> emitted(rs, t).last() <= rs[j][#[trigger] cursors(
                rs,
                t,
            )[j]],
        emitted(rs, t).to_multiset().add(rest(rs, cursors(rs, t), rs.len() as int)) == runs_content(
            rs,
            rs.len() as int,
        ).to_multiset(),
    decreases t,
{
    broadcast use vstd::seq_lib::group_to_multiset_ensures, vstd::multiset::group_multiset_axioms;

    let k = rs.len() as int;
    if t == 0 {
        assert(cursors(rs, 0) == zeros(rs.len()));
        lemma_remaining_nonneg(rs, zeros(rs.len()), k);
        lemma_rest_start(rs, k);
        assert(emitted(rs, 0).to_multiset() =~= Multiset::empty());
        assert(emitted(rs, 0).to_multiset().add(rest(rs, cursors(rs, t), k)) =~= rest(rs, cursors(rs, t), k));
    } else {
        let t0 = (t - 1) as nat;
        lemma_merge_steps(rs, t0);
        let cs = cursors(rs, t0);
        lemma_remaining_nonneg(rs, cs, k);
        lemma_pick(rs, cs, k);
        let w = winner(rs, cs);
        assert(w >= 0);
        let x = rs[w][cs[w]];
        let cs2 = cs.update(w, cs[w] + 1);
        assert(cursors(rs, t) == cs2);
        lemma_remaining_update(rs, cs, w, k);
        let e0 = emitted(rs, t0);
        assert(emitted(rs, t) == e0.push(x));
        assert forall|i: int, j: int| 0 <= i < j < e0.push(x).len() implies e0.push(x)[i] <= e0.push(x)[j] by {
            if j == e0.len() && i < j {
                assert(e0[i] <= e0.last());
            }
        }
        assert forall|j: int| 0 <= j < k && active(rs, cs2, j) implies x <= rs[j][#[trigger] cs2[j]] by {
            if j == w {
                assert(ascending(rs[w]));
                assert(rs[w][cs[w]] <= rs[w][cs[w] + 1]);
            } else {
                assert(cs2[j] == cs[j]);
                assert(active(rs, cs, j));
                assert(x <= rs[j][cs[j]]);
            }
        }
        lemma_rest_step(rs, cs, w, k);
        assert(e0.push(x).to_multiset() == e0.to_multiset().insert(x));
        assert(e0.push(x).to_multiset().add(rest(rs, cs2, k)) =~= e0.to_multiset().add(rest(rs, cs, k)));
    }
}

/// Merging ascending runs gives their records in ascending order, each
/// record as often as the runs hold it.
pub proof fn lemma_merged_sorted(rs: Seq<Seq<i32>>)
    requires
        forall|j: int| 0 <= j < rs.len() ==> ascending(#[trigger] rs[j]),
    ensures
        ascending(merged(rs)),
        merged(rs).to_multiset() == runs_content(rs, rs.len() as int).to_multiset(),
        merged(rs).len() == total(rs),
{
    broadcast use vstd::multiset::group_multiset_axioms;

    let tot = total(rs);
    lemma_merge_steps(rs, tot);
    let cs = cursors(rs, tot);
    lemma_remaining_nonneg(rs, cs, rs.len() as int);
    assert forall|i: int| 0 <= i < rs.len() implies #[trigger] cs[i] == rs[i].len() by {
        assert(!active(rs, cs, i));
    }
    lemma_rest_empty(rs, cs, rs.len() as int);
    assert(merged(rs).to_multiset().add(Multiset::empty()) =~= merged(rs).to_multiset());
}

proof fn lemma_pages_content_concat(a: Seq<KwayPage>, b: Seq<KwayPage>)
    ensures
        pages_content(a + b) == pages_content(a) + pages_content(b),
    decreases b.len(),
{
    if b.len() == 0 {
        assert(a + b == a);
        assert(pages_content(a) + pages_content(b) == pages_content(a));
    } else {
        lemma_pages_content_concat(a, b.drop_last());
        assert((a + b).drop_last() == a + b.drop_last());
        assert((a + b).last() == b.last());
        assert(pages_content(a + b) == pages_content(a) + pages_content(b.drop_last()) + b.last().content());
    }
}

proof fn lemma_pages_content_single(x: KwayPage)
    ensures
        pages_content(seq![x]) == x.content(),
{
    assert(seq![x].drop_last() == Seq::<KwayPage>::empty());
    assert(pages_content(Seq::<KwayPage>::empty()) == Seq::<i32>::empty());
    assert(Seq::<i32>::empty() + x.content() == x.content());
}

proof fn lemma_pages_content_empty_pages(ps: Seq<KwayPage>)
    requires
        forall|q: int| 0 <= q < ps.len() ==> (#[trigger] ps[q]).length == 0,
    ensures
        pages_content(ps) == Seq::<i32>::empty(),
    decreases ps.len(),
{
    if ps.len() > 0 {
        lemma_pages_content_empty_pages(ps.drop_last());
        assert(ps.last().length == 0);
        assert(ps.last().content() == Seq::<i32>::empty());
    }
}

proof fn lemma_pages_content_len(ps: Seq<KwayPage>)
    requires
        forall|q: int| 0 <= q < ps.len() ==> (#[trigger] ps[q]).wf(),
    ensures
        ps.len() > 0 && ps[0].length > 0 ==> pages_content(ps).len() > 0,
        pages_content(ps).len() <= 10 * ps.len(),
    decreases ps.len(),
{
    if ps.len() > 0 {
        lemma_pages_content_len(ps.drop_last());
        assert(ps.last().wf());
        if ps.len() > 1 {
            assert(ps.drop_last()[0] == ps[0]);
        }
    }
}

/// No page with records follows an empty page.
pub open spec fn packed(ps: Seq<KwayPage>) -> bool {
    forall|q1: int, q2: int| 0 <= q1 < q2 < ps.len() && (#[trigger] ps[q2]).length > 0 ==> (
    #[trigger] ps[q1]).length > 0
}

/// Reading a packed stretch of pages as a run reads all of its records.
proof fn lemma_run_packed(ps: Seq<KwayPage>, p: int, e: int)
    requires
        0 <= p <= e <= ps.len(),
        packed(ps.subrange(p, e)),
    ensures
        run_of(ps, p, e) == pages_content(ps.subrange(p, e)),
    decreases e - p,
{
    if p < e {
        let sub = ps.subrange(p, e);
        let rest = ps.subrange(p + 1, e);
        assert(sub == seq![ps[p]] + rest);
        lemma_pages_content_concat(seq![ps[p]], rest);
        lemma_pages_content_single(ps[p]);
        if ps[p].length > 0 {
            assert(packed(rest)) by {
                assert forall|q1: int, q2: int| 0 <= q1 < q2 < rest.len() && (#[trigger] rest[q2]).length
                    > 0 implies (#[trigger] rest[q1]).length > 0 by {
                    assert(sub[q2 + 1].length > 0);
                    assert(sub[q1 + 1].length > 0);
                }
            }
            lemma_run_packed(ps, p + 1, e);
        } else {
            assert forall|q: int| 0 <= q < rest.len() implies (#[trigger] rest[q]).length == 0 by {
                if rest[q].length > 0 {
                    assert(sub[q + 1].length > 0);
                    assert(sub[0].length > 0);
                }
            }
            lemma_pages_content_empty_pages(rest);
            assert(ps[p].content() == Seq::<i32>::empty());
            assert(pages_content(sub) == Seq::<i32>::empty());
        }
    } else {
        assert(ps.subrange(p, e) == Seq::<KwayPage>::empty());
    }
}

/// Sorts `v` ascending by insertion.
fn sort_records(v: &mut Vec<i32>)
    ensures
        ascending(final(v)@),
        final(v)@.to_multiset() == old(v)@.to_multiset(),
{
    broadcast use vstd::seq_lib::group_to_multiset_ensures, vstd::multiset::group_multiset_axioms;

    let n = v.len();
    let mut i: usize = 1;
    if n == 0 {
        return ;
    }
    while i < n
        invariant
            1 <= i <= n,
            n == v@.len(),
            ascending(v@.subrange(0, i as int)),
            v@.to_multiset() == old(v)@.to_multiset(),
        decreases n - i,
    {
        let mut j: usize = i;
        proof {
            assert forall|a: int, b: int| 0 <= a < b <= i && a != j && b != j implies v@[a] <= v@[b] by {
                assert(v@.subrange(0, i as int)[a] <= v@.subrange(0, i as int)[b]);
            }
        }
        while j > 0 && v[j - 1] > v[j]
            invariant
                0 <= j <= i < n,
                n == v@.len(),
                v@.to_multiset() == old(v)@.to_multiset(),
                forall|a: int, b: int| 0 <= a < b <= i && a != j && b != j ==> v@[a] <= v@[b],
                forall|b: int| j < b <= i ==> v@[j as int] <= v@[b],
            decreases j,
        {
            let x = v[j - 1];
            let y = v[j];
            let ghost before = v@;
            v.set(j - 1, y);
            v.set(j, x);
            proof {
                assert(v@ == before.update(j - 1, y).update(j as int, x));
                assert(before[j - 1] == x);
                assert(before.contains(x));
                assert(before.contains(y));
                vstd::seq_lib::to_multiset_contains(before, x);
                vstd::seq_lib::to_multiset_contains(before, y);
                vstd::seq_lib::to_multiset_update(before, j - 1, y);
                vstd::seq_lib::to_multiset_update(before.update(j - 1, y), j as int, x);
                assert(v@.to_multiset() =~= before.to_multiset());
            }
            j = j - 1;
        }
        proof {
            let sub = v@.subrange(0, i + 1);
            assert forall|a: int, b: int| 0 <= a < b < i + 1 implies #[trigger] sub[a] <= #[trigger] sub[b] by {
                if b == j && a < j - 1 {
                    assert(v@[a] <= v@[j - 1]);
                }
            }
        }
        i = i + 1;
    }
    proof {
        assert(v@.subrange(0, n as int) == v@);
    }
}

/// The records of `pages`, page after page.
fn flatten(pages: &[KwayPage]) -> (v: Vec<i32>)
    requires
        forall|q: int| 0 <= q < pages@.len() ==> (#[trigger] pages@[q]).wf(),
    ensures
        v@ == pages_content(pages@),
{
    let mut v: Vec<i32> = Vec::new();
    let mut i: usize = 0;
    while i < pages.len()
        invariant
            i <= pages@.len(),
            forall|q: int| 0 <= q < pages@.len() ==> (#[trigger] pages@[q]).wf(),
            v@ == pages_content(pages@.subrange(0, i as int)),
        decreases pages@.len() - i,
    {
        let page = pages[i];
        let ghost base = v@;
        proof {
            assert(pages@[i as int].wf());
        }
        let mut s: usize = 0;
        while s < page.length
            invariant
                s <= page.length <= 10,
                v@ == base + page.records@.subrange(0, s as int),
            decreases page.length - s,
        {
            v.push(page.records[s]);
            s = s + 1;
            proof {
                assert(v@ =~= base + page.records@.subrange(0, s as int));
            }
        }
        proof {
            assert(pages@.subrange(0, i + 1).drop_last() == pages@.subrange(0, i as int));
            assert(pages@.subrange(0, i + 1).last() == page);
        }
        i = i + 1;
    }
    proof {
        assert(pages@.subrange(0, pages@.len() as int) == pages@);
    }
    v
}

/// Whether the records of `pages`, read page after page, are in ascending
/// order.
pub fn is_sorted(pages: &[KwayPage]) -> (r: bool)
    requires
        forall|q: int| 0 <= q < pages@.len() ==> (#[trigger] pages@[q]).wf(),
    ensures
        r == ascending(pages_content(pages@)),
{
    let v = flatten(pages);
    let n = v.len();
    if n == 0 {
        return true;
    }
    let mut i: usize = 0;
    while i + 1 < n
        invariant
            n == v@.len(),
            v@ == pages_content(pages@),
            n > 0,
            i + 1 <= n,
            ascending(v@.subrange(0, i + 1)),
        decreases n - i,
    {
        if v[i] > v[i + 1] {
            proof {
                assert(v@[i as int] > v@[i + 1]);
            }
            return false;
        }
        proof {
            let sub = v@.subrange(0, i + 2);
            assert forall|a: int, b: int| 0 <= a < b < i + 2 implies #[trigger] sub[a] <= #[trigger] sub[b] by {
                if b == i + 1 && a < i {
                    assert(v@.subrange(0, i + 1)[a] <= v@.subrange(0, i + 1)[i as int]);
                } else if b < i + 1 {
                    assert(v@.subrange(0, i + 1)[a] <= v@.subrange(0, i + 1)[b]);
                }
            }
        }
        i = i + 1;
    }
    proof {
        assert(v@.subrange(0, n as int) == v@);
    }
    true
}

/// Length of output page `i` when `tot` records fill the pages in order.
pub open spec fn fill(tot: int, i: int) -> int {
    if 10 * i + 10 <= tot {
        10
    } else if 10 * i < tot {
        tot - 10 * i
    } else {
        0
    }
}

/// `out` (previously `out0`) holds the records of `input` in ascending
/// order, filling its pages in order; page ids and headers stay.
pub open spec fn sorted_into(input: Seq<KwayPage>, out0: Seq<KwayPage>, out: Seq<KwayPage>) -> bool {
    let c = pages_content(input);
    &&& out.len() == out0.len()
    &&& forall|i: int|
        0 <= i < out.len() ==> (#[trigger] out[i]).id == out0[i].id && out[i].header == out0[i].header
            && out[i].length == fill(c.len() as int, i)
    &&& ascending(pages_content(out))
    &&& pages_content(out).to_multiset() == c.to_multiset()
}

/// Pages `a..b` of `ps` hold the records of pages `a..b` of `ps_in`, in
/// ascending order and packed, starting with a non-empty page.
spec fn range_ok(ps_in: Seq<KwayPage>, ps: Seq<KwayPage>, a: int, b: int) -> bool {
    &&& 0 <= a < b <= ps.len()
    &&& ps.len() == ps_in.len()
    &&& ps[a].length > 0
    &&& packed(ps.subrange(a, b))
    &&& ascending(pages_content(ps.subrange(a, b)))
    &&& pages_content(ps.subrange(a, b)).to_multiset() == pages_content(ps_in.subrange(a, b)).to_multiset()
}

/// The output pages of a merge that emitted `e`, records first.
proof fn lemma_out_content(out0: Seq<KwayPage>, out: Seq<KwayPage>, e: Seq<i32>, m: int)
    requires
        out.len() == out0.len(),
        forall|i: int| 0 <= i < out0.len() ==> out_page(out0[i], #[trigger] out[i], e, i),
        0 < e.len() <= 10 * out.len(),
        0 <= m <= out.len(),
    ensures
        pages_content(out.subrange(0, m)) == e.subrange(0, if 10 * m < e.len() { 10 * m } else { e.len() as int }),
        forall|i: int| 0 <= i < out.len() ==> (#[trigger] out[i]).length == fill(e.len() as int, i),
    decreases m,
{
    assert forall|i: int| 0 <= i < out.len() implies (#[trigger] out[i]).length == fill(e.len() as int, i) by {
        assert(out_page(out0[i], out[i], e, i));
    }
    if m > 0 {
        lemma_out_content(out0, out, e, m - 1);
        let p = out[m - 1];
        assert(out_page(out0[m - 1], p, e, m - 1));
        assert(out.subrange(0, m).drop_last() == out.subrange(0, m - 1));
        let lo = 10 * (m - 1);
        let hi = if 10 * m < e.len() { 10 * m } else { e.len() as int };
        if lo < e.len() {
            assert(p.content() =~= e.subrange(lo, hi)) by {
                assert forall|s: int| 0 <= s < p.length implies p.content()[s] == e.subrange(lo, hi)[s] by {
                    assert(p.records@[s] == e[lo + s]);
                }
            }
            assert(e.subrange(0, lo) + e.subrange(lo, hi) =~= e.subrange(0, hi));
        } else {
            assert(p.content() =~= Seq::<i32>::empty());
            assert(hi == e.len());
        }
    } else {
        assert(out.subrange(0, 0) =~= Seq::<KwayPage>::empty());
        assert(e.subrange(0, 0) =~= Seq::<i32>::empty());
    }
}

proof fn lemma_remaining_is_len(rs: Seq<Seq<i32>>, j: int)
    requires
        0 <= j <= rs.len(),
    ensures
        remaining(rs, zeros(rs.len()), j) == runs_content(rs, j).len(),
    decreases j,
{
    if j > 0 {
        lemma_remaining_is_len(rs, j - 1);
    }
}

/// The runs of the pages that `sort` hands to `merge`.
spec fn sort_starts(kk: int, step: int) -> Seq<Option<usize>> {
    Seq::new(kk as nat, |j: int| Some((j * step) as usize))
}

/// Runs that are ready to merge: each stretch holds its input's records in
/// ascending order.
proof fn lemma_sort_runs(ps_in: Seq<KwayPage>, ps: Seq<KwayPage>, kk: int, step: int)
    requires
        ps.len() == ps_in.len(),
        ps.len() <= usize::MAX,
        kk >= 1,
        step >= 1,
        kk * step <= ps.len(),
        forall|q: int| 0 <= q < ps.len() ==> (#[trigger] ps[q]).wf(),
        forall|q: int| 0 <= q < ps_in.len() ==> (#[trigger] ps_in[q]).wf(),
        forall|j: int|
            0 <= j < kk ==> #[trigger] range_ok(ps_in, ps, j * step, run_end(kk, step, ps.len() as int, j)),
    ensures
        merge_inputs_ok(sort_starts(kk, step), step, ps),
        forall|j: int| 0 <= j < kk ==> ascending(#[trigger] merge_runs(ps, sort_starts(kk, step), step)[j]),
        runs_content(merge_runs(ps, sort_starts(kk, step), step), kk).to_multiset() == pages_content(
            ps_in,
        ).to_multiset(),
        total(merge_runs(ps, sort_starts(kk, step), step)) == pages_content(ps_in).len(),
        pages_content(ps_in).len() > 0,
{
    broadcast use vstd::seq_lib::group_to_multiset_ensures;

    let n = ps.len() as int;
    let starts = sort_starts(kk, step);
    let rs = merge_runs(ps, starts, step);
    assert forall|j: int| 0 <= j < kk implies #[trigger] rs[j] == pages_content(
        ps.subrange(j * step, run_end(kk, step, n, j)),
    ) by {
        lemma_run_end(kk, step, n, j);
        assert(range_ok(ps_in, ps, j * step, run_end(kk, step, n, j)));
        assert(j * step <= kk * step) by (nonlinear_arith)
            requires
                j < kk,
                step >= 1,
        ;
        assert(starts[j] == Some((j * step) as usize));
        lemma_run_packed(ps, j * step, run_end(kk, step, n, j));
    }
    assert(merge_inputs_ok(starts, step, ps)) by {
        assert forall|j: int| 0 <= j < kk && (#[trigger] starts[j]) is Some implies j * step <= starts[j]->Some_0
            < run_end(kk, step, n, j) && ps[starts[j]->Some_0 as int].length > 0 by {
            lemma_run_end(kk, step, n, j);
            assert(range_ok(ps_in, ps, j * step, run_end(kk, step, n, j)));
            assert(j * step <= kk * step) by (nonlinear_arith)
                requires
                    j < kk,
                    step >= 1,
            ;
        }
    }
    assert forall|j: int| 0 <= j < kk implies ascending(#[trigger] rs[j]) by {
        assert(range_ok(ps_in, ps, j * step, run_end(kk, step, n, j)));
    }
    // the runs cover the input stretch by stretch
    assert forall|j: int| 0 <= j <= kk implies #[trigger] runs_content(rs, j).to_multiset() == pages_content(
        ps_in.subrange(0, if j == 0 { 0 } else { run_end(kk, step, n, j - 1) }),
    ).to_multiset() by {
        lemma_runs_cover(ps_in, ps, kk, step, j);
    }
    assert(run_end(kk, step, n, kk - 1) == n);
    assert(ps_in.subrange(0, n) == ps_in);
    lemma_remaining_is_len(rs, kk);
    assert(zeros(rs.len()) == zeros(kk as nat));
    vstd::seq_lib::to_multiset_len(runs_content(rs, kk));
    vstd::seq_lib::to_multiset_len(pages_content(ps_in));
    assert(range_ok(ps_in, ps, 0 * step, run_end(kk, step, n, 0)));
    lemma_pages_content_len(ps_in);
    lemma_pages_content_len(ps.subrange(0, run_end(kk, step, n, 0)));
    vstd::seq_lib::to_multiset_len(pages_content(ps.subrange(0, run_end(kk, step, n, 0))));
    vstd::seq_lib::to_multiset_len(pages_content(ps_in.subrange(0, run_end(kk, step, n, 0))));
    lemma_pages_content_concat(ps_in.subrange(0, run_end(kk, step, n, 0)), ps_in.subrange(run_end(kk, step, n, 0), n));
    assert(ps_in.subrange(0, run_end(kk, step, n, 0)) + ps_in.subrange(run_end(kk, step, n, 0), n) == ps_in);
}

proof fn lemma_runs_cover(ps_in: Seq<KwayPage>, ps: Seq<KwayPage>, kk: int, step: int, j: int)
    requires
        ps.len() == ps_in.len(),
        ps.len() <= usize::MAX,
        kk >= 1,
        step >= 1,
        kk * step <= ps.len(),
        0 <= j <= kk,
        forall|i: int|
            0 <= i < kk ==> #[trigger] merge_runs(ps, sort_starts(kk, step), step)[i] == pages_content(
                ps.subrange(i * step, run_end(kk, step, ps.len() as int, i)),
            ),
        forall|i: int|
            0 <= i < kk ==> #[trigger] range_ok(ps_in, ps, i * step, run_end(kk, step, ps.len() as int, i)),
    ensures
        runs_content(merge_runs(ps, sort_starts(kk, step), step), j).to_multiset() == pages_content(
            ps_in.subrange(0, if j == 0 { 0 } else { run_end(kk, step, ps.len() as int, j - 1) }),
        ).to_multiset(),
    decreases j,
{
    broadcast use vstd::seq_lib::group_to_multiset_ensures, vstd::seq_lib::lemma_multiset_commutative;

    let n = ps.len() as int;
    let rs = merge_runs(ps, sort_starts(kk, step), step);
    if j == 0 {
        assert(ps_in.subrange(0, 0) == Seq::<KwayPage>::empty());
        assert(runs_content(rs, 0).to_multiset() =~= pages_content(Seq::<KwayPage>::empty()).to_multiset());
    } else {
        lemma_runs_cover(ps_in, ps, kk, step, j - 1);
        let a = if j - 1 == 0 { 0 } else { run_end(kk, step, n, j - 2) };
        let b = run_end(kk, step, n, j - 1);
        assert(a == (j - 1) * step) by {
            if j - 1 > 0 {
                assert(run_end(kk, step, n, j - 2) == (j - 1) * step);
            }
        }
        assert(range_ok(ps_in, ps, (j - 1) * step, b));
        lemma_pages_content_concat(ps_in.subrange(0, a), ps_in.subrange(a, b));
        assert(ps_in.subrange(0, a) + ps_in.subrange(a, b) == ps_in.subrange(0, b));
        vstd::seq_lib::lemma_multiset_commutative(runs_content(rs, j - 1), rs[j - 1]);
        vstd::seq_lib::lemma_multiset_commutative(
            pages_content(ps_in.subrange(0, a)),
            pages_content(ps_in.subrange(a, b)),
        );
    }
}

/// Writes `src` over `dst[a..a + src.len()]`.
fn copy_into(dst: &mut Vec<KwayPage>, src: &Vec<KwayPage>, a: usize)
    requires
        a + src@.len() <= old(dst)@.len(),
    ensures
        final(dst)@.len() == old(dst)@.len(),
        forall|q: int|
            0 <= q < old(dst)@.len() ==> #[trigger] final(dst)@[q] == if a <= q < a + src@.len() {
                src@[q - a]
            } else {
                old(dst)@[q]
            },
{
    let ghost d0 = dst@;
    let dl = dst.len();
    let mut i: usize = 0;
    while i < src.len()
        invariant
            dl == d0.len(),
            a + src@.len() <= d0.len(),
            dst@.len() == d0.len(),
            i <= src@.len(),
            forall|q: int|
                0 <= q < d0.len() ==> #[trigger] dst@[q] == if a <= q < a + i {
                    src@[q - a]
                } else {
                    d0[q]
                },
        decreases src@.len() - i,
    {
        dst.set(a + i, src[i]);
        i = i + 1;
    }
}

/// Sorts one stretch of pages as `sort` sorts its input, or keeps it when
/// it is sorted already.
proof fn lemma_range_from_sort(ps_in: Seq<KwayPage>, ps: Seq<KwayPage>, a: int, b: int, sub0: Seq<KwayPage>, sub: Seq<KwayPage>)
    requires
        0 <= a < b <= ps.len(),
        ps.len() == ps_in.len(),
        forall|q: int| 0 <= q < ps_in.len() ==> (#[trigger] ps_in[q]).wf() && ps_in[q].length > 0,
        sorted_into(ps_in.subrange(a, b), sub0, sub),
        sub.len() == b - a,
        forall|q: int| a <= q < b ==> #[trigger] ps[q] == sub[q - a],
    ensures
        range_ok(ps_in, ps, a, b),
        forall|q: int| a <= q < b ==> (#[trigger] ps[q]).wf(),
{
    let part = ps_in.subrange(a, b);
    let c = pages_content(part);
    assert forall|q: int| 0 <= q < part.len() implies (#[trigger] part[q]).wf() by {
        assert(ps_in[a + q].wf());
    }
    lemma_pages_content_len(part);
    assert(ps.subrange(a, b) =~= sub);
    assert(sub[0].length == fill(c.len() as int, 0));
    assert forall|q1: int, q2: int| 0 <= q1 < q2 < sub.len() && (#[trigger] sub[q2]).length > 0 implies (
    #[trigger] sub[q1]).length > 0 by {
        assert(sub[q2].length == fill(c.len() as int, q2));
        assert(sub[q1].length == fill(c.len() as int, q1));
    }
    assert forall|q: int| a <= q < b implies (#[trigger] ps[q]).wf() by {
        assert(sub[q - a].length == fill(c.len() as int, q - a));
    }
}

/// A stretch of input pages that is sorted already.
proof fn lemma_range_kept(ps_in: Seq<KwayPage>, ps: Seq<KwayPage>, a: int, b: int)
    requires
        0 <= a < b <= ps.len(),
        ps.len() == ps_in.len(),
        forall|q: int| 0 <= q < ps_in.len() ==> (#[trigger] ps_in[q]).wf() && ps_in[q].length > 0,
        forall|q: int| a <= q < b ==> #[trigger] ps[q] == ps_in[q],
        ascending(pages_content(ps_in.subrange(a, b))),
    ensures
        range_ok(ps_in, ps, a, b),
{
    assert(ps.subrange(a, b) =~= ps_in.subrange(a, b));
    assert(ps_in[a].length > 0);
    assert forall|q1: int, q2: int| 0 <= q1 < q2 < b - a && (#[trigger] ps.subrange(a, b)[q2]).length > 0 implies (
    #[trigger] ps.subrange(a, b)[q1]).length > 0 by {
        assert(ps_in[a + q1].length > 0);
    }
}

/// Sorts the records of `input_pages` into `output_pages` by a `k`-way
/// merge sort: a single page is sorted directly; otherwise the pages are
/// split into `k` stretches of `input_pages.len() / k` pages (the last
/// one takes the rest; one page each when there are fewer pages than `k`),
/// each stretch that is not sorted yet is sorted recursively, and the
/// stretches are merged. The output then holds the records in ascending
/// order, filling its pages in order ([`sorted_into`]).
pub fn sort(k: usize, input_pages: &[KwayPage], output_pages: &mut [KwayPage])
    requires
        input_pages@.len() >= 1,
        input_pages@.len() == 1 || k >= 2,
        old(output_pages)@.len() == input_pages@.len(),
        forall|q: int|
            0 <= q < input_pages@.len() ==> (#[trigger] input_pages@[q]).wf() && input_pages@[q].length > 0,
    ensures
        sorted_into(input_pages@, old(output_pages)@, final(output_pages)@),
    decreases input_pages@.len(),
{
    broadcast use vstd::seq_lib::group_to_multiset_ensures;

    let ghost ps_in = input_pages@;
    let ghost out0 = output_pages@;
    let n = input_pages.len();
    if n == 1 {
        let page = input_pages[0];
        proof {
            assert(ps_in[0].wf());
        }
        let mut vec: Vec<i32> = Vec::new();
        let mut i: usize = 0;
        while i < page.length
            invariant
                i <= page.length <= 10,
                vec@ == page.records@.subrange(0, i as int),
            decreases page.length - i,
        {
            vec.push(page.records[i]);
            i = i + 1;
            proof {
                assert(vec@ =~= page.records@.subrange(0, i as int));
            }
        }
        let ghost unsorted = vec@;
        sort_records(&mut vec);
        proof {
            vstd::seq_lib::to_multiset_len(vec@);
            vstd::seq_lib::to_multiset_len(unsorted);
        }
        let mut out = output_pages[0];
        let mut idx: usize = 0;
        while idx < vec.len()
            invariant
                idx <= vec@.len(),
                vec@.len() == page.length,
                page.length <= 10,
                out0.len() == 1,
                out.id == out0[0].id,
                out.header == out0[0].header,
                forall|q: int| 0 <= q < idx ==> #[trigger] out.records@[q] == vec@[q],
            decreases vec@.len() - idx,
        {
            out.records[idx] = vec[idx];
            idx = idx + 1;
        }
        out.length = page.length;
        output_pages[0] = out;
        proof {
            let fin = output_pages@;
            assert(fin == seq![out]);
            lemma_pages_content_single(out);
            assert(ps_in == seq![page]);
            lemma_pages_content_single(page);
            assert(out.content() =~= vec@);
            assert(page.content() == unsorted);
            assert(pages_content(ps_in) == page.content());
            assert(fin[0].length == fill(pages_content(ps_in).len() as int, 0));
        }
        return ;
    }
    let stepsize = n / k;
    let mut pages_to_merge: Vec<Option<usize>> = Vec::new();
    let mut sorted_pages = vstd::slice::slice_to_vec(input_pages);
    let ghost kk: int;
    let ghost step: int;
    if stepsize == 0 {
        let mut i: usize = 0;
        while i < n
            invariant
                i <= n,
                n == ps_in.len(),
                n >= 2,
                k >= 2,
                input_pages@ == ps_in,
                forall|q: int| 0 <= q < ps_in.len() ==> (#[trigger] ps_in[q]).wf() && ps_in[q].length > 0,
                pages_to_merge@ == sort_starts(i as int, 1),
                sorted_pages@.len() == n,
                forall|q: int| 0 <= q < n ==> (#[trigger] sorted_pages@[q]).wf(),
                forall|j: int| 0 <= j < i ==> #[trigger] range_ok(ps_in, sorted_pages@, j, j + 1),
                forall|q: int| i <= q < n ==> #[trigger] sorted_pages@[q] == ps_in[q],
            decreases n - i,
        {
            pages_to_merge.push(Some(i));
            proof {
                assert(pages_to_merge@ =~= sort_starts(i + 1, 1));
            }
            let one = vstd::slice::slice_subrange(input_pages, i, i + 1);
            proof {
                assert forall|q: int| 0 <= q < one@.len() implies (#[trigger] one@[q]).wf() by {
                    assert(ps_in[i + q].wf());
                }
            }
            let ghost before = sorted_pages@;
            if !is_sorted(one) {
                let mut sub = vstd::slice::slice_to_vec(vstd::slice::slice_subrange(sorted_pages.as_slice(), i, i + 1));
                let ghost sub0 = sub@;
                sort(k, one, sub.as_mut_slice());
                copy_into(&mut sorted_pages, &sub, i);
                proof {
                    lemma_range_from_sort(ps_in, sorted_pages@, i as int, i + 1, sub0, sub@);
                    assert forall|q: int| 0 <= q < n implies (#[trigger] sorted_pages@[q]).wf() by {
                        if q != i {
                            assert(before[q].wf());
                        }
                    }
                }
            } else {
                proof {
                    lemma_range_kept(ps_in, sorted_pages@, i as int, i + 1);
                }
            }
            proof {
                assert forall|j: int| 0 <= j < i + 1 implies #[trigger] range_ok(ps_in, sorted_pages@, j, j + 1) by {
                    if j < i {
                        assert(range_ok(ps_in, before, j, j + 1));
                        assert(sorted_pages@.subrange(j, j + 1) =~= before.subrange(j, j + 1));
                    }
                }
            }
            i = i + 1;
        }
        proof {
            kk = n as int;
            step = 1;
            assert forall|j: int| 0 <= j < kk implies #[trigger] range_ok(
                ps_in,
                sorted_pages@,
                j * step,
                run_end(kk, step, n as int, j),
            ) by {
                assert(range_ok(ps_in, sorted_pages@, j, j + 1));
            }
            lemma_sort_runs(ps_in, sorted_pages@, kk, step);
            assert(pages_to_merge@ == sort_starts(kk, step));
        }
        let _ = merge(&mut pages_to_merge, 1, sorted_pages.as_slice(), output_pages);
    } else {
        proof {
            vstd::arithmetic::div_mod::lemma_fundamental_div_mod(n as int, k as int);
            vstd::arithmetic::div_mod::lemma_mod_bound(n as int, k as int);
            assert(k * stepsize <= n) by (nonlinear_arith)
                requires
                    n as int == k * (n as int / k as int) + (n as int % k as int),
                    stepsize == n as int / k as int,
                    n as int % k as int >= 0,
            ;
        }
        let mut i: usize = 0;
        while i < k
            invariant
                i <= k,
                k * stepsize <= n,
                stepsize >= 1,
                pages_to_merge@ == sort_starts(i as int, stepsize as int),
            decreases k - i,
        {
            proof {
                assert(i * stepsize <= k * stepsize) by (nonlinear_arith)
                    requires
                        i < k,
                ;
            }
            pages_to_merge.push(Some(i * stepsize));
            proof {
                assert(pages_to_merge@ =~= sort_starts(i + 1, stepsize as int));
            }
            i = i + 1;
        }
        let mut i: usize = 0;
        while i < k
            invariant
                i <= k,
                k >= 2,
                n >= 2,
                n == ps_in.len(),
                k * stepsize <= n,
                stepsize >= 1,
                input_pages@ == ps_in,
                forall|q: int| 0 <= q < ps_in.len() ==> (#[trigger] ps_in[q]).wf() && ps_in[q].length > 0,
                sorted_pages@.len() == n,
                forall|q: int| 0 <= q < n ==> (#[trigger] sorted_pages@[q]).wf(),
                forall|j: int|
                    0 <= j < i ==> #[trigger] range_ok(
                        ps_in,
                        sorted_pages@,
                        j * stepsize,
                        run_end(k as int, stepsize as int, n as int, j),
                    ),
                i < k ==> forall|q: int| i * stepsize <= q < n ==> #[trigger] sorted_pages@[q] == ps_in[q],
            decreases k - i,
        {
            proof {
                lemma_run_end(k as int, stepsize as int, n as int, i as int);
                assert(i * stepsize <= k * stepsize) by (nonlinear_arith)
                    requires
                        i < k,
                ;
                assert((i + 1) * stepsize == i * stepsize + stepsize) by (nonlinear_arith);
                assert((k - 1) * stepsize == k * stepsize - stepsize) by (nonlinear_arith);
            }
            let start_index = i * stepsize;
            let end_index = if i < k - 1 {
                (i + 1) * stepsize
            } else {
                n
            };
            proof {
                assert(end_index == run_end(k as int, stepsize as int, n as int, i as int));
                assert(stepsize < n) by (nonlinear_arith)
                    requires
                        k * stepsize <= n,
                        k >= 2,
                        stepsize >= 1,
                ;
                assert(start_index > 0 || end_index < n) by (nonlinear_arith)
                    requires
                        start_index == i * stepsize,
                        end_index == if i < k - 1 { (i + 1) * stepsize } else { n as int },
                        k * stepsize <= n,
                        k >= 2,
                        stepsize >= 1,
                        i < k,
                ;
                assert(end_index - start_index < n);
            }
            let part = vstd::slice::slice_subrange(input_pages, start_index, end_index);
            proof {
                assert forall|q: int| 0 <= q < part@.len() implies (#[trigger] part@[q]).wf() && part@[q].length
                    > 0 by {
                    assert(ps_in[start_index + q].wf());
                }
            }
            let ghost before = sorted_pages@;
            if !is_sorted(part) {
                let mut sub = vstd::slice::slice_to_vec(
                    vstd::slice::slice_subrange(sorted_pages.as_slice(), start_index, end_index),
                );
                let ghost sub0 = sub@;
                sort(k, part, sub.as_mut_slice());
                copy_into(&mut sorted_pages, &sub, start_index);
                proof {
                    lemma_range_from_sort(ps_in, sorted_pages@, start_index as int, end_index as int, sub0, sub@);
                    assert forall|q: int| 0 <= q < n implies (#[trigger] sorted_pages@[q]).wf() by {
                        if q < start_index || q >= end_index {
                            assert(before[q].wf());
                        }
                    }
                }
            } else {
                proof {
                    lemma_range_kept(ps_in, sorted_pages@, start_index as int, end_index as int);
                }
            }
            proof {
                assert forall|j: int| 0 <= j < i + 1 implies #[trigger] range_ok(
                    ps_in,
                    sorted_pages@,
                    j * stepsize,
                    run_end(k as int, stepsize as int, n as int, j),
                ) by {
                    if j < i {
                        let a = j * stepsize;
                        let b = run_end(k as int, stepsize as int, n as int, j);
                        lemma_run_end(k as int, stepsize as int, n as int, j);
                        assert(b <= i * stepsize) by (nonlinear_arith)
                            requires
                                b == if j + 1 < k { (j + 1) * stepsize } else { n as int },
                                j < i,
                                i < k,
                        ;
                        assert(range_ok(ps_in, before, a, b));
                        assert(sorted_pages@.subrange(a, b) =~= before.subrange(a, b));
                    }
                }
            }
            i = i + 1;
        }
        proof {
            kk = k as int;
            step = stepsize as int;
            lemma_sort_runs(ps_in, sorted_pages@, kk, step);
        }
        let _ = merge(&mut pages_to_merge, stepsize, sorted_pages.as_slice(), output_pages);
    }
    proof {
        let rs = merge_runs(sorted_pages@, sort_starts(kk, step), step);
        lemma_merged_sorted(rs);
        lemma_pages_content_len(ps_in);
        assert(merge_inputs_ok(sort_starts(kk, step), step, sorted_pages@));
        assert(total(rs) == pages_content(ps_in).len());
        lemma_out_content(out0, output_pages@, merged(rs), output_pages@.len() as int);
        assert(output_pages@.subrange(0, output_pages@.len() as int) == output_pages@);
        let e = merged(rs);
        assert(e.subrange(0, e.len() as int) == e);
        assert(pages_content(output_pages@) == e);
        assert(ascending(e));
        assert(e.to_multiset() == pages_content(ps_in).to_multiset());
    }
}

} // verus!
