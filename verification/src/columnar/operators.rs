//! Chunk-at-a-time query operators: scan, conjunctive range filter, equi
//! join and aggregation, each pulling chunks from its child.

use vstd::multiset::Multiset;
use vstd::prelude::*;

use super::data::{decode, DataFile};
use super::engine::StorageTrait;
use super::value_order::{same_type, value_le};
use super::{chunk_view, column_view, Columns, DatabaseError, FileHandle, TableChunk, Value, ValueView};

verus! {

/// A pull-based operator producing chunks.
pub trait Operator {
    /// The operator has been opened and not closed since.
    spec fn is_open(&self) -> bool;

    /// A bound on the number of chunks the operator can still produce.
    spec fn remaining(&self) -> nat;

    /// The chunk the next call of `next` hands out, when the operator can
    /// tell it in advance.
    spec fn upcoming(&self) -> Option<Seq<Seq<ValueView>>>;

    /// What the calls of `next` handed out, in order.
    spec fn history(&self) -> Seq<Option<TableChunk>>;

    /// Opens the operator and its children.
    fn open(&mut self)
        ensures
            final(self).is_open(),
            final(self).history() == old(self).history(),
    ;

    /// The next chunk, or `None` when there are no more.
    fn next(&mut self) -> (r: Option<TableChunk>)
        requires
            old(self).is_open(),
        ensures
            final(self).history() == old(self).history().push(r),
            final(self).is_open(),
            final(self).remaining() <= old(self).remaining(),
            r is Some ==> final(self).remaining() < old(self).remaining(),
            old(self).upcoming() is Some ==> r is Some && old(self).upcoming() == Some(chunk_view(r->Some_0@)),
    ;

    /// Closes the operator and its children.
    fn close(&mut self)
        ensures
            !final(self).is_open(),
    ;
}

/// A chunk handed out, by view.
pub open spec fn chunk_opt(r: Option<TableChunk>) -> Option<Seq<Seq<ValueView>>> {
    match r {
        Some(c) => Some(chunk_view(c@)),
        None => None,
    }
}

/// The chunks `p` holds, by view (each entry taken as `Some`).
pub open spec fn pulled_views(p: Seq<Option<TableChunk>>) -> Seq<Seq<Seq<ValueView>>> {
    Seq::new(p.len(), |i: int| chunk_view(p[i]->Some_0@))
}

/// `p` is what a child hands out until it is drained: chunks, then `None`.
pub open spec fn drained(p: Seq<Option<TableChunk>>) -> bool {
    &&& p.len() >= 1
    &&& p.last() is None
    &&& forall|i: int| 0 <= i < p.len() - 1 ==> #[trigger] p[i] is Some
}

/// What the calls of `next` of `after` handed out since `before`.
pub open spec fn pulled_since(before: Seq<Option<TableChunk>>, after: Seq<Option<TableChunk>>) -> Seq<
    Option<TableChunk>,
> {
    after.subrange(before.len() as int, after.len() as int)
}

/// Column `c` of the chunks `cs[0..n]`, one after the other (a chunk
/// without column `c` adds nothing).
pub open spec fn column_concat(cs: Seq<Seq<Seq<ValueView>>>, c: int, n: int) -> Seq<ValueView>
    decreases n,
{
    if n <= 0 {
        seq![]
    } else {
        column_concat(cs, c, n - 1) + if c < cs[n - 1].len() {
            cs[n - 1][c]
        } else {
            seq![]
        }
    }
}

/// The data collected from the chunks `cs`: as many columns as the first
/// chunk has, each the concatenation of that column of every chunk.
pub open spec fn collected(cs: Seq<Seq<Seq<ValueView>>>) -> Seq<Seq<ValueView>> {
    if cs.len() == 0 {
        seq![]
    } else {
        Seq::new(cs[0].len(), |c: int| column_concat(cs, c, cs.len() as int))
    }
}

proof fn lemma_column_concat_prefix(cs: Seq<Seq<Seq<ValueView>>>, x: Seq<Seq<ValueView>>, c: int, n: int)
    requires
        n <= cs.len(),
    ensures
        column_concat(cs.push(x), c, n) == column_concat(cs, c, n),
    decreases n,
{
    if n > 0 {
        lemma_column_concat_prefix(cs, x, c, n - 1);
    }
}

/// Number of rows of a chunk: the length of its longest column (columns
/// left out by a projection are empty).
pub open spec fn chunk_rows(ch: Seq<Seq<ValueView>>) -> int
    decreases ch.len(),
{
    if ch.len() == 0 {
        0
    } else {
        let r = chunk_rows(ch.drop_last());
        if ch.last().len() > r {
            ch.last().len() as int
        } else {
            r
        }
    }
}

/// A filter `(column, min, max)`, by view.
pub open spec fn filters_view(fs: Seq<(usize, (Value, Value))>) -> Seq<(usize, ValueView, ValueView)> {
    fs.map_values(|f: (usize, (Value, Value))| (f.0, f.1.0@, f.1.1@))
}

/// Row `r` passes filter `f`: the filtered column has no value at `r`, or
/// its value lies in `[min, max]`.
pub open spec fn passes(ch: Seq<Seq<ValueView>>, f: (usize, ValueView, ValueView), r: int) -> bool {
    let c = ch[f.0 as int];
    r < c.len() ==> value_le(f.1, c[r]) && value_le(c[r], f.2)
}

/// Row `r` passes every filter.
pub open spec fn row_kept(ch: Seq<Seq<ValueView>>, fs: Seq<(usize, ValueView, ValueView)>, r: int) -> bool {
    forall|i: int| 0 <= i < fs.len() ==> passes(ch, #[trigger] fs[i], r)
}

/// The values `0..k` of column `c` whose rows pass every filter.
pub open spec fn kept_values(c: Seq<ValueView>, ch: Seq<Seq<ValueView>>, fs: Seq<(usize, ValueView, ValueView)>, k: int) -> Seq<
    ValueView,
>
    decreases k,
{
    if k <= 0 {
        seq![]
    } else {
        kept_values(c, ch, fs, k - 1) + if row_kept(ch, fs, k - 1) {
            seq![c[k - 1]]
        } else {
            seq![]
        }
    }
}

/// Chunk `ch` reduced to the rows that pass every filter, in order.
pub open spec fn filtered(ch: Seq<Seq<ValueView>>, fs: Seq<(usize, ValueView, ValueView)>) -> Seq<Seq<ValueView>> {
    ch.map_values(|c: Seq<ValueView>| kept_values(c, ch, fs, c.len() as int))
}

/// The rows `0..k` of `ch` that pass every filter, in increasing order.
pub open spec fn passing_rows(ch: Seq<Seq<ValueView>>, fs: Seq<(usize, ValueView, ValueView)>, k: int) -> Seq<int>
    decreases k,
{
    if k <= 0 {
        seq![]
    } else {
        passing_rows(ch, fs, k - 1) + if row_kept(ch, fs, k - 1) {
            seq![k - 1]
        } else {
            seq![]
        }
    }
}

proof fn lemma_kept_values(c: Seq<ValueView>, ch: Seq<Seq<ValueView>>, fs: Seq<(usize, ValueView, ValueView)>, k: int)
    requires
        0 <= k <= c.len(),
    ensures
        kept_values(c, ch, fs, k).len() == passing_rows(ch, fs, k).len(),
        forall|i: int|
            0 <= i < passing_rows(ch, fs, k).len() ==> 0 <= #[trigger] passing_rows(ch, fs, k)[i] < k
                && row_kept(ch, fs, passing_rows(ch, fs, k)[i]) && kept_values(c, ch, fs, k)[i]
                == c[passing_rows(ch, fs, k)[i]],
        forall|i: int, j: int|
            0 <= i < j < passing_rows(ch, fs, k).len() ==> #[trigger] passing_rows(ch, fs, k)[i]
                < #[trigger] passing_rows(ch, fs, k)[j],
        forall|r: int| 0 <= r < k && row_kept(ch, fs, r) ==> #[trigger] passing_rows(ch, fs, k).contains(r),
    decreases k,
{
    if k > 0 {
        lemma_kept_values(c, ch, fs, k - 1);
        let rs = passing_rows(ch, fs, k - 1);
        let vs = kept_values(c, ch, fs, k - 1);
        if row_kept(ch, fs, k - 1) {
            assert(passing_rows(ch, fs, k) == rs + seq![k - 1]);
            assert(kept_values(c, ch, fs, k) == vs + seq![c[k - 1]]);
        } else {
            assert(passing_rows(ch, fs, k) == rs);
            assert(kept_values(c, ch, fs, k) == vs);
        }
        assert forall|r: int| 0 <= r < k && row_kept(ch, fs, r) implies #[trigger] passing_rows(ch, fs, k).contains(r) by {
            if r < k - 1 {
                assert(rs.contains(r));
                let i = choose|i: int| 0 <= i < rs.len() && rs[i] == r;
                assert(passing_rows(ch, fs, k)[i] == r);
            } else {
                assert(passing_rows(ch, fs, k)[rs.len() as int] == r);
            }
        }
    }
}

/// Filtering keeps, in each column, exactly the values of the rows that
/// pass every filter, in their order: column `c` of the result holds the
/// values of `ch[c]` at the passing rows, which increase, lie below the
/// column's length and include every passing row of the column.
pub proof fn lemma_filtered_rows(ch: Seq<Seq<ValueView>>, fs: Seq<(usize, ValueView, ValueView)>, c: int)
    requires
        0 <= c < ch.len(),
    ensures
        ({
            let rows = passing_rows(ch, fs, ch[c].len() as int);
            let out = filtered(ch, fs)[c];
            &&& out.len() == rows.len()
            &&& forall|i: int|
                0 <= i < rows.len() ==> 0 <= #[trigger] rows[i] < ch[c].len() && row_kept(ch, fs, rows[i])
                    && out[i] == ch[c][rows[i]]
            &&& forall|i: int, j: int| 0 <= i < j < rows.len() ==> #[trigger] rows[i] < #[trigger] rows[j]
            &&& forall|r: int| 0 <= r < ch[c].len() && row_kept(ch, fs, r) ==> #[trigger] rows.contains(r)
        }),
{
    lemma_kept_values(ch[c], ch, fs, ch[c].len() as int);
}

/// The filters can be tested on `ch`: each names a column of `ch`, and the
/// comparisons made on it are between values of one type.
pub open spec fn filters_ok(ch: Seq<Seq<ValueView>>, fs: Seq<(usize, ValueView, ValueView)>) -> bool {
    forall|i: int|
        0 <= i < fs.len() ==> (#[trigger] fs[i]).0 < ch.len() && forall|k: int|
            0 <= k < ch[fs[i].0 as int].len() ==> same_type(#[trigger] ch[fs[i].0 as int][k], fs[i].1) && (value_le(
                fs[i].1,
                ch[fs[i].0 as int][k],
            ) ==> same_type(ch[fs[i].0 as int][k], fs[i].2))
}

/// Whether row `r` passes every filter.
fn row_passes(chunk: &TableChunk, filters: &Vec<(usize, (Value, Value))>, r: usize) -> (b: bool)
    requires
        filters_ok(chunk_view(chunk@), filters_view(filters@)),
    ensures
        b == row_kept(chunk_view(chunk@), filters_view(filters@), r as int),
{
    let ghost ch = chunk_view(chunk@);
    let ghost fv = filters_view(filters@);
    let mut i: usize = 0;
    while i < filters.len()
        invariant
            i <= filters@.len(),
            ch == chunk_view(chunk@),
            fv == filters_view(filters@),
            filters_ok(ch, fv),
            forall|q: int| 0 <= q < i ==> passes(ch, #[trigger] fv[q], r as int),
        decreases filters@.len() - i,
    {
        let (col, (lo, hi)) = &filters[i];
        proof {
            assert(fv[i as int] == (*col, lo@, hi@));
            assert(*col < ch.len());
        }
        let column = &chunk[*col];
        if r < column.len() {
            proof {
                assert(ch[*col as int][r as int] == column@[r as int]@);
                assert(same_type(ch[*col as int][r as int], lo@));
            }
            let elem = &column[r];
            if !(lo.less_eq(elem) && elem.less_eq(hi)) {
                return false;
            }
        }
        i = i + 1;
    }
    true
}

/// The rows of `chunk` that pass every filter `(column, (min, max))`
/// (inclusive bounds; a row past the end of a filtered column is not
/// tested on it), in order; every column keeps the values of those rows.
pub fn filter_chunk(chunk: TableChunk, filters: &Vec<(usize, (Value, Value))>) -> (r: TableChunk)
    requires
        filters_ok(chunk_view(chunk@), filters_view(filters@)),
    ensures
        chunk_view(r@) == filtered(chunk_view(chunk@), filters_view(filters@)),
{
    let ghost ch = chunk_view(chunk@);
    let ghost fv = filters_view(filters@);
    let mut out: TableChunk = Vec::new();
    let mut j: usize = 0;
    while j < chunk.len()
        invariant
            j <= chunk@.len(),
            ch == chunk_view(chunk@),
            fv == filters_view(filters@),
            filters_ok(ch, fv),
            out@.len() == j,
            forall|q: int| 0 <= q < j ==> column_view((#[trigger] out@[q])@) == kept_values(ch[q], ch, fv, ch[q].len() as int),
        decreases chunk@.len() - j,
    {
        let column = &chunk[j];
        let ghost c = ch[j as int];
        let mut kept: Vec<Value> = Vec::new();
        let mut k: usize = 0;
        while k < column.len()
            invariant
                k <= column@.len(),
                c == column_view(column@),
                ch == chunk_view(chunk@),
                fv == filters_view(filters@),
                filters_ok(ch, fv),
                column_view(kept@) == kept_values(c, ch, fv, k as int),
            decreases column@.len() - k,
        {
            if row_passes(&chunk, filters, k) {
                kept.push(column[k].copy());
            }
            proof {
                assert(c[k as int] == column@[k as int]@);
                assert(column_view(kept@) =~= kept_values(c, ch, fv, k + 1));
            }
            k = k + 1;
        }
        out.push(kept);
        j = j + 1;
    }
    proof {
        assert(chunk_view(out@) =~= filtered(ch, fv));
    }
    out
}

/// Column `j` is kept by the projection `sel` (all are for `None`).
pub open spec fn projected(sel: Option<Seq<usize>>, j: int) -> bool {
    match sel {
        None => true,
        Some(s) => s.contains(j as usize),
    }
}

/// Chunk `ch` with the columns that `sel` leaves out emptied.
pub open spec fn project(ch: Seq<Seq<ValueView>>, sel: Option<Seq<usize>>) -> Seq<Seq<ValueView>> {
    Seq::new(ch.len(), |j: int| if projected(sel, j) { ch[j] } else { seq![] })
}

/// The view of a column selection: `None` for all columns.
pub open spec fn columns_view(c: &Columns) -> Option<Seq<usize>> {
    match c {
        Columns::All => None,
        Columns::Selection(v) => Some(v@),
    }
}

/// Whether `sel` holds `x`.
fn selects(sel: &Vec<usize>, x: usize) -> (r: bool)
    ensures
        r == sel@.contains(x),
{
    let mut i: usize = 0;
    while i < sel.len()
        invariant
            i <= sel@.len(),
            forall|k: int| 0 <= k < i ==> sel@[k] != x,
        decreases sel@.len() - i,
    {
        if sel[i] == x {
            return true;
        }
        i = i + 1;
    }
    false
}

/// `chunk` with the columns that `col_project` leaves out emptied.
pub fn project_chunk(chunk: TableChunk, col_project: &Columns) -> (r: TableChunk)
    ensures
        chunk_view(r@) == project(chunk_view(chunk@), columns_view(col_project)),
{
    match col_project {
        Columns::All => {
            proof {
                assert(chunk_view(chunk@) =~= project(chunk_view(chunk@), None));
            }
            chunk
        },
        Columns::Selection(sel) => {
            let ghost ch = chunk_view(chunk@);
            let mut out: TableChunk = Vec::new();
            let mut j: usize = 0;
            while j < chunk.len()
                invariant
                    j <= chunk@.len(),
                    ch == chunk_view(chunk@),
                    out@.len() == j,
                    forall|q: int|
                        0 <= q < j ==> column_view((#[trigger] out@[q])@) == project(ch, Some(sel@))[q],
                decreases chunk@.len() - j,
            {
                if selects(sel, j) {
                    out.push(super::copy_column(&chunk[j]));
                } else {
                    let empty: Vec<Value> = Vec::new();
                    proof {
                        assert(column_view(empty@) =~= Seq::<ValueView>::empty());
                    }
                    out.push(empty);
                }
                j = j + 1;
            }
            proof {
                assert(chunk_view(out@) =~= project(ch, Some(sel@)));
            }
            out
        },
    }
}

/// Scans data files: one chunk per file, with the columns that the
/// projection leaves out emptied.
pub struct ColumnTableScan<S: StorageTrait> {
    files: Vec<FileHandle>,
    col_project: Columns,
    storage: S,
    open: bool,
    index: usize,
    history: Ghost<Seq<Option<TableChunk>>>,
}

impl<S: StorageTrait> ColumnTableScan<S> {
    /// A closed scan of `files`.
    pub fn new(files: Vec<FileHandle>, col_project: Columns, storage: S) -> (s: Self)
        ensures
            s.files() == files@,
            s.position() == 0,
            !s.is_open(),
    {
        ColumnTableScan { files, col_project, storage, open: false, index: 0, history: Ghost(Seq::empty()) }
    }

    /// The files to scan.
    pub closed spec fn files(&self) -> Seq<FileHandle> {
        self.files@
    }

    /// The number of files handed out (or failed) so far.
    pub closed spec fn position(&self) -> int {
        self.index as int
    }

    /// The storage.
    pub closed spec fn storage(&self) -> S {
        self.storage
    }

    /// The projection.
    pub closed spec fn projection(&self) -> Option<Seq<usize>> {
        columns_view(&self.col_project)
    }

    /// The next file's chunk, projected; `None` when all files were
    /// scanned, or when the next file cannot be read or parsed.
    pub fn next_chunk(&mut self) -> (r: Option<TableChunk>)
        ensures
            final(self).files() == old(self).files(),
            final(self).storage() == old(self).storage(),
            final(self).projection() == old(self).projection(),
            final(self).is_open() == old(self).is_open(),
            final(self).history() == old(self).history(),
            old(self).position() >= old(self).files().len() ==> r is None && final(self).position() == old(self).position(),
            old(self).position() < old(self).files().len() ==> final(self).position() == old(self).position() + 1,
            ({
                let h = old(self).files()[old(self).position()];
                let stored = old(self).storage().stored();
                old(self).position() < old(self).files().len() && old(self).storage().reliable() && stored.contains_key(
                    h.0,
                ) && decode(stored[h.0], None) is Ok ==> r is Some
            }),
            r is Some ==> ({
                let h = old(self).files()[old(self).position()];
                &&& old(self).position() < old(self).files().len()
                &&& old(self).storage().stored().contains_key(h.0)
                &&& decode(old(self).storage().stored()[h.0], None) is Ok
                &&& chunk_view(r->Some_0@) == project(
                    decode(old(self).storage().stored()[h.0], None)->Ok_0.data,
                    old(self).projection(),
                )
            }),
    {
        if self.index >= self.files.len() {
            return None;
        }
        let handle = self.files[self.index];
        self.index = self.index + 1;
        let read = self.storage.read_file(&handle);
        chunk_from_read(read, &self.col_project)
    }
}

/// The chunk that a scan hands out for what a read of its storage gave:
/// the file decoded and projected; `None` when the read failed or the bytes
/// do not hold a data file.
pub fn chunk_from_read(read: Result<Vec<u8>, DatabaseError>, col_project: &Columns) -> (r: Option<TableChunk>)
    ensures
        match read {
            Err(_) => r is None,
            Ok(b) => match decode(b@, None) {
                Ok(f) => r is Some && chunk_view(r->Some_0@) == project(f.data, columns_view(col_project)),
                Err(_) => r is None,
            },
        },
{
    let bytes = match read {
        Ok(b) => b,
        Err(_) => {
            return None;
        },
    };
    let data_file = match DataFile::parse(bytes.as_slice()) {
        Ok(f) => f,
        Err(_) => {
            return None;
        },
    };
    Some(project_chunk(data_file.data, col_project))
}

impl<S: StorageTrait> Operator for ColumnTableScan<S> {
    closed spec fn history(&self) -> Seq<Option<TableChunk>> {
        self.history@
    }

    closed spec fn is_open(&self) -> bool {
        self.open
    }

    closed spec fn remaining(&self) -> nat {
        if self.index < self.files@.len() {
            (self.files@.len() - self.index) as nat
        } else {
            0
        }
    }

    /// Whether the next read of the storage succeeds is not known in
    /// advance, so the next chunk is not told.
    closed spec fn upcoming(&self) -> Option<Seq<Seq<ValueView>>> {
        None
    }

    /// Starts at the first file.
    fn open(&mut self)
        ensures
            final(self).position() == 0,
            final(self).files() == old(self).files(),
            final(self).storage() == old(self).storage(),
            final(self).projection() == old(self).projection(),
    {
        self.open = true;
        self.index = 0;
    }

    /// See [`ColumnTableScan::next_chunk`].
    fn next(&mut self) -> (r: Option<TableChunk>)
        ensures
            final(self).files() == old(self).files(),
            final(self).storage() == old(self).storage(),
            final(self).projection() == old(self).projection(),
            old(self).position() >= old(self).files().len() ==> r is None && final(self).position() == old(self).position(),
            old(self).position() < old(self).files().len() ==> final(self).position() == old(self).position() + 1,
            ({
                let h = old(self).files()[old(self).position()];
                let stored = old(self).storage().stored();
                old(self).position() < old(self).files().len() && old(self).storage().reliable() && stored.contains_key(
                    h.0,
                ) && decode(stored[h.0], None) is Ok ==> r is Some
            }),
            r is Some ==> ({
                let h = old(self).files()[old(self).position()];
                &&& old(self).position() < old(self).files().len()
                &&& old(self).storage().stored().contains_key(h.0)
                &&& decode(old(self).storage().stored()[h.0], None) is Ok
                &&& chunk_view(r->Some_0@) == project(
                    decode(old(self).storage().stored()[h.0], None)->Ok_0.data,
                    old(self).projection(),
                )
            }),
    {
        let r = self.next_chunk();
        self.history = Ghost(self.history@.push(r));
        r
    }

    fn close(&mut self) {
        self.open = false;
        self.index = 0;
    }
}

/// Keeps the rows of its child's chunks that pass every range filter.
pub struct ColumnFilter<C: Operator> {
    child: C,
    filters: Vec<(usize, (Value, Value))>,
    open: bool,
    history: Ghost<Seq<Option<TableChunk>>>,
}

impl<C: Operator> ColumnFilter<C> {
    /// A closed filter over `child`.
    pub fn new(child: C, filters: Vec<(usize, (Value, Value))>) -> (f: Self)
        ensures
            f.child() == child,
            filters_view(f.filters()) == filters_view(filters@),
            !f.is_open(),
    {
        ColumnFilter { child, filters, open: false, history: Ghost(Seq::empty()) }
    }

    /// The child operator.
    pub closed spec fn child(&self) -> C {
        self.child
    }

    /// The filters.
    pub closed spec fn filters(&self) -> Seq<(usize, (Value, Value))> {
        self.filters@
    }

    /// Filters `chunk` as [`Operator::next`] does with the chunk it pulls.
    pub fn filter(&self, chunk: TableChunk) -> (r: TableChunk)
        requires
            filters_ok(chunk_view(chunk@), filters_view(self.filters())),
        ensures
            chunk_view(r@) == filtered(chunk_view(chunk@), filters_view(self.filters())),
    {
        filter_chunk(chunk, &self.filters)
    }
}

impl<C: Operator> Operator for ColumnFilter<C> {
    closed spec fn history(&self) -> Seq<Option<TableChunk>> {
        self.history@
    }

    closed spec fn is_open(&self) -> bool {
        self.open && self.child.is_open()
    }

    closed spec fn remaining(&self) -> nat {
        self.child.remaining()
    }

    /// The child's upcoming chunk, filtered, when the filters can be tested
    /// on it.
    closed spec fn upcoming(&self) -> Option<Seq<Seq<ValueView>>> {
        match self.child.upcoming() {
            Some(c) => if filters_ok(c, filters_view(self.filters@)) {
                Some(filtered(c, filters_view(self.filters@)))
            } else {
                None
            },
            None => None,
        }
    }

    fn open(&mut self) {
        self.open = true;
        self.child.open();
    }

    /// The next chunk of the child, reduced to the rows that pass every
    /// filter; `None` when the child hands out `None`, or a chunk the
    /// filters cannot be tested on.
    fn next(&mut self) -> (r: Option<TableChunk>)
        ensures
            filters_view(final(self).filters()) == filters_view(old(self).filters()),
            final(self).child().history().drop_last() == old(self).child().history(),
            final(self).child().history().len() == old(self).child().history().len() + 1,
            match chunk_opt(final(self).child().history().last()) {
                None => r is None,
                Some(c) => if filters_ok(c, filters_view(old(self).filters())) {
                    r is Some && chunk_view(r->Some_0@) == filtered(c, filters_view(old(self).filters()))
                } else {
                    r is None
                },
            },
    {
        let r = match self.child.next() {
            None => None,
            Some(chunk) => {
                if !filters_apply(&chunk, &self.filters) {
                    None
                } else {
                    Some(filter_chunk(chunk, &self.filters))
                }
            },
        };
        self.history = Ghost(self.history@.push(r));
        r
    }

    fn close(&mut self) {
        self.open = false;
        self.child.close();
    }
}

/// Whether the filters can be tested on `chunk`: see [`filters_ok`].
pub fn filters_apply(chunk: &TableChunk, filters: &Vec<(usize, (Value, Value))>) -> (r: bool)
    ensures
        r == filters_ok(chunk_view(chunk@), filters_view(filters@)),
{
    let ghost ch = chunk_view(chunk@);
    let ghost fv = filters_view(filters@);
    let mut i: usize = 0;
    while i < filters.len()
        invariant
            i <= filters@.len(),
            ch == chunk_view(chunk@),
            fv == filters_view(filters@),
            forall|q: int|
                0 <= q < i ==> (#[trigger] fv[q]).0 < ch.len() && forall|k: int|
                    0 <= k < ch[fv[q].0 as int].len() ==> same_type(#[trigger] ch[fv[q].0 as int][k], fv[q].1) && (
                    value_le(fv[q].1, ch[fv[q].0 as int][k]) ==> same_type(ch[fv[q].0 as int][k], fv[q].2)),
        decreases filters@.len() - i,
    {
        let (col, (lo, hi)) = &filters[i];
        proof {
            assert(fv[i as int] == (*col, lo@, hi@));
        }
        if *col >= chunk.len() {
            return false;
        }
        let column = &chunk[*col];
        let ghost c = ch[*col as int];
        let mut k: usize = 0;
        while k < column.len()
            invariant
                k <= column@.len(),
                c == column_view(column@),
                ch == chunk_view(chunk@),
                fv == filters_view(filters@),
                i < filters@.len(),
                fv[i as int] == (*col, lo@, hi@),
                *col < ch.len(),
                c == ch[*col as int],
                forall|q: int|
                    0 <= q < k ==> same_type(#[trigger] c[q], lo@) && (value_le(lo@, c[q]) ==> same_type(c[q], hi@)),
            decreases column@.len() - k,
        {
            let elem = &column[k];
            proof {
                assert(c[k as int] == elem@);
            }
            if !same_kind(elem, lo) {
                proof {
                    assert(!same_type(ch[fv[i as int].0 as int][k as int], fv[i as int].1));
                }
                return false;
            }
            if lo.less_eq(elem) && !same_kind(elem, hi) {
                proof {
                    assert(!same_type(ch[fv[i as int].0 as int][k as int], fv[i as int].2));
                }
                return false;
            }
            k = k + 1;
        }
        i = i + 1;
    }
    true
}

/// Whether `a` and `b` have the same type.
fn same_kind(a: &Value, b: &Value) -> (r: bool)
    ensures
        r == same_type(a@, b@),
{
    a.get_id() == b.get_id()
}

impl Value {
    /// Whether `self` and `other` are the same value.
    pub fn equals(&self, other: &Value) -> (r: bool)
        ensures
            r == (self@ == other@),
    {
        match (self, other) {
            (Value::Int(x), Value::Int(y)) => *x == *y,
            (Value::UInt(x), Value::UInt(y)) => *x == *y,
            (Value::RowID(x), Value::RowID(y)) => x.0 == y.0,
            (Value::Varchar(x), Value::Varchar(y)) => *x == *y,
            _ => false,
        }
    }
}

/// Index of the last of the keys `0..k` equal to `v`, or -1.
pub open spec fn last_match(keys: Seq<ValueView>, v: ValueView, k: int) -> int
    decreases k,
{
    if k <= 0 {
        -1
    } else if keys[k - 1] == v {
        k - 1
    } else {
        last_match(keys, v, k - 1)
    }
}

proof fn lemma_last_match_range(keys: Seq<ValueView>, v: ValueView, k: int)
    ensures
        -1 <= last_match(keys, v, k) < if k > 0 { k } else { 0 },
        last_match(keys, v, k) >= 0 ==> keys[last_match(keys, v, k)] == v,
        forall|l: int| last_match(keys, v, k) < l < k ==> #[trigger] keys[l] != v,
    decreases k,
{
    if k > 0 {
        lemma_last_match_range(keys, v, k - 1);
    }
}

/// The pairs of a join are exactly the matches of the right rows `0..i`:
/// each pairs a right row with a left row of equal key, no later left row
/// has that key, the right rows come in increasing order, and a right row
/// has a pair exactly when some left row has its key.
pub proof fn lemma_join_pairs(keys: Seq<ValueView>, right_keys: Seq<ValueView>, i: int)
    requires
        0 <= i <= right_keys.len(),
    ensures
        forall|j: int|
            0 <= j < join_pairs(keys, right_keys, i).len() ==> {
                let p = #[trigger] join_pairs(keys, right_keys, i)[j];
                &&& 0 <= p.0 < keys.len()
                &&& 0 <= p.1 < i
                &&& keys[p.0] == right_keys[p.1]
                &&& forall|l: int| p.0 < l < keys.len() ==> #[trigger] keys[l] != right_keys[p.1]
            },
        forall|j1: int, j2: int|
            0 <= j1 < j2 < join_pairs(keys, right_keys, i).len() ==> (#[trigger] join_pairs(keys, right_keys, i)[j1]).1
                < (#[trigger] join_pairs(keys, right_keys, i)[j2]).1,
        forall|r: int|
            #![trigger right_keys[r]]
            0 <= r < i ==> ((exists|l: int| 0 <= l < keys.len() && #[trigger] keys[l] == right_keys[r]) <==> exists|
                j: int,
            |
                0 <= j < join_pairs(keys, right_keys, i).len() && (#[trigger] join_pairs(keys, right_keys, i)[j]).1 == r),
    decreases i,
{
    if i > 0 {
        lemma_join_pairs(keys, right_keys, i - 1);
        let prev = join_pairs(keys, right_keys, i - 1);
        let ps = join_pairs(keys, right_keys, i);
        let v = right_keys[i - 1];
        let m = last_match(keys, v, keys.len() as int);
        lemma_last_match_range(keys, v, keys.len() as int);
        if m >= 0 {
            assert(ps == prev + seq![(m, i - 1)]);
            assert(ps[prev.len() as int] == (m, i - 1));
        } else {
            assert(ps == prev);
        }
        assert forall|j: int| 0 <= j < prev.len() implies #[trigger] ps[j] == prev[j] by {}
        assert forall|r: int| #![trigger right_keys[r]] 0 <= r < i implies ((exists|l: int| 0 <= l < keys.len() && #[trigger] keys[l] == right_keys[r]) <==> exists|
            j: int,
        | 0 <= j < ps.len() && (#[trigger] ps[j]).1 == r) by {
            if r < i - 1 {
                if exists|j: int| 0 <= j < ps.len() && (#[trigger] ps[j]).1 == r {
                    let j = choose|j: int| 0 <= j < ps.len() && (#[trigger] ps[j]).1 == r;
                    assert(j < prev.len());
                    assert(prev[j].1 == r);
                }
                if exists|j: int| 0 <= j < prev.len() && (#[trigger] prev[j]).1 == r {
                    let j = choose|j: int| 0 <= j < prev.len() && (#[trigger] prev[j]).1 == r;
                    assert(ps[j].1 == r);
                }
            } else {
                if m >= 0 {
                    assert(keys[m] == right_keys[r]);
                    assert(ps[prev.len() as int].1 == r);
                } else {
                    if exists|j: int| 0 <= j < ps.len() && (#[trigger] ps[j]).1 == r {
                        let j = choose|j: int| 0 <= j < ps.len() && (#[trigger] ps[j]).1 == r;
                        assert(prev[j].1 == r);
                    }
                }
            }
        }
    }
}

/// The pairs `(left row, right row)` that join, for the right rows `0..i`
/// in order: each right row with the last left row of equal key.
pub open spec fn join_pairs(keys: Seq<ValueView>, right_keys: Seq<ValueView>, i: int) -> Seq<(int, int)>
    decreases i,
{
    if i <= 0 {
        seq![]
    } else {
        let m = last_match(keys, right_keys[i - 1], keys.len() as int);
        join_pairs(keys, right_keys, i - 1) + if m >= 0 {
            seq![(m, i - 1)]
        } else {
            seq![]
        }
    }
}

/// The joined chunk: the left columns, then the right columns, each
/// holding the values of the joining rows (an empty column stays empty).
pub open spec fn joined(left: Seq<Seq<ValueView>>, lk: int, right: Seq<Seq<ValueView>>, rk: int) -> Seq<Seq<ValueView>> {
    let ps = join_pairs(left[lk], right[rk], right[rk].len() as int);
    Seq::new(
        left.len() + right.len(),
        |c: int|
            if c < left.len() {
                if left[c].len() == 0 {
                    seq![]
                } else {
                    ps.map_values(|p: (int, int)| left[c][p.0])
                }
            } else {
                if right[c - left.len()].len() == 0 {
                    seq![]
                } else {
                    ps.map_values(|p: (int, int)| right[c - left.len()][p.1])
                }
            },
    )
}

/// The join can run: the key columns exist and every non-empty column is
/// as long as its side's key column.
pub open spec fn join_ok(left: Seq<Seq<ValueView>>, lk: int, right: Seq<Seq<ValueView>>, rk: int) -> bool {
    &&& 0 <= lk < left.len()
    &&& 0 <= rk < right.len()
    &&& left.len() + right.len() <= usize::MAX
    &&& forall|c: int| 0 <= c < left.len() && left[c].len() > 0 ==> (#[trigger] left[c]).len() >= left[lk].len()
    &&& forall|c: int| 0 <= c < right.len() && right[c].len() > 0 ==> (#[trigger] right[c]).len() >= right[rk].len()
}

/// The last left row whose key equals `v`.
fn find_last(keys: &Vec<Value>, v: &Value) -> (r: Option<usize>)
    ensures
        match r {
            Some(m) => last_match(column_view(keys@), v@, keys@.len() as int) == m,
            None => last_match(column_view(keys@), v@, keys@.len() as int) == -1,
        },
{
    let ghost ks = column_view(keys@);
    let mut k: usize = keys.len();
    while k > 0
        invariant
            k <= keys@.len(),
            ks == column_view(keys@),
            last_match(ks, v@, keys@.len() as int) == last_match(ks, v@, k as int),
        decreases k,
    {
        if keys[k - 1].equals(v) {
            return Some(k - 1);
        }
        k = k - 1;
    }
    None
}

/// Joins `right` with `left` on `left[lk] == right[rk]`: see [`joined`].
pub fn join_chunk(left: &TableChunk, lk: usize, right: &TableChunk, rk: usize) -> (r: TableChunk)
    requires
        join_ok(chunk_view(left@), lk as int, chunk_view(right@), rk as int),
    ensures
        chunk_view(r@) == joined(chunk_view(left@), lk as int, chunk_view(right@), rk as int),
{
    let ghost lv = chunk_view(left@);
    let ghost rv = chunk_view(right@);
    let ghost keys = lv[lk as int];
    let ghost rkeys = rv[rk as int];
    let nl = left.len();
    let nr = right.len();
    let mut out: TableChunk = Vec::new();
    let mut c: usize = 0;
    let total = nl + nr;
    while c < total
        invariant
            total == nl + nr,
            c <= nl + nr,
            nl == left@.len(),
            nr == right@.len(),
            out@.len() == c,
            forall|q: int| 0 <= q < c ==> (#[trigger] out@[q])@.len() == 0,
        decreases total - c,
    {
        out.push(Vec::new());
        c = c + 1;
    }
    let right_rows = right[rk].len();
    let mut i: usize = 0;
    while i < right_rows
        invariant
            i <= right_rows,
            lv == chunk_view(left@),
            rv == chunk_view(right@),
            keys == lv[lk as int],
            rkeys == rv[rk as int],
            right_rows == rkeys.len(),
            join_ok(lv, lk as int, rv, rk as int),
            nl == left@.len(),
            nr == right@.len(),
            total == nl + nr,
            out@.len() == nl + nr,
            forall|q: int|
                0 <= q < nl + nr ==> column_view((#[trigger] out@[q])@) == {
                    let ps = join_pairs(keys, rkeys, i as int);
                    if q < nl {
                        if lv[q].len() == 0 {
                            seq![]
                        } else {
                            ps.map_values(|p: (int, int)| lv[q][p.0])
                        }
                    } else {
                        if rv[q - nl].len() == 0 {
                            seq![]
                        } else {
                            ps.map_values(|p: (int, int)| rv[q - nl][p.1])
                        }
                    }
                },
        decreases right_rows - i,
    {
        let value = &right[rk][i];
        let found = find_last(&left[lk], value);
        proof {
            assert(rkeys[i as int] == value@);
        }
        let ghost ps0 = join_pairs(keys, rkeys, i as int);
        proof {
            lemma_last_match_range(keys, rkeys[i as int], keys.len() as int);
            assert(keys == column_view(left@[lk as int]@));
        }
        match found {
            Some(m) => {
                let ghost before = out@;
                let mut c: usize = 0;
                while c < total
                    invariant
                        total == nl + nr,
                        c <= nl + nr,
                        lv == chunk_view(left@),
                        rv == chunk_view(right@),
                        keys == lv[lk as int],
                        rkeys == rv[rk as int],
                        join_ok(lv, lk as int, rv, rk as int),
                        nl == left@.len(),
                        nr == right@.len(),
                        i < rkeys.len(),
                        m < keys.len(),
                        out@.len() == nl + nr,
                        before.len() == nl + nr,
                        forall|q: int|
                            0 <= q < nl + nr ==> column_view((#[trigger] out@[q])@) == if q < c {
                                let extra = if q < nl {
                                    if lv[q].len() == 0 { seq![] } else { seq![lv[q][m as int]] }
                                } else {
                                    if rv[q - nl].len() == 0 { seq![] } else { seq![rv[q - nl][i as int]] }
                                };
                                column_view(before[q]@) + extra
                            } else {
                                column_view(before[q]@)
                            },
                    decreases total - c,
                {
                    if c < nl {
                        let column = &left[c];
                        if column.len() > 0 {
                            proof {
                                assert(lv[c as int] == column_view(column@));
                            }
                            let v = column[m].copy();
                            let col = &mut out[c];
                            col.push(v);
                            proof {
                                assert(column_view(out@[c as int]@) =~= column_view(before[c as int]@) + seq![
                                    lv[c as int][m as int],
                                ]);
                            }
                        } else {
                            proof {
                                assert(lv[c as int].len() == 0);
                                assert(column_view(out@[c as int]@) =~= column_view(before[c as int]@) + Seq::<ValueView>::empty());
                            }
                        }
                    } else {
                        let column = &right[c - nl];
                        if column.len() > 0 {
                            proof {
                                assert(rv[c - nl] == column_view(column@));
                            }
                            let v = column[i].copy();
                            let col = &mut out[c];
                            col.push(v);
                            proof {
                                assert(column_view(out@[c as int]@) =~= column_view(before[c as int]@) + seq![
                                    rv[c - nl][i as int],
                                ]);
                            }
                        } else {
                            proof {
                                assert(rv[c - nl].len() == 0);
                                assert(column_view(out@[c as int]@) =~= column_view(before[c as int]@) + Seq::<ValueView>::empty());
                            }
                        }
                    }
                    c = c + 1;
                }
                proof {
                    let ps1 = join_pairs(keys, rkeys, i + 1);
                    assert(ps1 == ps0.push((m as int, i as int)));
                    assert forall|q: int| 0 <= q < nl + nr implies column_view((#[trigger] out@[q])@) == (if q < nl {
                        if lv[q].len() == 0 {
                            seq![]
                        } else {
                            ps1.map_values(|p: (int, int)| lv[q][p.0])
                        }
                    } else {
                        if rv[q - nl].len() == 0 {
                            seq![]
                        } else {
                            ps1.map_values(|p: (int, int)| rv[q - nl][p.1])
                        }
                    }) by {
                        if q < nl {
                            if lv[q].len() > 0 {
                                assert(ps1.map_values(|p: (int, int)| lv[q][p.0]) =~= ps0.map_values(
                                    |p: (int, int)| lv[q][p.0],
                                ).push(lv[q][m as int]));
                            }
                        } else {
                            if rv[q - nl].len() > 0 {
                                assert(ps1.map_values(|p: (int, int)| rv[q - nl][p.1]) =~= ps0.map_values(
                                    |p: (int, int)| rv[q - nl][p.1],
                                ).push(rv[q - nl][i as int]));
                            }
                        }
                    }
                }
            },
            None => {
                proof {
                    assert(join_pairs(keys, rkeys, i + 1) == ps0);
                }
            },
        }
        i = i + 1;
    }
    proof {
        assert(chunk_view(out@) =~= joined(lv, lk as int, rv, rk as int));
    }
    out
}

/// Whether the join can run: see [`join_ok`].
pub fn join_applies(left: &TableChunk, lk: usize, right: &TableChunk, rk: usize) -> (r: bool)
    ensures
        r == join_ok(chunk_view(left@), lk as int, chunk_view(right@), rk as int),
{
    let ghost lv = chunk_view(left@);
    let ghost rv = chunk_view(right@);
    if lk >= left.len() || rk >= right.len() || left.len() > usize::MAX - right.len() {
        return false;
    }
    let lrows = left[lk].len();
    let rrows = right[rk].len();
    let mut c: usize = 0;
    while c < left.len()
        invariant
            c <= left@.len(),
            lv == chunk_view(left@),
            lk < left@.len(),
            lrows == lv[lk as int].len(),
            forall|q: int| 0 <= q < c && lv[q].len() > 0 ==> (#[trigger] lv[q]).len() >= lrows,
        decreases left@.len() - c,
    {
        if left[c].len() > 0 && left[c].len() < lrows {
            proof {
                assert(lv[c as int].len() == left@[c as int]@.len());
            }
            return false;
        }
        proof {
            assert(lv[c as int].len() == left@[c as int]@.len());
        }
        c = c + 1;
    }
    let mut c: usize = 0;
    while c < right.len()
        invariant
            c <= right@.len(),
            rv == chunk_view(right@),
            rk < right@.len(),
            rrows == rv[rk as int].len(),
            forall|q: int| 0 <= q < c && rv[q].len() > 0 ==> (#[trigger] rv[q]).len() >= rrows,
        decreases right@.len() - c,
    {
        if right[c].len() > 0 && right[c].len() < rrows {
            proof {
                assert(rv[c as int].len() == right@[c as int]@.len());
            }
            return false;
        }
        proof {
            assert(rv[c as int].len() == right@[c as int]@.len());
        }
        c = c + 1;
    }
    true
}

/// Appends the columns of `chunk` to those of `data`, column by column, as
/// far as both have columns.
pub fn append_chunk(data: &mut TableChunk, chunk: &TableChunk)
    ensures
        chunk_view(final(data)@).len() == chunk_view(old(data)@).len(),
        forall|c: int|
            0 <= c < old(data)@.len() ==> #[trigger] chunk_view(final(data)@)[c] == if c < chunk@.len() {
                chunk_view(old(data)@)[c] + chunk_view(chunk@)[c]
            } else {
                chunk_view(old(data)@)[c]
            },
{
    let ghost d0 = chunk_view(data@);
    let mut c: usize = 0;
    while c < data.len() && c < chunk.len()
        invariant
            c <= data@.len(),
            c <= chunk@.len(),
            data@.len() == d0.len(),
            d0 == chunk_view(old(data)@),
            forall|q: int|
                0 <= q < d0.len() ==> #[trigger] chunk_view(data@)[q] == if q < c {
                    d0[q] + chunk_view(chunk@)[q]
                } else {
                    d0[q]
                },
        decreases data@.len() - c,
    {
        let source = &chunk[c];
        let ghost dstart = data@;
        proof {
            assert(chunk_view(dstart)[c as int] == column_view(dstart[c as int]@));
        }
        let mut k: usize = 0;
        while k < source.len()
            invariant
                k <= source@.len(),
                c < data@.len(),
                c < chunk@.len(),
                data@.len() == dstart.len(),
                forall|q: int| 0 <= q < dstart.len() && q != c ==> #[trigger] data@[q] == dstart[q],
                column_view(data@[c as int]@) == column_view(dstart[c as int]@) + column_view(source@.subrange(0, k as int)),
            decreases source@.len() - k,
        {
            let v = source[k].copy();
            let ghost prev = data@[c as int]@;
            let col = &mut data[c];
            col.push(v);
            proof {
                assert(data@[c as int]@ == prev.push(v));
                assert(column_view(source@.subrange(0, k + 1)) =~= column_view(source@.subrange(0, k as int)).push(v@));
                assert(column_view(prev.push(v)) =~= column_view(prev).push(v@));
                assert(column_view(data@[c as int]@) =~= column_view(dstart[c as int]@) + column_view(source@.subrange(0, k + 1)));
            }
            k = k + 1;
        }
        proof {
            assert(source@.subrange(0, source@.len() as int) == source@);
            assert forall|q: int| 0 <= q < d0.len() implies #[trigger] chunk_view(data@)[q] == if q < c + 1 {
                d0[q] + chunk_view(chunk@)[q]
            } else {
                d0[q]
            } by {
                if q != c {
                    assert(data@[q] == dstart[q]);
                    assert(chunk_view(dstart)[q] == chunk_view(data@)[q]);
                } else {
                    assert(chunk_view(chunk@)[q] == column_view(source@));
                }
            }
        }
        c = c + 1;
    }
}

/// Hash-free equi join: collects all chunks of the left child on open,
/// then joins each chunk of the right child with them.
pub struct ColumnEqJoin<L: Operator, R: Operator> {
    left_data: TableChunk,
    child0: L,
    child1: R,
    join_column_idxs: (usize, usize),
    open: bool,
    history: Ghost<Seq<Option<TableChunk>>>,
}

impl<L: Operator, R: Operator> ColumnEqJoin<L, R> {
    /// A closed join of `child0` (left) and `child1` (right) on the columns
    /// `join_column_idxs`.
    pub fn new(child0: L, child1: R, join_column_idxs: (usize, usize)) -> (j: Self)
        ensures
            j.left() == child0,
            j.right() == child1,
            j.keys() == join_column_idxs,
            !j.is_open(),
    {
        ColumnEqJoin { left_data: Vec::new(), child0, child1, join_column_idxs, open: false, history: Ghost(Seq::empty()) }
    }

    /// The left child.
    pub closed spec fn left(&self) -> L {
        self.child0
    }

    /// The right child.
    pub closed spec fn right(&self) -> R {
        self.child1
    }

    /// The join columns.
    pub closed spec fn keys(&self) -> (usize, usize) {
        self.join_column_idxs
    }

    /// The collected left data.
    pub closed spec fn left_data(&self) -> Seq<Seq<ValueView>> {
        chunk_view(self.left_data@)
    }

    /// Joins `chunk` with the collected left data as [`Operator::next`]
    /// does with the chunk it pulls.
    pub fn join(&self, chunk: &TableChunk) -> (r: Option<TableChunk>)
        ensures
            join_ok(self.left_data(), self.keys().0 as int, chunk_view(chunk@), self.keys().1 as int) <==> r is Some,
            r is Some ==> chunk_view(r->Some_0@) == joined(
                self.left_data(),
                self.keys().0 as int,
                chunk_view(chunk@),
                self.keys().1 as int,
            ),
    {
        let (lk, rk) = self.join_column_idxs;
        if !join_applies(&self.left_data, lk, chunk, rk) {
            return None;
        }
        Some(join_chunk(&self.left_data, lk, chunk, rk))
    }
}

impl<L: Operator, R: Operator> Operator for ColumnEqJoin<L, R> {
    closed spec fn history(&self) -> Seq<Option<TableChunk>> {
        self.history@
    }

    closed spec fn is_open(&self) -> bool {
        self.open && self.child0.is_open() && self.child1.is_open()
    }

    closed spec fn remaining(&self) -> nat {
        self.child1.remaining()
    }

    /// The right child's upcoming chunk joined with the left data, when the
    /// join can run on it.
    closed spec fn upcoming(&self) -> Option<Seq<Seq<ValueView>>> {
        match self.child1.upcoming() {
            Some(c) => if join_ok(self.left_data(), self.keys().0 as int, c, self.keys().1 as int) {
                Some(joined(self.left_data(), self.keys().0 as int, c, self.keys().1 as int))
            } else {
                None
            },
            None => None,
        }
    }

    /// Opens both children and collects every chunk of the left one; the
    /// first chunk fixes the number of columns.
    fn open(&mut self)
        ensures
            final(self).keys() == old(self).keys(),
            ({
                let p = pulled_since(old(self).left().history(), final(self).left().history());
                &&& final(self).left().history().subrange(0, old(self).left().history().len() as int)
                    == old(self).left().history()
                &&& drained(p)
                &&& final(self).left_data() == collected(pulled_views(p.drop_last()))
            }),
    {
        self.child0.open();
        self.child1.open();
        self.open = true;
        self.left_data = Vec::new();
        let ghost h0 = self.child0.history();
        let first_pull = self.child0.next();
        let ghost h1 = self.child0.history();
        proof {
            assert(h1.subrange(0, h0.len() as int) =~= h0);
            assert(pulled_since(h0, h1) =~= seq![first_pull]);
        }
        match first_pull {
            None => {
                proof {
                    assert(h0 == old(self).child0.history());
                    let p = pulled_since(h0, h1);
                    assert(p.len() == 1 && p[0] is None);
                    assert(drained(p));
                    assert(p.drop_last() =~= Seq::<Option<TableChunk>>::empty());
                    assert(pulled_views(p.drop_last()) =~= Seq::<Seq<Seq<ValueView>>>::empty());
                    assert(chunk_view(self.left_data@) =~= Seq::<Seq<ValueView>>::empty());
                }
            },
            Some(first) => {
                let mut c: usize = 0;
                while c < first.len()
                    invariant
                        self.open,
                        self.child0.is_open(),
                        self.child1.is_open(),
                        self.history == old(self).history,
                        self.join_column_idxs == old(self).join_column_idxs,
                        self.child0.history() == h1,
                        c <= first@.len(),
                        self.left_data@.len() == c,
                        forall|k: int| 0 <= k < c ==> (#[trigger] self.left_data@[k])@.len() == 0,
                    decreases first@.len() - c,
                {
                    self.left_data.push(Vec::new());
                    c = c + 1;
                }
                append_chunk(&mut self.left_data, &first);
                proof {
                    let cs = seq![chunk_view(first@)];
                    assert forall|k: int| 0 <= k < first@.len() implies #[trigger] chunk_view(self.left_data@)[k]
                        == column_concat(cs, k, 1) by {
                        assert(column_concat(cs, k, 0) =~= Seq::<ValueView>::empty());
                    }
                    assert(chunk_view(self.left_data@) =~= collected(cs));
                    assert(pulled_views(seq![first_pull]) =~= cs);
                }
                loop
                    invariant_except_break
                        forall|i: int|
                            h0.len() <= i < self.child0.history().len() ==> #[trigger] self.child0.history()[i] is Some,
                        chunk_view(self.left_data@) == collected(pulled_views(pulled_since(h0, self.child0.history()))),
                    invariant
                        self.open,
                        self.child0.is_open(),
                        self.child1.is_open(),
                        self.history == old(self).history,
                        self.join_column_idxs == old(self).join_column_idxs,
                        self.child0.history().len() > h0.len(),
                        self.child0.history().subrange(0, h0.len() as int) == h0,
                        h0 == old(self).child0.history(),
                    ensures
                        drained(pulled_since(h0, self.child0.history())),
                        chunk_view(self.left_data@) == collected(
                            pulled_views(pulled_since(h0, self.child0.history()).drop_last()),
                        ),
                    decreases self.child0.remaining(),
                {
                    let ghost hb = self.child0.history();
                    let pulled = self.child0.next();
                    let ghost ha = self.child0.history();
                    proof {
                        assert(ha.subrange(0, h0.len() as int) =~= h0);
                        assert(pulled_since(h0, ha) =~= pulled_since(h0, hb).push(pulled));
                    }
                    match pulled {
                        Some(chunk) => {
                            let ghost d0 = chunk_view(self.left_data@);
                            append_chunk(&mut self.left_data, &chunk);
                            proof {
                                let cs0 = pulled_views(pulled_since(h0, hb));
                                let cs1 = pulled_views(pulled_since(h0, ha));
                                assert(cs1 =~= cs0.push(chunk_view(chunk@)));
                                assert(cs0.len() >= 1);
                                assert forall|k: int| 0 <= k < d0.len() implies #[trigger] chunk_view(self.left_data@)[k]
                                    == column_concat(cs1, k, cs1.len() as int) by {
                                    lemma_column_concat_prefix(cs0, chunk_view(chunk@), k, cs0.len() as int);
                                }
                                assert(cs1[0] == cs0[0]);
                                assert(chunk_view(self.left_data@) =~= collected(cs1));
                                assert forall|i: int| h0.len() <= i < ha.len() implies #[trigger] ha[i] is Some by {
                                    if i < hb.len() {
                                        assert(ha[i] == hb[i]);
                                    }
                                }
                            }
                        },
                        None => {
                            proof {
                                let p = pulled_since(h0, ha);
                                assert(p.drop_last() =~= pulled_since(h0, hb));
                                assert forall|i: int| 0 <= i < p.len() - 1 implies #[trigger] p[i] is Some by {
                                    assert(p[i] == hb[h0.len() + i]);
                                }
                                assert(p.last() is None);
                                assert(drained(p));
                            }
                            break ;
                        },
                    }
                }
            },
        }
    }

    /// The next chunk of the right child joined with the left data; `None`
    /// when the right child hands out `None`, or a chunk the join cannot run
    /// on.
    fn next(&mut self) -> (r: Option<TableChunk>)
        ensures
            final(self).left_data() == old(self).left_data(),
            final(self).keys() == old(self).keys(),
            final(self).right().history().drop_last() == old(self).right().history(),
            final(self).right().history().len() == old(self).right().history().len() + 1,
            match chunk_opt(final(self).right().history().last()) {
                None => r is None,
                Some(c) => if join_ok(old(self).left_data(), old(self).keys().0 as int, c, old(self).keys().1 as int) {
                    r is Some && chunk_view(r->Some_0@) == joined(
                        old(self).left_data(),
                        old(self).keys().0 as int,
                        c,
                        old(self).keys().1 as int,
                    )
                } else {
                    r is None
                },
            },
    {
        let r = match self.child1.next() {
            None => None,
            Some(chunk) => self.join(&chunk),
        };
        self.history = Ghost(self.history@.push(r));
        r
    }

    fn close(&mut self) {
        self.child1.close();
        self.child0.close();
        self.open = false;
        self.left_data = Vec::new();
    }
}

/// Chunk `c` holds every aggregated column of `aggs`.
pub open spec fn has_columns<F: AggFunc>(aggs: Seq<(usize, F)>, c: TableChunk) -> bool {
    forall|k: int| 0 <= k < aggs.len() ==> (#[trigger] aggs[k]).0 < c@.len()
}

/// The partial results of aggregate `k` over the chunks `p[0..n]`: its
/// function applied to its column of each chunk.
pub open spec fn partials_of<F: AggFunc>(aggs: Seq<(usize, F)>, p: Seq<Option<TableChunk>>, k: int, n: int) -> Seq<
    Value,
> {
    Seq::new(n as nat, |i: int| aggs[k].1.aggregate_of(p[i]->Some_0@[aggs[k].0 as int]))
}

/// An aggregate function over the values of a column.
pub trait AggFunc {
    /// The aggregate of `values`.
    spec fn aggregate_of(&self, values: Vec<Value>) -> Value;

    /// The aggregate of `values`: the same for the same values.
    fn call(&self, values: &Vec<Value>) -> (r: Value)
        ensures
            r == self.aggregate_of(*values),
    ;
}

/// Aggregates its child's chunks to one row: each aggregate function is
/// applied to its column of every chunk, then to the partial results.
/// The output columns follow the aggregated columns in ascending order.
pub struct ColumnAggregate<C: Operator, F: AggFunc> {
    child: C,
    aggregates: Vec<(usize, F)>,
    open: bool,
    history: Ghost<Seq<Option<TableChunk>>>,
    partials: Ghost<TableChunk>,
}

impl<C: Operator, F: AggFunc> ColumnAggregate<C, F> {
    /// A closed aggregation over `child`, with one function per column.
    pub fn new(child: C, aggregates: Vec<(usize, F)>) -> (a: Self)
        requires
            forall|i: int, j: int|
                0 <= i < j < aggregates@.len() ==> (#[trigger] aggregates@[i]).0 != (#[trigger] aggregates@[j]).0,
        ensures
            a.child() == child,
            a.aggregates().to_multiset() == aggregates@.to_multiset(),
            forall|i: int, j: int|
                0 <= i < j < a.aggregates().len() ==> (#[trigger] a.aggregates()[i]).0 < (#[trigger] a.aggregates()[j]).0,
            !a.is_open(),
    {
        broadcast use vstd::seq_lib::group_to_multiset_ensures;

        let mut rest = aggregates;
        let ghost all = rest@;
        let mut sorted: Vec<(usize, F)> = Vec::new();
        while rest.len() > 0
            invariant
                sorted@.to_multiset().add(rest@.to_multiset()) == all.to_multiset(),
                forall|i: int, j: int| 0 <= i < j < rest@.len() ==> (#[trigger] rest@[i]).0 != (#[trigger] rest@[j]).0,
                forall|i: int, j: int| 0 <= i < j < sorted@.len() ==> (#[trigger] sorted@[i]).0 < (#[trigger] sorted@[j]).0,
                forall|i: int, j: int| 0 <= i < sorted@.len() && 0 <= j < rest@.len() ==> (#[trigger] sorted@[i]).0 < (#[trigger] rest@[j]).0,
            decreases rest@.len(),
        {
            let mut best: usize = 0;
            let mut k: usize = 1;
            while k < rest.len()
                invariant
                    1 <= k <= rest@.len(),
                    best < rest@.len(),
                    forall|q: int| 0 <= q < k ==> rest@[best as int].0 <= (#[trigger] rest@[q]).0,
                decreases rest@.len() - k,
            {
                if rest[k].0 < rest[best].0 {
                    best = k;
                }
                k = k + 1;
            }
            let ghost before = rest@;
            let ghost sorted0 = sorted@;
            let item = rest.remove(best);
            proof {
                assert(before == rest@.insert(best as int, item));
                vstd::seq_lib::to_multiset_remove(before, best as int);
                assert(before.remove(best as int) == rest@);
                assert forall|j: int| 0 <= j < rest@.len() implies item.0 < (#[trigger] rest@[j]).0 by {
                    let jj = if j < best { j } else { j + 1 };
                    assert(rest@[j] == before[jj]);
                    assert(before[best as int].0 <= before[jj].0);
                    assert(before[best as int].0 != before[jj].0);
                }
                vstd::seq_lib::to_multiset_contains(before, item);
                assert(before[best as int] == item);
            }
            sorted.push(item);
            proof {
                broadcast use vstd::multiset::group_multiset_axioms;

                vstd::seq_lib::to_multiset_build(sorted0, item);
                assert(before.to_multiset().count(item) > 0);
                assert(sorted@.to_multiset().add(rest@.to_multiset()) =~= all.to_multiset());
            }
        }
        proof {
            assert(rest@.to_multiset() =~= Multiset::empty());
        }
        ColumnAggregate { child, aggregates: sorted, open: false, history: Ghost(Seq::empty()), partials: Ghost(vstd::pervasive::arbitrary()) }
    }

    /// The child operator.
    pub closed spec fn child(&self) -> C {
        self.child
    }

    /// The aggregated columns with their functions, in output order.
    pub closed spec fn aggregates(&self) -> Seq<(usize, F)> {
        self.aggregates@
    }

    /// The partial results of the last row handed out: for each aggregate,
    /// its function applied to its column of each chunk of the child.
    pub closed spec fn partials(&self) -> TableChunk {
        self.partials@
    }

    /// Adds to `partials` the aggregate of each aggregated column of
    /// `chunk`, as [`Operator::next`] does with each chunk it pulls;
    /// `false`, with `partials` unchanged, when `chunk` lacks an aggregated
    /// column.
    pub fn add_partials(&self, partials: &mut TableChunk, chunk: &TableChunk) -> (ok: bool)
        requires
            old(partials)@.len() == self.aggregates().len(),
        ensures
            ok == forall|k: int|
                0 <= k < self.aggregates().len() ==> (#[trigger] self.aggregates()[k]).0 < chunk@.len(),
            !ok ==> final(partials)@ == old(partials)@,
            final(partials)@.len() == old(partials)@.len(),
            ok ==> forall|k: int|
                0 <= k < self.aggregates().len() ==> #[trigger] final(partials)@[k]@ == old(partials)@[k]@.push(
                    self.aggregates()[k].1.aggregate_of(chunk@[self.aggregates()[k].0 as int]),
                ),
    {
        let n = self.aggregates.len();
        let mut k: usize = 0;
        while k < n
            invariant
                k <= n,
                n == self.aggregates@.len(),
                forall|q: int| 0 <= q < k ==> (#[trigger] self.aggregates@[q]).0 < chunk@.len(),
            decreases n - k,
        {
            if self.aggregates[k].0 >= chunk.len() {
                proof {
                    assert(!((self.aggregates()[k as int]).0 < chunk@.len()));
                }
                return false;
            }
            k = k + 1;
        }
        let ghost p0 = partials@;
        let mut k: usize = 0;
        while k < n
            invariant
                k <= n,
                n == self.aggregates@.len(),
                partials@.len() == n,
                p0 == old(partials)@,
                forall|q: int| 0 <= q < n ==> (#[trigger] self.aggregates@[q]).0 < chunk@.len(),
                forall|q: int|
                    0 <= q < k ==> #[trigger] partials@[q]@ == p0[q]@.push(
                        self.aggregates@[q].1.aggregate_of(chunk@[self.aggregates@[q].0 as int]),
                    ),
                forall|q: int| k <= q < n ==> #[trigger] partials@[q] == p0[q],
            decreases n - k,
        {
            let (column_index, function) = &self.aggregates[k];
            let result = function.call(&chunk[*column_index]);
            let col = &mut partials[k];
            col.push(result);
            k = k + 1;
        }
        true
    }

    /// The row of aggregates: for each aggregated column, its function
    /// applied to that column's partial results.
    pub fn finish(&self, partials: TableChunk) -> (r: TableChunk)
        requires
            partials@.len() == self.aggregates().len(),
        ensures
            r@.len() == partials@.len(),
            forall|k: int|
                0 <= k < r@.len() ==> #[trigger] r@[k]@ == seq![self.aggregates()[k].1.aggregate_of(partials@[k])],
    {
        let n = self.aggregates.len();
        let mut vec = partials;
        let ghost p0 = vec@;
        let mut k: usize = 0;
        while k < n
            invariant
                k <= n,
                n == self.aggregates@.len(),
                vec@.len() == n,
                p0.len() == n,
                forall|q: int|
                    0 <= q < k ==> #[trigger] vec@[q]@ == seq![self.aggregates@[q].1.aggregate_of(p0[q])],
                forall|q: int| k <= q < n ==> #[trigger] vec@[q] == p0[q],
            decreases n - k,
        {
            let result = self.aggregates[k].1.call(&vec[k]);
            let mut single: Vec<Value> = Vec::new();
            single.push(result);
            proof {
                assert(single@ =~= seq![self.aggregates@[k as int].1.aggregate_of(p0[k as int])]);
            }
            vec.set(k, single);
            k = k + 1;
        }
        vec
    }
}

impl<C: Operator, F: AggFunc> Operator for ColumnAggregate<C, F> {
    closed spec fn history(&self) -> Seq<Option<TableChunk>> {
        self.history@
    }

    closed spec fn is_open(&self) -> bool {
        self.open && self.child.is_open()
    }

    closed spec fn remaining(&self) -> nat {
        self.child.remaining()
    }

    /// The aggregate depends on every chunk still to come from the child, so
    /// it is not told in advance.
    closed spec fn upcoming(&self) -> Option<Seq<Seq<ValueView>>> {
        None
    }

    fn open(&mut self) {
        self.child.open();
        self.open = true;
    }

    /// One row: for each aggregated column, the function applied to the
    /// partial results of all chunks of the child, which is drained; `None`
    /// when the child has no chunk, or a chunk lacks an aggregated column
    /// (the child is then not pulled further).
    fn next(&mut self) -> (r: Option<TableChunk>)
        ensures
            final(self).aggregates() == old(self).aggregates(),
            ({
                let aggs = old(self).aggregates();
                let h0 = old(self).child().history();
                let h1 = final(self).child().history();
                let p = pulled_since(h0, h1);
                &&& h1.subrange(0, h0.len() as int) == h0
                &&& p.len() >= 1
                &&& forall|i: int|
                    0 <= i < p.len() - 1 ==> #[trigger] p[i] is Some && has_columns(aggs, p[i]->Some_0)
                &&& p.last() is None || !has_columns(aggs, p.last()->Some_0)
                &&& (r is Some <==> p.len() >= 2 && p.last() is None)
                &&& r is Some ==> {
                    &&& r->Some_0@.len() == aggs.len()
                    &&& final(self).partials()@.len() == aggs.len()
                    &&& forall|k: int|
                        0 <= k < aggs.len() ==> (#[trigger] final(self).partials()@[k])@ == partials_of(
                            aggs,
                            p,
                            k,
                            p.len() - 1,
                        ) && r->Some_0@[k]@ == seq![aggs[k].1.aggregate_of(final(self).partials()@[k])]
                }
            }),
    {
        let ghost aggs = self.aggregates@;
        let ghost h0 = self.child.history();
        let mut chunk_option = self.child.next();
        proof {
            let h = self.child.history();
            assert(h.subrange(0, h0.len() as int) =~= h0);
            assert(pulled_since(h0, h) =~= seq![chunk_option]);
        }
        if chunk_option.is_none() {
            self.history = Ghost(self.history@.push(None));
            return None;
        }
        let ghost start = self.child.remaining();
        let projected = self.aggregates.len();
        let mut vec: TableChunk = Vec::new();
        let mut k: usize = 0;
        while k < projected
            invariant
                k <= projected,
                projected == self.aggregates@.len(),
                vec@.len() == k,
                forall|q: int| 0 <= q < k ==> (#[trigger] vec@[q])@.len() == 0,
            decreases projected - k,
        {
            vec.push(Vec::new());
            k = k + 1;
        }
        proof {
            assert forall|q: int| 0 <= q < projected implies (#[trigger] vec@[q])@ == partials_of(aggs, pulled_since(h0, self.child.history()), q, 0) by {
                assert(vec@[q]@ =~= partials_of(aggs, pulled_since(h0, self.child.history()), q, 0));
            }
        }
        loop
            invariant_except_break
                chunk_option == pulled_since(h0, self.child.history()).last(),
            invariant
                vec@.len() == projected,
                projected == self.aggregates@.len(),
                self.aggregates@ == old(self).aggregates@,
                aggs == old(self).aggregates@,
                self.open,
                self.child.is_open(),
                self.history == old(self).history,
                h0 == old(self).child.history(),
                self.child.remaining() <= start,
                start < old(self).child.remaining(),
                self.child.history().len() > h0.len(),
                self.child.history().subrange(0, h0.len() as int) == h0,
                pulled_since(h0, self.child.history())[0] is Some,
                forall|i: int|
                    0 <= i < pulled_since(h0, self.child.history()).len() - 1 ==> #[trigger] pulled_since(
                        h0,
                        self.child.history(),
                    )[i] is Some && has_columns(aggs, pulled_since(h0, self.child.history())[i]->Some_0),
                forall|q: int|
                    0 <= q < projected ==> (#[trigger] vec@[q])@ == partials_of(
                        aggs,
                        pulled_since(h0, self.child.history()),
                        q,
                        pulled_since(h0, self.child.history()).len() - 1,
                    ),
            ensures
                pulled_since(h0, self.child.history()).last() is None,
            decreases self.child.remaining() + if chunk_option is Some { 1nat } else { 0nat },
        {
            let ghost co = chunk_option;
            let ghost hb = self.child.history();
            let ghost pb = pulled_since(h0, hb);
            match chunk_option {
                None => {
                    break ;
                },
                Some(chunk) => {
                    let ghost vb = vec@;
                    if !self.add_partials(&mut vec, &chunk) {
                        self.history = Ghost(self.history@.push(None));
                        proof {
                            assert(co == pb.last());
                            if has_columns(aggs, chunk) {
                                assert forall|k: int| 0 <= k < self.aggregates().len() implies (
                                #[trigger] self.aggregates()[k]).0 < chunk@.len() by {
                                    assert(self.aggregates()[k] == aggs[k]);
                                }
                            }
                            assert(!has_columns(aggs, chunk));
                        }
                        return None;
                    }
                    proof {
                        assert forall|k: int| 0 <= k < aggs.len() implies (#[trigger] aggs[k]).0 < chunk@.len() by {
                            assert(self.aggregates()[k] == aggs[k]);
                        }
                    }
                    chunk_option = self.child.next();
                    proof {
                        let ha = self.child.history();
                        let pa = pulled_since(h0, ha);
                        assert(ha.subrange(0, h0.len() as int) =~= h0);
                        assert(pa =~= pb.push(chunk_option));
                        assert(pb.last() == Some(chunk));
                        assert forall|i: int| 0 <= i < pa.len() - 1 implies #[trigger] pa[i] is Some && has_columns(aggs, pa[i]->Some_0) by {
                            assert(pa[i] == pb[i]);
                            if i == pb.len() - 1 {
                                assert(has_columns(aggs, chunk));
                            }
                        }
                        assert forall|q: int| 0 <= q < projected implies (#[trigger] vec@[q])@ == partials_of(aggs, pa, q, pa.len() - 1) by {
                            assert(vec@[q]@ =~= partials_of(aggs, pa, q, pa.len() - 1)) by {
                                assert(vb[q]@ == partials_of(aggs, pb, q, pb.len() - 1));
                                assert forall|i: int| 0 <= i < pb.len() implies pa[i] == pb[i] by {}
                            }
                        }
                        assert(pa[0] is Some);
                    }
                },
            }
        }
        self.partials = Ghost(vec);
        let r = Some(self.finish(vec));
        self.history = Ghost(self.history@.push(r));
        proof {
            let p = pulled_since(h0, self.child.history());
            assert(p.len() >= 2);
        }
        r
    }

    fn close(&mut self) {
        self.child.close();
        self.open = false;
    }
}

} // verus!
