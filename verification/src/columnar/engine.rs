//! The engine's write path: table modifications that write immutable data
//! files and record them in a manifest, committed as a new table version.

use std::collections::HashSet;

use vstd::prelude::*;

use super::data::{decode, file_bytes, writable, DataFile, DataFileHeader, DataFileView};
use super::manifest::Manifest;
use super::stats::{ColumnStats, FileStats, MinMax};
use super::table_metadata::{live_files, Catalog};
use super::value_order::{lemma_value_order, same_type, value_le};
use super::{
    chunk_view, column_view, copy_column, type_of, DatabaseError, FileHandle, Record, TableChunk, TypeID, Value,
    ValueView,
};

verus! {

broadcast use vstd::std_specs::hash::group_hash_axioms;

/// Storage of immutable data files.
///
/// `stored()` maps the id of every file written so far to its bytes.
pub trait StorageTrait {
    spec fn stored(&self) -> Map<u128, Seq<u8>>;

    /// Whether reads of stored files and writes always succeed here (a
    /// storage that cannot promise it says `false`).
    spec fn reliable(&self) -> bool;

    /// Writes a new file holding `bytes` and returns its handle, which no
    /// stored file had before.
    fn write_file(&mut self, bytes: &[u8]) -> (r: Result<FileHandle, DatabaseError>)
        ensures
            old(self).reliable() ==> r is Ok,
            final(self).reliable() == old(self).reliable(),
            forall|k: u128|
                #[trigger] old(self).stored().contains_key(k) ==> final(self).stored().contains_key(k)
                    && final(self).stored()[k] == old(self).stored()[k],
            r is Ok ==> !old(self).stored().contains_key(r->Ok_0.0),
            r is Ok ==> final(self).stored() == old(self).stored().insert(r->Ok_0.0, bytes@),
    ;

    /// The bytes of file `handle`.
    fn read_file(&self, handle: &FileHandle) -> (r: Result<Vec<u8>, DatabaseError>)
        ensures
            self.reliable() && self.stored().contains_key(handle.0) ==> r is Ok,
            r is Ok ==> self.stored().contains_key(handle.0) && r->Ok_0@ == self.stored()[handle.0],
    ;
}

/// Storage held in memory: file `i` is the `i`-th file written.
pub struct MemoryStorage {
    files: Vec<Vec<u8>>,
}

impl MemoryStorage {
    /// Storage without files.
    pub fn new() -> (s: MemoryStorage)
        ensures
            s.stored() == Map::<u128, Seq<u8>>::empty(),
            s.file_count() == 0,
    {
        let s = MemoryStorage { files: Vec::new() };
        proof {
            assert(s.stored() =~= Map::<u128, Seq<u8>>::empty());
        }
        s
    }

    /// Number of files written so far; they have the ids `0..file_count()`.
    pub closed spec fn file_count(&self) -> nat {
        self.files@.len()
    }
}

impl StorageTrait for MemoryStorage {
    closed spec fn stored(&self) -> Map<u128, Seq<u8>> {
        Map::new(|k: u128| k < self.files@.len(), |k: u128| self.files@[k as int]@)
    }

    /// Memory neither fails to read nor to write.
    open spec fn reliable(&self) -> bool {
        true
    }

    /// Always succeeds: the new file gets the next id.
    fn write_file(&mut self, bytes: &[u8]) -> (r: Result<FileHandle, DatabaseError>)
        ensures
            r == Ok::<FileHandle, DatabaseError>(FileHandle(old(self).file_count() as u128)),
            final(self).file_count() == old(self).file_count() + 1,
    {
        let id = self.files.len() as u128;
        let ghost old_stored = self.stored();
        self.files.push(vstd::slice::slice_to_vec(bytes));
        proof {
            assert(self.stored() =~= old_stored.insert(id, bytes@));
        }
        Ok(FileHandle(id))
    }

    /// Succeeds exactly on the files written so far.
    fn read_file(&self, handle: &FileHandle) -> (r: Result<Vec<u8>, DatabaseError>)
        ensures
            r is Ok <==> self.stored().contains_key(handle.0),
            r is Err ==> r == Err::<Vec<u8>, DatabaseError>(DatabaseError::IOError),
    {
        if handle.0 >= self.files.len() as u128 {
            return Err(DatabaseError::IOError);
        }
        let i = handle.0 as usize;
        Ok(vstd::slice::slice_to_vec(self.files[i].as_slice()))
    }
}

/// All values of column `c` have the type of its first value.
pub open spec fn column_uniform(c: Seq<ValueView>) -> bool {
    c.len() > 0 && forall|k: int| 0 <= k < c.len() ==> type_of(#[trigger] c[k]) == type_of(c[0])
}

/// Every column of `ch` is non-empty and of one type.
pub open spec fn chunk_uniform(ch: Seq<Seq<ValueView>>) -> bool {
    forall|j: int| 0 <= j < ch.len() ==> column_uniform(#[trigger] ch[j])
}

/// The types of the columns of `ch`: the type of each first value.
pub open spec fn chunk_types(ch: Seq<Seq<ValueView>>) -> Seq<TypeID> {
    ch.map_values(|c: Seq<ValueView>| type_of(c[0]))
}

/// The data file that holds chunk `ch`.
pub open spec fn chunk_file(ch: Seq<Seq<ValueView>>) -> DataFileView {
    DataFileView { rows: ch[0].len() as u64, columns: ch.len() as u64, types: chunk_types(ch), data: ch }
}

/// Chunk `ch` can be stored: it has columns, each non-empty and of one
/// type, and its file can be written.
pub open spec fn chunk_ok(ch: Seq<Seq<ValueView>>) -> bool {
    &&& ch.len() > 0
    &&& ch.len() <= u64::MAX
    &&& ch[0].len() <= u64::MAX
    &&& chunk_uniform(ch)
    &&& writable(chunk_file(ch))
}

/// The smallest value of `c`.
pub open spec fn min_of(c: Seq<ValueView>) -> ValueView
    decreases c.len(),
{
    if c.len() <= 1 {
        c[0]
    } else {
        let m = min_of(c.drop_last());
        if value_le(m, c.last()) {
            m
        } else {
            c.last()
        }
    }
}

/// The largest value of `c`.
pub open spec fn max_of(c: Seq<ValueView>) -> ValueView
    decreases c.len(),
{
    if c.len() <= 1 {
        c[0]
    } else {
        let m = max_of(c.drop_last());
        if value_le(c.last(), m) {
            m
        } else {
            c.last()
        }
    }
}

/// The Min/Max statistics of the columns of `ch`.
pub open spec fn chunk_stats(ch: Seq<Seq<ValueView>>) -> Seq<(ValueView, ValueView)> {
    ch.map_values(|c: Seq<ValueView>| (min_of(c), max_of(c)))
}

/// File statistics, by view.
pub open spec fn stats_view(fs: FileStats) -> Seq<(ValueView, ValueView)> {
    fs.column_stats@.map_values(|cs: ColumnStats| (cs.min_max().min@, cs.min_max().max@))
}

/// The min and max of a uniform column bound all of its values.
proof fn lemma_min_max(c: Seq<ValueView>)
    requires
        column_uniform(c),
    ensures
        same_type(min_of(c), c[0]),
        same_type(max_of(c), c[0]),
        forall|k: int| 0 <= k < c.len() ==> value_le(min_of(c), #[trigger] c[k]) && value_le(c[k], max_of(c)),
    decreases c.len(),
{
    if c.len() == 1 {
        lemma_value_order(c[0], c[0], c[0]);
    } else {
        let d = c.drop_last();
        assert forall|k: int| 0 <= k < d.len() implies type_of(#[trigger] d[k]) == type_of(d[0]) by {
            assert(type_of(c[k]) == type_of(c[0]));
        }
        lemma_min_max(d);
        let l = c.last();
        assert(type_of(l) == type_of(c[0]));
        let mn = min_of(d);
        let mx = max_of(d);
        assert(same_type(mn, l) && same_type(mx, l)) by {
            assert(type_of(d[0]) == type_of(c[0]));
        }
        assert forall|k: int| 0 <= k < c.len() implies value_le(min_of(c), #[trigger] c[k]) && value_le(
            c[k],
            max_of(c),
        ) by {
            assert(type_of(c[k]) == type_of(c[0]));
            assert(same_type(c[k], l));
            lemma_value_order(mn, l, c[k]);
            lemma_value_order(l, mn, c[k]);
            lemma_value_order(c[k], mx, l);
            lemma_value_order(c[k], l, mx);
            lemma_value_order(l, l, l);
            lemma_value_order(mx, l, l);
            if k < c.len() - 1 {
                assert(c[k] == d[k]);
                assert(value_le(mn, d[k]));
                assert(value_le(d[k], mx));
            }
            if value_le(mn, l) {
                assert(min_of(c) == mn);
            } else {
                assert(min_of(c) == l);
                assert(value_le(l, mn));
            }
            if value_le(l, mx) {
                assert(max_of(c) == mx);
            } else {
                assert(max_of(c) == l);
                assert(value_le(mx, l));
            }
        }
    }
}

/// The min and max of a column are values of the column.
proof fn lemma_min_max_in(c: Seq<ValueView>)
    requires
        c.len() > 0,
    ensures
        c.contains(min_of(c)),
        c.contains(max_of(c)),
    decreases c.len(),
{
    if c.len() > 1 {
        let d = c.drop_last();
        lemma_min_max_in(d);
        let a = choose|i: int| 0 <= i < d.len() && d[i] == min_of(d);
        let b = choose|i: int| 0 <= i < d.len() && d[i] == max_of(d);
        assert(c[a] == d[a]);
        assert(c[b] == d[b]);
        assert(c[c.len() - 1] == c.last());
    } else {
        assert(c[0] == min_of(c));
    }
}

/// Statistics never rule a chunk out for a value it holds: every value of
/// a column lies between the column's min and max. They are also tight:
/// the min and the max are values of the column.
pub proof fn lemma_stats_cover(ch: Seq<Seq<ValueView>>, j: int, k: int)
    requires
        chunk_uniform(ch),
        0 <= j < ch.len(),
        0 <= k < ch[j].len(),
    ensures
        value_le(chunk_stats(ch)[j].0, ch[j][k]),
        value_le(ch[j][k], chunk_stats(ch)[j].1),
        ch[j].contains(chunk_stats(ch)[j].0),
        ch[j].contains(chunk_stats(ch)[j].1),
{
    lemma_min_max(ch[j]);
    lemma_min_max_in(ch[j]);
}

/// The Min/Max statistics of `chunk`.
pub fn calculate_statistics(chunk: &TableChunk) -> (r: FileStats)
    requires
        chunk_uniform(chunk_view(chunk@)),
    ensures
        stats_view(r) == chunk_stats(chunk_view(chunk@)),
{
    let ghost ch = chunk_view(chunk@);
    let mut vec: Vec<ColumnStats> = Vec::new();
    let mut j: usize = 0;
    while j < chunk.len()
        invariant
            j <= chunk@.len(),
            ch == chunk_view(chunk@),
            chunk_uniform(ch),
            vec@.len() == j,
            forall|i: int|
                0 <= i < j ==> ((#[trigger] vec@[i]).min_max().min@, vec@[i].min_max().max@) == (
                min_of(ch[i]), max_of(ch[i])),
        decreases chunk@.len() - j,
    {
        let column = &chunk[j];
        let ghost c = ch[j as int];
        proof {
            assert(c == column_view(column@));
            assert(column_uniform(c));
            lemma_min_max(c);
        }
        let mut min: &Value = &column[0];
        let mut max: &Value = &column[0];
        let mut k: usize = 1;
        proof {
            assert(c.subrange(0, 1).drop_last() =~= Seq::<ValueView>::empty());
        }
        while k < column.len()
            invariant
                1 <= k <= column@.len(),
                c == column_view(column@),
                column_uniform(c),
                min@ == min_of(c.subrange(0, k as int)),
                max@ == max_of(c.subrange(0, k as int)),
                same_type(min@, c[0]),
                same_type(max@, c[0]),
            decreases column@.len() - k,
        {
            let v = &column[k];
            proof {
                assert(c.subrange(0, k + 1).drop_last() == c.subrange(0, k as int));
                assert(c.subrange(0, k + 1).last() == c[k as int]);
                assert(type_of(c[k as int]) == type_of(c[0]));
            }
            if !min.less_eq(v) {
                min = v;
            }
            if !v.less_eq(max) {
                max = v;
            }
            k = k + 1;
        }
        proof {
            assert(c.subrange(0, c.len() as int) == c);
            assert(value_le(min@, c[0]) && value_le(c[0], max@));
            lemma_value_order(min@, c[0], max@);
        }
        vec.push(ColumnStats::MinMax(MinMax::new(min.copy(), max.copy())));
        j = j + 1;
    }
    proof {
        assert(stats_view(FileStats { column_stats: vec }) =~= chunk_stats(ch));
    }
    FileStats::new(vec)
}

/// The type of each column of `chunk`: the type of its first value.
pub fn generate_column_info(chunk: &TableChunk) -> (r: Vec<TypeID>)
    requires
        forall|j: int| 0 <= j < chunk@.len() ==> (#[trigger] chunk@[j])@.len() > 0,
    ensures
        r@ == chunk_types(chunk_view(chunk@)),
{
    let mut column_info: Vec<TypeID> = Vec::new();
    let mut j: usize = 0;
    while j < chunk.len()
        invariant
            j <= chunk@.len(),
            forall|i: int| 0 <= i < chunk@.len() ==> (#[trigger] chunk@[i])@.len() > 0,
            column_info@ == chunk_types(chunk_view(chunk@)).subrange(0, j as int),
        decreases chunk@.len() - j,
    {
        proof {
            assert(chunk@[j as int]@.len() > 0);
        }
        column_info.push(chunk[j][0].get_id());
        j = j + 1;
        proof {
            assert(column_info@ =~= chunk_types(chunk_view(chunk@)).subrange(0, j as int));
        }
    }
    proof {
        assert(chunk_types(chunk_view(chunk@)).subrange(0, chunk@.len() as int) =~= chunk_types(
            chunk_view(chunk@),
        ));
    }
    column_info
}

/// A copy of a chunk.
pub fn copy_chunk(chunk: &TableChunk) -> (r: TableChunk)
    ensures
        chunk_view(r@) == chunk_view(chunk@),
{
    let mut r: TableChunk = Vec::new();
    let mut j: usize = 0;
    while j < chunk.len()
        invariant
            j <= chunk@.len(),
            r@.len() == j,
            forall|i: int| 0 <= i < j ==> column_view((#[trigger] r@[i])@) == column_view(chunk@[i]@),
        decreases chunk@.len() - j,
    {
        r.push(copy_column(&chunk[j]));
        j = j + 1;
    }
    proof {
        assert(chunk_view(r@) =~= chunk_view(chunk@));
    }
    r
}

/// The values of column `c` whose index is not in `rows`, in order (an
/// index is compared as a `u32`).
pub open spec fn kept_rows(c: Seq<ValueView>, rows: Seq<u32>, k: int) -> Seq<ValueView>
    decreases k,
{
    if k <= 0 {
        seq![]
    } else {
        kept_rows(c, rows, k - 1) + if rows.contains((k - 1) as u32) {
            seq![]
        } else {
            seq![c[k - 1]]
        }
    }
}

/// The columns `0..j` of `ch` without the rows `rows`; the columns stop
/// after the first one that becomes empty.
pub open spec fn delete_chunk(ch: Seq<Seq<ValueView>>, rows: Seq<u32>, j: int) -> Seq<Seq<ValueView>>
    decreases j,
{
    if j <= 0 {
        seq![]
    } else {
        let prev = delete_chunk(ch, rows, j - 1);
        if prev.len() > 0 && prev.last().len() == 0 {
            prev
        } else {
            prev.push(kept_rows(ch[j - 1], rows, ch[j - 1].len() as int))
        }
    }
}

/// Whether `rows` holds `x`.
fn contains_row(rows: &Vec<u32>, x: u32) -> (r: bool)
    ensures
        r == rows@.contains(x),
{
    let mut i: usize = 0;
    while i < rows.len()
        invariant
            i <= rows@.len(),
            forall|k: int| 0 <= k < i ==> rows@[k] != x,
        decreases rows@.len() - i,
    {
        if rows[i] == x {
            return true;
        }
        i = i + 1;
    }
    false
}

/// `chunk` without the rows `rows_to_delete`: each column keeps the values
/// whose index is not listed; after the first column that becomes empty
/// no further column is kept.
pub fn delete_rows(chunk: &TableChunk, rows_to_delete: &Vec<u32>) -> (r: TableChunk)
    ensures
        chunk_view(r@) == delete_chunk(chunk_view(chunk@), rows_to_delete@, chunk@.len() as int),
{
    let ghost ch = chunk_view(chunk@);
    let mut new_chunk: TableChunk = Vec::new();
    let mut j: usize = 0;
    while j < chunk.len()
        invariant_except_break
            !(chunk_view(new_chunk@).len() > 0 && chunk_view(new_chunk@).last().len() == 0),
        invariant
            j <= chunk@.len(),
            ch == chunk_view(chunk@),
            chunk_view(new_chunk@) == delete_chunk(ch, rows_to_delete@, j as int),
        ensures
            chunk_view(new_chunk@) == delete_chunk(ch, rows_to_delete@, chunk@.len() as int),
        decreases chunk@.len() - j,
    {
        let column = &chunk[j];
        let ghost c = ch[j as int];
        let mut new_column: Vec<Value> = Vec::new();
        let mut k: usize = 0;
        while k < column.len()
            invariant
                k <= column@.len(),
                c == column_view(column@),
                column_view(new_column@) == kept_rows(c, rows_to_delete@, k as int),
            decreases column@.len() - k,
        {
            if !contains_row(rows_to_delete, #[verifier::truncate] (k as u32)) {
                new_column.push(column[k].copy());
            }
            proof {
                assert(c[k as int] == column@[k as int]@);
            }
            proof {
                assert(column_view(new_column@) =~= kept_rows(c, rows_to_delete@, k + 1));
            }
            k = k + 1;
        }
        let length = new_column.len();
        let ghost before = chunk_view(new_chunk@);
        new_chunk.push(new_column);
        proof {
            assert(chunk_view(new_chunk@) =~= before.push(kept_rows(c, rows_to_delete@, c.len() as int)));
            assert(delete_chunk(ch, rows_to_delete@, j + 1) == chunk_view(new_chunk@));
        }
        j = j + 1;
        if length == 0 {
            proof {
                lemma_delete_chunk_stops(ch, rows_to_delete@, j as int, chunk@.len() as int);
            }
            break ;
        }
    }
    new_chunk
}

proof fn lemma_delete_chunk_stops(ch: Seq<Seq<ValueView>>, rows: Seq<u32>, j: int, i: int)
    requires
        1 <= j <= i,
        delete_chunk(ch, rows, j).len() > 0,
        delete_chunk(ch, rows, j).last().len() == 0,
    ensures
        delete_chunk(ch, rows, i) == delete_chunk(ch, rows, j),
    decreases i - j,
{
    if i > j {
        lemma_delete_chunk_stops(ch, rows, j, i - 1);
    }
}

/// The chunk `ch` with its row `row` replaced by `vals`, value by value,
/// for the columns that both have.
pub open spec fn update_row(ch: Seq<Seq<ValueView>>, row: int, vals: Seq<ValueView>) -> Seq<Seq<ValueView>> {
    Seq::new(ch.len(), |j: int| if j < vals.len() { ch[j].update(row, vals[j]) } else { ch[j] })
}

/// Changes `(row, record)`, by view.
pub open spec fn changes_view(changes: Seq<(u32, Record)>) -> Seq<(u32, Seq<ValueView>)> {
    changes.map_values(|c: (u32, Record)| (c.0, column_view(c.1.record@)))
}

/// The chunk `ch` after the changes `0..i`, applied in order.
pub open spec fn apply_changes(ch: Seq<Seq<ValueView>>, changes: Seq<(u32, Seq<ValueView>)>, i: int) -> Seq<
    Seq<ValueView>,
>
    decreases i,
{
    if i <= 0 {
        ch
    } else {
        update_row(apply_changes(ch, changes, i - 1), changes[i - 1].0 as int, changes[i - 1].1)
    }
}

/// Every changed row exists in every column that the change reaches.
pub open spec fn rows_in_range(ch: Seq<Seq<ValueView>>, changes: Seq<(u32, Seq<ValueView>)>) -> bool {
    forall|i: int, j: int|
        0 <= i < changes.len() && 0 <= j < ch.len() && j < (#[trigger] changes[i]).1.len() ==> changes[i].0
            < (#[trigger] ch[j]).len()
}

/// Whether every change reaches only existing rows.
pub fn check_rows(chunk: &TableChunk, changes: &Vec<(u32, Record)>) -> (r: bool)
    ensures
        r == rows_in_range(chunk_view(chunk@), changes_view(changes@)),
{
    let ghost ch = chunk_view(chunk@);
    let ghost cv = changes_view(changes@);
    let mut i: usize = 0;
    while i < changes.len()
        invariant
            i <= changes@.len(),
            ch == chunk_view(chunk@),
            cv == changes_view(changes@),
            forall|a: int, j: int|
                0 <= a < i && 0 <= j < ch.len() && j < (#[trigger] cv[a]).1.len() ==> cv[a].0 < (
                #[trigger] ch[j]).len(),
        decreases changes@.len() - i,
    {
        let (row, record) = &changes[i];
        let mut j: usize = 0;
        while j < chunk.len() && j < record.record.len()
            invariant
                j <= chunk@.len(),
                ch == chunk_view(chunk@),
                cv == changes_view(changes@),
                i < changes@.len(),
                cv[i as int].0 == *row,
                cv[i as int].1.len() == record.record@.len(),
                forall|b: int| 0 <= b < j ==> cv[i as int].0 < (#[trigger] ch[b]).len(),
            decreases chunk@.len() - j,
        {
            if *row as usize >= chunk[j].len() {
                proof {
                    assert(ch[j as int].len() == chunk@[j as int]@.len());
                }
                return false;
            }
            j = j + 1;
        }
        i = i + 1;
    }
    true
}

/// Applies the changes `(row, record)` in order: value `j` of the record
/// replaces row `row` of column `j`, for the columns that both have.
pub fn apply_updates(data: &mut TableChunk, changes: &Vec<(u32, Record)>)
    requires
        rows_in_range(chunk_view(old(data)@), changes_view(changes@)),
    ensures
        chunk_view(final(data)@) == apply_changes(chunk_view(old(data)@), changes_view(changes@), changes@.len() as int),
{
    let ghost ch0 = chunk_view(data@);
    let ghost cv = changes_view(changes@);
    let mut i: usize = 0;
    while i < changes.len()
        invariant
            i <= changes@.len(),
            cv == changes_view(changes@),
            rows_in_range(ch0, cv),
            chunk_view(data@) == apply_changes(ch0, cv, i as int),
            data@.len() == ch0.len(),
            forall|j: int| 0 <= j < ch0.len() ==> (#[trigger] data@[j])@.len() == ch0[j].len(),
        decreases changes@.len() - i,
    {
        let (row, record) = &changes[i];
        let ghost before = chunk_view(data@);
        let mut j: usize = 0;
        while j < data.len() && j < record.record.len()
            invariant
                j <= data@.len(),
                data@.len() == ch0.len(),
                cv == changes_view(changes@),
                rows_in_range(ch0, cv),
                i < changes@.len(),
                cv[i as int].0 == *row,
                cv[i as int].1 == column_view(record.record@),
                before.len() == ch0.len(),
                forall|b: int| 0 <= b < ch0.len() ==> (#[trigger] data@[b])@.len() == ch0[b].len(),
                forall|b: int|
                    0 <= b < ch0.len() ==> column_view((#[trigger] data@[b])@) == if b < j {
                        update_row(before, *row as int, column_view(record.record@))[b]
                    } else {
                        before[b]
                    },
            decreases data@.len() - j,
        {
            proof {
                assert(cv[i as int].1.len() == record.record@.len());
                assert(*row < ch0[j as int].len());
            }
            let v = record.record[j].copy();
            let column = &mut data[j];
            column.set(*row as usize, v);
            proof {
                assert(column_view(data@[j as int]@) =~= before[j as int].update(*row as int, column_view(
                    record.record@,
                )[j as int]));
            }
            j = j + 1;
        }
        proof {
            assert(chunk_view(data@) =~= update_row(before, *row as int, column_view(record.record@)));
        }
        i = i + 1;
    }
}

/// Every file that a manifest of `catalog` added is stored.
pub open spec fn catalog_stored(catalog: Catalog, stored: Map<u128, Seq<u8>>) -> bool {
    forall|t: int, m: int, a: int|
        0 <= t < catalog.tables@.len() && 0 <= m < catalog.tables@[t].manifests@.len() && 0 <= a
            < catalog.tables@[t].manifests@[m].added@.len() ==> stored.contains_key(
            #[trigger] catalog.tables@[t].manifests@[m].added@[a].0,
        )
}

/// `b` keeps every file of `a`.
pub open spec fn stored_grows(a: Map<u128, Seq<u8>>, b: Map<u128, Seq<u8>>) -> bool {
    forall|k: u128| #[trigger] a.contains_key(k) ==> b.contains_key(k) && b[k] == a[k]
}

proof fn lemma_catalog_stored_grows(c: Catalog, a: Map<u128, Seq<u8>>, b: Map<u128, Seq<u8>>)
    requires
        catalog_stored(c, a),
        stored_grows(a, b),
    ensures
        catalog_stored(c, b),
{
    assert forall|t: int, m: int, x: int|
        0 <= t < c.tables@.len() && 0 <= m < c.tables@[t].manifests@.len() && 0 <= x
            < c.tables@[t].manifests@[m].added@.len() implies b.contains_key(
        #[trigger] c.tables@[t].manifests@[m].added@[x].0,
    ) by {
        assert(a.contains_key(c.tables@[t].manifests@[m].added@[x].0));
    }
}

proof fn lemma_add_version_stored(c0: Catalog, c1: Catalog, t: int, m: Manifest, stored: Map<u128, Seq<u8>>)
    requires
        catalog_stored(c0, stored),
        0 <= t < c0.tables@.len(),
        c1.tables@.len() == c0.tables@.len(),
        forall|u: int| 0 <= u < c0.tables@.len() && u != t ==> #[trigger] c1.tables@[u] == c0.tables@[u],
        c1.tables@[t].manifests@ == c0.tables@[t].manifests@.push(m),
        forall|a: int| 0 <= a < m.added@.len() ==> stored.contains_key(#[trigger] m.added@[a].0),
    ensures
        catalog_stored(c1, stored),
{
    assert forall|u: int, mi: int, a: int|
        0 <= u < c1.tables@.len() && 0 <= mi < c1.tables@[u].manifests@.len() && 0 <= a
            < c1.tables@[u].manifests@[mi].added@.len() implies stored.contains_key(
        #[trigger] c1.tables@[u].manifests@[mi].added@[a].0,
    ) by {
        if u == t {
            if mi == c0.tables@[t].manifests@.len() {
                assert(c1.tables@[u].manifests@[mi] == m);
                assert(stored.contains_key(m.added@[a].0));
            } else {
                assert(c1.tables@[u].manifests@[mi] == c0.tables@[u].manifests@[mi]);
                assert(stored.contains_key(c0.tables@[u].manifests@[mi].added@[a].0));
            }
        } else {
            assert(c1.tables@[u] == c0.tables@[u]);
            assert(stored.contains_key(c0.tables@[u].manifests@[mi].added@[a].0));
        }
    }
}

/// Every file that stays live through manifests `0..i` was added by one of
/// them.
proof fn lemma_live_added(ms: Seq<Manifest>, i: int, x: u128)
    requires
        0 <= i <= ms.len(),
        live_files(ms, i).contains(x),
    ensures
        exists|m: int, a: int| 0 <= m < i && 0 <= a < ms[m].added@.len() && (#[trigger] ms[m].added@[a]).0 == x,
    decreases i,
{
    if i > 0 {
        if live_files(ms, i - 1).contains(x) {
            lemma_live_added(ms, i - 1, x);
            let (m, a) = choose|m: int, a: int|
                0 <= m < i - 1 && 0 <= a < ms[m].added@.len() && (#[trigger] ms[m].added@[a]).0 == x;
            assert(ms[m].added@[a].0 == x);
        } else {
            let ids = ms[i - 1].added@.map_values(|f: FileHandle| f.0);
            assert(ids.to_set().contains(x));
            let a = choose|a: int| 0 <= a < ids.len() && ids[a] == x;
            assert(ms[i - 1].added@[a].0 == x);
        }
    }
}

/// A file of a data file's bytes, by handle.
pub open spec fn file_data(stored: Map<u128, Seq<u8>>, h: FileHandle) -> DataFileView {
    decode(stored[h.0], None)->Ok_0
}

/// Deletions `(file, rows)`, by view.
pub open spec fn deletions_view(d: Seq<(FileHandle, Vec<u32>)>) -> Seq<(FileHandle, Seq<u32>)> {
    d.map_values(|p: (FileHandle, Vec<u32>)| (p.0, p.1@))
}

/// Updates `(file, changes)`, by view.
pub open spec fn updates_view(u: Seq<(FileHandle, Vec<(u32, Record)>)>) -> Seq<(FileHandle, Seq<(u32, Seq<ValueView>)>)> {
    u.map_values(|p: (FileHandle, Vec<(u32, Record)>)| (p.0, changes_view(p.1@)))
}

/// The chunk left of file `d.0` once the rows `d.1` are deleted.
pub open spec fn chunk_after_delete(stored: Map<u128, Seq<u8>>, d: (FileHandle, Seq<u32>)) -> Seq<Seq<ValueView>> {
    let f = file_data(stored, d.0);
    delete_chunk(f.data, d.1, f.data.len() as int)
}

/// The chunks that deletions `0..i` write as new files: those with rows
/// left.
pub open spec fn chunks_after_deletes(stored: Map<u128, Seq<u8>>, ds: Seq<(FileHandle, Seq<u32>)>, i: int) -> Seq<
    Seq<Seq<ValueView>>,
>
    decreases i,
{
    if i <= 0 {
        seq![]
    } else {
        let prev = chunks_after_deletes(stored, ds, i - 1);
        let nc = chunk_after_delete(stored, ds[i - 1]);
        if nc.len() > 0 && nc[0].len() > 0 {
            prev.push(nc)
        } else {
            prev
        }
    }
}

/// File `u.0` after the changes `u.1`.
pub open spec fn file_after_update(stored: Map<u128, Seq<u8>>, u: (FileHandle, Seq<(u32, Seq<ValueView>)>)) -> DataFileView {
    let f = file_data(stored, u.0);
    DataFileView { data: apply_changes(f.data, u.1, u.1.len() as int), ..f }
}

/// What deleting the rows `rows` makes of the data file held in `bytes`:
/// the file of the rows left (`None` when no row is left), or why it is
/// refused: the bytes do not hold a data file, no column is left, or the
/// rows left cannot be stored.
pub open spec fn delete_outcome(bytes: Seq<u8>, rows: Seq<u32>) -> Result<Option<DataFileView>, DatabaseError> {
    match decode(bytes, None) {
        Err(e) => Err(e),
        Ok(f) => {
            let nc = delete_chunk(f.data, rows, f.data.len() as int);
            if nc.len() == 0 {
                Err(DatabaseError::EngineError)
            } else if nc[0].len() == 0 {
                Ok(None)
            } else if !chunk_uniform(nc) || !writable(chunk_file(nc)) {
                Err(DatabaseError::EngineError)
            } else {
                Ok(Some(chunk_file(nc)))
            }
        },
    }
}

/// Deletes the rows `rows` from the data file held in `bytes`: see
/// [`delete_outcome`].
pub fn delete_in_file(bytes: &[u8], rows: &Vec<u32>) -> (r: Result<Option<DataFile>, DatabaseError>)
    ensures
        match delete_outcome(bytes@, rows@) {
            Err(e) => r == Err::<Option<DataFile>, DatabaseError>(e),
            Ok(None) => r is Ok && r->Ok_0 is None,
            Ok(Some(f)) => r is Ok && r->Ok_0 is Some && r->Ok_0->Some_0.view_of() == f,
        },
{
    let datafile = match DataFile::parse(bytes) {
        Ok(f) => f,
        Err(e) => {
            return Err(e);
        },
    };
    let new_chunk = delete_rows(&datafile.data, rows);
    let ghost nc = chunk_view(new_chunk@);
    if new_chunk.len() == 0 {
        return Err(DatabaseError::EngineError);
    }
    if new_chunk[0].len() == 0 {
        return Ok(None);
    }
    if !chunk_is_uniform(&new_chunk) {
        return Err(DatabaseError::EngineError);
    }
    proof {
        assert forall|j: int| 0 <= j < new_chunk@.len() implies (#[trigger] new_chunk@[j])@.len() > 0 by {
            assert(column_uniform(nc[j]));
        }
    }
    let column_info = generate_column_info(&new_chunk);
    let row_count = new_chunk[0].len() as u64;
    let columns = new_chunk.len() as u64;
    let new_datafile = DataFile::new(DataFileHeader::new(row_count, columns, column_info), new_chunk);
    proof {
        assert(new_datafile.view_of() == chunk_file(nc));
    }
    if !new_datafile.can_write() {
        return Err(DatabaseError::EngineError);
    }
    Ok(Some(new_datafile))
}

/// What the changes `changes` make of the data file held in `bytes`: the
/// file with the changed rows, or why it is refused: the bytes do not hold
/// a data file, a changed row does not exist, or the result cannot be
/// stored.
pub open spec fn update_outcome(bytes: Seq<u8>, changes: Seq<(u32, Seq<ValueView>)>) -> Result<DataFileView, DatabaseError> {
    match decode(bytes, None) {
        Err(e) => Err(e),
        Ok(f) => {
            if !rows_in_range(f.data, changes) {
                Err(DatabaseError::EngineError)
            } else {
                let nf = DataFileView { data: apply_changes(f.data, changes, changes.len() as int), ..f };
                if !chunk_uniform(nf.data) || !writable(nf) {
                    Err(DatabaseError::EngineError)
                } else {
                    Ok(nf)
                }
            }
        },
    }
}

/// Applies the changes `changes` to the data file held in `bytes`: see
/// [`update_outcome`].
pub fn update_in_file(bytes: &[u8], changes: &Vec<(u32, Record)>) -> (r: Result<DataFile, DatabaseError>)
    ensures
        match update_outcome(bytes@, changes_view(changes@)) {
            Err(e) => r == Err::<DataFile, DatabaseError>(e),
            Ok(f) => r is Ok && r->Ok_0.view_of() == f,
        },
{
    let mut datafile = match DataFile::parse(bytes) {
        Ok(f) => f,
        Err(e) => {
            return Err(e);
        },
    };
    if !check_rows(&datafile.data, changes) {
        return Err(DatabaseError::EngineError);
    }
    apply_updates(&mut datafile.data, changes);
    if !chunk_is_uniform(&datafile.data) || !datafile.can_write() {
        return Err(DatabaseError::EngineError);
    }
    Ok(datafile)
}

/// Every deletion of `ds[0..i]` succeeds on the files `stored`.
pub open spec fn deletes_ok(stored: Map<u128, Seq<u8>>, ds: Seq<(FileHandle, Seq<u32>)>, i: int) -> bool {
    forall|j: int| 0 <= j < i ==> #[trigger] delete_outcome(stored[ds[j].0.0], ds[j].1) is Ok
}

/// Every update of `us[0..i]` succeeds on the files `stored`.
pub open spec fn updates_ok(stored: Map<u128, Seq<u8>>, us: Seq<(FileHandle, Seq<(u32, Seq<ValueView>)>)>, i: int) -> bool {
    forall|j: int| 0 <= j < i ==> #[trigger] update_outcome(stored[us[j].0.0], us[j].1) is Ok
}

/// Whether every column of `chunk` is non-empty and of one type.
pub fn chunk_is_uniform(chunk: &TableChunk) -> (r: bool)
    ensures
        r == chunk_uniform(chunk_view(chunk@)),
{
    let ghost ch = chunk_view(chunk@);
    let mut j: usize = 0;
    while j < chunk.len()
        invariant
            j <= chunk@.len(),
            ch == chunk_view(chunk@),
            forall|q: int| 0 <= q < j ==> column_uniform(#[trigger] ch[q]),
        decreases chunk@.len() - j,
    {
        let column = &chunk[j];
        let ghost c = ch[j as int];
        proof {
            assert(c == column_view(column@));
        }
        if column.len() == 0 {
            proof {
                assert(!column_uniform(ch[j as int]));
            }
            return false;
        }
        let t = column[0].get_id();
        let mut k: usize = 1;
        while k < column.len()
            invariant
                1 <= k <= column@.len(),
                c == column_view(column@),
                ch == chunk_view(chunk@),
                j < chunk@.len(),
                c == ch[j as int],
                t == type_of(c[0]),
                forall|q: int| 0 <= q < k ==> type_of(#[trigger] c[q]) == type_of(c[0]),
            decreases column@.len() - k,
        {
            if column[k].get_id() != t {
                proof {
                    assert(c[k as int] == column@[k as int]@);
                    assert(!column_uniform(c));
                }
                return false;
            }
            k = k + 1;
        }
        proof {
            assert(column_uniform(c));
        }
        j = j + 1;
    }
    true
}

/// The chunks `kept` were written in order as the files `added[n0..]`,
/// each with its statistics, and each could be stored.
pub open spec fn kept_written(
    stored: Map<u128, Seq<u8>>,
    added: Seq<FileHandle>,
    stats: Seq<FileStats>,
    n0: int,
    kept: Seq<Seq<Seq<ValueView>>>,
) -> bool {
    forall|j: int| 0 <= j < kept.len() ==> #[trigger] kept_at(stored, added, stats, n0, kept, j)
}

/// Chunk `kept[j]` could be stored and was written as file `added[n0 + j]`
/// with its statistics.
pub open spec fn kept_at(
    stored: Map<u128, Seq<u8>>,
    added: Seq<FileHandle>,
    stats: Seq<FileStats>,
    n0: int,
    kept: Seq<Seq<Seq<ValueView>>>,
    j: int,
) -> bool {
    &&& chunk_ok(kept[j])
    &&& stored[added[n0 + j].0] == file_bytes(chunk_file(kept[j]))
    &&& stats_view(stats[n0 + j]) == chunk_stats(kept[j])
}

/// The files `fs` were written in order as the files `added[n0..]`, each
/// with the statistics of its data, and each could be stored.
pub open spec fn updated_written(
    stored: Map<u128, Seq<u8>>,
    added: Seq<FileHandle>,
    stats: Seq<FileStats>,
    n0: int,
    fs: Seq<DataFileView>,
) -> bool {
    forall|j: int| 0 <= j < fs.len() ==> #[trigger] updated_at(stored, added, stats, n0, fs, j)
}

/// File `fs[j]` could be stored and was written as file `added[n0 + j]`
/// with the statistics of its data.
pub open spec fn updated_at(
    stored: Map<u128, Seq<u8>>,
    added: Seq<FileHandle>,
    stats: Seq<FileStats>,
    n0: int,
    fs: Seq<DataFileView>,
    j: int,
) -> bool {
    &&& writable(fs[j])
    &&& chunk_uniform(fs[j].data)
    &&& stored[added[n0 + j].0] == file_bytes(fs[j])
    &&& stats_view(stats[n0 + j]) == chunk_stats(fs[j].data)
}

/// The files that updates `0..i` write.
pub open spec fn files_after_updates(
    stored: Map<u128, Seq<u8>>,
    us: Seq<(FileHandle, Seq<(u32, Seq<ValueView>)>)>,
    i: int,
) -> Seq<DataFileView> {
    Seq::new(i as nat, |j: int| file_after_update(stored, us[j]))
}

/// The chunks `cs`, by view.
pub open spec fn chunks_view(cs: Seq<TableChunk>) -> Seq<Seq<Seq<ValueView>>> {
    cs.map_values(|c: TableChunk| chunk_view(c@))
}

/// The handles of `hs`, as ids.
pub open spec fn ids_of(hs: Seq<FileHandle>) -> Set<u128> {
    hs.map_values(|h: FileHandle| h.0).to_set()
}

/// The engine: a catalog of tables, the storage of their files, and the
/// modification in progress (its table, its manifest, and the files it
/// changed).
pub struct SdmsIcebergEngine<S: StorageTrait> {
    pub catalog: Catalog,
    pub manifest: Manifest,
    pub table_id: Option<usize>,
    pub storage: S,
    pub changed_files: HashSet<u128>,
}

impl<S: StorageTrait> SdmsIcebergEngine<S> {
    /// The modified table exists and every file that a manifest added is
    /// stored.
    pub open spec fn wf(&self) -> bool {
        &&& self.table_id is Some ==> self.table_id->Some_0 < self.catalog.tables@.len()
        &&& catalog_stored(self.catalog, self.storage.stored())
        &&& self.manifest.stats@.len() == self.manifest.added@.len()
        &&& forall|a: int|
            0 <= a < self.manifest.added@.len() ==> self.storage.stored().contains_key(
                #[trigger] self.manifest.added@[a].0,
            )
    }

    /// The files of the modified table at its current version.
    pub open spec fn live(&self) -> Set<u128> {
        let ms = self.catalog.tables@[self.table_id->Some_0 as int].manifests@;
        live_files(ms, ms.len() as int)
    }

    /// Files `hs` may be modified: no file is listed twice, none was
    /// modified already, and all belong to the table.
    pub open spec fn targets_ok(&self, hs: Seq<FileHandle>) -> bool {
        &&& forall|i: int, j: int| 0 <= i < j < hs.len() ==> (#[trigger] hs[i]).0 != (#[trigger] hs[j]).0
        &&& forall|i: int|
            0 <= i < hs.len() ==> !self.changed_files@.contains((#[trigger] hs[i]).0) && self.live().contains(
                hs[i].0,
            )
    }

    /// An engine over `catalog` and `storage` with no modification in
    /// progress.
    pub fn new(catalog: Catalog, storage: S) -> (e: Self)
        requires
            catalog_stored(catalog, storage.stored()),
        ensures
            e.wf(),
            e.catalog == catalog,
            e.storage == storage,
            e.table_id is None,
            e.manifest.added@.len() == 0,
            e.manifest.deleted@.len() == 0,
            e.manifest.stats@.len() == 0,
            e.changed_files@ == Set::<u128>::empty(),
    {
        SdmsIcebergEngine {
            catalog,
            manifest: Manifest::empty(),
            table_id: None,
            storage,
            changed_files: HashSet::new(),
        }
    }

    /// Starts a modification of table `table_id`; refused while another one
    /// is in progress or when the table does not exist.
    pub fn start_table_modification(&mut self, table_id: usize) -> (r: Result<(), DatabaseError>)
        requires
            old(self).wf(),
        ensures
            final(self).wf(),
            r is Err <==> old(self).table_id is Some || table_id >= old(self).catalog.tables@.len(),
            r is Err ==> r == Err::<(), DatabaseError>(DatabaseError::EngineError) && *final(self) == *old(self),
            r is Ok ==> final(self).table_id == Some(table_id) && final(self).catalog == old(self).catalog
                && final(self).manifest == old(self).manifest && final(self).storage == old(self).storage
                && final(self).changed_files == old(self).changed_files,
    {
        if self.table_id.is_some() || !self.catalog.check_table_exists(table_id) {
            return Err(DatabaseError::EngineError);
        }
        self.table_id = Some(table_id);
        Ok(())
    }

    /// Ends the modification: when it changed files, its manifest becomes
    /// the table's next version and a new manifest starts.
    pub fn commit(&mut self) -> (r: Result<(), DatabaseError>)
        requires
            old(self).wf(),
        ensures
            final(self).wf(),
            old(self).table_id is None ==> r == Err::<(), DatabaseError>(DatabaseError::EngineError) && *final(self)
                == *old(self),
            old(self).table_id is Some ==> r is Ok && final(self).table_id is None && final(self).storage == old(
                self,
            ).storage,
            old(self).table_id is Some && old(self).changed_files@.is_empty() ==> final(self).catalog == old(
                self,
            ).catalog && final(self).manifest == old(self).manifest && final(self).changed_files@ == old(
                self,
            ).changed_files@,
            old(self).table_id is Some && !old(self).changed_files@.is_empty() ==> {
                let t = old(self).table_id->Some_0 as int;
                let before = old(self).catalog.tables@[t];
                let after = final(self).catalog.tables@[t];
                &&& final(self).catalog.tables@.len() == old(self).catalog.tables@.len()
                &&& forall|u: int| 0 <= u < old(self).catalog.tables@.len() && u != t ==> #[trigger] final(self).catalog.tables@[u] == old(self).catalog.tables@[u]
                &&& after.manifests@ == before.manifests@.push(old(self).manifest)
                &&& after.version.0 == if before.version.0 == u64::MAX { 0 } else { (before.version.0 + 1) as u64 }
                &&& after.name == before.name
                &&& after.schema == before.schema
                &&& final(self).manifest.added@.len() == 0
                &&& final(self).manifest.deleted@.len() == 0
                &&& final(self).manifest.stats@.len() == 0
                &&& final(self).changed_files@ == Set::<u128>::empty()
            },
    {
        match self.table_id {
            Some(table_id) => {
                if !self.changed_files.is_empty() {
                    let mut m = Manifest::empty();
                    core::mem::swap(&mut self.manifest, &mut m);
                    let ghost cat0 = self.catalog;
                    let table_metadata = self.catalog.get_table_metadata(table_id);
                    let _ = table_metadata.add_version(m);
                    self.changed_files = HashSet::new();
                    proof {
                        lemma_add_version_stored(cat0, self.catalog, table_id as int, old(self).manifest, self.storage.stored());
                    }
                }
                self.table_id = None;
                Ok(())
            },
            None => Err(DatabaseError::EngineError),
        }
    }

    /// Whether the files `hs` may be modified: see [`Self::targets_ok`].
    fn check_targets(&self, hs: &[FileHandle]) -> (r: bool)
        requires
            self.wf(),
            self.table_id is Some,
        ensures
            r == self.targets_ok(hs@),
    {
        let table_id = match self.table_id {
            Some(t) => t,
            None => 0,
        };
        let files = self.catalog.table(table_id).files(None);
        let mut seen: HashSet<u128> = HashSet::new();
        let mut i: usize = 0;
        while i < hs.len()
            invariant
                i <= hs@.len(),
                self.table_id == Some(table_id),
                table_id < self.catalog.tables@.len(),
                files@ == self.live(),
                seen@ == hs@.subrange(0, i as int).map_values(|h: FileHandle| h.0).to_set(),
                forall|a: int, b: int| 0 <= a < b < i ==> (#[trigger] hs@[a]).0 != (#[trigger] hs@[b]).0,
                forall|a: int|
                    0 <= a < i ==> !self.changed_files@.contains((#[trigger] hs@[a]).0) && self.live().contains(
                        hs@[a].0,
                    ),
            decreases hs@.len() - i,
        {
            let id = hs[i].0;
            if self.changed_files.contains(&id) || !files.contains(&id) {
                return false;
            }
            let ghost ids = hs@.subrange(0, i as int).map_values(|h: FileHandle| h.0);
            let fresh = seen.insert(id);
            if !fresh {
                proof {
                    assert(ids.to_set().contains(id));
                    let a = choose|a: int| 0 <= a < ids.len() && ids[a] == id;
                    assert(hs@[a].0 == hs@[i as int].0);
                }
                return false;
            }
            proof {
                assert(hs@.subrange(0, i + 1).map_values(|h: FileHandle| h.0) =~= ids.push(id));
                ids.lemma_push_to_set_commute(id);
                assert forall|a: int| 0 <= a < i implies (#[trigger] hs@[a]).0 != id by {
                    if hs@[a].0 == id {
                        assert(ids[a] == id);
                        assert(ids.to_set().contains(id));
                    }
                }
            }
            i = i + 1;
        }
        true
    }

    /// Stores `file` and records it in the manifest, with the statistics of
    /// its data; returns its handle.
    fn add_data_file(&mut self, file: &DataFile) -> (r: Result<FileHandle, DatabaseError>)
        requires
            old(self).wf(),
            writable(file.view_of()),
            chunk_uniform(chunk_view(file.data@)),
        ensures
            final(self).wf(),
            final(self).catalog == old(self).catalog,
            final(self).table_id == old(self).table_id,
            final(self).changed_files == old(self).changed_files,
            final(self).manifest.deleted@ == old(self).manifest.deleted@,
            stored_grows(old(self).storage.stored(), final(self).storage.stored()),
            old(self).storage.reliable() ==> r is Ok,
            final(self).storage.reliable() == old(self).storage.reliable(),
            r is Err ==> final(self).manifest == old(self).manifest,
            r is Ok ==> {
                let h = r->Ok_0;
                &&& !old(self).storage.stored().contains_key(h.0)
                &&& final(self).storage.stored() == old(self).storage.stored().insert(h.0, file_bytes(file.view_of()))
                &&& final(self).manifest.added@ == old(self).manifest.added@.push(h)
                &&& final(self).manifest.stats@.len() == old(self).manifest.stats@.len() + 1
                &&& final(self).manifest.stats@.subrange(0, old(self).manifest.stats@.len() as int) == old(self).manifest.stats@
                &&& stats_view(final(self).manifest.stats@.last()) == chunk_stats(chunk_view(file.data@))
            },
    {
        let bytes = file.to_bytes();
        let ghost s0 = self.storage.stored();
        let written = self.storage.write_file(bytes.as_slice());
        proof {
            assert(s0 == old(self).storage.stored());
            assert forall|k: u128| #[trigger] s0.contains_key(k) implies self.storage.stored().contains_key(k)
                && self.storage.stored()[k] == s0[k] by {}
            lemma_catalog_stored_grows(self.catalog, old(self).storage.stored(), self.storage.stored());
        }
        self.record_written(written, file)
    }

    /// Records in the manifest what the storage's write of `file` gave, as
    /// [`SdmsIcebergEngine::add_data_file`] does: on `Ok(h)`, `h` is added
    /// with the statistics of the file's data; an error is handed back and
    /// nothing changes.
    fn record_written(&mut self, written: Result<FileHandle, DatabaseError>, file: &DataFile) -> (r: Result<
        FileHandle,
        DatabaseError,
    >)
        requires
            chunk_uniform(chunk_view(file.data@)),
        ensures
            r == written,
            final(self).catalog == old(self).catalog,
            final(self).table_id == old(self).table_id,
            final(self).changed_files == old(self).changed_files,
            final(self).storage == old(self).storage,
            final(self).manifest.deleted@ == old(self).manifest.deleted@,
            written is Err ==> final(self).manifest == old(self).manifest,
            written is Ok ==> {
                &&& final(self).manifest.added@ == old(self).manifest.added@.push(written->Ok_0)
                &&& final(self).manifest.stats@.len() == old(self).manifest.stats@.len() + 1
                &&& final(self).manifest.stats@.subrange(0, old(self).manifest.stats@.len() as int)
                    == old(self).manifest.stats@
                &&& stats_view(final(self).manifest.stats@.last()) == chunk_stats(chunk_view(file.data@))
            },
    {
        let handle = match written {
            Ok(h) => h,
            Err(e) => {
                return Err(e);
            },
        };
        let stats = calculate_statistics(&file.data);
        self.manifest.add_file(handle, stats);
        proof {
            assert(self.manifest.stats@.subrange(0, old(self).manifest.stats@.len() as int) =~= old(self).manifest.stats@);
        }
        Ok(handle)
    }

    /// Writes each chunk as a new file of the modified table and records it
    /// in the manifest with its statistics. Refused when no modification is
    /// in progress.
    pub fn insert(&mut self, chunks: Vec<TableChunk>) -> (r: Result<(), DatabaseError>)
        requires
            old(self).wf(),
            forall|i: int| 0 <= i < chunks@.len() ==> chunk_ok(chunk_view((#[trigger] chunks@[i])@)),
        ensures
            final(self).wf(),
            final(self).catalog == old(self).catalog,
            final(self).table_id == old(self).table_id,
            final(self).manifest.deleted@ == old(self).manifest.deleted@,
            stored_grows(old(self).storage.stored(), final(self).storage.stored()),
            old(self).table_id is None ==> r == Err::<(), DatabaseError>(DatabaseError::EngineError) && *final(self)
                == *old(self),
            old(self).table_id is Some && (chunks@.len() == 0 || old(self).storage.reliable()) ==> r is Ok,
            r is Ok ==> {
                let n0 = old(self).manifest.added@.len() as int;
                let k = chunks@.len() as int;
                let added = final(self).manifest.added@;
                &&& old(self).table_id is Some
                &&& added.len() == n0 + k
                &&& added.subrange(0, n0) == old(self).manifest.added@
                &&& final(self).manifest.stats@.len() == n0 + k
                &&& final(self).manifest.stats@.subrange(0, n0) == old(self).manifest.stats@
                &&& kept_written(final(self).storage.stored(), added, final(self).manifest.stats@, n0, chunks_view(chunks@))
                &&& final(self).changed_files@ == old(self).changed_files@.union(ids_of(added.subrange(n0, n0 + k)))
            },
    {
        if self.table_id.is_none() {
            return Err(DatabaseError::EngineError);
        }
        let ghost n0 = self.manifest.added@.len() as int;
        let ghost s0 = self.storage.stored();
        let mut i: usize = 0;
        proof {
            assert(chunks_view(chunks@).subrange(0, 0) =~= Seq::<Seq<Seq<ValueView>>>::empty());
        }
        while i < chunks.len()
            invariant
                i <= chunks@.len(),
                forall|q: int| 0 <= q < chunks@.len() ==> chunk_ok(chunk_view((#[trigger] chunks@[q])@)),
                self.wf(),
                self.catalog == old(self).catalog,
                self.table_id == old(self).table_id,
                old(self).table_id is Some,
                self.manifest.deleted@ == old(self).manifest.deleted@,
                n0 == old(self).manifest.added@.len(),
                self.storage.reliable() == old(self).storage.reliable(),
                s0 == old(self).storage.stored(),
                stored_grows(s0, self.storage.stored()),
                self.manifest.added@.len() == n0 + i,
                self.manifest.added@.subrange(0, n0) == old(self).manifest.added@,
                self.manifest.stats@.len() == n0 + i,
                self.manifest.stats@.subrange(0, n0) == old(self).manifest.stats@,
                kept_written(
                    self.storage.stored(),
                    self.manifest.added@,
                    self.manifest.stats@,
                    n0,
                    chunks_view(chunks@).subrange(0, i as int),
                ),
                self.changed_files@ == old(self).changed_files@.union(
                    ids_of(self.manifest.added@.subrange(n0, n0 + i)),
                ),
            decreases chunks@.len() - i,
        {
            let chunk = &chunks[i];
            let ghost ch = chunk_view(chunk@);
            proof {
                assert(chunk_ok(ch));
                assert forall|j: int| 0 <= j < chunk@.len() implies (#[trigger] chunk@[j])@.len() > 0 by {
                    assert(column_uniform(ch[j]));
                }
            }
            let column_info = generate_column_info(chunk);
            let rows = chunk[0].len() as u64;
            let columns = chunk.len() as u64;
            let datafile = DataFile::new(DataFileHeader::new(rows, columns, column_info), copy_chunk(chunk));
            proof {
                assert(datafile.view_of() == chunk_file(ch));
            }
            let ghost before = *self;
            let handle = match self.add_data_file(&datafile) {
                Ok(h) => h,
                Err(e) => {
                    return Err(e);
                },
            };
            self.changed_files.insert(handle.0);
            proof {
                let added = self.manifest.added@;
                assert(added.subrange(0, n0) =~= before.manifest.added@.subrange(0, n0));
                assert(self.manifest.stats@.subrange(0, n0) =~= before.manifest.stats@.subrange(0, n0));
                let k0 = chunks_view(chunks@).subrange(0, i as int);
                let k1 = chunks_view(chunks@).subrange(0, i + 1);
                assert(kept_written(before.storage.stored(), before.manifest.added@, before.manifest.stats@, n0, k0));
                assert forall|q: int| 0 <= q < k1.len() implies #[trigger] kept_at(
                    self.storage.stored(),
                    self.manifest.added@,
                    self.manifest.stats@,
                    n0,
                    k1,
                    q,
                ) by {
                    if q < i {
                        let x = before.manifest.added@[n0 + q].0;
                        assert(kept_at(before.storage.stored(), before.manifest.added@, before.manifest.stats@, n0, k0, q));
                        assert(k1[q] == k0[q]);
                        assert(self.manifest.added@[n0 + q] == before.manifest.added@[n0 + q]);
                        assert(self.manifest.stats@[n0 + q] == before.manifest.stats@[n0 + q]);
                        assert(before.storage.stored().contains_key(x));
                        assert(x != handle.0);
                        assert(self.storage.stored()[x] == before.storage.stored()[x]);
                    } else {
                        assert(k1[q] == ch);
                    }
                }
                assert(kept_written(self.storage.stored(), self.manifest.added@, self.manifest.stats@, n0, k1));
                let ids0 = added.subrange(n0, n0 + i).map_values(|h: FileHandle| h.0);
                assert(added.subrange(n0, n0 + i + 1).map_values(|h: FileHandle| h.0) =~= ids0.push(handle.0));
                assert(added.subrange(n0, n0 + i) =~= before.manifest.added@.subrange(n0, n0 + i));
                ids0.lemma_push_to_set_commute(handle.0);
                assert(self.changed_files@ =~= old(self).changed_files@.union(
                    ids_of(self.manifest.added@.subrange(n0, n0 + i + 1)),
                ));
            }
            i = i + 1;
        }
        proof {
            assert(chunks_view(chunks@).subrange(0, chunks@.len() as int) =~= chunks_view(chunks@));
        }
        Ok(())
    }

    /// Deletes rows from files of the modified table, copy-on-write: each
    /// file `(handle, rows)` is read, the listed rows are dropped, the rest
    /// (when rows are left) is written as a new file, and the old file is
    /// recorded as deleted. Refused when no modification is in progress, or
    /// when a file is listed twice, was modified already, or is not in the
    /// table; a chunk that cannot be written is refused too.
    pub fn delete(&mut self, deletions: Vec<(FileHandle, Vec<u32>)>) -> (r: Result<(), DatabaseError>)
        requires
            old(self).wf(),
        ensures
            final(self).wf(),
            final(self).catalog == old(self).catalog,
            final(self).table_id == old(self).table_id,
            stored_grows(old(self).storage.stored(), final(self).storage.stored()),
            old(self).table_id is None ==> r == Err::<(), DatabaseError>(DatabaseError::EngineError) && *final(self)
                == *old(self),
            old(self).table_id is Some && !old(self).targets_ok(deletions@.map_values(|p: (FileHandle, Vec<u32>)| p.0))
                ==> r == Err::<(), DatabaseError>(DatabaseError::EngineError) && *final(self) == *old(self),
            ({
                let hs = deletions@.map_values(|p: (FileHandle, Vec<u32>)| p.0);
                let ds = deletions_view(deletions@);
                let s0 = old(self).storage.stored();
                &&& old(self).table_id is Some && old(self).targets_ok(hs) && (deletions@.len() == 0 || (
                old(self).storage.reliable() && deletes_ok(s0, ds, ds.len() as int))) ==> r is Ok
                &&& old(self).table_id is Some && old(self).targets_ok(hs) && old(self).storage.reliable() && !deletes_ok(
                    s0,
                    ds,
                    ds.len() as int,
                ) ==> exists|j: int|
                    0 <= j < ds.len() && deletes_ok(s0, ds, j) && #[trigger] delete_outcome(s0[ds[j].0.0], ds[j].1) is Err
                        && r == Err::<(), DatabaseError>(delete_outcome(s0[ds[j].0.0], ds[j].1)->Err_0)
            }),
            r is Ok ==> {
                let hs = deletions@.map_values(|p: (FileHandle, Vec<u32>)| p.0);
                let kept = chunks_after_deletes(old(self).storage.stored(), deletions_view(deletions@), deletions@.len() as int);
                let n0 = old(self).manifest.added@.len() as int;
                let added = final(self).manifest.added@;
                &&& old(self).table_id is Some
                &&& old(self).targets_ok(hs)
                &&& final(self).manifest.deleted@ == old(self).manifest.deleted@ + hs
                &&& final(self).changed_files@ == old(self).changed_files@.union(ids_of(hs))
                &&& added.len() == n0 + kept.len()
                &&& added.subrange(0, n0) == old(self).manifest.added@
                &&& final(self).manifest.stats@.subrange(0, n0) == old(self).manifest.stats@
                &&& kept_written(final(self).storage.stored(), added, final(self).manifest.stats@, n0, kept)
            },
    {
        if self.table_id.is_none() {
            return Err(DatabaseError::EngineError);
        }
        let mut handles: Vec<FileHandle> = Vec::new();
        let mut q: usize = 0;
        while q < deletions.len()
            invariant
                q <= deletions@.len(),
                handles@ == deletions@.subrange(0, q as int).map_values(|p: (FileHandle, Vec<u32>)| p.0),
            decreases deletions@.len() - q,
        {
            handles.push(deletions[q].0);
            q = q + 1;
            proof {
                assert(handles@ =~= deletions@.subrange(0, q as int).map_values(|p: (FileHandle, Vec<u32>)| p.0));
            }
        }
        proof {
            assert(deletions@.subrange(0, deletions@.len() as int) == deletions@);
        }
        if !self.check_targets(handles.as_slice()) {
            return Err(DatabaseError::EngineError);
        }
        let ghost hs = handles@;
        let ghost ds = deletions_view(deletions@);
        let ghost s0 = self.storage.stored();
        let ghost n0 = self.manifest.added@.len() as int;
        let ghost e0 = *self;
        let mut i: usize = 0;
        while i < deletions.len()
            invariant
                i <= deletions@.len(),
                hs == deletions@.map_values(|p: (FileHandle, Vec<u32>)| p.0),
                ds == deletions_view(deletions@),
                e0 == *old(self),
                e0.table_id is Some,
                e0.wf(),
                e0.targets_ok(hs),
                self.wf(),
                self.catalog == e0.catalog,
                self.table_id == e0.table_id,
                s0 == e0.storage.stored(),
                stored_grows(s0, self.storage.stored()),
                n0 == e0.manifest.added@.len(),
                self.storage.reliable() == e0.storage.reliable(),
                deletes_ok(s0, ds, i as int),
                self.manifest.deleted@ == e0.manifest.deleted@ + hs.subrange(0, i as int),
                self.changed_files@ == e0.changed_files@.union(ids_of(hs.subrange(0, i as int))),
                self.manifest.added@.len() == n0 + chunks_after_deletes(s0, ds, i as int).len(),
                self.manifest.added@.subrange(0, n0) == e0.manifest.added@,
                self.manifest.stats@.subrange(0, n0) == e0.manifest.stats@,
                kept_written(
                    self.storage.stored(),
                    self.manifest.added@,
                    self.manifest.stats@,
                    n0,
                    chunks_after_deletes(s0, ds, i as int),
                ),
            decreases deletions@.len() - i,
        {
            let (file_handle, rows_to_delete) = &deletions[i];
            proof {
                assert(hs[i as int] == *file_handle);
                assert(e0.live().contains(file_handle.0));
                let ms = e0.catalog.tables@[e0.table_id->Some_0 as int].manifests@;
                lemma_live_added(ms, ms.len() as int, file_handle.0);
                let (m, a) = choose|m: int, a: int|
                    0 <= m < ms.len() && 0 <= a < ms[m].added@.len() && (#[trigger] ms[m].added@[a]).0 == file_handle.0;
                assert(e0.catalog.tables@[e0.table_id->Some_0 as int].manifests@[m].added@[a].0 == file_handle.0);
                assert(s0.contains_key(file_handle.0));
            }
            let bytes = match self.storage.read_file(file_handle) {
                Ok(b) => b,
                Err(e) => {
                    return Err(e);
                },
            };
            let ghost nc = chunk_after_delete(s0, ds[i as int]);
            proof {
                assert(ds[i as int] == (*file_handle, rows_to_delete@));
                assert(bytes@ == s0[file_handle.0]);
            }
            let outcome = delete_in_file(bytes.as_slice(), rows_to_delete);
            let kept_file = match outcome {
                Ok(k) => k,
                Err(e) => {
                    proof {
                        assert(delete_outcome(s0[ds[i as int].0.0], ds[i as int].1) is Err);
                    }
                    return Err(e);
                },
            };
            proof {
                assert(delete_outcome(s0[ds[i as int].0.0], ds[i as int].1) is Ok);
                assert forall|j: int| 0 <= j < i + 1 implies #[trigger] delete_outcome(s0[ds[j].0.0], ds[j].1) is Ok by {
                }
            }
            let ghost before = *self;
            self.changed_files.insert(file_handle.0);
            match kept_file {
                Some(new_datafile) => {
                    let first_len = new_datafile.data[0].len();
                    proof {
                        assert(new_datafile.view_of() == chunk_file(nc));
                        assert(chunk_view(new_datafile.data@) == nc);
                        assert(nc.len() == new_datafile.data@.len());
                        assert(nc[0].len() == new_datafile.data@[0]@.len());
                        assert(nc[0].len() == first_len);
                        assert(nc.len() > 0);
                        assert(new_datafile.data.len() as int == new_datafile.data@.len());
                        assert(nc.len() <= u64::MAX);
                        assert(nc[0].len() <= u64::MAX);
                        assert(chunk_uniform(nc));
                        assert(writable(chunk_file(nc)));
                        assert(chunk_ok(nc));
                    }
                    let ghost mid = *self;
                    match self.add_data_file(&new_datafile) {
                        Ok(h) => {
                            proof {
                                let kept0 = chunks_after_deletes(s0, ds, i as int);
                                assert(chunks_after_deletes(s0, ds, i + 1) == kept0.push(nc));
                                assert(self.manifest.added@.subrange(0, n0) =~= mid.manifest.added@.subrange(0, n0));
                                assert(self.manifest.stats@.subrange(0, n0) =~= mid.manifest.stats@.subrange(0, n0));
                                let kept1 = chunks_after_deletes(s0, ds, i + 1);
                                assert(kept1.len() == kept0.len() + 1);
                                assert(kept_written(mid.storage.stored(), mid.manifest.added@, mid.manifest.stats@, n0, kept0));
                                assert forall|j: int| 0 <= j < kept1.len() implies #[trigger] kept_at(
                                    self.storage.stored(),
                                    self.manifest.added@,
                                    self.manifest.stats@,
                                    n0,
                                    kept1,
                                    j,
                                ) by {
                                    if j < kept0.len() {
                                        let x = mid.manifest.added@[n0 + j].0;
                                        assert(kept_at(mid.storage.stored(), mid.manifest.added@, mid.manifest.stats@, n0, kept0, j));
                                        assert(kept1[j] == kept0[j]);
                                        assert(self.manifest.added@[n0 + j] == mid.manifest.added@[n0 + j]);
                                        assert(self.manifest.stats@[n0 + j] == mid.manifest.stats@[n0 + j]);
                                        assert(mid.storage.stored().contains_key(x));
                                        assert(x != h.0);
                                        assert(self.storage.stored()[x] == mid.storage.stored()[x]);
                                    } else {
                                        assert(kept1[j] == nc);
                                        assert(chunk_ok(nc));
                                    }
                                }
                                assert(kept_written(
                                    self.storage.stored(),
                                    self.manifest.added@,
                                    self.manifest.stats@,
                                    n0,
                                    kept1,
                                ));
                            }
                        },
                        Err(e) => {
                            return Err(e);
                        },
                    }
                },
                None => {
                    proof {
                        assert(chunks_after_deletes(s0, ds, i + 1) == chunks_after_deletes(s0, ds, i as int));
                        assert(self.manifest == before.manifest);
                        assert(self.storage == before.storage);
                        assert(kept_written(
                            self.storage.stored(),
                            self.manifest.added@,
                            self.manifest.stats@,
                            n0,
                            chunks_after_deletes(s0, ds, i + 1),
                        ));
                    }
                },
            }
            let ghost mid2 = *self;
            self.manifest.delete_file(*file_handle);
            proof {
                assert(self.manifest.added@ == mid2.manifest.added@);
                assert(self.manifest.stats@ == mid2.manifest.stats@);
                assert(self.storage == mid2.storage);
                assert(hs.subrange(0, i + 1) =~= hs.subrange(0, i as int).push(*file_handle));
                let ids0 = hs.subrange(0, i as int).map_values(|h: FileHandle| h.0);
                assert(hs.subrange(0, i + 1).map_values(|h: FileHandle| h.0) =~= ids0.push(file_handle.0));
                ids0.lemma_push_to_set_commute(file_handle.0);
                assert(self.changed_files@ =~= e0.changed_files@.union(ids_of(hs.subrange(0, i + 1))));
                assert(self.manifest.deleted@ =~= e0.manifest.deleted@ + hs.subrange(0, i + 1));
            }
            i = i + 1;
        }
        proof {
            assert(hs.subrange(0, deletions@.len() as int) == hs);
        }
        Ok(())
    }

    /// Updates rows of files of the modified table, copy-on-write: for each
    /// file `(handle, changes)` the file is read, each change `(row,
    /// record)` overwrites that row with the record's values, the result is
    /// written as a new file, and the old file is recorded as deleted.
    /// Refused when no modification is in progress, or when a file is listed
    /// twice, was modified already, or is not in the table; a change of a
    /// row that does not exist, or a result that cannot be stored, is
    /// refused too.
    pub fn update(&mut self, updates: Vec<(FileHandle, Vec<(u32, Record)>)>) -> (r: Result<(), DatabaseError>)
        requires
            old(self).wf(),
        ensures
            final(self).wf(),
            final(self).catalog == old(self).catalog,
            final(self).table_id == old(self).table_id,
            stored_grows(old(self).storage.stored(), final(self).storage.stored()),
            old(self).table_id is None ==> r == Err::<(), DatabaseError>(DatabaseError::EngineError) && *final(self)
                == *old(self),
            old(self).table_id is Some && !old(self).targets_ok(
                updates@.map_values(|p: (FileHandle, Vec<(u32, Record)>)| p.0),
            ) ==> r == Err::<(), DatabaseError>(DatabaseError::EngineError) && *final(self) == *old(self),
            ({
                let hs = updates@.map_values(|p: (FileHandle, Vec<(u32, Record)>)| p.0);
                let us = updates_view(updates@);
                let s0 = old(self).storage.stored();
                &&& old(self).table_id is Some && old(self).targets_ok(hs) && (updates@.len() == 0 || (
                old(self).storage.reliable() && updates_ok(s0, us, us.len() as int))) ==> r is Ok
                &&& old(self).table_id is Some && old(self).targets_ok(hs) && old(self).storage.reliable() && !updates_ok(
                    s0,
                    us,
                    us.len() as int,
                ) ==> exists|j: int|
                    0 <= j < us.len() && updates_ok(s0, us, j) && #[trigger] update_outcome(s0[us[j].0.0], us[j].1) is Err
                        && r == Err::<(), DatabaseError>(update_outcome(s0[us[j].0.0], us[j].1)->Err_0)
            }),
            r is Ok ==> {
                let hs = updates@.map_values(|p: (FileHandle, Vec<(u32, Record)>)| p.0);
                let fs = files_after_updates(old(self).storage.stored(), updates_view(updates@), updates@.len() as int);
                let n0 = old(self).manifest.added@.len() as int;
                let added = final(self).manifest.added@;
                &&& old(self).table_id is Some
                &&& old(self).targets_ok(hs)
                &&& final(self).manifest.deleted@ == old(self).manifest.deleted@ + hs
                &&& final(self).changed_files@ == old(self).changed_files@.union(ids_of(hs))
                &&& added.len() == n0 + fs.len()
                &&& added.subrange(0, n0) == old(self).manifest.added@
                &&& final(self).manifest.stats@.subrange(0, n0) == old(self).manifest.stats@
                &&& updated_written(final(self).storage.stored(), added, final(self).manifest.stats@, n0, fs)
            },
    {
        if self.table_id.is_none() {
            return Err(DatabaseError::EngineError);
        }
        let mut handles: Vec<FileHandle> = Vec::new();
        let mut q: usize = 0;
        while q < updates.len()
            invariant
                q <= updates@.len(),
                handles@ == updates@.subrange(0, q as int).map_values(|p: (FileHandle, Vec<(u32, Record)>)| p.0),
            decreases updates@.len() - q,
        {
            handles.push(updates[q].0);
            q = q + 1;
            proof {
                assert(handles@ =~= updates@.subrange(0, q as int).map_values(
                    |p: (FileHandle, Vec<(u32, Record)>)| p.0,
                ));
            }
        }
        proof {
            assert(updates@.subrange(0, updates@.len() as int) == updates@);
        }
        if !self.check_targets(handles.as_slice()) {
            return Err(DatabaseError::EngineError);
        }
        let ghost hs = handles@;
        let ghost us = updates_view(updates@);
        let ghost s0 = self.storage.stored();
        let ghost n0 = self.manifest.added@.len() as int;
        let ghost e0 = *self;
        let mut i: usize = 0;
        while i < updates.len()
            invariant
                i <= updates@.len(),
                hs == updates@.map_values(|p: (FileHandle, Vec<(u32, Record)>)| p.0),
                us == updates_view(updates@),
                e0 == *old(self),
                e0.table_id is Some,
                e0.wf(),
                e0.targets_ok(hs),
                self.wf(),
                self.catalog == e0.catalog,
                self.table_id == e0.table_id,
                s0 == e0.storage.stored(),
                stored_grows(s0, self.storage.stored()),
                n0 == e0.manifest.added@.len(),
                self.storage.reliable() == e0.storage.reliable(),
                updates_ok(s0, us, i as int),
                self.manifest.deleted@ == e0.manifest.deleted@ + hs.subrange(0, i as int),
                self.changed_files@ == e0.changed_files@.union(ids_of(hs.subrange(0, i as int))),
                self.manifest.added@.len() == n0 + i,
                self.manifest.added@.subrange(0, n0) == e0.manifest.added@,
                self.manifest.stats@.subrange(0, n0) == e0.manifest.stats@,
                updated_written(
                    self.storage.stored(),
                    self.manifest.added@,
                    self.manifest.stats@,
                    n0,
                    files_after_updates(s0, us, i as int),
                ),
            decreases updates@.len() - i,
        {
            let (file_handle, changes) = &updates[i];
            proof {
                assert(hs[i as int] == *file_handle);
                assert(e0.live().contains(file_handle.0));
                let ms = e0.catalog.tables@[e0.table_id->Some_0 as int].manifests@;
                lemma_live_added(ms, ms.len() as int, file_handle.0);
                let (m, a) = choose|m: int, a: int|
                    0 <= m < ms.len() && 0 <= a < ms[m].added@.len() && (#[trigger] ms[m].added@[a]).0 == file_handle.0;
                assert(e0.catalog.tables@[e0.table_id->Some_0 as int].manifests@[m].added@[a].0 == file_handle.0);
                assert(s0.contains_key(file_handle.0));
            }
            let bytes = match self.storage.read_file(file_handle) {
                Ok(b) => b,
                Err(e) => {
                    return Err(e);
                },
            };
            proof {
                assert(us[i as int] == (*file_handle, changes_view(changes@)));
                assert(bytes@ == s0[file_handle.0]);
            }
            let datafile = match update_in_file(bytes.as_slice(), changes) {
                Ok(f) => f,
                Err(e) => {
                    proof {
                        assert(update_outcome(s0[us[i as int].0.0], us[i as int].1) is Err);
                    }
                    return Err(e);
                },
            };
            let ghost nf = datafile.view_of();
            proof {
                assert(update_outcome(s0[us[i as int].0.0], us[i as int].1) is Ok);
                assert(nf == file_after_update(s0, us[i as int]));
                assert forall|j: int| 0 <= j < i + 1 implies #[trigger] update_outcome(s0[us[j].0.0], us[j].1) is Ok by {
                }
            }
            let ghost before = *self;
            self.changed_files.insert(file_handle.0);
            let ghost mid = *self;
            match self.add_data_file(&datafile) {
                Ok(h) => {
                    proof {
                        let fs0 = files_after_updates(s0, us, i as int);
                        let fs1 = files_after_updates(s0, us, i + 1);
                        assert(fs1 =~= fs0.push(nf));
                        assert(self.manifest.added@.subrange(0, n0) =~= mid.manifest.added@.subrange(0, n0));
                        assert(self.manifest.stats@.subrange(0, n0) =~= mid.manifest.stats@.subrange(0, n0));
                        assert(updated_written(mid.storage.stored(), mid.manifest.added@, mid.manifest.stats@, n0, fs0));
                        assert forall|j: int| 0 <= j < fs1.len() implies #[trigger] updated_at(
                            self.storage.stored(),
                            self.manifest.added@,
                            self.manifest.stats@,
                            n0,
                            fs1,
                            j,
                        ) by {
                            if j < fs0.len() {
                                let x = mid.manifest.added@[n0 + j].0;
                                assert(updated_at(mid.storage.stored(), mid.manifest.added@, mid.manifest.stats@, n0, fs0, j));
                                assert(fs1[j] == fs0[j]);
                                assert(self.manifest.added@[n0 + j] == mid.manifest.added@[n0 + j]);
                                assert(self.manifest.stats@[n0 + j] == mid.manifest.stats@[n0 + j]);
                                assert(mid.storage.stored().contains_key(x));
                                assert(x != h.0);
                                assert(self.storage.stored()[x] == mid.storage.stored()[x]);
                            } else {
                                assert(fs1[j] == nf);
                            }
                        }
                        assert(updated_written(self.storage.stored(), self.manifest.added@, self.manifest.stats@, n0, fs1));
                    }
                },
                Err(e) => {
                    return Err(e);
                },
            }
            let ghost mid2 = *self;
            self.manifest.delete_file(*file_handle);
            proof {
                assert(self.manifest.added@ == mid2.manifest.added@);
                assert(self.manifest.stats@ == mid2.manifest.stats@);
                assert(self.storage == mid2.storage);
                let ids0 = hs.subrange(0, i as int).map_values(|h: FileHandle| h.0);
                assert(hs.subrange(0, i + 1).map_values(|h: FileHandle| h.0) =~= ids0.push(file_handle.0));
                ids0.lemma_push_to_set_commute(file_handle.0);
                assert(self.changed_files@ =~= e0.changed_files@.union(ids_of(hs.subrange(0, i + 1))));
                assert(hs.subrange(0, i + 1) =~= hs.subrange(0, i as int).push(*file_handle));
                assert(self.manifest.deleted@ =~= e0.manifest.deleted@ + hs.subrange(0, i + 1));
            }
            i = i + 1;
        }
        proof {
            assert(hs.subrange(0, updates@.len() as int) == hs);
        }
        Ok(())
    }

    /// Marks whole files of the modified table as deleted. Refused when no
    /// modification is in progress, or when a file is listed twice, was
    /// modified already, or is not in the table.
    pub fn delete_chunks(&mut self, deletions: &[FileHandle]) -> (r: Result<(), DatabaseError>)
        requires
            old(self).wf(),
        ensures
            final(self).wf(),
            final(self).catalog == old(self).catalog,
            final(self).table_id == old(self).table_id,
            final(self).storage == old(self).storage,
            final(self).manifest.added@ == old(self).manifest.added@,
            final(self).manifest.stats@ == old(self).manifest.stats@,
            r is Err <==> old(self).table_id is None || !old(self).targets_ok(deletions@),
            r is Err ==> r == Err::<(), DatabaseError>(DatabaseError::EngineError) && *final(self) == *old(self),
            r is Ok ==> final(self).manifest.deleted@ == old(self).manifest.deleted@ + deletions@
                && final(self).changed_files@ == old(self).changed_files@.union(ids_of(deletions@)),
    {
        if self.table_id.is_none() {
            return Err(DatabaseError::EngineError);
        }
        if !self.check_targets(deletions) {
            return Err(DatabaseError::EngineError);
        }
        let mut i: usize = 0;
        while i < deletions.len()
            invariant
                i <= deletions@.len(),
                self.wf(),
                self.catalog == old(self).catalog,
                self.table_id == old(self).table_id,
                self.storage == old(self).storage,
                self.manifest.added@ == old(self).manifest.added@,
                self.manifest.stats@ == old(self).manifest.stats@,
                self.manifest.deleted@ == old(self).manifest.deleted@ + deletions@.subrange(0, i as int),
                self.changed_files@ == old(self).changed_files@.union(ids_of(deletions@.subrange(0, i as int))),
            decreases deletions@.len() - i,
        {
            let file = deletions[i];
            self.manifest.delete_file(file);
            self.changed_files.insert(file.0);
            proof {
                let ids0 = deletions@.subrange(0, i as int).map_values(|h: FileHandle| h.0);
                assert(deletions@.subrange(0, i + 1).map_values(|h: FileHandle| h.0) =~= ids0.push(file.0));
                ids0.lemma_push_to_set_commute(file.0);
                assert(self.changed_files@ =~= old(self).changed_files@.union(ids_of(deletions@.subrange(0, i + 1))));
                assert(deletions@.subrange(0, i + 1) =~= deletions@.subrange(0, i as int).push(file));
                assert(self.manifest.deleted@ =~= old(self).manifest.deleted@ + deletions@.subrange(0, i + 1));
            }
            i = i + 1;
        }
        proof {
            assert(deletions@.subrange(0, deletions@.len() as int) == deletions@);
        }
        Ok(())
    }
}

} // verus!
