//! Naive bitmap index: one bitmap per distinct key value.

use vstd::prelude::*;

use super::bitmap::{bitmap_len, row_bit, or_into, zero_bitmap, set_row};
use super::index_iterator::IndexIterator;
use crate::distributed::{value_le, value_less_eq, DummyTable, Value};

verus! {

/// The key column of `table`: value `col` of every row.
pub open spec fn key_column(table: Seq<Vec<Value>>, col: int) -> Seq<Value> {
    table.map_values(|r: Vec<Value>| r@[col])
}

/// Whether every row of `table` has a column `col`.
pub open spec fn has_column(table: Seq<Vec<Value>>, col: int) -> bool {
    forall|r: int| 0 <= r < table.len() ==> col < (#[trigger] table[r])@.len()
}

/// Whether `bm` (over `column.len()` rows) has exactly the rows whose value
/// is `v` set.
pub open spec fn bitmap_of(bm: Seq<u8>, column: Seq<Value>, v: Value) -> bool {
    &&& bm.len() == bitmap_len(column.len() as int)
    &&& rows_with_value(bm, column, v)
}

/// Whether the rows set in `bm` are exactly those whose value in `column` is `v`.
pub open spec fn rows_with_value(bm: Seq<u8>, column: Seq<Value>, v: Value) -> bool {
    forall|r: int| row_bit(bm, r) <==> 0 <= r < column.len() && column[r] == v
}

/// Whether some entry is for value `v`.
pub open spec fn has_entry(entries: Seq<(Value, Vec<u8>)>, v: Value) -> bool {
    exists|i: int| 0 <= i < entries.len() && (#[trigger] entries[i]).0 == v
}

/// Position of the entry for `value`, or `entries.len()` when there is none.
fn find_value(entries: &Vec<(Value, Vec<u8>)>, value: &Value) -> (pos: usize)
    ensures
        pos <= entries@.len(),
        pos < entries@.len() ==> entries@[pos as int].0 == *value,
        forall|j: int| 0 <= j < pos ==> (#[trigger] entries@[j]).0 != *value,
{
    let mut pos: usize = 0;
    while pos < entries.len()
        invariant
            pos <= entries@.len(),
            forall|j: int| 0 <= j < pos ==> (#[trigger] entries@[j]).0 != *value,
        decreases entries.len() - pos,
    {
        if entries[pos].0 == *value {
            return pos;
        }
        pos = pos + 1;
    }
    pos
}

/// A bitmap index holding, for every distinct value of the key column, the
/// bitmap of the rows with that value.
pub struct NaiveBitmapIndex {
    number_of_records: usize,
    entries: Vec<(Value, Vec<u8>)>,
    column: Ghost<Seq<Value>>,
    origin: Ghost<Seq<int>>,
}

impl NaiveBitmapIndex {
    /// The indexed key column.
    pub closed spec fn column(&self) -> Seq<Value> {
        self.column@
    }

    /// The index is consistent with its column.
    pub closed spec fn wf(&self) -> bool {
        &&& self.number_of_records == self.column@.len()
        &&& self.number_of_records + 7 <= usize::MAX
        &&& forall|i: int|
            0 <= i < self.entries@.len() ==> bitmap_of(
                (#[trigger] self.entries@[i]).1@,
                self.column@,
                self.entries@[i].0,
            )
        &&& forall|r: int|
            0 <= r < self.column@.len() ==> has_entry(self.entries@, #[trigger] self.column@[r])
        &&& forall|i: int, j: int| 0 <= i < j < self.entries@.len() ==> self.entries@[i].0 != self.entries@[j].0
        &&& self.origin@.len() == self.entries@.len()
        &&& forall|i: int|
            0 <= i < self.entries@.len() ==> 0 <= #[trigger] self.origin@[i] < self.column@.len()
                && self.column@[self.origin@[i]] == self.entries@[i].0
    }

    /// The values that have a bitmap, one entry each.
    pub closed spec fn values(&self) -> Seq<Value> {
        self.entries@.map_values(|e: (Value, Vec<u8>)| e.0)
    }

    /// Indexes column `key_column_number` of `table`.
    pub fn new(table: &DummyTable, key_column_number: usize) -> (idx: Self)
        requires
            has_column(table.records@, key_column_number as int),
            table.records@.len() + 7 <= usize::MAX,
        ensures
            idx.wf(),
            idx.column() == key_column(table.records@, key_column_number as int),
            idx.values().no_duplicates(),
            forall|v: Value| #[trigger] idx.values().contains(v) <==> idx.column().contains(v),
    {
        let length = table.get_number_of_records();
        let ghost mut origin: Seq<int> = Seq::empty();
        let ghost column = key_column(table.records@, key_column_number as int);
        let vec_len = (length + 7) / 8;
        let mut entries: Vec<(Value, Vec<u8>)> = Vec::new();
        let mut row: usize = 0;
        while row < length
            invariant
                length == table.records@.len(),
                column == key_column(table.records@, key_column_number as int),
                has_column(table.records@, key_column_number as int),
                vec_len == bitmap_len(length as int),
                row <= length,
                forall|i: int|
                    0 <= i < entries@.len() ==> rows_with_value(
                        (#[trigger] entries@[i]).1@,
                        column.take(row as int),
                        entries@[i].0,
                    ) && entries@[i].1@.len() == vec_len,
                forall|r: int|
                    0 <= r < row ==> exists|i: int|
                        0 <= i < entries@.len() && (#[trigger] entries@[i]).0 == #[trigger] column[r],
                forall|i: int, j: int|
                    0 <= i < j < entries@.len() ==> entries@[i].0 != entries@[j].0,
                origin.len() == entries@.len(),
                forall|i: int|
                    0 <= i < entries@.len() ==> 0 <= #[trigger] origin[i] < row && column[origin[i]]
                        == entries@[i].0,
            decreases length - row,
        {
            let value = table.records[row][key_column_number];
            assert(value == column[row as int]);
            let pos = find_value(&entries, &value);
            let ghost before = entries@;
            let ghost c0 = column.take(row as int);
            let ghost c1 = column.take(row + 1);
            proof {
                assert(c1.drop_last() =~= c0);
                assert(forall|r: int| 0 <= r < row ==> c1[r] == #[trigger] c0[r]);
            }
            if pos == entries.len() {
                let zeros = zero_bitmap(vec_len);
                proof {
                    assert forall|r: int| 0 <= r < row implies #[trigger] column[r] != value by {
                        let i = choose|i: int| 0 <= i < before.len() && (#[trigger] before[i]).0 == column[r];
                    }
                    assert(forall|r: int| 0 <= r < row ==> c0[r] == #[trigger] column[r]);
                    assert(rows_with_value(zeros@, c0, value));
                }
                entries.push((value, zeros));
                proof {
                    origin = origin.push(row as int);
                }
            }
            let ghost mid = entries@;
            proof {
                assert(mid[pos as int].0 == value);
                assert forall|i: int| 0 <= i < mid.len() implies rows_with_value(
                    (#[trigger] mid[i]).1@,
                    c0,
                    mid[i].0,
                ) && mid[i].1@.len() == vec_len by {
                    if i < before.len() {
                        assert(mid[i] == before[i]);
                    }
                }
                assert forall|i: int| 0 <= i < mid.len() && i != pos implies (#[trigger] mid[i]).0
                    != value by {
                    if i < before.len() {
                        assert(mid[i] == before[i]);
                    }
                }
            }
            let (v, mut bm) = entries.remove(pos);
            set_row(&mut bm, row);
            let ghost newbm = bm@;
            entries.insert(pos, (v, bm));
            proof {
                assert(entries@ =~= mid.update(pos as int, (v, bm)));
                assert forall|i: int| 0 <= i < entries@.len() implies rows_with_value(
                    (#[trigger] entries@[i]).1@,
                    c1,
                    entries@[i].0,
                ) && entries@[i].1@.len() == vec_len by {
                    if i == pos {
                        assert forall|r: int| row_bit(newbm, r) <==> 0 <= r < c1.len() && c1[r]
                            == value by {
                            if 0 <= r < row {
                                assert(c1[r] == c0[r]);
                            }
                        }
                    } else {
                        assert(entries@[i] == mid[i]);
                        assert forall|r: int| row_bit(mid[i].1@, r) <==> 0 <= r < c1.len() && c1[r]
                            == mid[i].0 by {
                            if 0 <= r < row {
                                assert(c1[r] == c0[r]);
                            }
                        }
                    }
                }
                assert forall|r: int| 0 <= r < row + 1 implies exists|i: int|
                    0 <= i < entries@.len() && (#[trigger] entries@[i]).0 == #[trigger] column[r] by {
                    if r == row {
                        assert(entries@[pos as int].0 == column[r]);
                    } else {
                        let i = choose|i: int| 0 <= i < before.len() && (#[trigger] before[i]).0 == column[r];
                        assert(entries@[i].0 == mid[i].0);
                    }
                }
                assert forall|i: int, j: int| 0 <= i < j < entries@.len() implies entries@[i].0
                    != entries@[j].0 by {
                    assert(entries@[i].0 == mid[i].0);
                    assert(entries@[j].0 == mid[j].0);
                    if j == before.len() {
                        assert(mid[i] == before[i]);
                    } else {
                        assert(mid[i] == before[i]);
                        assert(mid[j] == before[j]);
                    }
                }
            }
            proof {
                assert forall|i: int| 0 <= i < entries@.len() implies 0 <= #[trigger] origin[i] < row + 1
                    && column[origin[i]] == entries@[i].0 by {
                    assert(entries@[i].0 == mid[i].0);
                }
            }
            row = row + 1;
        }
        proof {
            assert(column.take(length as int) =~= column);
            assert forall|i: int| 0 <= i < entries@.len() implies bitmap_of(
                (#[trigger] entries@[i]).1@,
                column,
                entries@[i].0,
            ) by {}
        }
        let idx = NaiveBitmapIndex { number_of_records: length, entries, column: Ghost(column), origin: Ghost(origin) };
        proof {
            assert(idx.number_of_records == idx.column@.len());
            assert(idx.number_of_records + 7 <= usize::MAX);
            assert(forall|i: int|
            0 <= i < idx.entries@.len() ==> bitmap_of(
                (#[trigger] idx.entries@[i]).1@,
                idx.column@,
                idx.entries@[i].0,
            ));
            assert forall|r: int| 0 <= r < idx.column@.len() implies has_entry(
                idx.entries@,
                #[trigger] idx.column@[r],
            ) by {
                assert(idx.column@[r] == column[r]);
                assert(0 <= r < row);
                let i = choose|i: int| 0 <= i < idx.entries@.len() && (#[trigger] idx.entries@[i]).0 == column[r];
                assert(idx.entries@[i].0 == idx.column@[r]);
                assert(has_entry(idx.entries@, idx.column@[r]));
            }
            assert(idx.wf());
            let vs = idx.values();
            assert forall|i: int, j: int| 0 <= i < vs.len() && 0 <= j < vs.len() && i != j implies vs[i] != vs[j] by {
                if i < j {
                    assert(idx.entries@[i].0 != idx.entries@[j].0);
                } else {
                    assert(idx.entries@[j].0 != idx.entries@[i].0);
                }
            }
            assert forall|v: Value| #[trigger] vs.contains(v) <==> idx.column().contains(v) by {
                if vs.contains(v) {
                    let i = choose|i: int| 0 <= i < vs.len() && vs[i] == v;
                    assert(idx.entries@[i].0 == v);
                    assert(idx.column()[origin[i]] == v);
                }
                if idx.column().contains(v) {
                    let r = choose|r: int| 0 <= r < idx.column().len() && idx.column()[r] == v;
                    assert(has_entry(idx.entries@, idx.column@[r]));
                    let i = choose|i: int| 0 <= i < idx.entries@.len() && (#[trigger] idx.entries@[i]).0 == v;
                    assert(vs[i] == v);
                }
            }
        }
        idx
    }

    /// The rows whose key lies in `[start_key, end_key]`, in increasing order.
    pub fn range_lookup(&self, start_key: Value, end_key: Value) -> (it: IndexIterator)
        requires
            self.wf(),
        ensures
            it.position() == 0,
            it.bits().len() == bitmap_len(self.column().len() as int),
            forall|r: int|
                row_bit(it.bits(), r) <==> 0 <= r < self.column().len() && value_le(
                    start_key,
                    self.column()[r],
                ) && value_le(self.column()[r], end_key),
            start_key is UInt && end_key is UInt ==> forall|r: int|
                row_bit(it.bits(), r) <==> 0 <= r < self.column().len() && self.column()[r] is UInt
                    && start_key->UInt_0 <= self.column()[r]->UInt_0 <= end_key->UInt_0,
    {
        let vec_len = (self.number_of_records + 7) / 8;
        let mut bitmap = zero_bitmap(vec_len);
        let ghost column = self.column@;
        let mut i: usize = 0;
        while i < self.entries.len()
            invariant
                self.wf(),
                column == self.column@,
                i <= self.entries@.len(),
                bitmap@.len() == vec_len,
                vec_len == bitmap_len(column.len() as int),
                forall|r: int|
                    row_bit(bitmap@, r) <==> exists|j: int|
                        0 <= j < i && value_le(start_key, (#[trigger] self.entries@[j]).0)
                            && value_le(self.entries@[j].0, end_key) && 0 <= r < column.len()
                            && column[r] == self.entries@[j].0,
            decreases self.entries.len() - i,
        {
            let key = &self.entries[i].0;
            if value_less_eq(&start_key, key) && value_less_eq(key, &end_key) {
                let ghost before = bitmap@;
                or_into(&mut bitmap, &self.entries[i].1);
                proof {
                    assert(bitmap_of(self.entries@[i as int].1@, column, self.entries@[i as int].0));
                    assert forall|r: int| row_bit(bitmap@, r) <==> exists|j: int|
                        0 <= j < i + 1 && value_le(start_key, (#[trigger] self.entries@[j]).0)
                            && value_le(self.entries@[j].0, end_key) && 0 <= r < column.len()
                            && column[r] == self.entries@[j].0 by {
                        if 0 <= r < 8 * before.len() {
                            if row_bit(self.entries@[i as int].1@, r) {
                                assert(0 <= r < column.len() && column[r] == self.entries@[i as int].0);
                            }
                        }
                    }
                }
            }
            i = i + 1;
        }
        proof {
            assert forall|r: int|
                row_bit(bitmap@, r) <==> 0 <= r < column.len() && value_le(start_key, column[r])
                    && value_le(column[r], end_key) by {
                if 0 <= r < column.len() {
                    let j = choose|j: int|
                        0 <= j < self.entries@.len() && (#[trigger] self.entries@[j]).0 == column[r];
                    assert(self.entries@[j].0 == column[r]);
                }
            }
        }
        IndexIterator::new(bitmap)
    }
}

} // verus!
