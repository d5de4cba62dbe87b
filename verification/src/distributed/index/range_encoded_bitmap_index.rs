//! Range-encoded bitmap index: the bitmap of key `v` holds every row whose
//! value is at least `v`, so a range needs two bitmaps.

use vstd::prelude::*;

use super::bitmap::{and_not_into, bitmap_len, row_bit, set_row, zero_bitmap};
use super::index_iterator::IndexIterator;
use super::naive_bitmap_index::{has_column, key_column};
use crate::distributed::{lemma_value_order, value_le, value_less_eq, DummyTable, Value};

verus! {

/// `a < b` in the value order.
pub open spec fn value_lt(a: Value, b: Value) -> bool {
    value_le(a, b) && a != b
}

/// Whether the rows set in `bm` are exactly those whose value is at least `v`.
pub open spec fn rows_at_least(bm: Seq<u8>, column: Seq<Value>, v: Value) -> bool {
    forall|r: int| row_bit(bm, r) <==> 0 <= r < column.len() && value_le(v, column[r])
}

/// A bitmap index with one cumulative bitmap per distinct key, keys ascending.
pub struct RangeEncodedBitmapIndex {
    number_of_records: usize,
    keys: Vec<Value>,
    bitmaps: Vec<Vec<u8>>,
    column: Ghost<Seq<Value>>,
}

impl RangeEncodedBitmapIndex {
    /// The indexed key column.
    pub closed spec fn column(&self) -> Seq<Value> {
        self.column@
    }

    /// The distinct key values, ascending.
    pub closed spec fn keys(&self) -> Seq<Value> {
        self.keys@
    }

    /// The index is consistent with its column.
    pub closed spec fn wf(&self) -> bool {
        &&& self.number_of_records == self.column@.len()
        &&& self.number_of_records + 7 <= usize::MAX
        &&& self.keys@.len() == self.bitmaps@.len()
        &&& forall|i: int, j: int| 0 <= i < j < self.keys@.len() ==> value_lt(self.keys@[i], self.keys@[j])
        &&& forall|i: int|
            0 <= i < self.keys@.len() ==> (#[trigger] self.bitmaps@[i])@.len() == bitmap_len(
                self.column@.len() as int,
            ) && rows_at_least(self.bitmaps@[i]@, self.column@, self.keys@[i])
        &&& forall|r: int| 0 <= r < self.column@.len() ==> self.keys@.contains(#[trigger] self.column@[r])
    }

    /// Indexes column `key_column_number` of `table`.
    pub fn new(table: &DummyTable, key_column_number: usize) -> (idx: Self)
        requires
            has_column(table.records@, key_column_number as int),
            table.records@.len() + 7 <= usize::MAX,
        ensures
            idx.wf(),
            idx.column() == key_column(table.records@, key_column_number as int),
            forall|k: Value| idx.keys().contains(k) ==> idx.column().contains(k),
    {
        let length = table.get_number_of_records();
        let ghost column = key_column(table.records@, key_column_number as int);
        let mut keys: Vec<Value> = Vec::new();
        let mut row: usize = 0;
        while row < length
            invariant
                length == table.records@.len(),
                column == key_column(table.records@, key_column_number as int),
                has_column(table.records@, key_column_number as int),
                row <= length,
                forall|i: int, j: int| 0 <= i < j < keys@.len() ==> value_lt(keys@[i], keys@[j]),
                forall|r: int| 0 <= r < row ==> keys@.contains(#[trigger] column[r]),
                forall|k: Value| keys@.contains(k) ==> column.contains(k),
            decreases length - row,
        {
            let value = table.records[row][key_column_number];
            assert(value == column[row as int]);
            let ghost before = keys@;
            let mut pos: usize = 0;
            while pos < keys.len() && !value_less_eq(&value, &keys[pos])
                invariant
                    pos <= keys@.len(),
                    keys@ == before,
                    forall|j: int| 0 <= j < pos ==> !value_le(value, #[trigger] keys@[j]),
                decreases keys.len() - pos,
            {
                pos = pos + 1;
            }
            if pos < keys.len() && keys[pos] == value {
            } else {
                keys.insert(pos, value);
                proof {
                    assert forall|i: int, j: int| 0 <= i < j < keys@.len() implies value_lt(
                        keys@[i],
                        keys@[j],
                    ) by {
                        lemma_value_order(keys@[i], keys@[j], value);
                        if j < pos {
                            assert(keys@[i] == before[i] && keys@[j] == before[j]);
                        } else if j == pos {
                            assert(keys@[i] == before[i]);
                            lemma_value_order(value, keys@[i], value);
                        } else if i == pos {
                            assert(keys@[j] == before[j - 1]);
                            assert(value_le(value, before[pos as int]) && value != before[pos as int]);
                            lemma_value_order(value, before[pos as int], before[j - 1]);
                            lemma_value_order(before[pos as int], value, before[j - 1]);
                            if j - 1 > pos {
                                assert(value_lt(before[pos as int], before[j - 1]));
                            }
                        } else if i < pos {
                            assert(keys@[i] == before[i] && keys@[j] == before[j - 1]);
                        } else {
                            assert(keys@[i] == before[i - 1] && keys@[j] == before[j - 1]);
                        }
                    }
                }
            }
            proof {
                assert(keys@[pos as int] == value);
                assert forall|r: int| 0 <= r < row + 1 implies keys@.contains(#[trigger] column[r]) by {
                    if r == row {
                        assert(keys@[pos as int] == column[r]);
                    } else {
                        assert(before.contains(column[r]));
                        let i = choose|i: int| 0 <= i < before.len() && before[i] == column[r];
                        if i < pos {
                            assert(keys@[i] == column[r]);
                        } else if keys@.len() == before.len() {
                            assert(keys@[i] == column[r]);
                        } else {
                            assert(keys@[i + 1] == column[r]);
                        }
                    }
                }
                assert forall|k: Value| keys@.contains(k) implies column.contains(k) by {
                    let i = choose|i: int| 0 <= i < keys@.len() && keys@[i] == k;
                    if k == value {
                        assert(column[row as int] == k);
                    } else if i < pos {
                        assert(before[i] == k);
                    } else if keys@.len() == before.len() {
                        assert(before[i] == k);
                    } else {
                        assert(before[i - 1] == k);
                    }
                }
            }
            row = row + 1;
        }
        let vec_len = (length + 7) / 8;
        let mut bitmaps: Vec<Vec<u8>> = Vec::new();
        let mut k: usize = 0;
        while k < keys.len()
            invariant
                length == table.records@.len(),
                column == key_column(table.records@, key_column_number as int),
                has_column(table.records@, key_column_number as int),
                vec_len == bitmap_len(length as int),
                k <= keys@.len(),
                bitmaps@.len() == k,
                forall|i: int|
                    0 <= i < k ==> (#[trigger] bitmaps@[i])@.len() == vec_len && rows_at_least(
                        bitmaps@[i]@,
                        column,
                        keys@[i],
                    ),
            decreases keys.len() - k,
        {
            let mut bm = zero_bitmap(vec_len);
            let mut r: usize = 0;
            while r < length
                invariant
                    length == table.records@.len(),
                    column == key_column(table.records@, key_column_number as int),
                    has_column(table.records@, key_column_number as int),
                    vec_len == bitmap_len(length as int),
                    k < keys@.len(),
                    r <= length,
                    bm@.len() == vec_len,
                    forall|x: int|
                        row_bit(bm@, x) <==> 0 <= x < r && value_le(keys@[k as int], column[x]),
                decreases length - r,
            {
                let v = table.records[r][key_column_number];
                assert(v == column[r as int]);
                if value_less_eq(&keys[k], &v) {
                    set_row(&mut bm, r);
                }
                r = r + 1;
            }
            bitmaps.push(bm);
            k = k + 1;
        }
        RangeEncodedBitmapIndex { number_of_records: length, keys, bitmaps, column: Ghost(column) }
    }

    /// The rows whose key lies in `[start_key, end_key]`, in increasing
    /// order; none when no key lies in the range.
    pub fn range_lookup(&self, start_key: Value, end_key: Value) -> (it: IndexIterator)
        requires
            self.wf(),
        ensures
            it.position() == 0,
            it.bits().len() == bitmap_len(self.column().len() as int),
            forall|r: int|
                row_bit(it.bits(), r) <==> 0 <= r < self.column().len() && value_le(
                    start_key,
                    self.column()[r],
                ) && value_le(self.column()[r], end_key),
            start_key is UInt && end_key is UInt ==> forall|r: int|
                row_bit(it.bits(), r) <==> 0 <= r < self.column().len() && self.column()[r] is UInt
                    && start_key->UInt_0 <= self.column()[r]->UInt_0 <= end_key->UInt_0,
    {
        let ghost keys = self.keys@;
        let ghost column = self.column@;
        let n = self.keys.len();
        let mut lo: usize = 0;
        while lo < n && !value_less_eq(&start_key, &self.keys[lo])
            invariant
                self.wf(),
                keys == self.keys@,
                n == keys.len(),
                lo <= n,
                forall|j: int| 0 <= j < lo ==> !value_le(start_key, #[trigger] keys[j]),
            decreases n - lo,
        {
            lo = lo + 1;
        }
        if lo == n || !value_less_eq(&self.keys[lo], &end_key) {
            let bitmap = zero_bitmap((self.number_of_records + 7) / 8);
            proof {
                assert forall|r: int|
                    !(0 <= r < column.len() && value_le(start_key, column[r]) && value_le(column[r], end_key)) by {
                    if 0 <= r < column.len() && value_le(start_key, column[r]) && value_le(column[r], end_key) {
                        assert(keys.contains(column[r]));
                        let m = choose|m: int| 0 <= m < keys.len() && keys[m] == column[r];
                        if m < lo {
                            assert(!value_le(start_key, keys[m]));
                        } else {
                            assert(lo < n);
                            if m > lo {
                                assert(value_lt(keys[lo as int], keys[m]));
                            }
                            lemma_value_order(keys[lo as int], column[r], end_key);
                        }
                    }
                }
            }
            return IndexIterator::new(bitmap);
        }
        let mut hi: usize = lo;
        while hi < n && value_less_eq(&self.keys[hi], &end_key)
            invariant
                self.wf(),
                keys == self.keys@,
                n == keys.len(),
                lo <= hi <= n,
                forall|j: int| 0 <= j < hi ==> value_le(#[trigger] keys[j], end_key),
            decreases n - hi,
        {
            proof {
                if hi + 1 < n {
                    assert(value_lt(keys[hi as int], keys[hi + 1]));
                }
            }
            hi = hi + 1;
        }
        proof {
            assert forall|j: int| 0 <= j < hi implies value_le(#[trigger] keys[j], end_key) by {}
            assert forall|j: int| 0 <= j < lo implies value_le(#[trigger] keys[j], end_key) by {
                assert(value_lt(keys[j], keys[lo as int]));
                lemma_value_order(keys[j], keys[lo as int], end_key);
            }
        }
        let mut bitmap = self.bitmaps[lo].clone();
        if hi < n {
            and_not_into(&mut bitmap, &self.bitmaps[hi]);
        }
        proof {
            assert forall|r: int|
                row_bit(bitmap@, r) <==> 0 <= r < column.len() && value_le(start_key, column[r])
                    && value_le(column[r], end_key) by {
                if 0 <= r < column.len() {
                    assert(keys.contains(column[r]));
                    let m = choose|m: int| 0 <= m < keys.len() && keys[m] == column[r];
                    lemma_value_order(start_key, keys[lo as int], column[r]);
                    lemma_value_order(start_key, column[r], keys[lo as int]);
                    if m < lo {
                        assert(!value_le(start_key, keys[m]));
                    } else if m > lo {
                        assert(value_lt(keys[lo as int], keys[m]));
                    }
                    if hi < n {
                        lemma_value_order(column[r], end_key, keys[hi as int]);
                        lemma_value_order(keys[hi as int], column[r], end_key);
                        if m < hi {
                            assert(value_le(keys[m], end_key));
                            if value_le(keys[hi as int], column[r]) {
                                lemma_value_order(keys[hi as int], keys[m], end_key);
                            }
                        } else if m > hi {
                            assert(value_lt(keys[hi as int], keys[m]));
                            lemma_value_order(end_key, keys[hi as int], keys[m]);
                        }
                    } else {
                        assert(m < hi);
                        assert(value_le(keys[m], end_key));
                    }
                }
            }
        }
        IndexIterator::new(bitmap)
    }
}

} // verus!
