//! Walks a bitmap and yields the rows whose bit is set, in increasing order.

use vstd::prelude::*;

use super::bitmap::row_bit;
use crate::distributed::RowID;

verus! {

/// Yields the set rows of a bitmap in increasing order.
pub struct IndexIterator {
    bitmap: Vec<u8>,
    pos: usize,
}

impl IndexIterator {
    /// The bitmap walked.
    pub closed spec fn bits(&self) -> Seq<u8> {
        self.bitmap@
    }

    /// The first row not looked at yet.
    pub closed spec fn position(&self) -> int {
        self.pos as int
    }

    /// Starts at row 0 of `bitmap`.
    pub fn new(bitmap: Vec<u8>) -> (it: Self)
        requires
            bitmap@.len() <= usize::MAX / 8,
        ensures
            it.bits() == bitmap@,
            it.position() == 0,
    {
        IndexIterator { bitmap, pos: 0 }
    }

    /// The next set row at or after the current position, or `None` when no
    /// set row is left.
    pub fn next(&mut self) -> (r: Option<RowID>)
        requires
            old(self).bits().len() <= usize::MAX / 8,
            old(self).position() <= 8 * old(self).bits().len(),
        ensures
            final(self).bits() == old(self).bits(),
            final(self).position() <= 8 * final(self).bits().len(),
            match r {
                Some(row) => {
                    &&& old(self).position() <= row.0
                    &&& row_bit(old(self).bits(), row.0 as int)
                    &&& forall|j: int|
                        old(self).position() <= j < row.0 ==> !row_bit(old(self).bits(), j)
                    &&& final(self).position() == row.0 + 1
                },
                None => {
                    &&& forall|j: int| old(self).position() <= j ==> !row_bit(old(self).bits(), j)
                    &&& final(self).position() == 8 * old(self).bits().len()
                },
            },
    {
        let end = self.bitmap.len() * 8;
        while self.pos < end
            invariant
                end == 8 * self.bitmap@.len(),
                self.bitmap@ == old(self).bitmap@,
                old(self).pos <= self.pos <= end,
                forall|j: int| old(self).pos <= j < self.pos ==> !row_bit(self.bitmap@, j),
            decreases end - self.pos,
        {
            let row = self.pos;
            let byte = self.bitmap[row / 8];
            let bit = (row % 8) as u8;
            self.pos = self.pos + 1;
            if (byte >> bit) & 1u8 == 1u8 {
                return Some(RowID(row));
            }
        }
        None
    }

    /// Every set row from the current position on, in increasing order.
    pub fn collect_rows(&mut self) -> (rows: Vec<RowID>)
        requires
            old(self).bits().len() <= usize::MAX / 8,
            old(self).position() <= 8 * old(self).bits().len(),
        ensures
            final(self).bits() == old(self).bits(),
            forall|i: int, j: int| 0 <= i < j < rows@.len() ==> rows@[i].0 < rows@[j].0,
            forall|i: int|
                0 <= i < rows@.len() ==> old(self).position() <= rows@[i].0 && row_bit(
                    old(self).bits(),
                    rows@[i].0 as int,
                ),
            forall|r: int|
                old(self).position() <= r && row_bit(old(self).bits(), r) ==> exists|i: int|
                    0 <= i < rows@.len() && rows@[i].0 == r,
    {
        let mut rows: Vec<RowID> = Vec::new();
        loop
            invariant
                self.bits() == old(self).bits(),
                self.bits().len() <= usize::MAX / 8,
                old(self).position() <= self.position() <= 8 * self.bits().len(),
                forall|i: int, j: int| 0 <= i < j < rows@.len() ==> rows@[i].0 < rows@[j].0,
                forall|i: int|
                    0 <= i < rows@.len() ==> old(self).position() <= rows@[i].0 < self.position()
                        && row_bit(old(self).bits(), rows@[i].0 as int),
                forall|r: int|
                    old(self).position() <= r < self.position() && row_bit(old(self).bits(), r)
                        ==> exists|i: int| 0 <= i < rows@.len() && rows@[i].0 == r,
            decreases 8 * self.bits().len() - self.position(),
        {
            let ghost p = self.position();
            match self.next() {
                Some(row) => {
                    let ghost before = rows@;
                    rows.push(row);
                    proof {
                        assert forall|r: int|
                            old(self).position() <= r < self.position() && row_bit(
                                old(self).bits(),
                                r,
                            ) implies exists|i: int| 0 <= i < rows@.len() && rows@[i].0 == r by {
                            if r < p {
                                let i = choose|i: int| 0 <= i < before.len() && before[i].0 == r;
                                assert(rows@[i] == before[i]);
                            } else {
                                assert(rows@[rows@.len() - 1].0 == r);
                            }
                        }
                    }
                },
                None => {
                    return rows;
                },
            }
        }
    }
}

} // verus!
