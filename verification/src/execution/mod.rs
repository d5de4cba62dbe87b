//! Index and operator layer of a row store: an external k-way merge sort
//! over fixed-capacity pages, a unique B+ tree over `i32` keys, and
//! pull-based scan, sort and hash-join operators.

pub mod btree;
pub mod btree_range;
pub mod kwaymerge;
pub mod operator;

use vstd::prelude::*;

verus! {

/// Index of a page in a page store.
#[derive(Clone, Copy, Debug, PartialEq, Eq, Hash, Structural)]
pub struct PageID(pub u32);

/// Index of a slot inside a page.
#[derive(Clone, Copy, Debug, PartialEq, Eq, Hash, Structural)]
pub struct SlotID(pub u16);

/// Physical address of a record: its page and its slot.
#[derive(Clone, Copy, Debug, PartialEq, Eq, Hash, Structural)]
pub struct RecordID {
    pub page_id: PageID,
    pub slot_id: SlotID,
}

impl RecordID {
    /// The record in slot `slot_id` of page `page_id`.
    pub fn new(page_id: PageID, slot_id: SlotID) -> (r: RecordID)
        ensures
            r == (RecordID { page_id, slot_id }),
    {
        RecordID { page_id, slot_id }
    }
}

} // verus!
