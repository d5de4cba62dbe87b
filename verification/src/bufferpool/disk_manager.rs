//! Page allocation of the disk manager: a high-water mark and a FIFO list of
//! freed page ids, with the validity guard of every page access.
//!
//! The database file itself is read and written by the application around
//! this allocator.

use std::collections::VecDeque;

use vstd::prelude::*;

use super::{DiskManagerError, PageID};

verus! {

/// Page allocation state: pages `0..next_free` were handed out, and
/// `free_list` holds freed ids in the order they were freed.
pub struct DiskManager {
    next_free: PageID,
    free_list: VecDeque<PageID>,
}

impl DiskManager {
    /// The high-water mark.
    pub closed spec fn next_free(&self) -> nat {
        self.next_free.0 as nat
    }

    /// The freed ids, oldest first.
    pub closed spec fn free_ids(&self) -> Seq<PageID> {
        self.free_list@
    }

    /// Whether `page_id` may be read, written or freed: an allocated id,
    /// that is one of `1..next_free` (page 0 is reserved), and not on the
    /// free list.
    pub open spec fn is_valid(&self, page_id: PageID) -> bool {
        1 <= page_id.0 < self.next_free() && !self.free_ids().contains(page_id)
    }

    /// Ids start at 1; the free list has no duplicates and holds only
    /// allocated ids.
    pub closed spec fn wf(&self) -> bool {
        &&& self.next_free.0 >= 1
        &&& self.free_list@.no_duplicates()
        &&& forall|i: int| 0 <= i < self.free_list@.len() ==> 1 <= (#[trigger] self.free_list@[i]).0
            < self.next_free.0
    }

    /// A fresh allocator: no page handed out yet, ids start at 1.
    pub fn new() -> (d: Self)
        ensures
            d.wf(),
            d.next_free() == 1,
            d.free_ids() == Seq::<PageID>::empty(),
    {
        DiskManager { next_free: PageID(1), free_list: VecDeque::new() }
    }

    /// Gets an id for a new page: the oldest freed id, or else the next id
    /// above the high-water mark.
    pub fn allocate(&mut self) -> (p: PageID)
        requires
            old(self).wf(),
            old(self).free_ids().len() == 0 ==> old(self).next_free() < usize::MAX,
        ensures
            final(self).wf(),
            !old(self).is_valid(p),
            final(self).is_valid(p),
            forall|q: PageID| q != p ==> (final(self).is_valid(q) == old(self).is_valid(q)),
            old(self).free_ids().len() > 0 ==> p == old(self).free_ids()[0]
                && final(self).free_ids() == old(self).free_ids().drop_first()
                && final(self).next_free() == old(self).next_free(),
            old(self).free_ids().len() == 0 ==> p.0 == old(self).next_free()
                && final(self).next_free() == old(self).next_free() + 1
                && final(self).free_ids() == old(self).free_ids(),
    {
        if self.free_list.len() > 0 {
            let p = self.free_list.pop_front().unwrap();
            proof {
                let s = old(self).free_list@;
                assert(self.free_list@ =~= s.drop_first());
                assert(s[0] == p);
                assert forall|q: PageID| q != p implies (self.free_list@.contains(q) == s.contains(q)) by {
                    if s.contains(q) {
                        let i = choose|i: int| 0 <= i < s.len() && s[i] == q;
                        assert(i > 0);
                        assert(self.free_list@[i - 1] == q);
                    }
                    if self.free_list@.contains(q) {
                        let i = choose|i: int| 0 <= i < self.free_list@.len() && self.free_list@[i] == q;
                        assert(s[i + 1] == q);
                    }
                }
                assert(!self.free_list@.contains(p)) by {
                    if self.free_list@.contains(p) {
                        let i = choose|i: int| 0 <= i < self.free_list@.len() && self.free_list@[i] == p;
                        assert(s[i + 1] == p);
                        assert(s[0] == s[i + 1]);
                    }
                }
                assert(s.contains(p));
                assert forall|i: int| 0 <= i < self.free_list@.len() implies (
                #[trigger] self.free_list@[i]).0 < self.next_free.0 && 1 <= self.free_list@[i].0 by {
                    assert(self.free_list@[i] == s[i + 1]);
                }
            }
            p
        } else {
            let p = self.next_free;
            self.next_free = PageID(p.0 + 1);
            proof {
                assert forall|i: int| 0 <= i < self.free_list@.len() implies (
                #[trigger] self.free_list@[i]).0 < self.next_free.0 by {}
            }
            p
        }
    }

    /// Whether [`DiskManager::allocate`] has an id to hand out: a freed id,
    /// or room above the high-water mark.
    pub fn can_allocate(&self) -> (r: bool)
        ensures
            r == (self.free_ids().len() > 0 || self.next_free() < usize::MAX),
    {
        self.free_list.len() > 0 || self.next_free.0 < usize::MAX
    }

    /// Whether `page_id` is on the free list.
    fn is_free(&self, page_id: PageID) -> (r: bool)
        ensures
            r == self.free_ids().contains(page_id),
    {
        let mut i: usize = 0;
        while i < self.free_list.len()
            invariant
                i <= self.free_list@.len(),
                forall|j: int| 0 <= j < i ==> self.free_list@[j] != page_id,
            decreases self.free_list.len() - i,
        {
            if self.free_list[i] == page_id {
                proof {
                    assert(self.free_list@[i as int] == page_id);
                }
                return true;
            }
            i = i + 1;
        }
        false
    }

    /// The validity guard of `read`, `write` and `free`.
    ///
    /// Returns [`DiskManagerError::InvalidPageID`] if `page_id` is not in the
    /// interval of allocated pages or is on the free list.
    pub fn check_page(&self, page_id: PageID) -> (r: Result<(), DiskManagerError>)
        ensures
            r is Ok <==> self.is_valid(page_id),
            r is Err ==> r == Err::<(), DiskManagerError>(DiskManagerError::InvalidPageID(page_id)),
    {
        if page_id.0 == 0 || self.is_free(page_id) || page_id.0 >= self.next_free.0 {
            Err(DiskManagerError::InvalidPageID(page_id))
        } else {
            Ok(())
        }
    }

    /// Byte offset of page `page_id` in the database file.
    pub fn offset_of(page_id: PageID) -> (off: u64)
        requires
            page_id.0 * 4096 <= u64::MAX,
        ensures
            off == page_id.0 * 4096,
    {
        (page_id.0 as u64) * 4096
    }

    /// Marks `page_id` as free, so that it can be reused for new pages.
    ///
    /// Returns [`DiskManagerError::InvalidPageID`] if `page_id` is not in the
    /// interval of allocated pages or is already on the free list.
    pub fn free(&mut self, page_id: PageID) -> (r: Result<(), DiskManagerError>)
        requires
            old(self).wf(),
        ensures
            final(self).wf(),
            r is Ok <==> old(self).is_valid(page_id),
            r is Err ==> r == Err::<(), DiskManagerError>(DiskManagerError::InvalidPageID(page_id))
                && final(self).free_ids() == old(self).free_ids(),
            r is Ok ==> final(self).free_ids() == old(self).free_ids().push(page_id),
            final(self).next_free() == old(self).next_free(),
            r is Ok ==> !final(self).is_valid(page_id),
            forall|q: PageID| q != page_id ==> (final(self).is_valid(q) == old(self).is_valid(q)),
    {
        if page_id.0 == 0 || self.is_free(page_id) || page_id.0 >= self.next_free.0 {
            Err(DiskManagerError::InvalidPageID(page_id))
        } else {
            self.free_list.push_back(page_id);
            proof {
                let s = old(self).free_list@;
                assert(self.free_list@.last() == page_id);
                assert(self.free_list@.contains(page_id));
                assert forall|i: int, j: int|
                    0 <= i < j < self.free_list@.len() implies self.free_list@[i] != self.free_list@[j] by {
                    if j == s.len() {
                        assert(self.free_list@[i] == s[i]);
                    }
                }
                assert forall|q: PageID| q != page_id implies (self.free_list@.contains(q) == s.contains(q)) by {
                    if s.contains(q) {
                        let i = choose|i: int| 0 <= i < s.len() && s[i] == q;
                        assert(self.free_list@[i] == q);
                    }
                    if self.free_list@.contains(q) {
                        let i = choose|i: int| 0 <= i < self.free_list@.len() && self.free_list@[i] == q;
                        assert(s[i] == q);
                    }
                }
            }
            Ok(())
        }
    }
}

} // verus!
