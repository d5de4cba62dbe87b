//! Disk manager and buffer pool: page allocation on disk, and an in-memory
//! cache of pages with pin counts, dirty bits and LRU or CLOCK replacement.

pub mod buffer_manager;
pub mod disk_manager;

use vstd::prelude::*;

verus! {

/// Size of a page on disk, in bytes.
pub const PAGE_SIZE: usize = 4096;

/// Number of frames of a buffer manager.
pub const BUFFER_POOL_SIZE: usize = 1024;

/// Bytes of page data held in memory next to the page id.
pub const DATA_SIZE: usize = 4088;

/// Identifier of a page on disk; page `p` lives at byte offset `p * PAGE_SIZE`.
#[derive(Clone, Copy, Debug, PartialEq, Eq, Hash, Structural)]
pub struct PageID(pub usize);

/// Index of a frame of the buffer pool.
#[derive(Clone, Copy, Debug, PartialEq, Eq, Hash, Structural)]
pub struct FrameID(pub usize);

/// A page held in memory: its id and its data.
pub struct MaterializedPage {
    pub id: PageID,
    pub data: Vec<u8>,
}

/// Mathematical view of a [`MaterializedPage`].
pub struct PageView {
    pub id: PageID,
    pub data: Seq<u8>,
}

impl View for MaterializedPage {
    type V = PageView;

    open spec fn view(&self) -> PageView {
        PageView { id: self.id, data: self.data@ }
    }
}

impl MaterializedPage {
    /// A page of id 0 whose data are zero.
    pub fn zeroed() -> (p: Self)
        ensures
            p@ == MaterializedPage::zeroed_view(),
    {
        let mut data: Vec<u8> = Vec::new();
        let mut i: usize = 0;
        while i < DATA_SIZE
            invariant
                i <= DATA_SIZE,
                data@ == Seq::new(i as nat, |k: int| 0u8),
            decreases DATA_SIZE - i,
        {
            data.push(0u8);
            i = i + 1;
            proof {
                assert(data@ =~= Seq::new(i as nat, |k: int| 0u8));
            }
        }
        let p = MaterializedPage { id: PageID(0), data };
        proof {
            assert(p@.data =~= MaterializedPage::zeroed_view().data);
        }
        p
    }

    /// A copy of this page.
    pub fn copy(&self) -> (p: Self)
        ensures
            p@ == self@,
    {
        MaterializedPage { id: self.id, data: self.data.clone() }
    }
}

/// Errors of the disk manager.
#[derive(Clone, Copy, Debug, PartialEq, Eq, Structural)]
pub enum DiskManagerError {
    /// The page is not allocated (never allocated, or freed).
    InvalidPageID(PageID),
    /// Reading or writing the database file failed.
    IOError,
}

/// Errors of the buffer manager.
#[derive(Clone, Copy, Debug, PartialEq, Eq, Structural)]
pub enum BufferManagerError {
    /// Every frame is pinned, so no page can be evicted.
    AllPagesPinned,
    /// The disk manager failed.
    DiskManagerError(DiskManagerError),
}

/// Page storage under a buffer manager.
///
/// `stored(p)` is what a read of page `p` yields.
pub trait DiskManagerTrait {
    spec fn stored(&self, page_id: PageID) -> PageView;

    /// Reads page `page_id` into `page`.
    fn read(&mut self, page_id: PageID, page: &mut MaterializedPage) -> (r: Result<(), DiskManagerError>)
        ensures
            r is Ok ==> final(page)@ == old(self).stored(page_id),
            r is Ok ==> forall|p: PageID| #[trigger] final(self).stored(p) == old(self).stored(p),
    ;

    /// Writes `page` as page `page_id`.
    fn write(&mut self, page_id: PageID, page: &MaterializedPage) -> (r: Result<(), DiskManagerError>)
        ensures
            r is Ok ==> final(self).stored(page_id) == page@,
            r is Ok ==> forall|p: PageID|
                p != page_id ==> #[trigger] final(self).stored(p) == old(self).stored(p),
    ;
}

/// Page storage held in memory: pages `0..len` exist.
pub struct MemoryDiskManager {
    pages: Vec<MaterializedPage>,
}

impl MemoryDiskManager {
    /// A store of `num_pages` zeroed pages.
    pub fn new(num_pages: usize) -> (d: Self)
        ensures
            d.num_pages() == num_pages,
            forall|p: PageID| #[trigger] d.stored(p) == MaterializedPage::zeroed_view(),
    {
        let mut pages: Vec<MaterializedPage> = Vec::new();
        let mut i: usize = 0;
        while i < num_pages
            invariant
                i <= num_pages,
                pages@.len() == i,
                forall|k: int| 0 <= k < i ==> (#[trigger] pages@[k])@ == MaterializedPage::zeroed_view(),
            decreases num_pages - i,
        {
            pages.push(MaterializedPage::zeroed());
            i = i + 1;
        }
        MemoryDiskManager { pages }
    }

    /// Number of pages of the store.
    pub closed spec fn num_pages(&self) -> nat {
        self.pages@.len()
    }
}

impl MaterializedPage {
    /// The view of a zeroed page.
    pub open spec fn zeroed_view() -> PageView {
        PageView { id: PageID(0), data: Seq::new(DATA_SIZE as nat, |i: int| 0u8) }
    }
}

impl DiskManagerTrait for MemoryDiskManager {
    closed spec fn stored(&self, page_id: PageID) -> PageView {
        if page_id.0 < self.pages@.len() {
            self.pages@[page_id.0 as int]@
        } else {
            MaterializedPage::zeroed_view()
        }
    }

    /// Succeeds exactly on the pages of the store; the store itself is
    /// never changed.
    fn read(&mut self, page_id: PageID, page: &mut MaterializedPage) -> (r: Result<(), DiskManagerError>)
        ensures
            r is Ok <==> page_id.0 < old(self).num_pages(),
            r is Err ==> r == Err::<(), DiskManagerError>(DiskManagerError::InvalidPageID(page_id)),
            r is Err ==> final(page)@ == old(page)@,
            *final(self) == *old(self),
    {
        if page_id.0 >= self.pages.len() {
            return Err(DiskManagerError::InvalidPageID(page_id));
        }
        *page = self.pages[page_id.0].copy();
        Ok(())
    }

    /// Succeeds exactly on the pages of the store, whose number never
    /// changes; a refused write changes nothing.
    fn write(&mut self, page_id: PageID, page: &MaterializedPage) -> (r: Result<(), DiskManagerError>)
        ensures
            r is Ok <==> page_id.0 < old(self).num_pages(),
            r is Err ==> r == Err::<(), DiskManagerError>(DiskManagerError::InvalidPageID(page_id)),
            r is Err ==> *final(self) == *old(self),
            final(self).num_pages() == old(self).num_pages(),
    {
        if page_id.0 >= self.pages.len() {
            return Err(DiskManagerError::InvalidPageID(page_id));
        }
        self.pages.set(page_id.0, page.copy());
        Ok(())
    }
}

} // verus!
