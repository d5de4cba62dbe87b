use lib::bufferpool::buffer_manager::{
    BufferManager, ClockReplacementStrategy, FrameDescriptor, FramePool, LRUReplacementStrategy,
    ReplacementStrategyTrait,
};
use lib::bufferpool::disk_manager::DiskManager;
use lib::bufferpool::{
    BufferManagerError, DiskManagerError, DiskManagerTrait, FrameID, MaterializedPage, MemoryDiskManager, PageID,
    BUFFER_POOL_SIZE, DATA_SIZE,
};

#[test]
fn disk_manager_allocates_from_one() {
    let mut d = DiskManager::new();
    assert_eq!(d.allocate(), PageID(1));
    assert_eq!(d.allocate(), PageID(2));
    assert_eq!(d.allocate(), PageID(3));
}

#[test]
fn disk_manager_reuses_freed_pages_oldest_first() {
    let mut d = DiskManager::new();
    for _ in 0..4 {
        d.allocate();
    }
    assert_eq!(d.free(PageID(3)), Ok(()));
    assert_eq!(d.free(PageID(1)), Ok(()));
    assert_eq!(d.allocate(), PageID(3));
    assert_eq!(d.allocate(), PageID(1));
    assert_eq!(d.allocate(), PageID(5));
}

#[test]
fn disk_manager_rejects_invalid_pages() {
    let mut d = DiskManager::new();
    d.allocate();
    assert_eq!(d.free(PageID(2)), Err(DiskManagerError::InvalidPageID(PageID(2))));
    assert_eq!(d.check_page(PageID(1)), Ok(()));
    assert_eq!(d.free(PageID(1)), Ok(()));
    assert_eq!(d.free(PageID(1)), Err(DiskManagerError::InvalidPageID(PageID(1))));
    assert_eq!(d.check_page(PageID(1)), Err(DiskManagerError::InvalidPageID(PageID(1))));
}

#[test]
fn disk_manager_never_frees_reserved_page() {
    let mut d = DiskManager::new();
    d.allocate();
    assert_eq!(d.free(PageID(0)), Err(DiskManagerError::InvalidPageID(PageID(0))));
    assert_eq!(d.check_page(PageID(0)), Err(DiskManagerError::InvalidPageID(PageID(0))));
    assert_eq!(d.allocate(), PageID(2));
}

#[test]
fn disk_manager_page_offsets() {
    assert_eq!(DiskManager::offset_of(PageID(0)), 0);
    assert_eq!(DiskManager::offset_of(PageID(3)), 3 * 4096);
}

#[test]
fn memory_disk_manager_read_write() {
    let mut d = MemoryDiskManager::new(4);
    let mut page = MaterializedPage::zeroed();
    page.data[7] = 9;
    page.id = PageID(2);
    assert_eq!(d.write(PageID(2), &page), Ok(()));
    let mut back = MaterializedPage::zeroed();
    assert_eq!(d.read(PageID(2), &mut back), Ok(()));
    assert_eq!(back.data[7], 9);
    assert_eq!(back.id, PageID(2));
    assert_eq!(back.data.len(), DATA_SIZE);
    assert_eq!(d.read(PageID(4), &mut back), Err(DiskManagerError::InvalidPageID(PageID(4))));
    assert_eq!(d.write(PageID(9), &page), Err(DiskManagerError::InvalidPageID(PageID(9))));
}

#[test]
fn materialized_page_copy_and_zeroed() {
    let mut p = MaterializedPage::zeroed();
    assert_eq!(p.id, PageID(0));
    assert!(p.data.iter().all(|b| *b == 0));
    p.data[0] = 1;
    let c = p.copy();
    assert_eq!(c.data, p.data);
}

#[test]
fn frame_pool_get_and_update() {
    let mut pool = FramePool::new(vec![FrameDescriptor::default(); 3]);
    assert_eq!(pool.len(), 3);
    pool.get_mut(FrameID(1)).pin_count = 4;
    assert_eq!(pool.get(FrameID(1)).pin_count, 4);
    assert_eq!(pool.get(FrameID(0)).pin_count, 0);
}

fn lru_manager(pages: usize) -> BufferManager<MemoryDiskManager, LRUReplacementStrategy> {
    BufferManager::new(MemoryDiskManager::new(pages), LRUReplacementStrategy::default())
}

fn clock_manager(pages: usize) -> BufferManager<MemoryDiskManager, ClockReplacementStrategy> {
    BufferManager::new(MemoryDiskManager::new(pages), ClockReplacementStrategy::default())
}

#[test]
fn buffer_manager_starts_empty() {
    let bm = lru_manager(4);
    assert!(bm.page_table.is_empty());
    assert_eq!(bm.last_evict, PageID(0));
    assert_eq!(bm.frame_descriptors.len(), BUFFER_POOL_SIZE);
    assert_eq!(bm.pool.len(), BUFFER_POOL_SIZE);
}

#[test]
fn pin_counts_and_unpin() {
    let mut bm = lru_manager(4);
    let f = bm.pin_frame(PageID(1)).unwrap();
    assert_eq!(f, FrameID(0));
    assert_eq!(bm.pin_frame(PageID(1)), Ok(FrameID(0)));
    assert_eq!(bm.frame_descriptors.get(f).pin_count, 2);
    assert_eq!(bm.frame_descriptors.get(f).page_id, PageID(1));
    bm.unpin(PageID(1), true);
    assert_eq!(bm.frame_descriptors.get(f).pin_count, 1);
    assert!(bm.frame_descriptors.get(f).dirty);
    bm.unpin(PageID(1), false);
    bm.unpin(PageID(1), false);
    assert_eq!(bm.frame_descriptors.get(f).pin_count, 0);
    assert!(!bm.frame_descriptors.get(f).dirty);
    assert_eq!(bm.pin_frame(PageID(2)), Ok(FrameID(1)));
}

#[test]
fn pinned_page_edits_survive_eviction() {
    let mut bm = lru_manager(BUFFER_POOL_SIZE + 2);
    {
        let page = bm.pin(PageID(1)).unwrap();
        page.data[0] = 42;
    }
    bm.unpin(PageID(1), true);
    for p in 2..=BUFFER_POOL_SIZE + 1 {
        bm.pin_frame(PageID(p)).unwrap();
        bm.unpin(PageID(p), false);
    }
    assert_eq!(bm.last_evict, PageID(1));
    assert!(!bm.page_table.contains_key(&1));
    let page = bm.pin(PageID(1)).unwrap();
    assert_eq!(page.data[0], 42);
}

#[test]
fn all_pages_pinned_is_reported() {
    let mut bm = clock_manager(BUFFER_POOL_SIZE + 2);
    for p in 1..=BUFFER_POOL_SIZE {
        bm.pin_frame(PageID(p)).unwrap();
    }
    assert_eq!(bm.pin_frame(PageID(BUFFER_POOL_SIZE + 1)), Err(BufferManagerError::AllPagesPinned));
    assert_eq!(bm.page_table.len(), BUFFER_POOL_SIZE);
    bm.unpin(PageID(7), false);
    assert!(bm.pin_frame(PageID(BUFFER_POOL_SIZE + 1)).is_ok());
    assert_eq!(bm.last_evict, PageID(7));
}

#[test]
fn disk_errors_are_propagated() {
    let mut bm = lru_manager(2);
    assert_eq!(
        bm.pin_frame(PageID(5)),
        Err(BufferManagerError::DiskManagerError(DiskManagerError::InvalidPageID(PageID(5))))
    );
    assert!(bm.page_table.is_empty());
    assert!(bm.pin_frame(PageID(1)).is_ok());
    assert_eq!(bm.page_table.len(), 1);
    assert_eq!(bm.page_table.get(&1), Some(&FrameID(0)));
}

#[test]
fn lru_evicts_least_recently_pinned() {
    let mut bm = lru_manager(BUFFER_POOL_SIZE + 2);
    for p in 1..=BUFFER_POOL_SIZE {
        bm.pin_frame(PageID(p)).unwrap();
        bm.unpin(PageID(p), false);
    }
    // page 1 becomes the most recent
    bm.pin_frame(PageID(1)).unwrap();
    bm.unpin(PageID(1), false);
    bm.pin_frame(PageID(BUFFER_POOL_SIZE + 1)).unwrap();
    assert_eq!(bm.last_evict, PageID(2));
}

#[test]
fn lru_replace_picks_oldest_unpinned_frame() {
    let mut fds = vec![FrameDescriptor::default(); 3];
    for (i, fd) in fds.iter_mut().enumerate() {
        fd.page_id = PageID(i + 10);
        fd.frame_id = FrameID(i);
    }
    fds[0].time = 5;
    fds[1].time = 2;
    fds[2].time = 1;
    fds[2].pin_count = 1;
    let mut pool = FramePool::new(fds);
    let mut lru = LRUReplacementStrategy::default();
    let mut fd = FrameDescriptor::default();
    for _ in 0..6 {
        lru.on_pin(&mut fd);
    }
    assert_eq!(lru.replace(&mut pool), Ok(PageID(11)));
}

#[test]
fn clock_gives_second_chances() {
    let mut fds = vec![FrameDescriptor::default(); 3];
    for (i, fd) in fds.iter_mut().enumerate() {
        fd.page_id = PageID(i + 10);
        fd.frame_id = FrameID(i);
        fd.clock_bit = true;
    }
    fds[1].clock_bit = false;
    let mut pool = FramePool::new(fds);
    let mut clock = ClockReplacementStrategy::default();
    assert_eq!(clock.replace(&mut pool), Ok(PageID(11)));
    assert!(!pool.get(FrameID(0)).clock_bit);
    // frame 2 still has its bit and loses it; frame 0 is evicted next
    assert_eq!(clock.replace(&mut pool), Ok(PageID(10)));
    assert!(!pool.get(FrameID(2)).clock_bit);
}

#[test]
fn clock_reports_all_pinned() {
    let mut fds = vec![FrameDescriptor::default(); 2];
    fds[0].pin_count = 1;
    fds[1].pin_count = 2;
    let mut pool = FramePool::new(fds);
    let mut clock = ClockReplacementStrategy::default();
    assert_eq!(clock.replace(&mut pool), Err(BufferManagerError::AllPagesPinned));
}
