use std::collections::HashMap;

use rdbms::buffer::{BufferId, BufferPool, BufferPoolManager, Error, Fetch, PageLoad};
use rdbms::disk::{PageId, PAGE_SIZE};

/// An in-memory stand-in for the disk layer: absent pages read as zeros.
struct MemDisk {
    pages: HashMap<u64, Vec<u8>>,
    writes: Vec<u64>,
}

impl MemDisk {
    fn new() -> Self {
        MemDisk { pages: HashMap::new(), writes: Vec::new() }
    }

    fn read(&self, page_id: PageId) -> Vec<u8> {
        self.pages.get(&page_id.0).cloned().unwrap_or_else(|| vec![0u8; PAGE_SIZE])
    }

    fn write(&mut self, page_id: PageId, bytes: &[u8]) {
        self.writes.push(page_id.0);
        self.pages.insert(page_id.0, bytes.to_vec());
    }
}

fn page_of(byte: u8) -> Vec<u8> {
    vec![byte; PAGE_SIZE]
}

/// Runs one fetch to completion against the in-memory disk.
fn fetch(mgr: &mut BufferPoolManager, disk: &mut MemDisk, page_id: u64) -> Result<BufferId, Error> {
    match mgr.fetch_page(PageId(page_id))? {
        Fetch::Hit(id) => Ok(id),
        Fetch::Load(load) => {
            if let Some(old) = load.write_back {
                let bytes = mgr.buffer(load.buffer_id).page.clone();
                disk.write(old, &bytes);
            }
            let bytes = disk.read(load.page_id);
            Ok(mgr.install_page(load, bytes))
        }
    }
}

fn flush(mgr: &mut BufferPoolManager, disk: &mut MemDisk) -> usize {
    let ids = mgr.flush();
    for id in &ids {
        let buffer = mgr.buffer(*id);
        let (page_id, bytes) = (buffer.page_id, buffer.page.clone());
        disk.write(page_id, &bytes);
    }
    ids.len()
}

#[test]
fn new_pool_has_requested_size() {
    let pool = BufferPool::new(5);
    assert_eq!(pool.size(), 5);
    assert_eq!(pool.next_victim(), BufferId(0));
    for i in 0..5 {
        assert_eq!(pool.usage_count(BufferId(i)), 0);
        assert_eq!(pool.pin_count(BufferId(i)), 0);
    }
}

#[test]
fn fresh_pool_evicts_at_cursor() {
    let mut pool = BufferPool::new(3);
    assert_eq!(pool.evict(), Some(BufferId(0)));
    assert_eq!(pool.next_victim(), BufferId(1));
}

#[test]
fn clock_sweep_skips_used_frames() {
    let mut pool = BufferPool::new(3);
    pool.pin(BufferId(0));
    pool.pin(BufferId(0));
    pool.pin(BufferId(2));
    pool.unpin(BufferId(0));
    pool.unpin(BufferId(0));
    pool.unpin(BufferId(2));
    assert_eq!(pool.usage_count(BufferId(0)), 2);
    assert_eq!(pool.usage_count(BufferId(1)), 0);
    assert_eq!(pool.usage_count(BufferId(2)), 1);
    assert_eq!(pool.next_victim(), BufferId(0));

    assert_eq!(pool.evict(), Some(BufferId(1)));
    assert_eq!(pool.usage_count(BufferId(0)), 1);
    assert_eq!(pool.usage_count(BufferId(1)), 0);
    assert_eq!(pool.usage_count(BufferId(2)), 1);
    assert_eq!(pool.next_victim(), BufferId(2));
}

#[test]
fn sweep_decrements_until_a_frame_is_free() {
    let mut pool = BufferPool::new(2);
    pool.pin(BufferId(0));
    pool.pin(BufferId(1));
    pool.unpin(BufferId(0));
    pool.unpin(BufferId(1));
    // Both counters drop to zero on the first revolution; frame 0 is then taken.
    assert_eq!(pool.evict(), Some(BufferId(0)));
    assert_eq!(pool.usage_count(BufferId(0)), 0);
    assert_eq!(pool.usage_count(BufferId(1)), 0);
    assert_eq!(pool.next_victim(), BufferId(1));
}

#[test]
fn pinned_frame_is_never_evicted() {
    let mut pool = BufferPool::new(3);
    pool.pin(BufferId(0));
    pool.pin(BufferId(1));
    assert_eq!(pool.evict(), Some(BufferId(2)));
    pool.pin(BufferId(2));
    assert_eq!(pool.evict(), None);
    assert_eq!(pool.pin_count(BufferId(0)), 1);
    assert_eq!(pool.usage_count(BufferId(0)), 1);
}

#[test]
fn single_pinned_frame_fails_at_once() {
    let mut pool = BufferPool::new(1);
    pool.pin(BufferId(0));
    assert_eq!(pool.evict(), None);
    assert_eq!(pool.next_victim(), BufferId(0));
}

#[test]
fn empty_pool_has_no_victim() {
    let mut pool = BufferPool::new(0);
    assert_eq!(pool.evict(), None);
}

#[test]
fn miss_then_hit_returns_same_frame() {
    let mut disk = MemDisk::new();
    disk.pages.insert(7, page_of(0x42));
    let mut mgr = BufferPoolManager::new(BufferPool::new(2));

    let first = mgr.fetch_page(PageId(7)).unwrap();
    let load = match first {
        Fetch::Load(load) => load,
        Fetch::Hit(_) => panic!("an empty pool cannot hit"),
    };
    assert_eq!(load, PageLoad { buffer_id: BufferId(0), page_id: PageId(7), write_back: None });
    let id = mgr.install_page(load, disk.read(PageId(7)));
    assert_eq!(mgr.lookup(PageId(7)), Some(id));
    assert_eq!(mgr.pin_count(id), 1);

    let second = mgr.fetch_page(PageId(7)).unwrap();
    assert_eq!(second, Fetch::Hit(id));
    assert_eq!(mgr.pin_count(id), 2);
    let buffer = mgr.buffer(id);
    assert_eq!(buffer.page_id, PageId(7));
    assert_eq!(buffer.page, page_of(0x42));
    assert!(!buffer.is_dirty);
}

#[test]
fn hit_sees_last_written_bytes() {
    let mut disk = MemDisk::new();
    let mut mgr = BufferPoolManager::new(BufferPool::new(2));
    let id = fetch(&mut mgr, &mut disk, 3).unwrap();
    mgr.write_page(id, page_of(9));
    mgr.set_dirty(id);
    let again = fetch(&mut mgr, &mut disk, 3).unwrap();
    assert_eq!(again, id);
    assert_eq!(mgr.buffer(again).page, page_of(9));
    assert!(disk.writes.is_empty());
}

#[test]
fn saturated_pool_reports_no_free_buffer() {
    let mut disk = MemDisk::new();
    let mut mgr = BufferPoolManager::new(BufferPool::new(2));
    let a = fetch(&mut mgr, &mut disk, 1).unwrap();
    let _b = fetch(&mut mgr, &mut disk, 2).unwrap();
    assert_eq!(mgr.fetch_page(PageId(3)), Err(Error::NoFreeBuffer));

    mgr.unpin_page(a);
    let c = fetch(&mut mgr, &mut disk, 3).unwrap();
    assert_eq!(c, a);
    assert_eq!(mgr.lookup(PageId(1)), None);
    assert_eq!(mgr.lookup(PageId(3)), Some(c));
}

#[test]
fn dirty_victim_is_written_back_to_its_own_page() {
    let mut disk = MemDisk::new();
    let mut mgr = BufferPoolManager::new(BufferPool::new(1));
    let id = fetch(&mut mgr, &mut disk, 4).unwrap();
    mgr.write_page(id, page_of(0xAB));
    mgr.set_dirty(id);
    mgr.unpin_page(id);

    match mgr.fetch_page(PageId(5)).unwrap() {
        Fetch::Load(load) => {
            assert_eq!(load.write_back, Some(PageId(4)));
            assert_eq!(load.page_id, PageId(5));
            assert_eq!(mgr.buffer(load.buffer_id).page, page_of(0xAB));
        }
        Fetch::Hit(_) => panic!("page 5 was never cached"),
    }
}

#[test]
fn clean_victim_is_not_written_back() {
    let mut disk = MemDisk::new();
    let mut mgr = BufferPoolManager::new(BufferPool::new(1));
    let id = fetch(&mut mgr, &mut disk, 4).unwrap();
    mgr.unpin_page(id);
    let next = fetch(&mut mgr, &mut disk, 5).unwrap();
    assert_eq!(next, id);
    assert!(disk.writes.is_empty());
    assert_eq!(mgr.buffer(next).page_id, PageId(5));
}

#[test]
fn round_trip_through_eviction() {
    let mut disk = MemDisk::new();
    let mut mgr = BufferPoolManager::new(BufferPool::new(1));
    let mut bytes = page_of(0);
    for (i, b) in bytes.iter_mut().enumerate() {
        *b = (i % 251) as u8;
    }
    let id = fetch(&mut mgr, &mut disk, 10).unwrap();
    mgr.write_page(id, bytes.clone());
    mgr.set_dirty(id);
    mgr.unpin_page(id);

    let other = fetch(&mut mgr, &mut disk, 11).unwrap();
    assert_eq!(mgr.lookup(PageId(10)), None);
    assert_eq!(disk.writes, vec![10]);
    mgr.unpin_page(other);

    let back = fetch(&mut mgr, &mut disk, 10).unwrap();
    assert_eq!(mgr.buffer(back).page, bytes);
    assert!(!mgr.buffer(back).is_dirty);
}

#[test]
fn flush_writes_each_dirty_page_once() {
    let mut disk = MemDisk::new();
    let mut mgr = BufferPoolManager::new(BufferPool::new(3));
    let a = fetch(&mut mgr, &mut disk, 1).unwrap();
    let b = fetch(&mut mgr, &mut disk, 2).unwrap();
    let _c = fetch(&mut mgr, &mut disk, 3).unwrap();
    mgr.write_page(a, page_of(1));
    mgr.set_dirty(a);
    mgr.write_page(b, page_of(2));
    mgr.set_dirty(b);

    assert_eq!(flush(&mut mgr, &mut disk), 2);
    assert_eq!(disk.writes, vec![1, 2]);
    assert_eq!(disk.read(PageId(2)), page_of(2));
    assert!(!mgr.buffer(a).is_dirty);

    assert_eq!(flush(&mut mgr, &mut disk), 0);
    assert_eq!(disk.writes, vec![1, 2]);
    assert_eq!(mgr.lookup(PageId(1)), Some(a));
}

#[test]
fn install_moves_page_table_entry() {
    let mut disk = MemDisk::new();
    let mut mgr = BufferPoolManager::new(BufferPool::new(2));
    let a = fetch(&mut mgr, &mut disk, 0).unwrap();
    let b = fetch(&mut mgr, &mut disk, 8).unwrap();
    assert_ne!(a, b);
    mgr.unpin_page(b);
    // Frame 1 still holds page 8; frame 0 holds page 0 and stays pinned.
    let c = fetch(&mut mgr, &mut disk, 9).unwrap();
    assert_eq!(c, b);
    assert_eq!(mgr.lookup(PageId(0)), Some(a));
    assert_eq!(mgr.lookup(PageId(8)), None);
    assert_eq!(mgr.lookup(PageId(9)), Some(c));
    assert_eq!(mgr.pool_size(), 2);
}
