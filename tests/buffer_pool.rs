use std::collections::HashMap;

use buffer_pool::buffer::{BufferId, BufferPool, BufferPoolManager, Error, Fetch, Lease, Victim};
use buffer_pool::disk::{PageAllocator, PageId, INVALID_PAGE_ID_VALUE, PAGE_SIZE};

/// Pages kept in memory, indexed by page identifier.
struct MemStore {
    pages: HashMap<u64, Vec<u8>>,
    reads: Vec<u64>,
    writes: Vec<u64>,
}

impl MemStore {
    fn new() -> Self {
        MemStore { pages: HashMap::new(), reads: Vec::new(), writes: Vec::new() }
    }

    fn with_pages(n: u64) -> Self {
        let mut s = MemStore::new();
        for id in 0..n {
            s.pages.insert(id, vec![id as u8; PAGE_SIZE]);
        }
        s
    }
}

fn manager(capacity: usize, file_size: u64) -> BufferPoolManager {
    BufferPoolManager::new(PageAllocator::new(file_size), BufferPool::new(capacity))
}

fn write_back(bpm: &mut BufferPoolManager, store: &mut MemStore, victim: &Victim) {
    if let Some(old) = victim.write_back {
        let bytes = bpm.buffer(victim.buffer_id).unwrap().page.clone();
        store.pages.insert(old.to_u64(), bytes);
        store.writes.push(old.to_u64());
        assert!(bpm.mark_clean(victim.buffer_id));
    }
}

fn fetch(bpm: &mut BufferPoolManager, store: &mut MemStore, id: u64) -> Result<Lease, Error> {
    match bpm.fetch_page(PageId(id))? {
        Fetch::Hit(lease) => Ok(lease),
        Fetch::Miss(victim) => {
            write_back(bpm, store, &victim);
            store.reads.push(id);
            let data = store.pages.get(&id).expect("page on store").clone();
            Ok(bpm.install_page(victim.buffer_id, PageId(id), data).expect("victim reusable"))
        }
    }
}

fn create(bpm: &mut BufferPoolManager, store: &mut MemStore) -> Result<Lease, Error> {
    let victim = bpm.create_page()?;
    write_back(bpm, store, &victim);
    Ok(bpm.install_new_page(victim.buffer_id).expect("victim reusable"))
}

fn loaded_frames(bpm: &BufferPoolManager) -> usize {
    (0..bpm.capacity_of())
        .filter(|&i| bpm.buffer(BufferId(i)).unwrap().page_id.to_u64() != INVALID_PAGE_ID_VALUE)
        .count()
}

#[test]
fn create_page_in_single_frame_pool() {
    let mut store = MemStore::new();
    let mut bpm = manager(1, 0);
    let lease = create(&mut bpm, &mut store).unwrap();
    assert_eq!(lease.page_id, PageId(0));
    let b = bpm.buffer(lease.buffer_id).unwrap();
    assert!(b.page.iter().all(|&x| x == 0));
    assert_eq!(b.page.len(), PAGE_SIZE);
    assert!(b.is_dirty);
    assert!(bpm.write_page(&lease, 0, &[7, 8, 9]));
    assert!(bpm.release(lease));

    let victim = bpm.create_page().unwrap();
    assert_eq!(victim.write_back, Some(PageId(0)));
    write_back(&mut bpm, &mut store, &victim);
    let second = bpm.install_new_page(victim.buffer_id).unwrap();
    assert_eq!(second.page_id, PageId(1));
    assert_eq!(store.writes, vec![0]);
    assert_eq!(&store.pages[&0][..4], &[7, 8, 9, 0]);
    assert!(store.reads.is_empty());
}

#[test]
fn both_frames_pinned_gives_no_free_buffer() {
    let mut store = MemStore::with_pages(2);
    let mut bpm = manager(2, 2 * PAGE_SIZE as u64);
    let a = fetch(&mut bpm, &mut store, 0).unwrap();
    let b = fetch(&mut bpm, &mut store, 1).unwrap();
    assert_ne!(a.buffer_id, b.buffer_id);
    assert_eq!(bpm.create_page().unwrap_err(), Error::NoFreeBuffer);
    assert_eq!(bpm.fetch_page(PageId(2)).unwrap_err(), Error::NoFreeBuffer);
}

#[test]
fn same_page_twice_shares_the_frame() {
    let mut store = MemStore::with_pages(1);
    let mut bpm = manager(2, PAGE_SIZE as u64);
    let a = fetch(&mut bpm, &mut store, 0).unwrap();
    let b = fetch(&mut bpm, &mut store, 0).unwrap();
    assert_eq!(a, b);
    assert_eq!(store.reads, vec![0]);
    assert!(bpm.write_page(&a, 10, &[42]));
    assert_eq!(bpm.buffer(b.buffer_id).unwrap().page[10], 42);
    assert!(bpm.release(a));
    assert!(bpm.release(b));
}

#[test]
fn dirty_page_written_back_on_eviction() {
    let mut store = MemStore::with_pages(4);
    let mut bpm = manager(2, 4 * PAGE_SIZE as u64);
    let lease = fetch(&mut bpm, &mut store, 0).unwrap();
    assert!(bpm.write_page(&lease, 100, &[1, 2, 3]));
    assert!(bpm.set_dirty(&lease));
    assert!(bpm.release(lease));
    for id in 1..4 {
        let l = fetch(&mut bpm, &mut store, id).unwrap();
        assert!(bpm.release(l));
    }
    assert!(store.writes.contains(&0));
    assert_eq!(&store.pages[&0][100..103], &[1, 2, 3]);
    assert_eq!(store.pages[&0][99], 0);
}

#[test]
fn table_size_follows_loaded_frames() {
    let mut store = MemStore::with_pages(5);
    let mut bpm = manager(3, 5 * PAGE_SIZE as u64);
    assert_eq!(loaded_frames(&bpm), 0);
    for id in 0..5 {
        let l = fetch(&mut bpm, &mut store, id).unwrap();
        assert!(bpm.release(l));
        assert_eq!(loaded_frames(&bpm), std::cmp::min(id as usize + 1, 3));
    }
}

#[test]
fn pinned_frame_is_never_the_victim() {
    let mut store = MemStore::with_pages(3);
    let mut bpm = manager(2, 3 * PAGE_SIZE as u64);
    let held = fetch(&mut bpm, &mut store, 0).unwrap();
    let other = fetch(&mut bpm, &mut store, 1).unwrap();
    let other_frame = other.buffer_id;
    assert!(bpm.release(other));
    let third = fetch(&mut bpm, &mut store, 2).unwrap();
    assert_eq!(third.buffer_id, other_frame);
    assert_ne!(third.buffer_id, held.buffer_id);
    assert_eq!(bpm.buffer(held.buffer_id).unwrap().page_id, PageId(0));
}

#[test]
fn create_page_reads_nothing() {
    let mut store = MemStore::with_pages(1);
    let mut bpm = manager(1, PAGE_SIZE as u64);
    let l = fetch(&mut bpm, &mut store, 0).unwrap();
    assert!(bpm.release(l));
    let created = create(&mut bpm, &mut store).unwrap();
    assert_eq!(created.page_id, PageId(1));
    assert_eq!(store.reads, vec![0]);
    assert!(bpm.buffer(created.buffer_id).unwrap().page.iter().all(|&x| x == 0));
}

#[test]
fn empty_pool_is_exhausted() {
    let mut bpm = manager(0, 0);
    assert_eq!(bpm.create_page().unwrap_err(), Error::NoFreeBuffer);
    assert_eq!(bpm.fetch_page(PageId(0)).unwrap_err(), Error::NoFreeBuffer);
    let mut pool = BufferPool::new(0);
    assert_eq!(pool.evict(), None);
}

#[test]
fn sweep_takes_unused_frame_at_hand() {
    let mut pool = BufferPool::new(3);
    assert_eq!(pool.size(), 3);
    assert_eq!(pool.evict(), Some(BufferId(0)));
    assert_eq!(pool.evict(), Some(BufferId(0)));
}

#[test]
fn sweep_decrements_then_picks() {
    let mut store = MemStore::with_pages(3);
    let mut bpm = manager(2, 3 * PAGE_SIZE as u64);
    let a = fetch(&mut bpm, &mut store, 0).unwrap();
    assert!(bpm.release(a));
    let a2 = fetch(&mut bpm, &mut store, 0).unwrap();
    assert!(bpm.release(a2));
    let b = fetch(&mut bpm, &mut store, 1).unwrap();
    assert!(bpm.release(b));
    // Frame 0 has been used twice, frame 1 once: the sweep lowers both and
    // frame 1 reaches zero first.
    let c = fetch(&mut bpm, &mut store, 2).unwrap();
    assert_eq!(c.buffer_id, BufferId(1));
    assert_eq!(bpm.buffer(BufferId(0)).unwrap().page_id, PageId(0));
}

#[test]
fn increment_id_wraps() {
    let pool = BufferPool::new(3);
    assert_eq!(pool.increment_id(BufferId(0)), BufferId(1));
    assert_eq!(pool.increment_id(BufferId(2)), BufferId(0));
}

#[test]
fn page_id_basics() {
    assert_eq!(PageId(17).to_u64(), 17);
    assert_eq!(PageId::default(), PageId(u64::MAX));
    assert_eq!(PageId::invalid().to_u64(), INVALID_PAGE_ID_VALUE);
}

#[test]
fn allocator_resumes_after_whole_pages() {
    let a = PageAllocator::new(3 * PAGE_SIZE as u64 + 5);
    assert_eq!(a.next_page_id(), 3);
    let mut b = PageAllocator::new(0);
    assert_eq!(b.allocate_page(), PageId(0));
    assert_eq!(b.allocate_page(), PageId(1));
    assert!(b.can_allocate());
}

#[test]
fn install_refuses_dirty_or_pinned_frames() {
    let mut store = MemStore::new();
    let mut bpm = manager(1, 0);
    let lease = create(&mut bpm, &mut store).unwrap();
    let frame = lease.buffer_id;
    // Pinned.
    assert!(bpm.install_page(frame, PageId(5), vec![0; PAGE_SIZE]).is_none());
    assert!(bpm.release(lease));
    // Unpinned but dirty: must be written back first.
    assert!(bpm.install_page(frame, PageId(5), vec![0; PAGE_SIZE]).is_none());
    assert!(bpm.install_new_page(frame).is_none());
    assert!(bpm.mark_clean(frame));
    // Wrong length, sentinel identity, cached page.
    assert!(bpm.install_page(frame, PageId(5), vec![0; 3]).is_none());
    assert!(bpm.install_page(frame, PageId::invalid(), vec![0; PAGE_SIZE]).is_none());
    assert!(bpm.install_page(frame, PageId(0), vec![0; PAGE_SIZE]).is_none());
    let l = bpm.install_page(frame, PageId(5), vec![9; PAGE_SIZE]).unwrap();
    assert_eq!(l.page_id, PageId(5));
    let b = bpm.buffer(frame).unwrap();
    assert!(!b.is_dirty);
    assert_eq!(b.page[0], 9);
    assert!(!bpm.mark_clean(BufferId(1)));
}

#[test]
fn release_and_writes_check_the_lease() {
    let mut store = MemStore::new();
    let mut bpm = manager(1, 0);
    let lease = create(&mut bpm, &mut store).unwrap();
    let forged = Lease { buffer_id: lease.buffer_id, page_id: PageId(3) };
    assert!(!bpm.set_dirty(&forged));
    assert!(!bpm.write_page(&forged, 0, &[1]));
    assert!(!bpm.release(forged));
    assert!(!bpm.write_page(&lease, PAGE_SIZE - 1, &[1, 2]));
    assert!(bpm.write_page(&lease, PAGE_SIZE - 2, &[1, 2]));
    let copy = Lease { buffer_id: lease.buffer_id, page_id: lease.page_id };
    assert!(bpm.release(lease));
    assert!(!bpm.release(copy));
    assert!(bpm.buffer(BufferId(1)).is_none());
}
