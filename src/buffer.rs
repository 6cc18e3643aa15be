use vstd::prelude::*;
use std::collections::HashMap;
use crate::disk::{PageAllocator, PageId, INVALID_PAGE_ID_VALUE, PAGE_SIZE};

verus! {

broadcast use vstd::std_specs::hash::group_hash_axioms;

/// Index of a frame in the pool.
#[derive(Debug, Default, Clone, Copy, PartialEq, Eq, Structural, Hash)]
pub struct BufferId(pub usize);

/// Why the cache could not serve a request.
#[derive(Debug, Clone, Copy, PartialEq, Eq, Structural)]
pub enum Error {
    /// Every frame is pinned by an outstanding lease, or a frame cannot take
    /// one more lease.
    NoFreeBuffer,
}

/// The cached copy of one page: its identity, its bytes and its dirty flag.
#[derive(Debug)]
pub struct Buffer {
    pub page_id: PageId,
    pub page: Vec<u8>,
    pub is_dirty: bool,
}

/// A page of zero bytes.
pub open spec fn zero_page() -> Seq<u8> {
    Seq::new(PAGE_SIZE as nat, |i: int| 0u8)
}

fn zeroed_page() -> (r: Vec<u8>)
    ensures
        r@ == zero_page(),
{
    let mut page: Vec<u8> = Vec::new();
    let mut i: usize = 0;
    while i < PAGE_SIZE
        invariant
            i <= PAGE_SIZE,
            page@ == Seq::new(i as nat, |k: int| 0u8),
        decreases PAGE_SIZE - i,
    {
        page.push(0u8);
        i = i + 1;
        assert(page@ =~= Seq::new(i as nat, |k: int| 0u8));
    }
    page
}

impl Buffer {
    /// A slot that holds no page: sentinel identity, zero bytes, clean.
    pub fn empty() -> (r: Buffer)
        ensures
            !r.page_id.is_valid(),
            r.page@ == zero_page(),
            !r.is_dirty,
    {
        Buffer { page_id: PageId::invalid(), page: zeroed_page(), is_dirty: false }
    }
}

impl Default for Buffer {
    fn default() -> (r: Buffer)
        ensures
            !r.page_id.is_valid(),
            r.page@ == zero_page(),
            !r.is_dirty,
    {
        Buffer::empty()
    }
}

/// A pool slot: a buffer, its clock-sweep usage count and its number of
/// outstanding leases.
#[derive(Debug)]
pub struct Frame {
    pub usage_count: u64,
    pub pin_count: u64,
    pub buffer: Buffer,
}

impl Frame {
    /// Every frame holds a whole page, and a leased frame has a nonzero usage
    /// count, so a sweep that reaches a zero count has found an unpinned frame.
    pub open spec fn wf(&self) -> bool {
        &&& self.buffer.page@.len() == PAGE_SIZE
        &&& self.pin_count > 0 ==> self.usage_count > 0
    }
}

/// What a sweep may do to a frame: lower the usage count of an unpinned
/// frame, and nothing else.
pub open spec fn swept(before: Frame, after: Frame) -> bool {
    &&& after.pin_count == before.pin_count
    &&& after.buffer == before.buffer
    &&& after.usage_count <= before.usage_count
    &&& before.pin_count > 0 ==> after.usage_count == before.usage_count
}

/// Sum of the usage counts of a sequence of frames.
pub open spec fn usage_sum(frames: Seq<Frame>) -> nat
    decreases frames.len(),
{
    if frames.len() == 0 {
        0
    } else {
        usage_sum(frames.drop_last()) + (frames.last().usage_count as nat)
    }
}

proof fn lemma_usage_sum_decrement(frames: Seq<Frame>, i: int, f: Frame)
    requires
        0 <= i < frames.len(),
        f.usage_count + 1 == frames[i].usage_count,
    ensures
        usage_sum(frames.update(i, f)) + 1 == usage_sum(frames),
    decreases frames.len(),
{
    if i == frames.len() - 1 {
        assert(frames.update(i, f).drop_last() =~= frames.drop_last());
    } else {
        lemma_usage_sum_decrement(frames.drop_last(), i, f);
        assert(frames.update(i, f).drop_last() =~= frames.drop_last().update(i, f));
    }
}

/// The frame after `cursor` on a circle of `n` frames.
pub open spec fn next_on_circle(cursor: int, n: int) -> int {
    if cursor + 1 == n {
        0
    } else {
        cursor + 1
    }
}

/// `f` with its usage count one lower.
pub open spec fn used_once_less(f: Frame) -> Frame {
    Frame { usage_count: (f.usage_count - 1) as u64, pin_count: f.pin_count, buffer: f.buffer }
}

/// The clock sweep from the hand at `cursor`, with `pinned_run` pinned frames
/// passed in a row: the frames afterwards, where the hand stops, and whether
/// the frame there is the victim.
pub open spec fn clock_sweep(frames: Seq<Frame>, cursor: int, pinned_run: int) -> (Seq<Frame>, int, bool)
    decreases usage_sum(frames), frames.len() - pinned_run,
    when 0 <= cursor < frames.len() && 0 <= pinned_run < frames.len()
    via clock_sweep_decreases
{
    let f = frames[cursor];
    let next = next_on_circle(cursor, frames.len() as int);
    if f.usage_count == 0 {
        (frames, cursor, true)
    } else if f.pin_count == 0 {
        clock_sweep(frames.update(cursor, used_once_less(f)), next, 0)
    } else if pinned_run + 1 >= frames.len() {
        (frames, cursor, false)
    } else {
        clock_sweep(frames, next, pinned_run + 1)
    }
}

#[via_fn]
proof fn clock_sweep_decreases(frames: Seq<Frame>, cursor: int, pinned_run: int) {
    if 0 <= cursor < frames.len() && frames[cursor].usage_count != 0 && frames[cursor].pin_count == 0 {
        lemma_usage_sum_decrement(frames, cursor, used_once_less(frames[cursor]));
    }
}

/// The frame `j` steps behind `cursor` on a circle of `n` frames.
pub open spec fn behind(cursor: int, j: int, n: int) -> int {
    if j <= cursor {
        cursor - j
    } else {
        cursor + n - j
    }
}

/// A fixed number of frames and the clock hand that sweeps over them.
pub struct BufferPool {
    buffers: Vec<Frame>,
    next_victim_id: BufferId,
}

impl BufferPool {
    pub closed spec fn frames(&self) -> Seq<Frame> {
        self.buffers@
    }

    /// Position of the clock hand.
    pub closed spec fn cursor(&self) -> int {
        self.next_victim_id.0 as int
    }

    pub open spec fn len(&self) -> int {
        self.frames().len() as int
    }

    pub open spec fn pinned(&self, i: int) -> bool {
        self.frames()[i].pin_count > 0
    }

    pub open spec fn wf(&self) -> bool {
        &&& self.len() > 0 ==> 0 <= self.cursor() < self.len()
        &&& forall|i: int| 0 <= i < self.len() ==> (#[trigger] self.frames()[i]).wf()
    }

    /// A pool of `pool_size` empty, unpinned frames with the hand at the first.
    pub fn new(pool_size: usize) -> (r: BufferPool)
        ensures
            r.wf(),
            r.len() == pool_size,
            r.cursor() == 0,
            forall|i: int|
                0 <= i < pool_size ==> {
                    let f = #[trigger] r.frames()[i];
                    &&& f.usage_count == 0
                    &&& f.pin_count == 0
                    &&& !f.buffer.page_id.is_valid()
                    &&& f.buffer.page@ == zero_page()
                    &&& !f.buffer.is_dirty
                },
    {
        let mut buffers: Vec<Frame> = Vec::new();
        let mut i: usize = 0;
        while i < pool_size
            invariant
                i <= pool_size,
                buffers@.len() == i,
                forall|k: int|
                    0 <= k < i ==> {
                        let f = #[trigger] buffers@[k];
                        &&& f.usage_count == 0
                        &&& f.pin_count == 0
                        &&& !f.buffer.page_id.is_valid()
                        &&& f.buffer.page@ == zero_page()
                        &&& !f.buffer.is_dirty
                    },
            decreases pool_size - i,
        {
            buffers.push(Frame { usage_count: 0, pin_count: 0, buffer: Buffer::empty() });
            i = i + 1;
        }
        BufferPool { buffers, next_victim_id: BufferId(0) }
    }

    /// Number of frames, fixed at construction.
    pub fn size(&self) -> (r: usize)
        ensures
            r == self.len(),
    {
        self.buffers.len()
    }

    /// The frame after `buffer_id` on the circle.
    pub fn increment_id(&self, buffer_id: BufferId) -> (r: BufferId)
        requires
            buffer_id.0 < self.len(),
        ensures
            r.0 == if buffer_id.0 + 1 == self.len() {
                0
            } else {
                buffer_id.0 + 1
            },
    {
        let n = self.size();
        let x = buffer_id.0 + 1;
        assert(x <= n ==> x % n == if x == n {
            0
        } else {
            x
        }) by (nonlinear_arith)
            requires
                n > 0,
        ;
        BufferId(x % n)
    }

    /// Clock sweep. From the hand on: a frame with usage count zero is the
    /// victim, and the hand stays on it; an unpinned frame loses one from its
    /// count; a pinned frame is passed. After as many pinned frames in a row as
    /// the pool holds, there is no victim.
    pub fn evict(&mut self) -> (r: Option<BufferId>)
        requires
            old(self).wf(),
        ensures
            final(self).wf(),
            final(self).len() == old(self).len(),
            forall|i: int|
                0 <= i < old(self).len() ==> swept(
                    #[trigger] old(self).frames()[i],
                    final(self).frames()[i],
                ),
            r is None <==> forall|i: int| 0 <= i < old(self).len() ==> old(self).pinned(i),
            old(self).len() > 0 ==> clock_sweep(old(self).frames(), old(self).cursor(), 0) == (
                final(self).frames(),
                final(self).cursor(),
                r is Some,
            ),
            r matches Some(id) ==> !old(self).pinned(id.0 as int),
            r matches Some(id) ==> {
                &&& id.0 < final(self).len()
                &&& final(self).cursor() == id.0
                &&& final(self).frames()[id.0 as int].usage_count == 0
                &&& final(self).frames()[id.0 as int].pin_count == 0
            },
    {
        let pool_size = self.size();
        if pool_size == 0 {
            return None;
        }
        let ghost start = self.frames();
        let mut consecutive_pinned: usize = 0;
        loop
            invariant
                self.wf(),
                self.len() == pool_size,
                pool_size > 0,
                consecutive_pinned < pool_size,
                start == old(self).frames(),
                start.len() == pool_size,
                clock_sweep(self.frames(), self.cursor(), consecutive_pinned as int) == clock_sweep(
                    start,
                    old(self).cursor(),
                    0,
                ),
                forall|i: int| 0 <= i < pool_size ==> swept(#[trigger] start[i], self.frames()[i]),
                forall|j: int|
                    1 <= j <= consecutive_pinned ==> self.pinned(
                        #[trigger] behind(self.cursor(), j, pool_size as int),
                    ),
            decreases usage_sum(self.frames()), pool_size - consecutive_pinned,
        {
            let id = self.next_victim_id;
            if self.buffers[id.0].usage_count == 0 {
                assert(self.frames()[id.0 as int].wf());
                assert(!self.pinned(id.0 as int));
                assert(swept(start[id.0 as int], self.frames()[id.0 as int]));
                assert(!old(self).pinned(id.0 as int));
                return Some(id);
            }
            if self.buffers[id.0].pin_count == 0 {
                let ghost before = self.frames();
                let count = self.buffers[id.0].usage_count;
                self.buffers[id.0].usage_count = count - 1;
                proof {
                    assert(self.frames() =~= before.update(id.0 as int, used_once_less(before[id.0 as int])));
                    lemma_usage_sum_decrement(before, id.0 as int, self.frames()[id.0 as int]);
                    assert(self.frames() =~= before.update(id.0 as int, self.frames()[id.0 as int]));
                }
                consecutive_pinned = 0;
            } else {
                consecutive_pinned = consecutive_pinned + 1;
                if consecutive_pinned >= pool_size {
                    assert forall|i: int| 0 <= i < pool_size implies start[i].pin_count > 0 by {
                        let j = if i <= id.0 {
                            id.0 - i
                        } else {
                            id.0 + pool_size - i
                        };
                        if j > 0 {
                            assert(behind(id.0 as int, j, pool_size as int) == i);
                            assert(self.pinned(behind(self.cursor(), j, pool_size as int)));
                        }
                        assert(swept(start[i], self.frames()[i]));
                    }
                    return None;
                }
            }
            let next = self.increment_id(id);
            self.next_victim_id = next;
            assert forall|j: int| 1 <= j <= consecutive_pinned implies self.pinned(
                #[trigger] behind(self.cursor(), j, pool_size as int),
            ) by {
                if j > 1 {
                    assert(behind(self.cursor(), j, pool_size as int) == behind(
                        id.0 as int,
                        j - 1,
                        pool_size as int,
                    ));
                }
            }
        }
    }
}


/// Number of frames that hold a page.
pub open spec fn loaded_count(frames: Seq<Frame>) -> nat
    decreases frames.len(),
{
    if frames.len() == 0 {
        0
    } else {
        loaded_count(frames.drop_last()) + if frames.last().buffer.page_id.is_valid() {
            1nat
        } else {
            0nat
        }
    }
}

proof fn lemma_loaded_count_update(frames: Seq<Frame>, i: int, f: Frame)
    requires
        0 <= i < frames.len(),
    ensures
        loaded_count(frames.update(i, f)) + (if frames[i].buffer.page_id.is_valid() {
            1int
        } else {
            0int
        }) == loaded_count(frames) + (if f.buffer.page_id.is_valid() {
            1int
        } else {
            0int
        }),
    decreases frames.len(),
{
    if i == frames.len() - 1 {
        assert(frames.update(i, f).drop_last() =~= frames.drop_last());
    } else {
        lemma_loaded_count_update(frames.drop_last(), i, f);
        assert(frames.update(i, f).drop_last() =~= frames.drop_last().update(i, f));
    }
}

proof fn lemma_loaded_count_same(a: Seq<Frame>, b: Seq<Frame>)
    requires
        a.len() == b.len(),
        forall|i: int| 0 <= i < a.len() ==> (#[trigger] a[i]).buffer.page_id == b[i].buffer.page_id,
    ensures
        loaded_count(a) == loaded_count(b),
    decreases a.len(),
{
    if a.len() > 0 {
        let (ra, rb) = (a.drop_last(), b.drop_last());
        assert forall|i: int| 0 <= i < ra.len() implies (#[trigger] ra[i]).buffer.page_id == rb[i].buffer.page_id by {
            assert(ra[i] == a[i] && rb[i] == b[i]);
        }
        lemma_loaded_count_same(ra, rb);
        assert(a.last() == a[a.len() - 1]);
    }
}

proof fn lemma_loaded_count_bound(frames: Seq<Frame>)
    ensures
        loaded_count(frames) <= frames.len(),
    decreases frames.len(),
{
    if frames.len() > 0 {
        lemma_loaded_count_bound(frames.drop_last());
    }
}

proof fn lemma_loaded_count_empty(frames: Seq<Frame>)
    requires
        forall|i: int| 0 <= i < frames.len() ==> !(#[trigger] frames[i]).buffer.page_id.is_valid(),
    ensures
        loaded_count(frames) == 0,
    decreases frames.len(),
{
    if frames.len() > 0 {
        let rest = frames.drop_last();
        assert forall|i: int| 0 <= i < rest.len() implies !(#[trigger] rest[i]).buffer.page_id.is_valid() by {
            assert(rest[i] == frames[i]);
        }
        lemma_loaded_count_empty(rest);
    }
}

/// A lease on a cached page. While it is held its frame is pinned and cannot
/// be chosen for eviction; `release` gives it back.
#[derive(Debug, PartialEq, Eq, Structural)]
pub struct Lease {
    pub buffer_id: BufferId,
    pub page_id: PageId,
}

/// A frame chosen for reuse. When `write_back` names a page, the frame's
/// content must be persisted under that page before the frame is reused.
#[derive(Debug, Clone, Copy)]
pub struct Victim {
    pub buffer_id: BufferId,
    pub write_back: Option<PageId>,
}

/// Outcome of a fetch: the page was cached, or a frame was freed for it.
#[derive(Debug)]
pub enum Fetch {
    Hit(Lease),
    Miss(Victim),
}

/// The frames, the page table from page identifiers to frames, and the
/// allocator of new page identifiers.
pub struct BufferPoolManager {
    allocator: PageAllocator,
    pool: BufferPool,
    page_table: HashMap<u64, usize>,
}

/// The victim that a sweep chose, with the write-back that its frame needs.
pub open spec fn victim_of(frame: Frame, buffer_id: BufferId) -> Victim {
    Victim {
        buffer_id,
        write_back: if frame.buffer.is_dirty {
            Some(frame.buffer.page_id)
        } else {
            None
        },
    }
}

impl BufferPoolManager {
    pub closed spec fn pool(&self) -> BufferPool {
        self.pool
    }

    pub closed spec fn table(&self) -> Map<u64, usize> {
        self.page_table@
    }

    pub closed spec fn allocator(&self) -> PageAllocator {
        self.allocator
    }

    pub open spec fn capacity(&self) -> int {
        self.pool().len()
    }

    pub open spec fn frame(&self, i: int) -> Frame {
        self.pool().frames()[i]
    }

    pub open spec fn cached(&self, page_id: PageId) -> bool {
        self.table().contains_key(page_id.0)
    }

    /// The table maps exactly the pages that frames hold to those frames.
    pub open spec fn wf(&self) -> bool {
        &&& self.pool().wf()
        &&& forall|k: u64| #[trigger]
            self.table().contains_key(k) ==> {
                &&& k != INVALID_PAGE_ID_VALUE
                &&& self.table()[k] < self.capacity()
                &&& self.frame(self.table()[k] as int).buffer.page_id.0 == k
            }
        &&& forall|i: int|
            0 <= i < self.capacity() && (#[trigger] self.frame(i)).buffer.page_id.is_valid() ==> {
                &&& self.table().contains_key(self.frame(i).buffer.page_id.0)
                &&& self.table()[self.frame(i).buffer.page_id.0] == i
            }
        &&& self.table().len() == loaded_count(self.pool().frames())
    }

    /// Everything but the frames' usage counts is as in `other`, and a sweep
    /// accounts for the change of those.
    pub open spec fn swept_from(&self, other: &BufferPoolManager) -> bool {
        &&& self.capacity() == other.capacity()
        &&& self.table() == other.table()
        &&& self.allocator() == other.allocator()
        &&& forall|i: int| 0 <= i < self.capacity() ==> swept(#[trigger] other.frame(i), self.frame(i))
    }

    /// The sweep from `other`'s hand leads to this manager's frames and hand,
    /// and finds a victim there exactly when `found`.
    pub open spec fn clock_swept_from(&self, other: &BufferPoolManager, found: bool) -> bool {
        other.capacity() > 0 ==> clock_sweep(other.pool().frames(), other.pool().cursor(), 0) == (
            self.pool().frames(),
            self.pool().cursor(),
            found,
        )
    }

    /// Frame `i` alone differs from `other`; table, allocator and hand agree.
    pub open spec fn frame_changed(&self, other: &BufferPoolManager, i: int) -> bool {
        &&& self.capacity() == other.capacity()
        &&& self.pool().cursor() == other.pool().cursor()
        &&& forall|j: int| 0 <= j < self.capacity() && j != i ==> #[trigger] self.frame(j) == other.frame(j)
    }

    /// Changing frames without changing which page each holds keeps the
    /// table consistent.
    proof fn lemma_same_identities(before: &BufferPoolManager, after: &BufferPoolManager)
        requires
            before.wf(),
            after.pool().wf(),
            after.capacity() == before.capacity(),
            after.table() == before.table(),
            forall|j: int|
                0 <= j < after.capacity() ==> (#[trigger] after.frame(j)).buffer.page_id
                    == before.frame(j).buffer.page_id,
        ensures
            after.wf(),
    {
        assert forall|k: u64| #[trigger] after.table().contains_key(k) implies after.frame(
            after.table()[k] as int,
        ).buffer.page_id.0 == k by {
            assert(after.frame(after.table()[k] as int).buffer.page_id == before.frame(
                before.table()[k] as int,
            ).buffer.page_id);
        }
        assert forall|j: int|
            0 <= j < after.capacity() && (#[trigger] after.frame(
                j,
            )).buffer.page_id.is_valid() implies after.table().contains_key(
            after.frame(j).buffer.page_id.0,
        ) && after.table()[after.frame(j).buffer.page_id.0] == j by {
            assert(after.frame(j).buffer.page_id == before.frame(j).buffer.page_id);
        }
        assert forall|j: int| 0 <= j < after.capacity() implies (#[trigger] before.pool().frames()[j]).buffer.page_id
            == after.pool().frames()[j].buffer.page_id by {
            assert(after.frame(j).buffer.page_id == before.frame(j).buffer.page_id);
        }
        lemma_loaded_count_same(before.pool().frames(), after.pool().frames());
    }

    /// A manager over `pool`, whose frames hold no page yet.
    pub fn new(allocator: PageAllocator, pool: BufferPool) -> (r: BufferPoolManager)
        requires
            pool.wf(),
            forall|i: int| 0 <= i < pool.len() ==> !(#[trigger] pool.frames()[i]).buffer.page_id.is_valid(),
        ensures
            r.wf(),
            r.pool() == pool,
            r.allocator() == allocator,
            r.table() == Map::<u64, usize>::empty(),
    {
        let page_table: HashMap<u64, usize> = HashMap::new();
        proof {
            lemma_loaded_count_empty(pool.frames());
        }
        let r = BufferPoolManager { allocator, pool, page_table };
        assert(r.table() =~= Map::<u64, usize>::empty());
        r
    }

    /// Number of frames.
    pub fn capacity_of(&self) -> (r: usize)
        ensures
            r == self.capacity(),
    {
        self.pool.size()
    }

    /// Looks `page_id` up. A cached page gets one more use and one more
    /// lease. Otherwise a frame is swept free for it, and the caller is told
    /// which one and whether its old content needs writing back.
    pub fn fetch_page(&mut self, page_id: PageId) -> (r: Result<Fetch, Error>)
        requires
            old(self).wf(),
            page_id.is_valid(),
        ensures
            final(self).wf(),
            old(self).cached(page_id) ==> {
                let i = old(self).table()[page_id.0] as int;
                let f = old(self).frame(i);
                if f.pin_count == u64::MAX {
                    &&& r == Err::<Fetch, Error>(Error::NoFreeBuffer)
                    &&& *final(self) == *old(self)
                } else {
                    &&& r matches Ok(Fetch::Hit(lease))
                    &&& lease == (Lease { buffer_id: BufferId(i as usize), page_id })
                    &&& final(self).frame_changed(old(self), i)
                    &&& final(self).table() == old(self).table()
                    &&& final(self).allocator() == old(self).allocator()
                    &&& final(self).frame(i).buffer == f.buffer
                    &&& final(self).frame(i).pin_count == f.pin_count + 1
                    &&& final(self).frame(i).usage_count == if f.usage_count == u64::MAX {
                        f.usage_count as int
                    } else {
                        f.usage_count + 1
                    }
                }
            },
            !old(self).cached(page_id) ==> {
                &&& final(self).swept_from(old(self))
                &&& final(self).clock_swept_from(old(self), r is Ok)
                &&& (r is Err <==> forall|i: int|
                    0 <= i < old(self).capacity() ==> old(self).pool().pinned(i))
                &&& r is Err ==> r == Err::<Fetch, Error>(Error::NoFreeBuffer)
                &&& r is Ok ==> (r matches Ok(Fetch::Miss(v)) && {
                    let i = v.buffer_id.0 as int;
                    &&& i < final(self).capacity()
                    &&& final(self).frame(i).pin_count == 0
                    &&& final(self).frame(i).usage_count == 0
                    &&& v == victim_of(final(self).frame(i), v.buffer_id)
                })
            },
    {
        match self.page_table.get(&page_id.0) {
            Some(found) => {
                let index: usize = *found;
                let pin_count = self.pool.buffers[index].pin_count;
                if pin_count == u64::MAX {
                    return Err(Error::NoFreeBuffer);
                }
                let ghost before = *self;
                let usage_count = self.pool.buffers[index].usage_count;
                self.pool.buffers[index].usage_count = usage_count.saturating_add(1);
                self.pool.buffers[index].pin_count = pin_count + 1;
                proof {
                    assert(self.pool.buffers@ =~= before.pool.buffers@.update(
                        index as int,
                        self.pool.buffers@[index as int],
                    ));
                    lemma_loaded_count_update(
                        before.pool.buffers@,
                        index as int,
                        self.pool.buffers@[index as int],
                    );
                    assert forall|j: int| 0 <= j < self.capacity() implies (#[trigger] self.frame(j)).wf() by {
                        assert(before.frame(j).wf());
                    }
                    assert forall|j: int| 0 <= j < self.capacity() implies (#[trigger] self.frame(j)).buffer.page_id == before.frame(j).buffer.page_id by {
                        assert(before.frame(j).wf());
                    }
                    Self::lemma_same_identities(&before, self);
                }
                Ok(Fetch::Hit(Lease { buffer_id: BufferId(index), page_id }))
            },
            None => match self.choose_victim() {
                Ok(victim) => Ok(Fetch::Miss(victim)),
                Err(e) => Err(e),
            },
        }
    }

    /// Sweeps a frame free; says which, and what it needs written back.
    fn choose_victim(&mut self) -> (r: Result<Victim, Error>)
        requires
            old(self).wf(),
        ensures
            final(self).wf(),
            final(self).swept_from(old(self)),
            final(self).clock_swept_from(old(self), r is Ok),
            r is Err <==> forall|i: int| 0 <= i < old(self).capacity() ==> old(self).pool().pinned(i),
            r is Err ==> r == Err::<Victim, Error>(Error::NoFreeBuffer),
            r matches Ok(v) ==> {
                let i = v.buffer_id.0 as int;
                &&& i < final(self).capacity()
                &&& i == final(self).pool().cursor()
                &&& final(self).frame(i).pin_count == 0
                &&& final(self).frame(i).usage_count == 0
                &&& v == victim_of(final(self).frame(i), v.buffer_id)
            },
    {
        let ghost before = *self;
        let evicted = self.pool.evict();
        proof {
            assert forall|j: int| 0 <= j < self.capacity() implies (#[trigger] self.frame(j)).buffer.page_id == before.frame(j).buffer.page_id by {
                assert(swept(before.frame(j), self.frame(j)));
            }
            Self::lemma_same_identities(&before, self);
        }
        match evicted {
            None => Err(Error::NoFreeBuffer),
            Some(buffer_id) => {
                let frame = &self.pool.buffers[buffer_id.0];
                let write_back = if frame.buffer.is_dirty {
                    Some(frame.buffer.page_id)
                } else {
                    None
                };
                Ok(Victim { buffer_id, write_back })
            },
        }
    }

    /// Sweeps a frame free for a page that does not exist yet. The caller
    /// writes back what the victim asks for and then calls `install_new_page`.
    pub fn create_page(&mut self) -> (r: Result<Victim, Error>)
        requires
            old(self).wf(),
        ensures
            final(self).wf(),
            final(self).swept_from(old(self)),
            final(self).clock_swept_from(old(self), r is Ok),
            r is Err <==> forall|i: int| 0 <= i < old(self).capacity() ==> old(self).pool().pinned(i),
            r is Err ==> r == Err::<Victim, Error>(Error::NoFreeBuffer),
            r matches Ok(v) ==> {
                let i = v.buffer_id.0 as int;
                &&& i < final(self).capacity()
                &&& i == final(self).pool().cursor()
                &&& final(self).frame(i).pin_count == 0
                &&& final(self).frame(i).usage_count == 0
                &&& v == victim_of(final(self).frame(i), v.buffer_id)
            },
    {
        self.choose_victim()
    }

    /// Frame `i` may take a new page: it exists, nobody leases it, and its
    /// content has been written back.
    pub open spec fn reusable(&self, i: int) -> bool {
        &&& 0 <= i < self.capacity()
        &&& self.frame(i).pin_count == 0
        &&& !self.frame(i).buffer.is_dirty
    }

    /// The table after frame `i` has taken `page_id` in place of its old page.
    pub open spec fn table_after_replace(&self, i: int, page_id: PageId) -> Map<u64, usize> {
        self.table().remove(self.frame(i).buffer.page_id.0).insert(page_id.0, i as usize)
    }

    /// Frame `i` after taking `page_id` with content `page`: used once,
    /// leased once.
    pub open spec fn replaced(
        &self,
        other: &BufferPoolManager,
        i: int,
        page_id: PageId,
        page: Seq<u8>,
        dirty: bool,
    ) -> bool {
        &&& self.frame_changed(other, i)
        &&& self.frame(i).usage_count == 1
        &&& self.frame(i).pin_count == 1
        &&& self.frame(i).buffer.page_id == page_id
        &&& self.frame(i).buffer.page@ == page
        &&& self.frame(i).buffer.is_dirty == dirty
        &&& self.table() == other.table_after_replace(i, page_id)
    }

    fn replace_frame(&mut self, buffer_id: BufferId, page_id: PageId, page: Vec<u8>, dirty: bool) -> (r: Lease)
        requires
            old(self).wf(),
            old(self).reusable(buffer_id.0 as int),
            page_id.is_valid(),
            !old(self).cached(page_id),
            page@.len() == PAGE_SIZE,
        ensures
            final(self).wf(),
            final(self).replaced(old(self), buffer_id.0 as int, page_id, page@, dirty),
            final(self).allocator() == old(self).allocator(),
            r == (Lease { buffer_id, page_id }),
    {
        let ghost before = *self;
        let ghost page_view = page@;
        let i = buffer_id.0;
        let old_id = self.pool.buffers[i].buffer.page_id;
        let _ = self.page_table.remove(&old_id.0);
        self.pool.buffers[i] = Frame {
            usage_count: 1,
            pin_count: 1,
            buffer: Buffer { page_id, page, is_dirty: dirty },
        };
        self.page_table.insert(page_id.0, i);
        proof {
            let t = before.table();
            let o = old_id.0;
            assert(self.table() =~= before.table_after_replace(i as int, page_id));
            assert(self.pool.buffers@ =~= before.pool.buffers@.update(i as int, self.pool.buffers@[i as int]));
            assert forall|j: int| 0 <= j < self.capacity() implies (#[trigger] self.frame(j)).wf() by {
                assert(before.frame(j).wf());
            }
            assert forall|k: u64| #[trigger] self.table().contains_key(k) implies {
                &&& k != INVALID_PAGE_ID_VALUE
                &&& self.table()[k] < self.capacity()
                &&& self.frame(self.table()[k] as int).buffer.page_id.0 == k
            } by {
                if k != page_id.0 {
                    assert(t.contains_key(k));
                    assert(t[k] != i);
                }
            }
            assert forall|j: int|
                0 <= j < self.capacity() && (#[trigger] self.frame(j)).buffer.page_id.is_valid() implies {
                    &&& self.table().contains_key(self.frame(j).buffer.page_id.0)
                    &&& self.table()[self.frame(j).buffer.page_id.0] == j
                } by {
                if j != i {
                    assert(before.frame(j) == self.frame(j));
                    assert(t.contains_key(self.frame(j).buffer.page_id.0));
                }
            }
            lemma_loaded_count_update(before.pool.buffers@, i as int, self.pool.buffers@[i as int]);
            if old_id.is_valid() {
                assert(t.contains_key(o));
                assert(t.remove(o).len() == t.len() - 1);
            } else {
                assert(!t.contains_key(o));
                assert(t.remove(o) =~= t);
            }
        }
        Lease { buffer_id, page_id }
    }

    /// Puts page `page_id`, read from storage as `data`, into the frame
    /// `buffer_id`, and leases it. Nothing changes unless the frame is
    /// reusable, the page is a real one not cached yet, and `data` is one page.
    pub fn install_page(&mut self, buffer_id: BufferId, page_id: PageId, data: Vec<u8>) -> (r: Option<Lease>)
        requires
            old(self).wf(),
        ensures
            final(self).wf(),
            r is Some <==> {
                &&& old(self).reusable(buffer_id.0 as int)
                &&& page_id.is_valid()
                &&& !old(self).cached(page_id)
                &&& data@.len() == PAGE_SIZE
            },
            r is None ==> *final(self) == *old(self),
            r is Some ==> {
                &&& r == Some(Lease { buffer_id, page_id })
                &&& final(self).replaced(old(self), buffer_id.0 as int, page_id, data@, false)
                &&& final(self).allocator() == old(self).allocator()
            },
    {
        if buffer_id.0 >= self.pool.buffers.len() || page_id.0 == INVALID_PAGE_ID_VALUE
            || data.len() != PAGE_SIZE {
            return None;
        }
        if self.pool.buffers[buffer_id.0].pin_count != 0 || self.pool.buffers[buffer_id.0].buffer.is_dirty
            || self.page_table.contains_key(&page_id.0) {
            return None;
        }
        Some(self.replace_frame(buffer_id, page_id, data, false))
    }

    /// Gives the frame `buffer_id` a newly allocated page of zero bytes,
    /// marked dirty since it was never persisted, and leases it. Storage is
    /// not read. Nothing changes unless the frame is reusable and the
    /// allocator has an identifier left that no frame holds.
    pub fn install_new_page(&mut self, buffer_id: BufferId) -> (r: Option<Lease>)
        requires
            old(self).wf(),
        ensures
            final(self).wf(),
            r is Some <==> {
                &&& old(self).reusable(buffer_id.0 as int)
                &&& old(self).allocator().next() < INVALID_PAGE_ID_VALUE
                &&& !old(self).table().contains_key(old(self).allocator().next())
            },
            r is None ==> *final(self) == *old(self),
            r is Some ==> {
                let page_id = PageId(old(self).allocator().next());
                &&& r == Some(Lease { buffer_id, page_id })
                &&& final(self).replaced(old(self), buffer_id.0 as int, page_id, zero_page(), true)
                &&& final(self).allocator().next() == old(self).allocator().next() + 1
            },
    {
        if buffer_id.0 >= self.pool.buffers.len() || !self.allocator.can_allocate() {
            return None;
        }
        if self.pool.buffers[buffer_id.0].pin_count != 0 || self.pool.buffers[buffer_id.0].buffer.is_dirty
            || self.page_table.contains_key(&self.allocator.next_page_id()) {
            return None;
        }
        let ghost pre = *self;
        let page_id = self.allocator.allocate_page();
        let ghost mid = *self;
        proof {
            assert(mid.pool() == pre.pool());
            assert(mid.table() == pre.table());
            assert forall|k: u64| #[trigger] mid.table().contains_key(k) implies {
                &&& k != INVALID_PAGE_ID_VALUE
                &&& mid.table()[k] < mid.capacity()
                &&& mid.frame(mid.table()[k] as int).buffer.page_id.0 == k
            } by {
                assert(pre.table().contains_key(k));
            }
            assert forall|j: int|
                0 <= j < mid.capacity() && (#[trigger] mid.frame(j)).buffer.page_id.is_valid() implies {
                    &&& mid.table().contains_key(mid.frame(j).buffer.page_id.0)
                    &&& mid.table()[mid.frame(j).buffer.page_id.0] == j
                } by {
                assert(pre.frame(j) == mid.frame(j));
            }
        }
        let lease = self.replace_frame(buffer_id, page_id, zeroed_page(), true);
        proof {
            assert(mid.frame(buffer_id.0 as int) == old(self).frame(buffer_id.0 as int));
        }
        Some(lease)
    }

    /// Records that the content of frame `buffer_id` has been persisted under
    /// its page. Returns false, changing nothing, for a frame that does not
    /// exist.
    pub fn mark_clean(&mut self, buffer_id: BufferId) -> (r: bool)
        requires
            old(self).wf(),
        ensures
            final(self).wf(),
            r == (buffer_id.0 < old(self).capacity()),
            !r ==> *final(self) == *old(self),
            r ==> {
                let i = buffer_id.0 as int;
                &&& final(self).frame_changed(old(self), i)
                &&& final(self).table() == old(self).table()
                &&& final(self).allocator() == old(self).allocator()
                &&& final(self).frame(i).usage_count == old(self).frame(i).usage_count
                &&& final(self).frame(i).pin_count == old(self).frame(i).pin_count
                &&& final(self).frame(i).buffer.page_id == old(self).frame(i).buffer.page_id
                &&& final(self).frame(i).buffer.page@ == old(self).frame(i).buffer.page@
                &&& !final(self).frame(i).buffer.is_dirty
            },
    {
        if buffer_id.0 >= self.pool.buffers.len() {
            return false;
        }
        let ghost before = *self;
        self.pool.buffers[buffer_id.0].buffer.is_dirty = false;
        proof {
            assert(self.pool.buffers@ =~= before.pool.buffers@.update(buffer_id.0 as int, self.pool.buffers@[buffer_id.0 as int]));
            assert forall|j: int| 0 <= j < self.capacity() implies (#[trigger] self.frame(j)).wf() by {
                assert(before.frame(j).wf());
            }
            assert forall|j: int| 0 <= j < self.capacity() implies (#[trigger] self.frame(j)).buffer.page_id == before.frame(j).buffer.page_id by {
            }
            Self::lemma_same_identities(&before, self);
        }
        true
    }

    /// `lease` names a frame that exists, holds the leased page, and is pinned.
    pub open spec fn holds(&self, lease: &Lease) -> bool {
        &&& lease.buffer_id.0 < self.capacity()
        &&& self.frame(lease.buffer_id.0 as int).buffer.page_id == lease.page_id
        &&& self.frame(lease.buffer_id.0 as int).pin_count > 0
    }

    /// Gives a lease back: its frame loses one pin. Returns false, changing
    /// nothing, for a lease that this manager does not hold.
    pub fn release(&mut self, lease: Lease) -> (r: bool)
        requires
            old(self).wf(),
        ensures
            final(self).wf(),
            r == old(self).holds(&lease),
            !r ==> *final(self) == *old(self),
            r ==> {
                let i = lease.buffer_id.0 as int;
                &&& final(self).frame_changed(old(self), i)
                &&& final(self).table() == old(self).table()
                &&& final(self).allocator() == old(self).allocator()
                &&& final(self).frame(i).usage_count == old(self).frame(i).usage_count
                &&& final(self).frame(i).pin_count + 1 == old(self).frame(i).pin_count
                &&& final(self).frame(i).buffer == old(self).frame(i).buffer
            },
    {
        let i = lease.buffer_id.0;
        if i >= self.pool.buffers.len() || self.pool.buffers[i].buffer.page_id != lease.page_id
            || self.pool.buffers[i].pin_count == 0 {
            return false;
        }
        let ghost before = *self;
        let pins = self.pool.buffers[i].pin_count;
        self.pool.buffers[i].pin_count = pins - 1;
        proof {
            assert(self.pool.buffers@ =~= before.pool.buffers@.update(i as int, self.pool.buffers@[i as int]));
            assert forall|j: int| 0 <= j < self.capacity() implies (#[trigger] self.frame(j)).wf() by {
                assert(before.frame(j).wf());
            }
            assert forall|j: int| 0 <= j < self.capacity() implies (#[trigger] self.frame(j)).buffer.page_id == before.frame(j).buffer.page_id by {
            }
            Self::lemma_same_identities(&before, self);
        }
        true
    }

    /// Marks the leased page as changed since it was last persisted. Returns
    /// false, changing nothing, for a lease that this manager does not hold.
    pub fn set_dirty(&mut self, lease: &Lease) -> (r: bool)
        requires
            old(self).wf(),
        ensures
            final(self).wf(),
            r == old(self).holds(lease),
            !r ==> *final(self) == *old(self),
            r ==> {
                let i = lease.buffer_id.0 as int;
                &&& final(self).frame_changed(old(self), i)
                &&& final(self).table() == old(self).table()
                &&& final(self).allocator() == old(self).allocator()
                &&& final(self).frame(i).usage_count == old(self).frame(i).usage_count
                &&& final(self).frame(i).pin_count == old(self).frame(i).pin_count
                &&& final(self).frame(i).buffer.page_id == old(self).frame(i).buffer.page_id
                &&& final(self).frame(i).buffer.page@ == old(self).frame(i).buffer.page@
                &&& final(self).frame(i).buffer.is_dirty
            },
    {
        let i = lease.buffer_id.0;
        if i >= self.pool.buffers.len() || self.pool.buffers[i].buffer.page_id != lease.page_id
            || self.pool.buffers[i].pin_count == 0 {
            return false;
        }
        let ghost before = *self;
        self.pool.buffers[i].buffer.is_dirty = true;
        proof {
            assert(self.pool.buffers@ =~= before.pool.buffers@.update(i as int, self.pool.buffers@[i as int]));
            assert forall|j: int| 0 <= j < self.capacity() implies (#[trigger] self.frame(j)).wf() by {
                assert(before.frame(j).wf());
            }
            assert forall|j: int| 0 <= j < self.capacity() implies (#[trigger] self.frame(j)).buffer.page_id == before.frame(j).buffer.page_id by {
            }
            Self::lemma_same_identities(&before, self);
        }
        true
    }

    /// Copies `bytes` into the leased page from `offset` on. Returns false,
    /// changing nothing, for a lease that this manager does not hold or bytes
    /// that run past the end of the page. The dirty flag is the caller's to set.
    pub fn write_page(&mut self, lease: &Lease, offset: usize, bytes: &[u8]) -> (r: bool)
        requires
            old(self).wf(),
        ensures
            final(self).wf(),
            r == (old(self).holds(lease) && offset + bytes@.len() <= PAGE_SIZE),
            !r ==> *final(self) == *old(self),
            r ==> {
                let i = lease.buffer_id.0 as int;
                let page = old(self).frame(i).buffer.page@;
                &&& final(self).frame_changed(old(self), i)
                &&& final(self).table() == old(self).table()
                &&& final(self).allocator() == old(self).allocator()
                &&& final(self).frame(i).usage_count == old(self).frame(i).usage_count
                &&& final(self).frame(i).pin_count == old(self).frame(i).pin_count
                &&& final(self).frame(i).buffer.page_id == old(self).frame(i).buffer.page_id
                &&& final(self).frame(i).buffer.is_dirty == old(self).frame(i).buffer.is_dirty
                &&& final(self).frame(i).buffer.page@ == page.subrange(0, offset as int) + bytes@
                    + page.subrange(offset + bytes@.len(), PAGE_SIZE as int)
            },
    {
        let i = lease.buffer_id.0;
        if i >= self.pool.buffers.len() || self.pool.buffers[i].buffer.page_id != lease.page_id
            || self.pool.buffers[i].pin_count == 0 || bytes.len() > PAGE_SIZE
            || offset > PAGE_SIZE - bytes.len() {
            return false;
        }
        let ghost before = *self;
        let ghost page = before.frame(i as int).buffer.page@;
        assert(before.frame(i as int).wf());
        let mut k: usize = 0;
        while k < bytes.len()
            invariant
                i < self.pool.buffers@.len(),
                self.pool.buffers@.len() == before.pool.buffers@.len(),
                offset + bytes@.len() <= PAGE_SIZE,
                page.len() == PAGE_SIZE,
                k <= bytes@.len(),
                self.allocator == before.allocator,
                self.page_table@ == before.page_table@,
                self.pool.next_victim_id == before.pool.next_victim_id,
                forall|j: int| 0 <= j < self.pool.buffers@.len() && j != i ==> #[trigger] self.pool.buffers@[j] == before.pool.buffers@[j],
                self.pool.buffers@[i as int].usage_count == before.pool.buffers@[i as int].usage_count,
                self.pool.buffers@[i as int].pin_count == before.pool.buffers@[i as int].pin_count,
                self.pool.buffers@[i as int].buffer.page_id == before.pool.buffers@[i as int].buffer.page_id,
                self.pool.buffers@[i as int].buffer.is_dirty == before.pool.buffers@[i as int].buffer.is_dirty,
                self.pool.buffers@[i as int].buffer.page@ == page.subrange(0, offset as int) + bytes@.subrange(0, k as int)
                    + page.subrange(offset + k, PAGE_SIZE as int),
            decreases bytes@.len() - k,
        {
            self.pool.buffers[i].buffer.page[offset + k] = bytes[k];
            k = k + 1;
            assert(self.pool.buffers@[i as int].buffer.page@ =~= page.subrange(0, offset as int) + bytes@.subrange(0, k as int)
                + page.subrange(offset + k, PAGE_SIZE as int));
        }
        proof {
            assert(bytes@.subrange(0, k as int) =~= bytes@);
            assert forall|j: int| 0 <= j < self.capacity() implies (#[trigger] self.frame(j)).wf() by {
                assert(before.frame(j).wf());
            }
            assert forall|j: int| 0 <= j < self.capacity() implies (#[trigger] self.frame(j)).buffer.page_id == before.frame(j).buffer.page_id by {
            }
            Self::lemma_same_identities(&before, self);
        }
        true
    }

    /// The buffer of frame `buffer_id`, if the frame exists.
    pub fn buffer(&self, buffer_id: BufferId) -> (r: Option<&Buffer>)
        ensures
            r is Some <==> buffer_id.0 < self.capacity(),
            r matches Some(b) ==> *b == self.frame(buffer_id.0 as int).buffer,
    {
        if buffer_id.0 < self.pool.buffers.len() {
            Some(&self.pool.buffers[buffer_id.0].buffer)
        } else {
            None
        }
    }
}

/// In every state a pool can be in, a frame with an outstanding lease has a
/// nonzero usage count: the sweep's zero-count test never selects it, and the
/// sweep only lowers the counts of unpinned frames.
pub proof fn lemma_pinned_frame_never_victim(pool: &BufferPool, i: int)
    requires
        pool.wf(),
        0 <= i < pool.len(),
        pool.pinned(i),
    ensures
        pool.frames()[i].usage_count > 0,
{
    assert(pool.frames()[i].wf());
}

/// The page table has exactly one entry per frame that holds a page, and so
/// never more entries than the pool has frames.
pub proof fn lemma_table_size(m: &BufferPoolManager)
    requires
        m.wf(),
    ensures
        m.table().len() == loaded_count(m.pool().frames()),
        m.table().len() <= m.capacity(),
{
    lemma_loaded_count_bound(m.pool().frames());
}

} // verus!
