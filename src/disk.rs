use vstd::prelude::*;

verus! {

/// Size in bytes of one page on durable storage.
pub const PAGE_SIZE: usize = 4096;

/// Identifier of a page on durable storage.
#[derive(Debug, Clone, Copy, PartialEq, Eq, Structural, Hash)]
pub struct PageId(pub u64);

/// The raw value reserved for "no page".
pub const INVALID_PAGE_ID_VALUE: u64 = 0xffff_ffff_ffff_ffff;

impl PageId {
    /// The sentinel that marks a slot holding no page.
    pub fn invalid() -> (r: PageId)
        ensures
            !r.is_valid(),
    {
        PageId(INVALID_PAGE_ID_VALUE)
    }

    pub open spec fn is_valid(self) -> bool {
        self.0 != INVALID_PAGE_ID_VALUE
    }

    pub fn to_u64(self) -> (r: u64)
        ensures
            r == self.0,
    {
        self.0
    }
}

impl Default for PageId {
    fn default() -> (r: PageId)
        ensures
            r.0 == INVALID_PAGE_ID_VALUE,
    {
        PageId::invalid()
    }
}

/// Hands out page identifiers: monotonically increasing, never the sentinel.
pub struct PageAllocator {
    next_page_id: u64,
}

impl PageAllocator {
    pub closed spec fn next(self) -> u64 {
        self.next_page_id
    }

    /// An allocator for a heap file of `file_size` bytes: identifiers resume
    /// after the last whole page of the file.
    pub fn new(file_size: u64) -> (r: PageAllocator)
        ensures
            r.next() == file_size / (PAGE_SIZE as u64),
    {
        PageAllocator { next_page_id: file_size / (PAGE_SIZE as u64) }
    }

    /// The identifier that the next allocation returns.
    pub fn next_page_id(&self) -> (r: u64)
        ensures
            r == self.next(),
    {
        self.next_page_id
    }

    /// Whether another identifier can be handed out without reaching the
    /// sentinel.
    pub fn can_allocate(&self) -> (r: bool)
        ensures
            r == (self.next() < INVALID_PAGE_ID_VALUE),
    {
        self.next_page_id < INVALID_PAGE_ID_VALUE
    }

    /// A fresh identifier; storage is not touched.
    pub fn allocate_page(&mut self) -> (r: PageId)
        requires
            old(self).next() < INVALID_PAGE_ID_VALUE,
        ensures
            r.0 == old(self).next(),
            r.is_valid(),
            final(self).next() == old(self).next() + 1,
    {
        let page_id = self.next_page_id;
        self.next_page_id = self.next_page_id + 1;
        PageId(page_id)
    }
}

} // verus!
