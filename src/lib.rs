//! A bounded in-memory page cache with clock-sweep eviction, explicit pin
//! counts and a page table kept consistent with the cached frames.
//!
//! The library decides; the caller performs the storage work. A miss in
//! `BufferPoolManager::fetch_page` or a call of `create_page` hands back a
//! `Victim`: the caller writes the victim's old content back when it asks for
//! it, reports that with `mark_clean`, reads the requested page, and installs
//! it with `install_page` (or `install_new_page` for a fresh page).
pub mod disk;
pub mod buffer;
