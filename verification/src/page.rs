//! Page and frame types used by the buffer pool.

use std::path::PathBuf;
use vstd::prelude::*;

verus! {

/// Default page size: 8KB.
pub const DEFAULT_PAGE_SIZE: usize = 8192;

/// A database page number (logical identifier).
pub type PageNum = u64;

/// Opaque handle on a filesystem path.
#[verifier::external_type_specification]
#[verifier::external_body]
pub struct ExPathBuf(PathBuf);

/// `PathBuf::clone` (std): copies the path. Nothing is stated of the copy,
/// which Verus sees as an opaque value.
pub assume_specification[ <PathBuf as Clone>::clone ](p: &PathBuf) -> PathBuf;

/// A frame in the buffer pool holding a cached page.
#[derive(Debug, Clone)]
pub struct Frame {
    /// The page number this frame holds.
    pub page_num: PageNum,
    /// Reference count (number of pins).
    pub pin_count: u32,
    /// Whether the page has been modified since loading.
    pub is_dirty: bool,
    /// Clock hand flag for Clock eviction policy.
    pub clock_ref: bool,
    /// The actual page data.
    pub data: Vec<u8>,
}

impl Frame {
    /// A fresh, unpinned, clean frame holding `data` for `page_num`.
    pub fn new(page_num: PageNum, data: Vec<u8>) -> (f: Self)
        ensures
            f.page_num == page_num,
            f.pin_count == 0,
            !f.is_dirty,
            f.clock_ref,
            f.data@ == data@,
    {
        Frame { page_num, pin_count: 0, is_dirty: false, clock_ref: true, data }
    }

    /// Pin the frame (increment reference count).
    pub fn pin(&mut self)
        requires
            old(self).pin_count < u32::MAX,
        ensures
            *final(self) == (Frame { pin_count: (old(self).pin_count + 1) as u32, ..*old(self) }),
    {
        self.pin_count = self.pin_count + 1;
    }

    /// Unpin the frame (decrement reference count, never below zero).
    pub fn unpin(&mut self)
        ensures
            *final(self) == (Frame {
                pin_count: if old(self).pin_count > 0 { (old(self).pin_count - 1) as u32 } else { 0 },
                ..*old(self)
            }),
    {
        if self.pin_count > 0 {
            self.pin_count = self.pin_count - 1;
        }
    }

    /// Whether the frame is pinned (in use).
    pub fn is_pinned(&self) -> (r: bool)
        ensures
            r == (self.pin_count > 0),
    {
        self.pin_count > 0
    }

    /// Mark the frame as modified.
    pub fn mark_dirty(&mut self)
        ensures
            *final(self) == (Frame { is_dirty: true, ..*old(self) }),
    {
        self.is_dirty = true;
    }
}

/// A file handle mapping logical page numbers to file offsets.
#[derive(Debug, Clone)]
pub struct FileHandle {
    /// Path to the database file.
    pub path: PathBuf,
    /// Number of pages currently in the file.
    pub num_pages: u64,
    /// Page size in bytes.
    pub page_size: usize,
}

impl FileHandle {
    /// A handle on `path` with pages of `page_size` bytes. `existing_len` is
    /// the length of the file when it exists (`None` when it does not); the
    /// handle counts its whole pages.
    pub fn new(path: PathBuf, page_size: usize, existing_len: Option<u64>) -> (fh: Self)
        requires
            existing_len is Some ==> page_size > 0,
        ensures
            fh.path == path,
            fh.page_size == page_size,
            fh.num_pages == match existing_len {
                Some(len) => len / (page_size as u64),
                None => 0,
            },
    {
        let num_pages = match existing_len {
            Some(len) => len / (page_size as u64),
            None => 0,
        };
        FileHandle { path, num_pages, page_size }
    }

    /// The byte offset of page `page_num` in the file.
    pub fn page_offset(&self, page_num: PageNum) -> (off: u64)
        requires
            page_num * self.page_size <= u64::MAX,
        ensures
            off == page_num * self.page_size,
    {
        page_num * (self.page_size as u64)
    }

    /// Allocate a new page at the end of the file and return its number.
    pub fn allocate_page(&mut self) -> (p: PageNum)
        requires
            old(self).num_pages < u64::MAX,
        ensures
            p == old(self).num_pages,
            *final(self) == (FileHandle { num_pages: (old(self).num_pages + 1) as u64, ..*old(self) }),
    {
        let page_num = self.num_pages;
        self.num_pages = self.num_pages + 1;
        page_num
    }
}

} // verus!
