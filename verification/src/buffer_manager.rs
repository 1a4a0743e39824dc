//! The page table of the buffer pool: which pages are pinned in memory and
//! what they hold. Accounting the memory they take is the caller's part:
//! `pin_page` takes one page's worth, and `unpin_page` reports whether one
//! page's worth was given back.

use std::collections::HashMap;
use vstd::prelude::*;

verus! {

/// Bytes in a page of the pool.
pub const POOL_PAGE_SIZE: usize = 8192;

/// Pages the pool plans for when memory is unlimited.
pub const UNLIMITED_POOL_PAGES: usize = 10000;

/// A page pinned in the pool.
#[derive(Debug, Clone)]
pub struct PageHandle {
    pub page_id: u64,
    pub data: Vec<u8>,
}

/// The pinned pages, by page id.
pub struct BufferManager {
    page_size: usize,
    pages: HashMap<u64, PageHandle>,
    max_pages: usize,
}

/// The number of pages `max_memory` bytes plan for (unlimited memory,
/// `u64::MAX`, plans for `UNLIMITED_POOL_PAGES`).
pub open spec fn planned_pages(max_memory: u64) -> usize {
    if max_memory == u64::MAX {
        UNLIMITED_POOL_PAGES
    } else {
        ((max_memory as usize) / POOL_PAGE_SIZE) as usize
    }
}

impl BufferManager {
    /// The contents of the pinned pages, by page id.
    pub closed spec fn pinned(&self) -> Map<u64, Seq<u8>> {
        Map::new(|k: u64| self.pages@.contains_key(k), |k: u64| self.pages@[k].data@)
    }

    /// Every page is filed under its own id.
    pub closed spec fn wf(&self) -> bool {
        &&& forall|k: u64| #[trigger] self.pages@.contains_key(k) ==> self.pages@[k].page_id == k
        &&& self.page_size == POOL_PAGE_SIZE
    }

    /// The number of pages planned for.
    pub closed spec fn planned(&self) -> usize {
        self.max_pages
    }

    /// An empty pool for `max_memory` bytes.
    pub fn new(max_memory: u64) -> (b: Self)
        ensures
            b.wf(),
            b.pinned() == Map::<u64, Seq<u8>>::empty(),
            b.planned() == planned_pages(max_memory),
    {
        let page_size = POOL_PAGE_SIZE;
        let max_pages = if max_memory == u64::MAX {
            UNLIMITED_POOL_PAGES
        } else {
            (max_memory as usize) / page_size
        };
        let b = BufferManager { page_size, pages: HashMap::new(), max_pages };
        proof {
            assert(b.pinned() =~= Map::<u64, Seq<u8>>::empty());
        }
        b
    }

    /// Bytes in a page.
    pub fn page_size(&self) -> (n: usize)
        requires
            self.wf(),
        ensures
            n == POOL_PAGE_SIZE,
    {
        self.page_size
    }

    /// Number of pinned pages.
    pub fn num_pages(&self) -> (n: usize)
        ensures
            n == self.pinned().dom().len(),
    {
        proof {
            assert(self.pinned().dom() =~= self.pages@.dom());
        }
        self.pages.len()
    }

    /// The pinned page `page_id`, if it is pinned.
    pub fn get_page(&self, page_id: u64) -> (r: Option<&PageHandle>)
        requires
            self.wf(),
        ensures
            match r {
                Some(h) => self.pinned().contains_key(page_id) && h.page_id == page_id && h.data@
                    == self.pinned()[page_id],
                None => !self.pinned().contains_key(page_id),
            },
    {
        self.pages.get(&page_id)
    }

    /// Pin `data` as page `page_id`, replacing what was pinned under it.
    pub fn pin_page(&mut self, page_id: u64, data: Vec<u8>)
        requires
            old(self).wf(),
        ensures
            final(self).wf(),
            final(self).pinned() == old(self).pinned().insert(page_id, data@),
            final(self).planned() == old(self).planned(),
    {
        let ghost d = data@;
        let handle = PageHandle { page_id, data };
        self.pages.insert(page_id, handle);
        proof {
            assert(self.pinned() =~= old(self).pinned().insert(page_id, d));
        }
    }

    /// Unpin page `page_id`; whether it was pinned.
    pub fn unpin_page(&mut self, page_id: u64) -> (was_pinned: bool)
        requires
            old(self).wf(),
        ensures
            final(self).wf(),
            was_pinned == old(self).pinned().contains_key(page_id),
            final(self).pinned() == old(self).pinned().remove(page_id),
            final(self).planned() == old(self).planned(),
    {
        let removed = self.pages.remove(&page_id);
        proof {
            assert(self.pinned() =~= old(self).pinned().remove(page_id));
        }
        removed.is_some()
    }
}

} // verus!
