//! Page allocation for a database file: freed pages are reused first, and
//! the file grows by one page when none is free.

use std::path::PathBuf;
use vstd::prelude::*;

verus! {

/// Page index that stands for "no page".
pub const INVALID_PAGE_IDX: u64 = 0xffff_ffff_ffff_ffffu64;

/// A run of consecutive pages.
#[derive(Debug, Clone, Copy, PartialEq, Eq)]
pub struct PageRange {
    pub start_page_idx: u64,
    pub num_pages: u64,
}

impl PageRange {
    /// The `num_pages` pages from `start_page_idx` on.
    pub fn new(start_page_idx: u64, num_pages: u64) -> (r: Self)
        ensures
            r.start_page_idx == start_page_idx,
            r.num_pages == num_pages,
    {
        PageRange { start_page_idx, num_pages }
    }
}

/// The page indices of a run.
pub open spec fn range_pages(r: PageRange) -> Set<int> {
    Set::new(|p: int| r.start_page_idx <= p < r.start_page_idx + r.num_pages)
}

/// Index of the first run with at least `n` pages, if any.
pub open spec fn first_fit(runs: Seq<PageRange>, n: u64) -> Option<int> {
    if exists|i: int| 0 <= i < runs.len() && runs[i].num_pages >= n {
        let i = choose|i: int|
            0 <= i < runs.len() && runs[i].num_pages >= n && forall|j: int|
                0 <= j < i ==> runs[j].num_pages < n;
        Some(i)
    } else {
        None
    }
}

/// The free page runs of a file, in the order they were freed.
#[derive(Debug)]
pub struct FreeSpaceManager {
    free: Vec<PageRange>,
}

impl FreeSpaceManager {
    /// The free runs, oldest first.
    pub closed spec fn runs(&self) -> Seq<PageRange> {
        self.free@
    }

    /// No free pages.
    pub fn new() -> (f: Self)
        ensures
            f.runs() == Seq::<PageRange>::empty(),
    {
        FreeSpaceManager { free: Vec::new() }
    }

    /// Record `range` as free.
    pub fn add_free_pages(&mut self, range: PageRange)
        ensures
            final(self).runs() == old(self).runs().push(range),
    {
        self.free.push(range);
    }

    /// Take `n` pages from the first free run that holds at least `n`: its
    /// first `n` pages are returned and the rest of it stays free. `None`
    /// when no run is long enough.
    pub fn pop_free_pages(&mut self, n: u64) -> (r: Option<PageRange>)
        requires
            n > 0,
            forall|i: int|
                0 <= i < old(self).runs().len() ==> #[trigger] old(self).runs()[i].start_page_idx
                    + old(self).runs()[i].num_pages <= u64::MAX,
        ensures
            forall|i: int|
                0 <= i < final(self).runs().len() ==> #[trigger] final(self).runs()[i].start_page_idx
                    + final(self).runs()[i].num_pages <= u64::MAX,
            match first_fit(old(self).runs(), n) {
                None => r is None && final(self).runs() == old(self).runs(),
                Some(i) => {
                    let run = old(self).runs()[i];
                    &&& r == Some(PageRange { start_page_idx: run.start_page_idx, num_pages: n })
                    &&& final(self).runs() == if run.num_pages == n {
                        old(self).runs().remove(i)
                    } else {
                        old(self).runs().update(
                            i,
                            PageRange {
                                start_page_idx: (run.start_page_idx + n) as u64,
                                num_pages: (run.num_pages - n) as u64,
                            },
                        )
                    }
                },
            },
    {
        let mut i: usize = 0;
        while i < self.free.len()
            invariant
                i <= self.free@.len(),
                self.free@ == old(self).free@,
                forall|j: int| 0 <= j < i ==> self.free@[j].num_pages < n,
                forall|j: int|
                    0 <= j < self.free@.len() ==> #[trigger] self.free@[j].start_page_idx
                        + self.free@[j].num_pages <= u64::MAX,
            decreases self.free@.len() - i,
        {
            if self.free[i].num_pages >= n {
                let run = self.free[i];
                proof {
                    assert(run.start_page_idx + run.num_pages <= u64::MAX);
                    assert(exists|k: int| 0 <= k < self.free@.len() && self.free@[k].num_pages >= n);
                    let c = choose|k: int|
                        0 <= k < self.free@.len() && self.free@[k].num_pages >= n && forall|j: int|
                            0 <= j < k ==> self.free@[j].num_pages < n;
                    assert(c == i as int) by {
                        if c < i {
                        } else if c > i {
                        }
                    }
                }
                if run.num_pages == n {
                    self.free.remove(i);
                } else {
                    self.free.set(
                        i,
                        PageRange { start_page_idx: run.start_page_idx + n, num_pages: run.num_pages - n },
                    );
                }
                return Some(PageRange { start_page_idx: run.start_page_idx, num_pages: n });
            }
            i = i + 1;
        }
        None
    }
}

/// Allocates and frees the pages of a database file.
pub struct PageManager {
    db_path: PathBuf,
    page_size: usize,
    total_pages: u64,
    fsm: FreeSpaceManager,
    next_page: u64,
}

impl PageManager {
    /// The database file.
    pub closed spec fn spec_db_path(&self) -> PathBuf {
        self.db_path
    }

    /// Page size in bytes.
    pub closed spec fn spec_page_size(&self) -> usize {
        self.page_size
    }

    /// Pages in the file, allocated or free.
    pub closed spec fn spec_total_pages(&self) -> u64 {
        self.total_pages
    }

    /// The next page index handed out when no freed page fits.
    pub closed spec fn spec_next_page(&self) -> u64 {
        self.next_page
    }

    /// The free runs.
    pub closed spec fn free_runs(&self) -> Seq<PageRange> {
        self.fsm.runs()
    }

    /// No free run reaches beyond the largest page index.
    pub closed spec fn wf(&self) -> bool {
        forall|i: int|
            0 <= i < self.fsm.runs().len() ==> #[trigger] self.fsm.runs()[i].start_page_idx
                + self.fsm.runs()[i].num_pages <= u64::MAX
    }

    /// A manager for a file of `existing_pages` pages, with the given free
    /// space manager.
    pub fn new(db_path: PathBuf, page_size: usize, existing_pages: u64, fsm: FreeSpaceManager) -> (pm:
        Self)
        requires
            forall|i: int|
                0 <= i < fsm.runs().len() ==> #[trigger] fsm.runs()[i].start_page_idx
                    + fsm.runs()[i].num_pages <= u64::MAX,
        ensures
            pm.wf(),
            pm.spec_page_size() == page_size,
            pm.spec_db_path() == db_path,
            pm.spec_total_pages() == existing_pages,
            pm.spec_next_page() == existing_pages,
            pm.free_runs() == fsm.runs(),
    {
        PageManager { db_path, page_size, total_pages: existing_pages, fsm, next_page: existing_pages }
    }

    /// The database file.
    pub fn db_path(&self) -> (p: &PathBuf)
        ensures
            *p == self.spec_db_path(),
    {
        &self.db_path
    }

    /// Page size in bytes.
    pub fn page_size(&self) -> (n: usize)
        ensures
            n == self.spec_page_size(),
    {
        self.page_size
    }

    /// Pages in the file, allocated or free.
    pub fn total_pages(&self) -> (n: u64)
        ensures
            n == self.spec_total_pages(),
    {
        self.total_pages
    }

    /// Allocate a page: the first page of the first free run when there is
    /// one, else a new page at the end of the file.
    pub fn allocate_page(&mut self) -> (p: u64)
        requires
            old(self).wf(),
            old(self).spec_next_page() < u64::MAX,
            old(self).spec_total_pages() < u64::MAX,
        ensures
            final(self).wf(),
            final(self).spec_page_size() == old(self).spec_page_size(),
            match first_fit(old(self).free_runs(), 1) {
                Some(i) => {
                    let run = old(self).free_runs()[i];
                    &&& p == run.start_page_idx
                    &&& final(self).spec_total_pages() == old(self).spec_total_pages()
                    &&& final(self).spec_next_page() == old(self).spec_next_page()
                    &&& final(self).free_runs() == if run.num_pages == 1 {
                        old(self).free_runs().remove(i)
                    } else {
                        old(self).free_runs().update(
                            i,
                            PageRange {
                                start_page_idx: (run.start_page_idx + 1) as u64,
                                num_pages: (run.num_pages - 1) as u64,
                            },
                        )
                    }
                },
                None => {
                    &&& p == old(self).spec_next_page()
                    &&& final(self).spec_next_page() == old(self).spec_next_page() + 1
                    &&& final(self).spec_total_pages() == old(self).spec_total_pages() + 1
                    &&& final(self).free_runs() == old(self).free_runs()
                },
            },
    {
        match self.fsm.pop_free_pages(1) {
            Some(range) => range.start_page_idx,
            None => {
                let page_idx = self.next_page;
                self.next_page = self.next_page + 1;
                self.total_pages = self.total_pages + 1;
                page_idx
            },
        }
    }

    /// Return page `page_idx` to the free runs; the invalid index is ignored.
    pub fn free_page(&mut self, page_idx: u64)
        requires
            old(self).wf(),
        ensures
            final(self).wf(),
            final(self).spec_page_size() == old(self).spec_page_size(),
            final(self).spec_total_pages() == old(self).spec_total_pages(),
            final(self).spec_next_page() == old(self).spec_next_page(),
            final(self).free_runs() == if page_idx == INVALID_PAGE_IDX {
                old(self).free_runs()
            } else {
                old(self).free_runs().push(PageRange { start_page_idx: page_idx, num_pages: 1 })
            },
    {
        if page_idx == INVALID_PAGE_IDX {
            return;
        }
        self.fsm.add_free_pages(PageRange::new(page_idx, 1));
    }

    /// Return `num_pages` pages from `start_page_idx` on to the free runs;
    /// an empty range or the invalid index is ignored.
    pub fn free_pages(&mut self, start_page_idx: u64, num_pages: u64)
        requires
            old(self).wf(),
            start_page_idx + num_pages <= u64::MAX || num_pages == 0 || start_page_idx
                == INVALID_PAGE_IDX,
        ensures
            final(self).wf(),
            final(self).spec_page_size() == old(self).spec_page_size(),
            final(self).spec_total_pages() == old(self).spec_total_pages(),
            final(self).spec_next_page() == old(self).spec_next_page(),
            final(self).free_runs() == if num_pages == 0 || start_page_idx == INVALID_PAGE_IDX {
                old(self).free_runs()
            } else {
                old(self).free_runs().push(
                    PageRange { start_page_idx: start_page_idx, num_pages: num_pages },
                )
            },
    {
        if num_pages == 0 || start_page_idx == INVALID_PAGE_IDX {
            return;
        }
        self.fsm.add_free_pages(PageRange::new(start_page_idx, num_pages));
    }

    /// The free space manager.
    pub fn fsm(&self) -> (f: &FreeSpaceManager)
        ensures
            f.runs() == self.free_runs(),
    {
        &self.fsm
    }

    /// The byte offset of page `page_idx` in the file.
    pub fn page_offset(&self, page_idx: u64) -> (off: u64)
        requires
            page_idx * self.spec_page_size() <= u64::MAX,
        ensures
            off == page_idx * self.spec_page_size(),
    {
        page_idx * (self.page_size as u64)
    }

    /// Account for `num_pages` pages appended to the file and return the
    /// index of the first of them (the file itself is written by the caller).
    pub fn extend_file(&mut self, num_pages: u64) -> (start: u64)
        requires
            old(self).spec_total_pages() + num_pages <= u64::MAX,
        ensures
            start == old(self).spec_total_pages(),
            final(self).spec_total_pages() == old(self).spec_total_pages() + num_pages,
            final(self).spec_next_page() == old(self).spec_next_page(),
            final(self).free_runs() == old(self).free_runs(),
            final(self).spec_page_size() == old(self).spec_page_size(),
            final(self).wf() == old(self).wf(),
    {
        let start_page = self.total_pages;
        self.total_pages = self.total_pages + num_pages;
        start_page
    }
}

proof fn lemma_first_fit_exists(runs: Seq<PageRange>, n: u64, k: int)
    requires
        0 <= k < runs.len(),
        runs[k].num_pages >= n,
    ensures
        exists|i: int|
            0 <= i <= k && runs[i].num_pages >= n && forall|j: int| 0 <= j < i ==> runs[j].num_pages < n,
    decreases k,
{
    if exists|j: int| 0 <= j < k && runs[j].num_pages >= n {
        let j = choose|j: int| 0 <= j < k && runs[j].num_pages >= n;
        lemma_first_fit_exists(runs, n, j);
    } else {
        assert(0 <= k <= k && runs[k].num_pages >= n && forall|j: int| 0 <= j < k ==> runs[j].num_pages < n);
    }
}

/// Freed pages are handed out again before the file grows: once a run of
/// `n` pages is freed, an allocation of `n` pages finds a free run (the
/// first one that is large enough) instead of extending the file.
pub proof fn law_free_then_reuse(runs: Seq<PageRange>, start: u64, n: u64)
    ensures
        ({
            let r = runs.push(PageRange { start_page_idx: start, num_pages: n });
            match first_fit(r, n) {
                Some(i) => 0 <= i < r.len() && r[i].num_pages >= n && forall|j: int|
                    0 <= j < i ==> r[j].num_pages < n,
                None => false,
            }
        }),
{
    let r = runs.push(PageRange { start_page_idx: start, num_pages: n });
    assert(r[runs.len() as int].num_pages >= n);
    lemma_first_fit_exists(r, n, runs.len() as int);
}

} // verus!
