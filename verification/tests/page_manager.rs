use kuzu_storage::page_manager::{FreeSpaceManager, PageManager, PageRange, INVALID_PAGE_IDX};
use std::path::PathBuf;

fn make_pm() -> PageManager {
    PageManager::new(PathBuf::from("test.db"), 4096, 0, FreeSpaceManager::new())
}

#[test]
fn test_allocate_extends_file() {
    let mut pm = make_pm();
    assert_eq!(pm.total_pages(), 0);

    let p1 = pm.allocate_page();
    assert_eq!(p1, 0);
    assert_eq!(pm.total_pages(), 1);

    let p2 = pm.allocate_page();
    assert_eq!(p2, 1);
    assert_eq!(pm.total_pages(), 2);
}

#[test]
fn test_free_and_reuse() {
    let mut pm = make_pm();

    let p1 = pm.allocate_page();
    let _p2 = pm.allocate_page();
    assert_eq!(pm.total_pages(), 2);

    pm.free_page(p1);

    let p3 = pm.allocate_page();
    assert_eq!(p3, p1);
    assert_eq!(pm.total_pages(), 2);
}

#[test]
fn test_allocate_multiple_no_fsm() {
    let mut pm = make_pm();

    for i in 0..10 {
        let p = pm.allocate_page();
        assert_eq!(p, i);
    }
    assert_eq!(pm.total_pages(), 10);
}

#[test]
fn freed_ranges_are_split_on_reuse() {
    let mut pm = make_pm();
    pm.free_pages(10, 3);
    assert_eq!(pm.allocate_page(), 10);
    assert_eq!(pm.allocate_page(), 11);
    assert_eq!(pm.allocate_page(), 12);
    // The run is used up: the file grows.
    assert_eq!(pm.allocate_page(), 0);
    assert_eq!(pm.total_pages(), 1);
}

#[test]
fn invalid_and_empty_frees_are_ignored() {
    let mut pm = make_pm();
    pm.free_page(INVALID_PAGE_IDX);
    pm.free_pages(5, 0);
    pm.free_pages(INVALID_PAGE_IDX, 4);
    // Nothing was freed: the next page extends the file.
    assert_eq!(pm.allocate_page(), 0);
    assert_eq!(pm.total_pages(), 1);
}

#[test]
fn extend_file_reports_the_first_new_page() {
    let mut pm = PageManager::new(PathBuf::from("x.db"), 8192, 4, FreeSpaceManager::new());
    assert_eq!(pm.page_size(), 8192);
    assert_eq!(pm.extend_file(3), 4);
    assert_eq!(pm.total_pages(), 7);
    assert_eq!(pm.page_offset(2), 16384);
    // Extending the file does not move the next page handed out.
    assert_eq!(pm.allocate_page(), 4);
}

#[test]
fn free_space_manager_takes_from_first_fitting_run() {
    let mut fsm = FreeSpaceManager::new();
    fsm.add_free_pages(PageRange::new(0, 1));
    fsm.add_free_pages(PageRange::new(20, 5));
    assert_eq!(fsm.pop_free_pages(2), Some(PageRange::new(20, 2)));
    assert_eq!(fsm.pop_free_pages(3), Some(PageRange::new(22, 3)));
    assert_eq!(fsm.pop_free_pages(2), None);
    assert_eq!(fsm.pop_free_pages(1), Some(PageRange::new(0, 1)));
    assert_eq!(fsm.pop_free_pages(1), None);
}
