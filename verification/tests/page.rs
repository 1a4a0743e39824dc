use kuzu_storage::page::{FileHandle, Frame, DEFAULT_PAGE_SIZE};
use std::path::PathBuf;

#[test]
fn test_frame_pin_unpin() {
    let mut frame = Frame::new(0, vec![0u8; DEFAULT_PAGE_SIZE]);
    assert!(!frame.is_pinned());
    assert_eq!(frame.pin_count, 0);

    frame.pin();
    assert!(frame.is_pinned());
    assert_eq!(frame.pin_count, 1);

    frame.unpin();
    assert!(!frame.is_pinned());
}

#[test]
fn test_frame_dirty() {
    let mut frame = Frame::new(1, vec![0u8; DEFAULT_PAGE_SIZE]);
    assert!(!frame.is_dirty);
    frame.mark_dirty();
    assert!(frame.is_dirty);
}

#[test]
fn test_page_offset() {
    // "test.db" does not exist: the handle starts with no pages.
    let fh = FileHandle::new(PathBuf::from("test.db"), DEFAULT_PAGE_SIZE, None);
    assert_eq!(fh.page_offset(0), 0);
    assert_eq!(fh.page_offset(1), 8192);
    assert_eq!(fh.page_offset(5), 40960);
}

#[test]
fn unpin_never_goes_below_zero() {
    let mut frame = Frame::new(3, vec![]);
    frame.unpin();
    assert_eq!(frame.pin_count, 0);
    frame.pin();
    frame.pin();
    frame.unpin();
    assert_eq!(frame.pin_count, 1);
    assert!(frame.clock_ref);
    assert_eq!(frame.page_num, 3);
}

#[test]
fn file_handle_counts_whole_pages_and_allocates_at_the_end() {
    let mut fh = FileHandle::new(PathBuf::from("db"), 4096, Some(3 * 4096 + 100));
    assert_eq!(fh.num_pages, 3);
    assert_eq!(fh.allocate_page(), 3);
    assert_eq!(fh.allocate_page(), 4);
    assert_eq!(fh.num_pages, 5);
    let empty = FileHandle::new(PathBuf::from("db"), 4096, None);
    assert_eq!(empty.num_pages, 0);
}
