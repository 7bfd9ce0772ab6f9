use page_alloc::bitmap::{BitmapHeader, BitmapPage};
use page_alloc::bits::BITMAP_PAGE_COUNT;
use page_alloc::filter::{AcceptAbove, AcceptAll, PageFilter, RejectAll, RejectIds};
use page_alloc::index::IndexPage;
use page_alloc::store::PageStore;

#[test]
fn filters_decide_as_documented() {
    let all = AcceptAll;
    let none = RejectAll;
    let some = RejectIds::new(vec![4, 5, 7, 16]);
    let above = AcceptAbove::new(10);

    assert!(all.check(0) && all.check(4096));
    assert!(!none.check(0) && !none.check(4096));
    assert!(some.check(3) && !some.check(4) && !some.check(16) && some.check(17));
    assert!(!above.check(10) && above.check(11));
}

#[test]
fn index_load_refused_by_blocking_filter() {
    let mut store = PageStore::new(3 * 4080 * 8 * 4096 + 2);

    let page = BitmapPage::new(2);
    let mut index = IndexPage::grow(page);
    index.persist(&mut store).unwrap();

    let own = 3 + BITMAP_PAGE_COUNT as usize;
    let index_memory = store.read_page(own).unwrap();
    assert_eq!(2, index_memory.page_type());

    assert!(IndexPage::load(&index_memory, &store, &RejectAll).is_none());
}

#[test]
fn free_below_cursor_does_not_rewind_allocation() {
    // The floor drops to the freed index, but the search cursor keeps
    // moving forward within the sweep.
    let mut page = BitmapPage::new(2);
    let all = AcceptAll;

    for expected in 3..40u32 {
        assert_eq!(Some(expected), page.allocate(&all));
    }
    assert!(page.free(10));
    assert!(page.free(25));
    // The floor dropped to the least freed index (id 10 is index 8) ...
    assert_eq!(8, page.first_free_page_index());
    // ... but the next allocation continues past the last one.
    assert_eq!(Some(40), page.allocate(&all));
}

#[test]
fn freed_page_is_allocatable_after_reload() {
    let mut store = PageStore::new(163840);
    let mut page = BitmapPage::new(2);
    let all = AcceptAll;
    assert_eq!(Some(3), page.allocate(&all));
    assert_eq!(Some(4), page.allocate(&all));
    assert!(page.free(3));
    page.persist(&mut store).unwrap();

    // On reload the search restarts at the persisted floor, so the bitmap
    // relocates onto the freed id, and allocation resumes behind it.
    let memory = store.read_page(2).unwrap();
    let mut reloaded = BitmapPage::load(&memory, &all).unwrap();
    assert_eq!(3, reloaded.page_id());
    assert_eq!(Some(5), reloaded.allocate(&all));
}

#[test]
fn bitmap_contains_tests_the_managed_range() {
    let page = BitmapPage::new(2);
    assert!(!page.contains(1));
    assert!(page.contains(2));
    assert!(page.contains(1 + BITMAP_PAGE_COUNT as u32));
    assert!(!page.contains(2 + BITMAP_PAGE_COUNT as u32));
}

#[test]
fn bitmap_free_out_of_range_reports_false() {
    let mut page = BitmapPage::new(2);
    assert!(!page.free(0));
    assert!(!page.free(2 + BITMAP_PAGE_COUNT as u32));
    assert_eq!(BITMAP_PAGE_COUNT - 1, page.free_page_count());
}
