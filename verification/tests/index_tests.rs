use page_alloc::bitmap::BitmapPage;
use page_alloc::bits::BITMAP_PAGE_COUNT;
use page_alloc::filter::{AcceptAbove, AcceptAll, RejectAll};
use page_alloc::index::IndexPage;
use page_alloc::store::PageStore;

fn temporary_store() -> PageStore {
    PageStore::new(3 * 4080 * 8 * 4096 + 2)
}

#[test]
fn index_grow_from_first_bitmap() {
    let page = BitmapPage::new(2);
    let index = IndexPage::grow(page);

    assert_eq!(BITMAP_PAGE_COUNT as u32 + 3, index.page_id());
    assert_eq!(2, index.first_managed_page_id());
    assert_eq!(2, index.current_bitmap_count());
    assert_eq!(1, index.current_bitmap_idx());
    assert_eq!(0, index.first_free_bitmap_idx());
    assert_eq!(2, index.dirty_bitmap_count());
}

#[test]
fn tests_grow_from_first_bitmap() {
    let page = BitmapPage::new(2);
    let index = IndexPage::grow(page);

    assert_eq!(BITMAP_PAGE_COUNT as u32 + 3, index.page_id());
    assert_eq!(2, index.first_managed_page_id());
    assert_eq!(2, index.current_bitmap_count());
    assert_eq!(1, index.current_bitmap_idx());
    assert_eq!(0, index.first_free_bitmap_idx());
    assert_eq!(2, index.dirty_bitmap_count());
}

#[test]
fn cannot_load_index() {
    let mut store = temporary_store();

    let page = BitmapPage::new(2);
    let mut index = IndexPage::grow(page);

    index.persist(&mut store).unwrap();

    let index_memory = store.read_page(1 + BITMAP_PAGE_COUNT as usize).unwrap();

    let result = IndexPage::load(&index_memory, &store, &RejectAll);
    assert!(result.is_none());
}

#[test]
fn persist_and_load() {
    let mut store = temporary_store();

    let page = BitmapPage::new(2);
    let mut index = IndexPage::grow(page);

    index.persist(&mut store).unwrap();

    let index_memory = store.read_page(3 + BITMAP_PAGE_COUNT as usize).unwrap();

    let loaded = IndexPage::load(&index_memory, &store, &AcceptAll).unwrap();

    assert_eq!(2, loaded.first_managed_page_id());
    assert_eq!(2, loaded.current_bitmap_count());
    assert_eq!(0, loaded.current_bitmap_idx());
    assert_eq!(0, loaded.first_free_bitmap_idx());
    assert_eq!(2, loaded.dirty_bitmap_count());
}

#[test]
fn grow_on_load() {
    let mut store = temporary_store();

    let page = BitmapPage::new(2);
    let mut index = IndexPage::grow(page);

    index.persist(&mut store).unwrap();

    let index_memory = store.read_page(3 + BITMAP_PAGE_COUNT as usize).unwrap();

    let above = AcceptAbove::new(2 * BITMAP_PAGE_COUNT as u32 + 2);
    let loaded = IndexPage::load(&index_memory, &store, &above).unwrap();

    assert_eq!(2, loaded.first_managed_page_id());
    assert_eq!(3, loaded.current_bitmap_count());
    assert_eq!(2, loaded.current_bitmap_idx());
    assert_eq!(0, loaded.first_free_bitmap_idx());
    assert_eq!(2, loaded.dirty_bitmap_count());
}

#[test]
fn allocate_and_free() {
    let store = temporary_store();

    let page = BitmapPage::new(2);
    let mut index = IndexPage::grow(page);

    let all = AcceptAll;
    let page = index.allocate(&store, &all).unwrap();

    let freed = index.free(page, &store, &all).unwrap();

    assert!(freed);
}

#[test]
fn free_on_full_bitmap() {
    let store = temporary_store();

    let mut page = BitmapPage::new(2);
    let all = AcceptAll;
    for _ in 1..BITMAP_PAGE_COUNT {
        page.allocate(&all).unwrap();
    }

    let mut index = IndexPage::grow(page);
    assert_eq!(1, index.first_free_bitmap_idx());

    let freed = index.free(3, &store, &all).unwrap();
    assert!(freed);
}

#[test]
fn allocate_two_full_bitmaps() {
    let store = temporary_store();

    let mut page = BitmapPage::new(2);
    let all = AcceptAll;
    for _ in 1..BITMAP_PAGE_COUNT {
        page.allocate(&all).unwrap();
    }

    let mut index = IndexPage::grow(page);
    for _ in 2..BITMAP_PAGE_COUNT {
        index.allocate(&store, &all).unwrap();
    }
    assert_eq!(2, index.first_free_bitmap_idx());
    assert_eq!(1, index.current_bitmap_idx());

    let freed = index.free(3 + BITMAP_PAGE_COUNT as u32, &store, &all).unwrap();
    assert!(freed);

    assert_eq!(1, index.first_free_bitmap_idx());
    assert_eq!(1, index.current_bitmap_idx());

    let page = index.allocate(&store, &all).unwrap();
    assert_ne!(3 + BITMAP_PAGE_COUNT as u32, page);
    assert_eq!(2, index.current_bitmap_idx());
}

#[test]
fn free_of_unmanaged_page_id_reports_false() {
    let store = temporary_store();

    let page = BitmapPage::new(2);
    let mut index = IndexPage::grow(page);

    let all = AcceptAll;
    // Below the managed space.
    assert_eq!(Some(false), index.free(1, &store, &all));
    // Beyond the last referenced bitmap.
    assert_eq!(Some(false), index.free(3 * BITMAP_PAGE_COUNT as u32, &store, &all));
}

#[test]
fn load_refuses_corrupt_index_header() {
    let mut store = temporary_store();

    let page = BitmapPage::new(2);
    let mut index = IndexPage::grow(page);
    index.persist(&mut store).unwrap();

    let own = 3 + BITMAP_PAGE_COUNT as usize;
    // Claim a first free slot that contradicts the slot table.
    store.write_page_range(own, 14, &vec![0x01u8, 0x00u8]).unwrap();

    let index_memory = store.read_page(own).unwrap();
    assert!(IndexPage::load(&index_memory, &store, &AcceptAll).is_none());
}
