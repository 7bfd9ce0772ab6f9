use page_alloc::bitmap::{BitmapHeader, BitmapPage, BITMAP_PAGE_TYPE};
use page_alloc::bits::{BITMAP_PAGE_COUNT, PAGE_SIZE};
use page_alloc::filter::{AcceptAll, RejectAll, RejectIds};
use page_alloc::store::PageStore;

const TESTDB_MAX_SIZE: usize = 163840;

#[test]
fn bitmap_new_allocator_for_new_database() {
    let page = BitmapPage::new(2);

    assert_eq!(2, page.page_id());
    assert_eq!(2, page.first_managed_page_id());
    assert_eq!(1, page.first_free_page_index());
    assert_eq!(BITMAP_PAGE_COUNT - 1, page.free_page_count());
}

#[test]
fn bitmap_allocator_allocates_pages_monotonically_increasing() {
    let mut page = BitmapPage::new(2);
    let f = AcceptAll;

    assert_eq!(Some(3), page.allocate(&f));
    assert_eq!(Some(4), page.allocate(&f));
    assert_eq!(true, page.free(3));
    assert_eq!(Some(5), page.allocate(&f));
}

#[test]
fn bitmap_allocator_allocates_pages_monotonically_increasing_and_skips_used_pages() {
    let mut page = BitmapPage::new(2);

    let f = RejectIds::new(vec![4, 5, 7, 16]);

    assert_eq!(Some(3), page.allocate(&f));
    assert_eq!(Some(6), page.allocate(&f));
    assert_eq!(Some(8), page.allocate(&f));
    assert_eq!(Some(9), page.allocate(&f));
    assert_eq!(Some(10), page.allocate(&f));
    assert_eq!(Some(11), page.allocate(&f));
    assert_eq!(Some(12), page.allocate(&f));
    assert_eq!(Some(13), page.allocate(&f));
    assert_eq!(Some(14), page.allocate(&f));
    assert_eq!(Some(15), page.allocate(&f));
    assert_eq!(Some(17), page.allocate(&f));
    assert_eq!(Some(18), page.allocate(&f));
}

#[test]
fn bitmap_persist_writes_correct_index() {
    let mut store = PageStore::new(TESTDB_MAX_SIZE);
    let mut page = BitmapPage::new(2);

    page.persist(&mut store).unwrap();

    let memory_page = store.read_page(2).unwrap();
    assert_eq!(2, memory_page.page_id());
    assert_eq!(BITMAP_PAGE_TYPE, memory_page.page_type());
    assert_eq!(2, memory_page.get_u32(8)); // first_managed_page_id
    assert_eq!(BITMAP_PAGE_COUNT - 1, memory_page.get_u16(12)); // free page count
    assert_eq!(1, memory_page.get_u16(14)); // free page index
    assert_eq!(0x01, memory_page.content()[16]);
}

#[test]
fn bitmap_cannot_load_full_page() {
    let mut store = PageStore::new(TESTDB_MAX_SIZE);

    let mut page = BitmapPage::new(2);
    let f = AcceptAll;
    for _ in 1..BITMAP_PAGE_COUNT {
        page.allocate(&f).unwrap();
    }
    assert_eq!(0, page.free_page_count());
    page.persist(&mut store).unwrap();

    let memory_page = store.read_page(2).unwrap();
    let loaded = BitmapPage::load(&memory_page, &f);
    assert!(loaded.is_none());
}

#[test]
fn bitmap_cannot_load_almost_full_page() {
    let mut store = PageStore::new(TESTDB_MAX_SIZE);

    let mut page = BitmapPage::new(2);
    let f = AcceptAll;
    for _ in 2..BITMAP_PAGE_COUNT {
        page.allocate(&f).unwrap();
    }
    assert_eq!(1, page.free_page_count());
    page.persist(&mut store).unwrap();

    let memory_page = store.read_page(2).unwrap();
    let loaded = BitmapPage::load(&memory_page, &f);
    assert!(loaded.is_none());
}

#[test]
fn bitmap_cannot_load_empty_page_if_still_in_use() {
    let mut store = PageStore::new(TESTDB_MAX_SIZE);

    let mut page = BitmapPage::new(2);
    page.persist(&mut store).unwrap();

    let memory_page = store.read_page(2).unwrap();
    let loaded = BitmapPage::load(&memory_page, &RejectAll);
    assert!(loaded.is_none());
}

#[test]
fn bitmap_load_and_persist_viable_index() {
    let mut store = PageStore::new(TESTDB_MAX_SIZE);
    let mut page = BitmapPage::new(2);
    let all = AcceptAll;
    page.allocate(&all);
    page.allocate(&all);
    page.free(3);

    page.persist(&mut store).unwrap();

    let memory_page = store.read_page(2).unwrap();

    let not_three = RejectIds::new(vec![3]);
    let mut new_index = BitmapPage::load(&memory_page, &not_three).unwrap();
    new_index.allocate(&not_three);
    new_index.persist(&mut store).unwrap();

    let new_memory_page = store.read_page(5).unwrap();
    assert_eq!(5, new_memory_page.page_id());
    assert_eq!(BITMAP_PAGE_TYPE, new_memory_page.page_type());
    assert_eq!(2, new_memory_page.get_u32(8)); // first_managed_page_id
    assert_eq!(BITMAP_PAGE_COUNT - 3, new_memory_page.get_u16(12)); // free page count
    assert_eq!(0, new_memory_page.get_u16(14)); // free page index
    assert_eq!(0x1C, new_memory_page.content()[16]);
}

#[test]
fn tests_new_allocator_for_new_database() {
    let page = BitmapPage::new(2);

    assert_eq!(2, page.page_id());
    assert_eq!(2, page.first_managed_page_id());
    assert_eq!(1, page.first_free_page_index());
    assert_eq!(BITMAP_PAGE_COUNT - 1, page.free_page_count());
}

#[test]
fn tests_allocator_allocates_pages_monotonically_increasing() {
    let mut page = BitmapPage::new(2);
    let f = AcceptAll;

    assert_eq!(Some(3), page.allocate(&f));
    assert_eq!(Some(4), page.allocate(&f));
    assert_eq!(true, page.free(3));
    assert_eq!(Some(5), page.allocate(&f));
}

#[test]
fn tests_allocator_allocates_pages_monotonically_increasing_and_skips_used_pages() {
    let mut page = BitmapPage::new(2);

    let f = RejectIds::new(vec![4, 5, 7, 16]);

    assert_eq!(Some(3), page.allocate(&f));
    assert_eq!(Some(6), page.allocate(&f));
    assert_eq!(Some(8), page.allocate(&f));
    assert_eq!(Some(9), page.allocate(&f));
    assert_eq!(Some(10), page.allocate(&f));
    assert_eq!(Some(11), page.allocate(&f));
    assert_eq!(Some(12), page.allocate(&f));
    assert_eq!(Some(13), page.allocate(&f));
    assert_eq!(Some(14), page.allocate(&f));
    assert_eq!(Some(15), page.allocate(&f));
    assert_eq!(Some(17), page.allocate(&f));
    assert_eq!(Some(18), page.allocate(&f));
}

#[test]
fn cannot_allocate_on_full_page() {
    let mut page = BitmapPage::new(2);
    let f = AcceptAll;
    for _ in 1..BITMAP_PAGE_COUNT {
        page.allocate(&f).unwrap();
    }
    assert_eq!(0, page.free_page_count());

    let maybe_page = page.allocate(&f);
    assert_eq!(None, maybe_page);
}

#[test]
fn tests_persist_writes_correct_index() {
    let mut store = PageStore::new(TESTDB_MAX_SIZE);
    let mut page = BitmapPage::new(2);

    page.persist(&mut store).unwrap();

    let memory_page = store.read_page(2).unwrap();
    assert_eq!(2, memory_page.page_id());
    assert_eq!(BITMAP_PAGE_TYPE, memory_page.page_type());
    assert_eq!(2, memory_page.get_u32(8)); // first_managed_page_id
    assert_eq!(BITMAP_PAGE_COUNT - 1, memory_page.get_u16(12)); // free page count
    assert_eq!(1, memory_page.get_u16(14)); // free page index
    assert_eq!(0x01, memory_page.content()[16]);
}

#[test]
fn tests_cannot_load_full_page() {
    let mut store = PageStore::new(TESTDB_MAX_SIZE);

    let mut page = BitmapPage::new(2);
    let f = AcceptAll;
    for _ in 1..BITMAP_PAGE_COUNT {
        page.allocate(&f).unwrap();
    }
    page.persist(&mut store).unwrap();

    let memory_page = store.read_page(2).unwrap();
    let loaded = BitmapPage::load(&memory_page, &f);
    assert!(loaded.is_none());
}

#[test]
fn tests_cannot_load_almost_full_page() {
    let mut store = PageStore::new(TESTDB_MAX_SIZE);

    let mut page = BitmapPage::new(2);
    let f = AcceptAll;
    for _ in 2..BITMAP_PAGE_COUNT {
        page.allocate(&f).unwrap();
    }
    page.persist(&mut store).unwrap();

    let memory_page = store.read_page(2).unwrap();
    let loaded = BitmapPage::load(&memory_page, &f);
    assert!(loaded.is_none());
}

#[test]
fn tests_cannot_load_empty_page_if_still_in_use() {
    let mut store = PageStore::new(TESTDB_MAX_SIZE);

    let mut page = BitmapPage::new(2);
    page.persist(&mut store).unwrap();

    let memory_page = store.read_page(2).unwrap();
    let loaded = BitmapPage::load(&memory_page, &RejectAll);
    assert!(loaded.is_none());
}

#[test]
fn tests_load_and_persist_viable_index() {
    let mut store = PageStore::new(TESTDB_MAX_SIZE);
    let mut page = BitmapPage::new(2);
    let all = AcceptAll;
    page.allocate(&all);
    page.allocate(&all);
    page.free(3);

    page.persist(&mut store).unwrap();

    let memory_page = store.read_page(2).unwrap();

    let not_three = RejectIds::new(vec![3]);
    let mut new_index = BitmapPage::load(&memory_page, &not_three).unwrap();
    new_index.allocate(&not_three);
    new_index.persist(&mut store).unwrap();

    let new_memory_page = store.read_page(5).unwrap();
    assert_eq!(5, new_memory_page.page_id());
    assert_eq!(BITMAP_PAGE_TYPE, new_memory_page.page_type());
    assert_eq!(2, new_memory_page.get_u32(8)); // first_managed_page_id
    assert_eq!(BITMAP_PAGE_COUNT - 3, new_memory_page.get_u16(12)); // free page count
    assert_eq!(0, new_memory_page.get_u16(14)); // free page index
    assert_eq!(0x1C, new_memory_page.content()[16]);
}

#[test]
fn load_into_page_and_persist_viable_index() {
    let mut store = PageStore::new(TESTDB_MAX_SIZE);
    let mut page = BitmapPage::new(2);
    let all = AcceptAll;
    page.allocate(&all);
    page.allocate(&all);
    page.free(3);

    page.persist(&mut store).unwrap();

    let memory_page = store.read_page(2).unwrap();

    let mut new_index = BitmapPage::load_into(&memory_page, 0).unwrap();
    let not_three = RejectIds::new(vec![3]);
    new_index.allocate(&not_three);
    new_index.persist(&mut store).unwrap();

    let new_memory_page = store.read_page(0).unwrap();
    assert_eq!(0, new_memory_page.page_id());
    assert_eq!(BITMAP_PAGE_TYPE, new_memory_page.page_type());
    assert_eq!(2, new_memory_page.get_u32(8)); // first_managed_page_id
    assert_eq!(BITMAP_PAGE_COUNT - 2, new_memory_page.get_u16(12)); // free page count
    assert_eq!(0, new_memory_page.get_u16(14)); // free page index
    assert_eq!(0x0C, new_memory_page.content()[16]);
}

#[test]
fn load_into_fresh_bitmap_frees_old_location() {
    let mut store = PageStore::new(TESTDB_MAX_SIZE);
    let mut page = BitmapPage::new(2);
    page.persist(&mut store).unwrap();

    let memory_page = store.read_page(2).unwrap();
    let bitmap = BitmapPage::load_into(&memory_page, 0).unwrap();

    assert_eq!(0, bitmap.page_id());
    assert_eq!(BITMAP_PAGE_COUNT, bitmap.free_page_count());
    assert_eq!(0, bitmap.first_free_page_index());
    let mut check = bitmap;
    check.persist(&mut store).unwrap();
    let persisted = store.read_page(0).unwrap();
    assert_eq!(0, persisted.content()[16]);
}

#[test]
fn bitmap_page_header() {
    let page = BitmapPage::new(2);

    let header: &dyn BitmapHeader = &page;

    assert_eq!(2, header.page_id());
    assert_eq!(BITMAP_PAGE_COUNT - 1, header.free_page_count());
    assert_eq!(2, header.first_managed_page_id());
    assert_eq!(1, header.first_free_page_index());
}

#[test]
fn bitmap_page_ref_header() {
    let page = BitmapPage::new(2);
    let page_ref = &page;

    let header: &dyn BitmapHeader = page_ref;

    assert_eq!(2, header.page_id());
    assert_eq!(BITMAP_PAGE_COUNT - 1, header.free_page_count());
    assert_eq!(2, header.first_managed_page_id());
    assert_eq!(1, header.first_free_page_index());
}

#[test]
fn memory_page_header() {
    let mut store = PageStore::new(TESTDB_MAX_SIZE);
    let mut page = BitmapPage::new(2);
    page.persist(&mut store).unwrap();

    let new_memory_page = store.read_page(2).unwrap();
    let header: &dyn BitmapHeader = &new_memory_page;

    assert_eq!(2, header.page_id());
    assert_eq!(BITMAP_PAGE_COUNT - 1, header.free_page_count());
    assert_eq!(2, header.first_managed_page_id());
    assert_eq!(1, header.first_free_page_index());
}

#[test]
fn load_refuses_header_that_contradicts_payload() {
    let mut store = PageStore::new(TESTDB_MAX_SIZE);
    let mut page = BitmapPage::new(2);
    page.persist(&mut store).unwrap();

    // Corrupt the recorded free count; the reader verifies the header.
    store.write_page_range(2, 12, &vec![0x07u8, 0x00u8]).unwrap();

    let memory_page = store.read_page(2).unwrap();
    assert!(BitmapPage::load(&memory_page, &AcceptAll).is_none());
    assert!(BitmapPage::load_into(&memory_page, 0).is_none());
}

#[test]
fn page_size_constants_agree() {
    assert_eq!(4096, PAGE_SIZE);
    assert_eq!(32640, BITMAP_PAGE_COUNT);
}
