use page_alloc::bits::PAGE_SIZE;
use page_alloc::store::{PageStore, StoreError};

const TESTDB_MAX_SIZE: usize = 163840;

#[test]
fn store_buffer_too_small() {
    let vec: Vec<u8> = vec![0; PAGE_SIZE - 1];

    let mut store = PageStore::new(TESTDB_MAX_SIZE);

    match store.write_page(0, &vec) {
        Err(_e) => (),
        Ok(()) => panic!("should not have written the page"),
    }
}

#[test]
fn store_buffer_too_big() {
    let vec: Vec<u8> = vec![0; PAGE_SIZE + 1];

    let mut store = PageStore::new(TESTDB_MAX_SIZE);

    match store.write_page(0, &vec) {
        Err(_e) => (),
        Ok(()) => panic!("should not have written the page"),
    }
}

#[test]
fn store_writes_first_page() {
    let vec: Vec<u8> = vec![0; PAGE_SIZE];

    let mut store = PageStore::new(TESTDB_MAX_SIZE);

    store.write_page(0, &vec).unwrap();
    store.flush().unwrap();

    assert_eq!(PAGE_SIZE, store.current_size())
}

#[test]
fn store_writes_existing_page() {
    let vec: Vec<u8> = vec![0; PAGE_SIZE];

    let mut store = PageStore::new(TESTDB_MAX_SIZE);

    store.write_page(1, &vec).unwrap();
    store.write_page(0, &vec).unwrap();
    store.flush().unwrap();

    assert_eq!(2 * PAGE_SIZE, store.current_size())
}

#[test]
fn store_range_out_of_bounds() {
    let vec: Vec<u8> = vec![0; 256];

    let mut store = PageStore::new(TESTDB_MAX_SIZE);

    match store.write_page_range(0, PAGE_SIZE - vec.len() + 1, &vec) {
        Err(_e) => (),
        Ok(()) => panic!("should have failed to write page subset"),
    }
}

#[test]
fn store_write_after_last_page() {
    let vec: Vec<u8> = vec![0; 256];

    let mut store = PageStore::new(TESTDB_MAX_SIZE);

    match store.write_page_range((TESTDB_MAX_SIZE / PAGE_SIZE) + 1, 0, &vec) {
        Err(_e) => (),
        Ok(()) => panic!("should have failed to write page subset"),
    }
}

#[test]
fn store_writes_first_page_range_start() {
    let vec: Vec<u8> = vec![0; 256];

    let mut store = PageStore::new(TESTDB_MAX_SIZE);

    store.write_page_range(0, 0, &vec).unwrap();
    store.flush().unwrap();

    assert_eq!(PAGE_SIZE, store.current_size())
}

#[test]
fn store_writes_first_page_range_middle() {
    let vec: Vec<u8> = vec![0; 256];

    let mut store = PageStore::new(TESTDB_MAX_SIZE);

    store.write_page_range(0, 128, &vec).unwrap();
    store.flush().unwrap();

    assert_eq!(PAGE_SIZE, store.current_size());
}

#[test]
fn store_cannot_read_beyond_current_file_size() {
    let vec: Vec<u8> = vec![1, 2, 3, 4, 5];
    let mut store = PageStore::new(TESTDB_MAX_SIZE);
    store.write_page_range(0, 0, &vec).unwrap();
    match store.read_page(1) {
        Err(_e) => (),
        Ok(_v) => panic!("should have failed"),
    }
}

#[test]
fn store_read_back_page() {
    let vec: Vec<u8> = vec![1, 2, 3, 4, 5];

    let mut store = PageStore::new(TESTDB_MAX_SIZE);

    store.write_page_range(0, 0, &vec).unwrap();
    let page = store.read_page(0).unwrap();

    assert_eq!(&vec[0..5], &page.content()[0..5]);
    assert_eq!(0 as u8, page.content()[PAGE_SIZE - 1])
}

#[test]
fn store_error_kinds_name_the_limit() {
    let mut store = PageStore::new(TESTDB_MAX_SIZE);

    let short: Vec<u8> = vec![0; 16];
    assert_eq!(
        Err(StoreError::WrongBufferLength),
        store.write_page(0, &short)
    );

    let page: Vec<u8> = vec![0; PAGE_SIZE];
    assert_eq!(
        Err(StoreError::PageBeyondMaxSize { max_size: TESTDB_MAX_SIZE }),
        store.write_page(TESTDB_MAX_SIZE / PAGE_SIZE, &page)
    );

    assert_eq!(
        Err(StoreError::WriteOverrunsPage),
        store.write_page_range(0, PAGE_SIZE, &short)
    );

    store.write_page(0, &page).unwrap();
    match store.read_page(1) {
        Err(StoreError::PageBeyondCurrentSize { current_size }) => {
            assert_eq!(PAGE_SIZE, current_size)
        }
        Err(e) => panic!("unexpected error: {:?}", e),
        Ok(_) => panic!("should have failed"),
    }
    match store.read_page(TESTDB_MAX_SIZE / PAGE_SIZE + 7) {
        Err(StoreError::PageBeyondMaxSize { max_size }) => {
            assert_eq!(TESTDB_MAX_SIZE, max_size)
        }
        Err(e) => panic!("unexpected error: {:?}", e),
        Ok(_) => panic!("should have failed"),
    }
}

#[test]
fn store_from_bytes_round_trip() {
    let mut image: Vec<u8> = vec![0; 2 * PAGE_SIZE];
    image[PAGE_SIZE] = 0xAB;
    let store = PageStore::from_bytes(image, TESTDB_MAX_SIZE).unwrap();
    assert_eq!(2 * PAGE_SIZE, store.current_size());
    assert_eq!(0xAB, store.read_page(1).unwrap().content()[0]);

    let uneven: Vec<u8> = vec![0; PAGE_SIZE + 1];
    assert!(PageStore::from_bytes(uneven, TESTDB_MAX_SIZE).is_err());
}
