use pagestore::storage::{
    page_offset, Opened, PageRead, ReadOutcome, Storage, StorageError, StorageFile, WriteOutcome,
    PAGE_SIZE,
};

fn pattern(seed: u8) -> [u8; PAGE_SIZE] {
    let mut page = [0u8; PAGE_SIZE];
    for (i, byte) in page.iter_mut().enumerate() {
        *byte = (i % 251) as u8 ^ seed;
    }
    page
}

fn handle(id: u64) -> StorageFile {
    let mut storage = Storage::new("store");
    storage.open_with("db", "tbl", id).file()
}

#[test]
fn page_size_is_4096() {
    assert_eq!(PAGE_SIZE, 4096);
}

#[test]
fn page_offsets_are_multiples_of_the_page_size() {
    assert_eq!(page_offset(0), Some(0));
    assert_eq!(page_offset(1), Some(4096));
    assert_eq!(page_offset(3), Some(12288));
    assert_eq!(page_offset(15), Some(61440));
}

#[test]
fn page_offsets_stop_at_the_last_file_offset() {
    let last = (u64::MAX / 4096) as usize;
    assert_eq!(page_offset(last), Some(0xFFFF_FFFF_FFFF_F000));
    assert_eq!(page_offset(last + 1), None);
    assert_eq!(page_offset(usize::MAX), None);
}

#[test]
fn write_request_names_file_offset_and_bytes() {
    let file = handle(42);
    let page = pattern(7);
    let request = file.write_page(3, &page).unwrap();
    assert_eq!(request.file, 42);
    assert_eq!(request.offset, 12288);
    assert_eq!(request.bytes, page);
}

#[test]
fn read_request_names_file_and_offset() {
    let file = handle(42);
    assert_eq!(file.read_page(9), Ok(PageRead { file: 42, offset: 36864 }));
    assert_eq!(file.read_page(0), Ok(PageRead { file: 42, offset: 0 }));
}

#[test]
fn pages_beyond_every_offset_cannot_be_asked_for() {
    let file = handle(1);
    assert_eq!(file.read_page(usize::MAX), Err(StorageError::Io));
    assert_eq!(file.write_page(usize::MAX, &pattern(0)), Err(StorageError::Io));
}

#[test]
fn a_write_is_done_only_when_the_whole_page_went_out() {
    assert_eq!(StorageFile::finish_write(WriteOutcome::Wrote(4096)), Ok(()));
    assert_eq!(StorageFile::finish_write(WriteOutcome::Wrote(4095)), Err(StorageError::Io));
    assert_eq!(StorageFile::finish_write(WriteOutcome::Wrote(0)), Err(StorageError::Io));
    assert_eq!(StorageFile::finish_write(WriteOutcome::Wrote(4097)), Err(StorageError::Io));
    assert_eq!(StorageFile::finish_write(WriteOutcome::Failed), Err(StorageError::Io));
}

#[test]
fn a_whole_page_read_fills_the_buffer() {
    let page = pattern(3);
    let mut buf = [0u8; PAGE_SIZE];
    assert_eq!(StorageFile::finish_read(ReadOutcome::Filled(page), &mut buf), Ok(()));
    assert_eq!(buf, page);
}

#[test]
fn a_short_or_failed_read_is_an_error_and_leaves_the_buffer() {
    let before = pattern(9);
    let mut buf = before;
    assert_eq!(StorageFile::finish_read(ReadOutcome::Short, &mut buf), Err(StorageError::Io));
    assert_eq!(buf, before);
    assert_eq!(StorageFile::finish_read(ReadOutcome::Failed, &mut buf), Err(StorageError::Io));
    assert_eq!(buf, before);
}

#[test]
fn new_store_keeps_its_base_and_has_no_table() {
    let storage = Storage::new("./store");
    assert_eq!(storage.base(), "./store");
    assert_eq!(storage.lookup("db", "tbl"), None);
    assert_eq!(storage.get(0), None);
    assert!(!storage.has_id(0));
}

#[test]
fn a_new_table_gets_the_number_drawn_for_it() {
    let mut storage = Storage::new("store");
    let opened = storage.open_with("db", "tbl", 77);
    assert!(matches!(opened, Opened::Created(_)));
    assert_eq!(opened.file().id(), 77);
    assert_eq!(storage.lookup("db", "tbl").unwrap().id(), 77);
    assert_eq!(storage.get(77).unwrap().id(), 77);
    assert!(storage.has_id(77));
    assert!(!storage.has_id(78));
}

#[test]
fn opening_twice_gives_one_id() {
    let mut storage = Storage::new("store");
    let first = storage.open_with("db", "tbl", 5);
    let second = storage.open_with("db", "tbl", 6);
    assert!(matches!(first, Opened::Created(_)));
    assert!(matches!(second, Opened::Existing(_)));
    assert_eq!(first.file(), second.file());
    assert_eq!(second.file().id(), 5);
    assert_eq!(storage.get(6), None);
}

#[test]
fn opening_twice_at_random_gives_one_id() {
    let mut storage = Storage::new("store");
    let first = storage.open("db", "tbl");
    let second = storage.open("db", "tbl");
    assert!(matches!(first, Opened::Created(_)));
    assert!(matches!(second, Opened::Existing(_)));
    assert_eq!(first.file().id(), second.file().id());
}

#[test]
fn tables_opened_at_random_have_their_own_ids() {
    let mut storage = Storage::new("store");
    let mut ids = Vec::new();
    for table in ["a", "b", "c", "d", "e", "f", "g", "h"] {
        let id = storage.open("db", table).file().id();
        assert!(!ids.contains(&id));
        ids.push(id);
    }
    for (i, table) in ["a", "b", "c", "d", "e", "f", "g", "h"].iter().enumerate() {
        assert_eq!(storage.lookup("db", table).unwrap().id(), ids[i]);
        assert_eq!(storage.get(ids[i]).unwrap().id(), ids[i]);
    }
}

#[test]
fn a_taken_number_gives_way_to_the_next_free_one() {
    let mut storage = Storage::new("store");
    assert_eq!(storage.open_with("db", "a", 10).file().id(), 10);
    assert_eq!(storage.open_with("db", "b", 10).file().id(), 11);
    assert_eq!(storage.open_with("db", "c", 10).file().id(), 12);
    assert_eq!(storage.open_with("db", "d", 11).file().id(), 13);
    assert_eq!(storage.assign_id(10), 14);
    assert_eq!(storage.assign_id(9), 9);
    assert_eq!(storage.assign_id(14), 14);
}

#[test]
fn the_search_for_a_free_id_goes_round_to_zero() {
    let mut storage = Storage::new("store");
    assert_eq!(storage.open_with("db", "a", u64::MAX).file().id(), u64::MAX);
    assert_eq!(storage.open_with("db", "b", u64::MAX).file().id(), 0);
    assert_eq!(storage.open_with("db", "c", u64::MAX).file().id(), 1);
    assert_eq!(storage.assign_id(u64::MAX), 2);
}

#[test]
fn name_is_database_and_table_together() {
    let mut storage = Storage::new("store");
    let a = storage.open_with("db", "tbl", 1).file();
    let b = storage.open_with("db2", "tbl", 2).file();
    let c = storage.open_with("db", "tbl2", 3).file();
    let d = storage.open_with("", "dbtbl", 4).file();
    assert_eq!((a.id(), b.id(), c.id(), d.id()), (1, 2, 3, 4));
    assert_eq!(storage.lookup("db", "tbl").unwrap().id(), 1);
    assert_eq!(storage.lookup("tbl", "db"), None);
}

#[test]
fn closing_forgets_the_table() {
    let mut storage = Storage::new("store");
    storage.open_with("db", "a", 1);
    storage.open_with("db", "b", 2);
    storage.open_with("db", "c", 3);
    assert_eq!(storage.close("db", "b").unwrap().id(), 2);
    assert_eq!(storage.lookup("db", "b"), None);
    assert_eq!(storage.get(2), None);
    assert_eq!(storage.lookup("db", "a").unwrap().id(), 1);
    assert_eq!(storage.lookup("db", "c").unwrap().id(), 3);
    assert_eq!(storage.close("db", "b"), None);
    assert_eq!(storage.close("nowhere", "a"), None);
}

#[test]
fn reopening_after_close_makes_a_new_table() {
    let mut storage = Storage::new("store");
    storage.open_with("db", "tbl", 1);
    storage.close("db", "tbl");
    let again = storage.open_with("db", "tbl", 8);
    assert!(matches!(again, Opened::Created(_)));
    assert_eq!(again.file().id(), 8);
    assert_eq!(storage.get(1), None);
}
