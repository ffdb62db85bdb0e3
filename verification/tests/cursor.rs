use pagestore::cursor::Step;
use pagestore::record::{FieldType, Load, Manager, Schema};
use pagestore::storage::{PageRead, ReadOutcome, Storage, StorageError, StorageFile, PAGE_SIZE};

fn handle(id: u64) -> StorageFile {
    let mut storage = Storage::new("store");
    storage.open_with("db", "tbl", id).file()
}

fn pattern(seed: u8) -> [u8; PAGE_SIZE] {
    let mut page = [0u8; PAGE_SIZE];
    for (i, byte) in page.iter_mut().enumerate() {
        *byte = (i % 251) as u8 ^ seed;
    }
    page
}

fn schema(len: usize) -> Schema {
    Schema::new(vec![FieldType::Str(len)]).unwrap()
}

#[test]
fn manager_keeps_its_table() {
    let manager = Manager::new(handle(4), vec![1]);
    assert_eq!(manager.storage().id(), 4);
}

#[test]
fn occupied_page_gives_its_size_and_read() {
    let manager = Manager::new(handle(4), vec![3, 0, 7]);
    assert_eq!(
        manager.read_page(0),
        Ok(Some(Load { size: 3, request: PageRead { file: 4, offset: 0 } }))
    );
    assert_eq!(
        manager.read_page(1),
        Ok(Some(Load { size: 0, request: PageRead { file: 4, offset: 4096 } }))
    );
    assert_eq!(
        manager.read_page(2),
        Ok(Some(Load { size: 7, request: PageRead { file: 4, offset: 8192 } }))
    );
}

#[test]
fn page_past_the_occupied_ones_is_the_end_of_data() {
    let manager = Manager::new(handle(4), vec![3, 0, 7]);
    assert_eq!(manager.read_page(3), Ok(None));
    assert_eq!(manager.read_page(usize::MAX), Ok(None));
    assert_eq!(Manager::new(handle(4), vec![]).read_page(0), Ok(None));
}

#[test]
fn occupied_page_that_the_file_lacks_is_a_violation() {
    let before = pattern(1);
    let mut buf = before;
    assert_eq!(
        Manager::finish_read(ReadOutcome::Short, &mut buf),
        Err(StorageError::InvariantViolation)
    );
    assert_eq!(buf, before);
    assert_eq!(Manager::finish_read(ReadOutcome::Failed, &mut buf), Err(StorageError::Io));
    assert_eq!(buf, before);
    let page = pattern(2);
    assert_eq!(Manager::finish_read(ReadOutcome::Filled(page), &mut buf), Ok(()));
    assert_eq!(buf, page);
}

#[test]
fn cursor_over_no_pages_ends_at_once() {
    let manager = Manager::new(handle(1), vec![]);
    let mut cursor = manager.cursor(schema(8));
    assert!(!cursor.ended());
    assert_eq!(cursor.next(), Step::End);
    assert!(cursor.ended());
    assert_eq!(cursor.next(), Step::End);
}

#[test]
fn cursor_gives_the_slots_of_each_occupied_page_in_order() {
    let pages = [pattern(0), pattern(0x55)];
    let manager = Manager::new(handle(6), vec![2, 3]);
    let mut cursor = manager.cursor(schema(36));
    let mut records: Vec<Vec<u8>> = Vec::new();
    let mut reads: Vec<PageRead> = Vec::new();
    loop {
        let request = match cursor.next() {
            Step::Record(record) => {
                assert_eq!(record.schema().len(), 36);
                records.push(record.bytes().to_vec());
                continue;
            }
            Step::Read(request) => request,
            Step::End => break,
            Step::Failed(error) => panic!("the scan failed: {:?}", error),
        };
        reads.push(request);
        let page = pages[(request.offset / 4096) as usize];
        assert_eq!(cursor.supply(ReadOutcome::Filled(page)), Ok(()));
    }
    assert_eq!(
        reads,
        vec![PageRead { file: 6, offset: 0 }, PageRead { file: 6, offset: 4096 }]
    );
    let expected: Vec<Vec<u8>> = vec![
        pages[0][0..36].to_vec(),
        pages[0][36..72].to_vec(),
        pages[1][0..36].to_vec(),
        pages[1][36..72].to_vec(),
        pages[1][72..108].to_vec(),
    ];
    assert_eq!(records, expected);
    assert!(cursor.ended());
    assert_eq!(cursor.next(), Step::End);
    assert_eq!(cursor.next(), Step::End);
}

#[test]
fn cursor_skips_a_page_that_holds_nothing() {
    let manager = Manager::new(handle(6), vec![0, 1]);
    let mut cursor = manager.cursor(schema(4));
    assert_eq!(cursor.next(), Step::Read(PageRead { file: 6, offset: 0 }));
    assert_eq!(cursor.supply(ReadOutcome::Filled(pattern(1))), Ok(()));
    assert_eq!(cursor.next(), Step::Read(PageRead { file: 6, offset: 4096 }));
    let page = pattern(2);
    assert_eq!(cursor.supply(ReadOutcome::Filled(page)), Ok(()));
    match cursor.next() {
        Step::Record(record) => assert_eq!(record.bytes(), &page[0..4]),
        other => panic!("no record: {:?}", other),
    }
    assert_eq!(cursor.next(), Step::End);
}

#[test]
fn cursor_that_waits_asks_again() {
    let manager = Manager::new(handle(6), vec![1]);
    let mut cursor = manager.cursor(schema(4));
    assert_eq!(cursor.next(), Step::Read(PageRead { file: 6, offset: 0 }));
    assert_eq!(cursor.next(), Step::Read(PageRead { file: 6, offset: 0 }));
    assert!(!cursor.ended());
}

#[test]
fn cursor_takes_no_page_that_it_did_not_ask_for() {
    let manager = Manager::new(handle(6), vec![1]);
    let mut cursor = manager.cursor(schema(4));
    assert_eq!(
        cursor.supply(ReadOutcome::Filled(pattern(1))),
        Err(StorageError::InvariantViolation)
    );
    assert!(!cursor.ended());
    assert_eq!(cursor.next(), Step::Read(PageRead { file: 6, offset: 0 }));
    let page = pattern(2);
    assert_eq!(cursor.supply(ReadOutcome::Filled(page)), Ok(()));
    assert_eq!(
        cursor.supply(ReadOutcome::Filled(pattern(3))),
        Err(StorageError::InvariantViolation)
    );
    match cursor.next() {
        Step::Record(record) => assert_eq!(record.bytes(), &page[0..4]),
        other => panic!("no record: {:?}", other),
    }
}

#[test]
fn short_read_of_an_occupied_page_ends_the_scan() {
    let manager = Manager::new(handle(6), vec![1, 1]);
    let mut cursor = manager.cursor(schema(4));
    assert_eq!(cursor.next(), Step::Read(PageRead { file: 6, offset: 0 }));
    assert_eq!(cursor.supply(ReadOutcome::Short), Err(StorageError::InvariantViolation));
    assert!(cursor.ended());
    assert_eq!(cursor.next(), Step::End);
}

#[test]
fn failed_read_ends_the_scan() {
    let manager = Manager::new(handle(6), vec![1, 1]);
    let mut cursor = manager.cursor(schema(4));
    assert_eq!(cursor.next(), Step::Read(PageRead { file: 6, offset: 0 }));
    assert_eq!(cursor.supply(ReadOutcome::Failed), Err(StorageError::Io));
    assert!(cursor.ended());
    assert_eq!(cursor.next(), Step::End);
}

#[test]
fn slot_past_the_page_ends_the_scan() {
    let manager = Manager::new(handle(6), vec![3]);
    let mut cursor = manager.cursor(schema(2000));
    let page = pattern(4);
    assert_eq!(cursor.next(), Step::Read(PageRead { file: 6, offset: 0 }));
    assert_eq!(cursor.supply(ReadOutcome::Filled(page)), Ok(()));
    match cursor.next() {
        Step::Record(record) => assert_eq!(record.bytes(), &page[0..2000]),
        other => panic!("no record: {:?}", other),
    }
    match cursor.next() {
        Step::Record(record) => assert_eq!(record.bytes(), &page[2000..4000]),
        other => panic!("no record: {:?}", other),
    }
    assert_eq!(cursor.next(), Step::Failed(StorageError::InvariantViolation));
    assert!(cursor.ended());
    assert_eq!(cursor.next(), Step::End);
}

#[test]
fn a_full_page_of_records_is_given_to_its_last_byte() {
    let manager = Manager::new(handle(6), vec![512]);
    let mut cursor = manager.cursor(Schema::new(vec![FieldType::Int]).unwrap());
    let page = pattern(8);
    assert_eq!(cursor.next(), Step::Read(PageRead { file: 6, offset: 0 }));
    assert_eq!(cursor.supply(ReadOutcome::Filled(page)), Ok(()));
    for i in 0..512 {
        match cursor.next() {
            Step::Record(record) => assert_eq!(record.bytes(), &page[i * 8..(i + 1) * 8]),
            other => panic!("no record {}: {:?}", i, other),
        }
    }
    assert_eq!(cursor.next(), Step::End);
}

#[test]
fn records_without_bytes_are_counted_all_the_same() {
    let manager = Manager::new(handle(6), vec![3]);
    let mut cursor = manager.cursor(Schema::new(vec![]).unwrap());
    assert_eq!(cursor.next(), Step::Read(PageRead { file: 6, offset: 0 }));
    assert_eq!(cursor.supply(ReadOutcome::Filled(pattern(0))), Ok(()));
    for _ in 0..3 {
        match cursor.next() {
            Step::Record(record) => assert!(record.bytes().is_empty()),
            other => panic!("no record: {:?}", other),
        }
    }
    assert_eq!(cursor.next(), Step::End);
}
