use docdb::pager::Action;
use docdb::pager::Page;
use docdb::pager::Pager;
use docdb::pager::StorageError;
use docdb::wal::Wal;

/// The two files of a pager.
#[derive(Clone)]
struct Files {
    file: Vec<u8>,
    log: Vec<u8>,
}

impl Files {
    fn new() -> Files {
        Files { file: Vec::new(), log: Vec::new() }
    }

    fn open(&self) -> Pager {
        Pager::open(&self.file, self.log.clone()).unwrap()
    }

    fn perform(&mut self, action: &Action) {
        match action {
            Action::AppendLog(bytes) => self.log.extend_from_slice(bytes),
            Action::WritePage(page_no, page) => {
                let start = *page_no as usize * 4096;
                if self.file.len() < start + 4096 {
                    self.file.resize(start + 4096, 0);
                }
                self.file[start..start + 4096].copy_from_slice(page.as_bytes());
            }
            Action::TruncateLog(len) => self.log.resize(*len as usize, 0),
            Action::SyncLog | Action::SyncFile => {}
        }
    }

    fn settle(&mut self, pager: &mut Pager) {
        for action in pager.take_actions() {
            self.perform(&action);
        }
    }
}

fn first_byte(pager: &Pager, page_no: u64) -> u8 {
    pager.read_page(page_no).unwrap().as_bytes()[0]
}

fn page_of(byte: u8) -> Page {
    let mut page = Page::new();
    page.as_bytes_mut()[0] = byte;
    page
}

#[test]
fn allocate_and_read_write_page() {
    let files = Files::new();
    let mut pager = files.open();
    assert_eq!(pager.page_count(), 0);

    let page_no = pager.allocate_page().unwrap();
    assert_eq!(page_no, 0);
    assert_eq!(pager.page_count(), 1);

    let mut page = Page::new();
    page.as_bytes_mut()[0..5].copy_from_slice(b"hello");
    pager.write_page(page_no, &page).unwrap();

    let read_back = pager.read_page(page_no).unwrap();
    assert_eq!(&read_back.as_bytes()[0..5], b"hello");
}

#[test]
fn reopening_the_file_preserves_page_count() {
    let mut files = Files::new();
    {
        let mut pager = files.open();
        pager.allocate_page().unwrap();
        pager.allocate_page().unwrap();
        pager.flush();
        files.settle(&mut pager);
    }

    let pager = files.open();
    assert_eq!(pager.page_count(), 2);
}

#[test]
fn multiple_pages_dont_overlap() {
    let files = Files::new();
    let mut pager = files.open();
    let p0 = pager.allocate_page().unwrap();
    let p1 = pager.allocate_page().unwrap();

    let mut page0 = Page::new();
    page0.as_bytes_mut()[0] = 0xAA;
    let mut page1 = Page::new();
    page1.as_bytes_mut()[0] = 0xBB;

    pager.write_page(p0, &page0).unwrap();
    pager.write_page(p1, &page1).unwrap();

    assert_eq!(pager.read_page(p1).unwrap().as_bytes()[0], 0xBB);
    assert_eq!(pager.read_page(p0).unwrap().as_bytes()[0], 0xAA);
}

#[test]
fn explicit_transaction_commit_persists_multiple_pages() {
    let mut files = Files::new();
    let mut pager = files.open();
    pager.begin_transaction();

    let mut p0 = Page::new();
    p0.as_bytes_mut()[0] = 1;
    let mut p1 = Page::new();
    p1.as_bytes_mut()[0] = 2;
    pager.write_page(0, &p0).unwrap();
    pager.write_page(1, &p1).unwrap();

    pager.commit_transaction();

    assert_eq!(pager.read_page(0).unwrap().as_bytes()[0], 1);
    assert_eq!(pager.read_page(1).unwrap().as_bytes()[0], 2);

    files.settle(&mut pager);
    let reopened = files.open();
    assert_eq!(first_byte(&reopened, 0), 1);
    assert_eq!(first_byte(&reopened, 1), 2);
}

#[test]
fn explicit_transaction_rollback_discards_writes() {
    let files = Files::new();
    let mut pager = files.open();

    let mut original = Page::new();
    original.as_bytes_mut()[0] = 9;
    pager.write_page(0, &original).unwrap();

    pager.begin_transaction();
    let mut changed = Page::new();
    changed.as_bytes_mut()[0] = 42;
    pager.write_page(0, &changed).unwrap();

    assert_eq!(pager.read_page(0).unwrap().as_bytes()[0], 42);

    pager.rollback_transaction();

    assert_eq!(pager.read_page(0).unwrap().as_bytes()[0], 9);
}

#[test]
fn crash_recovery_replays_committed_but_unapplied_writes() {
    let mut wal = Wal::open(Vec::new());
    let mut page = Page::new();
    page.as_bytes_mut()[0..5].copy_from_slice(b"crash");
    wal.append_page_frame(3, &page);
    wal.append_commit_frame();
    let files = Files { file: Vec::new(), log: wal.as_bytes().to_vec() };

    let pager = files.open();
    let recovered = pager.read_page(3).unwrap();
    assert_eq!(&recovered.as_bytes()[0..5], b"crash");
    assert_eq!(pager.page_count(), 4);
}

#[test]
fn crash_recovery_ignores_uncommitted_frames() {
    let mut wal = Wal::open(Vec::new());
    let mut page = Page::new();
    page.as_bytes_mut()[0] = 0xFF;
    wal.append_page_frame(5, &page);
    let files = Files { file: Vec::new(), log: wal.as_bytes().to_vec() };

    let pager = files.open();
    assert_eq!(pager.page_count(), 0);
    assert!(pager.read_page(5).is_err());
}

#[test]
fn a_page_that_is_not_there_cannot_be_read() {
    let mut pager = Files::new().open();
    pager.allocate_page().unwrap();
    assert!(matches!(pager.read_page(1), Err(StorageError::UnexpectedEof)));
    assert!(matches!(pager.read_page(u64::MAX), Err(StorageError::UnexpectedEof)));
}

#[test]
fn a_page_without_a_place_cannot_be_written() {
    let mut pager = Files::new().open();
    assert_eq!(
        pager.write_page(0x8_0000_0000_0000, &Page::new()),
        Err(StorageError::PageOutOfRange)
    );
    assert_eq!(pager.page_count(), 0);
}

#[test]
fn a_log_with_a_page_without_a_place_is_refused() {
    let mut wal = Wal::open(Vec::new());
    wal.append_page_frame(u64::MAX, &Page::new());
    wal.append_commit_frame();
    let result = Pager::open(&[], wal.as_bytes().to_vec());
    assert!(matches!(result, Err(StorageError::PageOutOfRange)));
}

#[test]
fn a_partial_page_at_the_end_is_not_counted() {
    let files = Files { file: vec![7; 4096 + 100], log: Vec::new() };
    let pager = files.open();
    assert_eq!(pager.page_count(), 1);
    assert_eq!(first_byte(&pager, 0), 7);
    assert!(pager.read_page(1).is_err());
}

#[test]
fn rollback_gives_back_allocated_pages() {
    let mut files = Files::new();
    let mut pager = files.open();
    pager.allocate_page().unwrap();
    pager.begin_transaction();
    assert_eq!(pager.allocate_page().unwrap(), 1);
    assert_eq!(pager.page_count(), 2);
    pager.rollback_transaction();
    assert_eq!(pager.page_count(), 1);
    assert_eq!(pager.allocate_page().unwrap(), 1);
    files.settle(&mut pager);
    assert_eq!(files.file.len(), 2 * 4096);
    assert!(files.log.is_empty());
}

#[test]
fn the_log_is_synced_before_the_file_is_touched() {
    let mut pager = Files::new().open();
    pager.write_page(0, &page_of(1)).unwrap();
    let actions = pager.take_actions();
    let kinds: Vec<&str> = actions
        .iter()
        .map(|action| match action {
            Action::AppendLog(_) => "append",
            Action::SyncLog => "sync log",
            Action::WritePage(_, _) => "write",
            Action::SyncFile => "sync file",
            Action::TruncateLog(_) => "truncate",
        })
        .collect();
    let synced = kinds.iter().position(|k| *k == "sync log").unwrap();
    let written = kinds.iter().position(|k| *k == "write").unwrap();
    assert!(kinds[..synced].iter().all(|k| *k == "append"));
    assert!(synced < written);
    assert_eq!(&kinds[written + 1..], &["sync file", "truncate"]);
}

/// Every state that a crash can leave behind is either the one before the
/// transaction or the one after it.
#[test]
fn a_crash_at_any_point_leaves_all_of_a_transaction_or_nothing() {
    let mut base = Files::new();
    let mut pager = base.open();
    pager.write_page(0, &page_of(10)).unwrap();
    pager.write_page(1, &page_of(11)).unwrap();
    base.settle(&mut pager);

    pager.begin_transaction();
    pager.write_page(0, &page_of(20)).unwrap();
    pager.write_page(1, &page_of(21)).unwrap();
    pager.write_page(2, &page_of(22)).unwrap();
    pager.commit_transaction();
    let actions = pager.take_actions();

    let mut outcomes = (0, 0);
    let mut check = |files: &Files| {
        let reopened = files.open();
        let seen = (first_byte(&reopened, 0), first_byte(&reopened, 1), reopened.page_count());
        if seen == (10, 11, 2) {
            outcomes.0 += 1;
        } else {
            assert_eq!(seen, (20, 21, 3));
            assert_eq!(first_byte(&reopened, 2), 22);
            outcomes.1 += 1;
        }
    };
    let mut files = base.clone();
    check(&files);
    for action in &actions {
        // An append or a page write that was cut off.
        if let Action::AppendLog(bytes) = action {
            for cut in [1, bytes.len() / 2, bytes.len() - 1] {
                let mut torn = files.clone();
                torn.log.extend_from_slice(&bytes[..cut]);
                check(&torn);
            }
        }
        if let Action::WritePage(page_no, page) = action {
            let start = *page_no as usize * 4096;
            let mut torn = files.clone();
            if torn.file.len() < start + 10 {
                torn.file.resize(start + 10, 0);
            }
            torn.file[start..start + 10].copy_from_slice(&page.as_bytes()[..10]);
            check(&torn);
        }
        files.perform(action);
        check(&files);
    }
    assert!(outcomes.0 > 0 && outcomes.1 > 0);
    assert!(files.log.is_empty());
}

#[test]
fn recovery_can_be_repeated() {
    let mut wal = Wal::open(Vec::new());
    wal.append_page_frame(0, &page_of(1));
    wal.append_page_frame(1, &page_of(2));
    wal.append_commit_frame();
    let crashed = Files { file: vec![9; 5000], log: wal.as_bytes().to_vec() };
    let mut pager = crashed.open();
    let actions = pager.take_actions();
    let mut files = crashed.clone();
    for action in &actions {
        files.perform(action);
        let again = files.open();
        assert_eq!(first_byte(&again, 0), 1);
        assert_eq!(first_byte(&again, 1), 2);
    }
    assert!(files.log.is_empty());
    assert_eq!(files.file.len(), 8192);
}

#[test]
fn what_is_left_in_a_log_without_a_commit_is_discarded() {
    let mut wal = Wal::open(Vec::new());
    wal.append_page_frame(0, &page_of(66));
    let mut files = Files { file: Vec::new(), log: wal.as_bytes().to_vec() };
    let mut pager = files.open();
    pager.write_page(0, &page_of(1)).unwrap();
    files.settle(&mut pager);
    assert!(files.log.is_empty());
    assert_eq!(first_byte(&files.open(), 0), 1);
}

#[test]
fn storage_errors_in_words() {
    assert_eq!(StorageError::UnexpectedEof.message(), "failed to fill whole buffer");
    assert_eq!(
        StorageError::InvalidData(docdb::encoding::DecodeError::InvalidTag(99)).message(),
        "invalid value tag: 99"
    );
    assert_eq!(StorageError::CorruptPage.message(), "corrupt page");
    assert_eq!(StorageError::PageOverflow.message(), "index entry too large for a page");
    assert_eq!(StorageError::PageOutOfRange.message(), "page number out of range");
    assert_eq!(StorageError::CounterExhausted.message(), "no more generated identifiers");
}

#[test]
fn an_allocated_page_is_never_one_that_was_written() {
    let mut pager = Files::new().open();
    pager.write_page(0, &page_of(7)).unwrap();
    assert_eq!(pager.page_count(), 1);
    assert_eq!(pager.allocate_page(), Ok(1));
    assert_eq!(first_byte(&pager, 0), 7);

    pager.begin_transaction();
    pager.write_page(5, &page_of(9)).unwrap();
    assert_eq!(pager.allocate_page(), Ok(6));
    assert_eq!(first_byte(&pager, 5), 9);
    pager.rollback_transaction();
    assert_eq!(pager.page_count(), 2);
    assert_eq!(pager.allocate_page(), Ok(2));
    assert_eq!(first_byte(&pager, 0), 7);
}
