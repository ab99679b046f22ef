use docdb::document::Document;
use docdb::document::Value;
use docdb::encoding::DecodeError;
use docdb::heap::HeapFile;
use docdb::heap::RecordId;
use docdb::pager::Action;
use docdb::pager::StorageError;

/// The two files of a heap.
struct Files {
    file: Vec<u8>,
    log: Vec<u8>,
}

impl Files {
    fn new() -> Files {
        Files { file: Vec::new(), log: Vec::new() }
    }

    fn open(&self) -> HeapFile {
        HeapFile::open(&self.file, self.log.clone()).ok().unwrap()
    }

    fn settle(&mut self, heap: &mut HeapFile) {
        for action in heap.take_actions() {
            match action {
                Action::AppendLog(bytes) => self.log.extend_from_slice(&bytes),
                Action::WritePage(page_no, page) => {
                    let start = page_no as usize * 4096;
                    if self.file.len() < start + 4096 {
                        self.file.resize(start + 4096, 0);
                    }
                    self.file[start..start + 4096].copy_from_slice(page.as_bytes());
                }
                Action::TruncateLog(len) => self.log.resize(len as usize, 0),
                Action::SyncLog | Action::SyncFile => {}
            }
        }
    }

    fn u64_at(&self, offset: usize) -> u64 {
        let mut bytes = [0; 8];
        bytes.copy_from_slice(&self.file[offset..offset + 8]);
        u64::from_le_bytes(bytes)
    }
}

const NONE: u64 = u64::MAX;

fn doc_of(text: &str) -> Document {
    let mut doc = Document::new();
    doc.insert("val", text);
    doc
}

fn large_doc(count: i64) -> Document {
    let big_array: Vec<Value> = (0..count).map(Value::Int).collect();
    let mut doc = Document::new();
    doc.insert("numbers", big_array);
    doc
}

#[test]
fn insert_and_get_small_document() {
    let mut heap = Files::new().open();
    let mut doc = Document::new();
    doc.insert("name", "Alice");
    doc.insert("age", 30);

    let id = heap.insert(&doc).unwrap();
    let fetched = heap.get(id).unwrap();
    assert_eq!(fetched, doc);
}

#[test]
fn document_spanning_multiple_pages_round_trips() {
    let mut files = Files::new();
    let mut heap = files.open();

    let big_array: Vec<Value> = (0..1500).map(Value::Int).collect();
    let mut doc = Document::new();
    doc.insert("numbers", big_array);

    let id = heap.insert(&doc).unwrap();

    files.settle(&mut heap);
    let next = files.u64_at(id.0 as usize * 4096);
    assert_ne!(next, NONE, "expected this document to span multiple pages");

    let fetched = heap.get(id).unwrap();
    assert_eq!(fetched, doc);
}

#[test]
fn delete_frees_pages_for_reuse() {
    let mut heap = Files::new().open();

    let mut doc_a = Document::new();
    doc_a.insert("val", "a");
    let id_a = heap.insert(&doc_a).unwrap();

    heap.delete(id_a).unwrap();

    let mut doc_b = Document::new();
    doc_b.insert("val", "b");
    let id_b = heap.insert(&doc_b).unwrap();

    assert_eq!(id_a.0, id_b.0, "expected the freed page to be reused");
    assert_eq!(heap.get(id_b).unwrap(), doc_b);
}

#[test]
fn counter_survives_free_list_churn() {
    let mut heap = Files::new().open();
    assert_eq!(heap.next_counter_value().unwrap(), 0);
    assert_eq!(heap.next_counter_value().unwrap(), 1);

    let mut doc = Document::new();
    doc.insert("val", "x");
    let id = heap.insert(&doc).unwrap();
    heap.delete(id).unwrap();

    let id2 = heap.insert(&doc).unwrap();
    assert_eq!(id2.0, id.0, "expected the freed page to be reused");

    assert_eq!(heap.next_counter_value().unwrap(), 2, "counter must survive free-list churn");
}

#[test]
fn heap_data_survives_reopening_the_file() {
    let mut files = Files::new();
    let mut doc = Document::new();
    doc.insert("durable", true);

    let id = {
        let mut heap = files.open();
        let id = heap.insert(&doc).unwrap();
        heap.flush();
        files.settle(&mut heap);
        id
    };

    let heap = files.open();
    assert_eq!(heap.get(id).unwrap(), doc);
}

#[test]
fn the_pages_have_the_documented_layout() {
    let mut files = Files::new();
    let mut heap = files.open();
    heap.next_counter_value().unwrap();
    let doc = doc_of("a");
    let id = heap.insert(&doc).unwrap();
    assert_eq!(id, RecordId(1));
    files.settle(&mut heap);
    assert_eq!(files.file.len(), 2 * 4096);
    assert!(files.log.is_empty());
    // The first page: the head of the free list, then the counter.
    assert_eq!(files.u64_at(0), NONE);
    assert_eq!(files.u64_at(8), 1);
    // A page of a document: the next page, the length, the bytes.
    let bytes = doc.to_bytes();
    assert_eq!(files.u64_at(4096), NONE);
    assert_eq!(&files.file[4096 + 8..4096 + 12], &(bytes.len() as u32).to_le_bytes());
    assert_eq!(&files.file[4096 + 12..4096 + 12 + bytes.len()], &bytes[..]);

    heap.delete(id).unwrap();
    files.settle(&mut heap);
    assert_eq!(files.u64_at(0), 1);
    assert_eq!(files.u64_at(8), 1);
    assert_eq!(files.u64_at(4096), NONE);
}

#[test]
fn all_pages_of_a_deleted_document_are_reused() {
    let mut files = Files::new();
    let mut heap = files.open();
    let id = heap.insert(&large_doc(1500)).unwrap();
    let other = heap.insert(&doc_of("other")).unwrap();
    files.settle(&mut heap);
    let size = files.file.len();
    heap.delete(id).unwrap();
    let again = heap.insert(&large_doc(1400)).unwrap();
    files.settle(&mut heap);
    assert_eq!(files.file.len(), size);
    assert_eq!(heap.get(again).unwrap(), large_doc(1400));
    assert_eq!(heap.get(other).unwrap(), doc_of("other"));
}

#[test]
fn documents_do_not_disturb_each_other() {
    let mut heap = Files::new().open();
    let mut stored: Vec<(RecordId, Document)> = Vec::new();
    for i in 0..40i64 {
        let doc = if i % 3 == 0 { large_doc(400 + 20 * i) } else { doc_of(&format!("text {i}")) };
        stored.push((heap.insert(&doc).unwrap(), doc));
        if i % 4 == 3 {
            let (id, doc) = stored.remove(i as usize / 4);
            assert_eq!(heap.get(id).unwrap(), doc);
            heap.delete(id).unwrap();
        }
        assert_eq!(heap.next_counter_value().unwrap(), i as u64);
    }
    for (id, doc) in &stored {
        assert_eq!(heap.get(*id).unwrap(), *doc);
    }
}

#[test]
fn a_document_that_fills_its_pages_exactly() {
    let mut heap = Files::new().open();
    for len in [4083, 4084, 4085, 8167, 8168, 8169] {
        let overhead = doc_of("").to_bytes().len();
        let doc = doc_of(&"x".repeat(len - overhead));
        assert_eq!(doc.to_bytes().len(), len);
        let id = heap.insert(&doc).unwrap();
        assert_eq!(heap.get(id).unwrap(), doc);
    }
}

#[test]
fn records_that_are_not_there() {
    let mut files = Files::new();
    let mut heap = files.open();
    assert_eq!(heap.get(RecordId(5)), Err(StorageError::UnexpectedEof));
    let id = heap.insert(&doc_of("a")).unwrap();
    files.settle(&mut heap);

    // Bytes that are no document.
    let start = id.0 as usize * 4096;
    let mut damaged = Files { file: files.file.clone(), log: Vec::new() };
    damaged.file[start + 12 + 4 + 4 + 3] = 99;
    assert_eq!(
        damaged.open().get(id),
        Err(StorageError::InvalidData(DecodeError::InvalidTag(99)))
    );
    // A length that no page has.
    let mut damaged = Files { file: files.file.clone(), log: Vec::new() };
    damaged.file[start + 8..start + 12].copy_from_slice(&5000u32.to_le_bytes());
    assert_eq!(damaged.open().get(id), Err(StorageError::CorruptPage));
    // Pages that lead back to themselves.
    let mut damaged = Files { file: files.file.clone(), log: Vec::new() };
    damaged.file[start..start + 8].copy_from_slice(&id.0.to_le_bytes());
    assert_eq!(damaged.open().get(id), Err(StorageError::CorruptPage));
}

#[test]
fn the_counter_can_run_out() {
    let mut files = Files::new();
    let mut heap = files.open();
    files.settle(&mut heap);
    files.file[8..16].copy_from_slice(&(u64::MAX - 1).to_le_bytes());
    let mut heap = files.open();
    assert_eq!(heap.next_counter_value(), Ok(u64::MAX - 1));
    assert_eq!(heap.next_counter_value(), Err(StorageError::CounterExhausted));
}

#[test]
fn a_deleted_document_cannot_be_read() {
    let mut heap = Files::new().open();
    let small = heap.insert(&doc_of("a")).unwrap();
    let large = heap.insert(&large_doc(1500)).unwrap();
    for id in [small, large] {
        heap.delete(id).unwrap();
        assert_eq!(heap.get(id), Err(StorageError::InvalidData(DecodeError::UnexpectedEof)));
    }
}
