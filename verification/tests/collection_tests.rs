use docdb::collection::Collection;
use docdb::collection::Files;
use docdb::document::Document;
use docdb::document::Value;
use docdb::journal::FileAction;
use docdb::pager::Action;
use docdb::pager::StorageError;
use docdb::query::gt;

/// A file and its log.
#[derive(Clone)]
struct Pair {
    file: Vec<u8>,
    log: Vec<u8>,
}

impl Pair {
    fn perform(&mut self, action: &Action) {
        match action {
            Action::AppendLog(bytes) => self.log.extend_from_slice(bytes),
            Action::WritePage(page_no, page) => {
                let start = *page_no as usize * 4096;
                if self.file.len() < start + 4096 {
                    self.file.resize(start + 4096, 0);
                }
                self.file[start..start + 4096].copy_from_slice(page.as_bytes());
            }
            Action::TruncateLog(len) => self.log.resize(*len as usize, 0),
            Action::SyncLog | Action::SyncFile => {}
        }
    }
}

/// The files of a collection.
#[derive(Clone)]
struct Disk {
    heap: Pair,
    index: Pair,
}

impl Disk {
    fn new() -> Disk {
        let empty = Pair { file: Vec::new(), log: Vec::new() };
        Disk { heap: empty.clone(), index: empty }
    }

    fn open(&self) -> Collection {
        Collection::open(Files {
            heap_file: &self.heap.file,
            heap_log: self.heap.log.clone(),
            index_file: &self.index.file,
            index_log: self.index.log.clone(),
        })
        .ok()
        .unwrap()
    }

    fn settle(&mut self, coll: &mut Collection) {
        for action in coll.take_actions() {
            self.perform(&action);
        }
    }

    fn perform(&mut self, action: &FileAction) {
        match action {
            FileAction::Heap(action) => self.heap.perform(action),
            FileAction::Index(action) => self.index.perform(action),
        }
    }
}

fn named(name: &str) -> Document {
    let mut doc = Document::new();
    doc.insert("name", name);
    doc
}

fn names(docs: &[Document]) -> Vec<String> {
    docs.iter()
        .map(|doc| match doc.get("name") {
            Some(Value::Str(name)) => name.clone(),
            _ => panic!("expected a name"),
        })
        .collect()
}

#[test]
fn insert_without_id_auto_generates_one() {
    let mut coll = Disk::new().open();
    let mut doc = Document::new();
    doc.insert("name", "Alice");

    let id = coll.insert(doc).unwrap();
    assert!(!id.is_empty());

    let fetched = coll.find_by_id(&id).unwrap().unwrap();
    assert_eq!(fetched.get("_id"), Some(&Value::Str(id)));
    assert_eq!(fetched.get("name"), Some(&Value::Str("Alice".to_string())));
}

#[test]
fn insert_with_explicit_id_is_preserved() {
    let mut coll = Disk::new().open();
    let mut doc = Document::new();
    doc.insert("_id", "custom-id");
    doc.insert("name", "Bob");

    let id = coll.insert(doc).unwrap();
    assert_eq!(id, "custom-id");
    assert!(coll.find_by_id("custom-id").unwrap().is_some());
}

#[test]
fn update_replaces_content_but_keeps_id() {
    let mut coll = Disk::new().open();
    let mut doc = Document::new();
    doc.insert("name", "Alice");
    doc.insert("age", 30);
    let id = coll.insert(doc).unwrap();

    let mut updated = Document::new();
    updated.insert("name", "Alice");
    updated.insert("age", 31);
    assert!(coll.update_by_id(&id, updated).unwrap());

    let fetched = coll.find_by_id(&id).unwrap().unwrap();
    assert_eq!(fetched.get("age"), Some(&Value::Int(31)));
    assert_eq!(fetched.get("_id"), Some(&Value::Str(id)));
}

#[test]
fn update_on_missing_id_returns_false() {
    let mut coll = Disk::new().open();
    let doc = Document::new();
    assert!(!coll.update_by_id("nonexistent", doc).unwrap());
}

#[test]
fn delete_removes_document() {
    let mut coll = Disk::new().open();
    let mut doc = Document::new();
    doc.insert("name", "Temp");
    let id = coll.insert(doc).unwrap();

    assert!(coll.delete_by_id(&id).unwrap());
    assert!(coll.find_by_id(&id).unwrap().is_none());
    assert!(!coll.delete_by_id(&id).unwrap()); // second delete: nothing to do
}

#[test]
fn all_returns_every_document() {
    let mut coll = Disk::new().open();
    for name in ["Alice", "Bob", "Carol"] {
        let mut doc = Document::new();
        doc.insert("name", name);
        coll.insert(doc).unwrap();
    }

    let all_docs = coll.all().unwrap();
    assert_eq!(all_docs.len(), 3);
}

#[test]
fn data_survives_reopening() {
    let mut disk = Disk::new();
    let id = {
        let mut coll = disk.open();
        let mut doc = Document::new();
        doc.insert("durable", true);
        let id = coll.insert(doc).unwrap();
        coll.flush();
        disk.settle(&mut coll);
        id
    };

    let coll = disk.open();
    assert!(coll.find_by_id(&id).unwrap().is_some());
}

#[test]
fn generated_ids_count_up() {
    let mut disk = Disk::new();
    let mut coll = disk.open();
    for i in 0..20u64 {
        assert_eq!(coll.insert(named("x")).unwrap(), format!("{i:016x}"));
        if i % 5 == 4 {
            assert!(coll.delete_by_id(&format!("{:016x}", i - 1)).unwrap());
            assert!(coll.update_by_id(&format!("{i:016x}"), named("y")).unwrap());
            disk.settle(&mut coll);
            coll = disk.open();
        }
    }
    assert_eq!(coll.all().unwrap().len(), 16);
}

#[test]
fn an_id_that_is_no_string_is_replaced() {
    let mut coll = Disk::new().open();
    let mut doc = named("Alice");
    doc.insert("_id", 7);
    let id = coll.insert(doc).unwrap();
    assert_eq!(id, "0000000000000000");
    let stored = coll.find_by_id(&id).unwrap().unwrap();
    assert_eq!(stored.get("_id"), Some(&Value::from("0000000000000000")));
    assert_eq!(stored.len(), 2);
}

#[test]
fn documents_come_in_the_order_of_their_ids() {
    let mut coll = Disk::new().open();
    for id in ["b", "a", "c"] {
        let mut doc = named(id);
        doc.insert("_id", id);
        coll.insert(doc).unwrap();
    }
    assert_eq!(names(&coll.all().unwrap()), ["a", "b", "c"]);
}

#[test]
fn the_same_id_again_replaces_the_document() {
    let mut coll = Disk::new().open();
    for name in ["first", "second"] {
        let mut doc = named(name);
        doc.insert("_id", "x");
        coll.insert(doc).unwrap();
    }
    assert_eq!(names(&coll.all().unwrap()), ["second"]);
}

#[test]
fn find_keeps_what_matches() {
    let mut coll = Disk::new().open();
    for (name, age) in [("Alice", 30), ("Bob", 25), ("Carol", 45)] {
        let mut doc = named(name);
        doc.insert("age", age);
        coll.insert(doc).unwrap();
    }
    let mut query = Document::new();
    query.insert("age", gt(26));
    assert_eq!(names(&coll.find(&query).unwrap()), ["Alice", "Carol"]);
    assert_eq!(coll.find(&Document::new()).unwrap().len(), 3);
}

#[test]
fn many_documents_of_all_sizes() {
    let mut disk = Disk::new();
    let mut coll = disk.open();
    for i in 0..200usize {
        let mut doc = named(&format!("n{i}"));
        doc.insert("text", "x".repeat(i * 37 % 9000));
        coll.insert(doc).unwrap();
    }
    for i in (0..200u64).step_by(3) {
        let mut doc = named("new");
        doc.insert("text", "y".repeat(i as usize * 91 % 7000));
        assert!(coll.update_by_id(&format!("{i:016x}"), doc).unwrap());
    }
    for i in (0..200u64).step_by(7) {
        assert!(coll.delete_by_id(&format!("{i:016x}")).unwrap());
    }
    disk.settle(&mut coll);
    let coll = disk.open();
    for i in 0..200u64 {
        let found = coll.find_by_id(&format!("{i:016x}")).unwrap();
        if i % 7 == 0 {
            assert!(found.is_none());
        } else {
            let doc = found.unwrap();
            let (name, text) = if i % 3 == 0 {
                ("new".to_string(), "y".repeat(i as usize * 91 % 7000))
            } else {
                (format!("n{i}"), "x".repeat(i as usize * 37 % 9000))
            };
            assert_eq!(doc.get("name"), Some(&Value::Str(name)));
            assert_eq!(doc.get("text"), Some(&Value::Str(text)));
        }
    }
}

#[test]
fn a_crash_between_the_two_files_leaves_only_an_orphan() {
    let mut disk = Disk::new();
    let mut coll = disk.open();
    coll.insert(named("Alice")).unwrap();
    disk.settle(&mut coll);

    coll.insert(named("Bob")).unwrap();
    for action in coll.take_actions() {
        if let FileAction::Heap(action) = action {
            disk.heap.perform(&action);
        }
    }
    // The index never hears of the second document.
    let mut coll = disk.open();
    assert_eq!(names(&coll.all().unwrap()), ["Alice"]);
    coll.insert(named("Carol")).unwrap();
    assert_eq!(names(&coll.all().unwrap()), ["Alice", "Carol"]);
}

#[test]
fn an_id_that_is_too_long_is_refused() {
    let mut coll = Disk::new().open();
    coll.insert(named("Alice")).unwrap();
    let mut doc = named("Bob");
    doc.insert("_id", "x".repeat(5000));
    assert_eq!(coll.insert(doc), Err(StorageError::PageOverflow));
    assert_eq!(names(&coll.all().unwrap()), ["Alice"]);
}

/// Every state of the files that a crash can leave while the actions are
/// performed one after the other.
fn crash_states(disk: &Disk, coll: &mut Collection) -> Vec<Disk> {
    let mut states = vec![disk.clone()];
    let mut now = disk.clone();
    for step in coll.take_actions() {
        let (on_index, action) = match &step {
            FileAction::Heap(action) => (false, action),
            FileAction::Index(action) => (true, action),
        };
        let cut: Vec<Action> = match action {
            Action::AppendLog(bytes) => [1, bytes.len() / 2]
                .iter()
                .map(|len| Action::AppendLog(bytes[..*len].to_vec()))
                .collect(),
            _ => Vec::new(),
        };
        for torn in &cut {
            let mut state = now.clone();
            if on_index {
                state.index.perform(torn);
            } else {
                state.heap.perform(torn);
            }
            states.push(state);
        }
        if let Action::WritePage(page_no, page) = action {
            let mut state = now.clone();
            let pair = if on_index { &mut state.index } else { &mut state.heap };
            let start = *page_no as usize * 4096;
            if pair.file.len() < start + 4096 {
                pair.file.resize(start + 4096, 0);
            }
            pair.file[start..start + 2000].copy_from_slice(&page.as_bytes()[..2000]);
            states.push(state);
        }
        now.perform(&step);
        states.push(now.clone());
    }
    states
}

#[test]
fn a_crash_anywhere_in_an_insert_leaves_the_old_or_the_new_documents() {
    let mut disk = Disk::new();
    let mut coll = disk.open();
    for i in 0..60 {
        coll.insert(named(&format!("{i}"))).unwrap();
    }
    assert!(coll.delete_by_id("0000000000000005").unwrap());
    disk.settle(&mut coll);
    let before = coll.all().unwrap();

    let mut doc = named("new");
    doc.insert("text", "z".repeat(9000));
    let id = coll.insert(doc).unwrap();
    let after = coll.all().unwrap();
    let mut outcomes = (0, 0);
    for state in crash_states(&disk, &mut coll) {
        let mut reopened = state.open();
        let found = reopened.all().unwrap();
        if found == before {
            outcomes.0 += 1;
            assert!(reopened.find_by_id(&id).unwrap().is_none());
        } else {
            assert_eq!(found, after);
            outcomes.1 += 1;
        }
        // Work goes on from there.
        reopened.insert(named("next")).unwrap();
        assert_eq!(reopened.all().unwrap().len(), found.len() + 1);
    }
    assert!(outcomes.0 > 0 && outcomes.1 > 0);
}

#[test]
fn a_crash_anywhere_in_a_change_leaves_the_old_or_the_new_documents() {
    for update in [true, false] {
        let mut disk = Disk::new();
        let mut coll = disk.open();
        for i in 0..10usize {
            let mut doc = named(&format!("{i}"));
            doc.insert("text", "t".repeat(i * 1000));
            coll.insert(doc).unwrap();
        }
        disk.settle(&mut coll);
        let before = coll.all().unwrap();
        let id = format!("{:016x}", 6);
        if update {
            let mut doc = named("changed");
            doc.insert("text", "u".repeat(9000));
            assert!(coll.update_by_id(&id, doc).unwrap());
        } else {
            assert!(coll.delete_by_id(&id).unwrap());
        }
        let after = coll.all().unwrap();
        assert_ne!(before, after);
        let mut outcomes = (0, 0);
        for state in crash_states(&disk, &mut coll) {
            let mut reopened = state.open();
            let found = reopened.all().unwrap();
            if found == before {
                outcomes.0 += 1;
            } else {
                assert_eq!(found, after);
                outcomes.1 += 1;
            }
            // Work goes on from there.
            reopened.insert(named("next")).unwrap();
            assert_eq!(reopened.all().unwrap().len(), found.len() + 1);
        }
        assert!(outcomes.0 > 0 && outcomes.1 > 0);
    }
}

#[test]
fn a_crash_in_a_series_of_operations_leaves_the_documents_of_one_moment() {
    let disk = Disk::new();
    let mut coll = disk.open();
    let mut moments = vec![coll.all().unwrap()];
    for i in 0..4 {
        coll.insert(named(&format!("{i}"))).unwrap();
        moments.push(coll.all().unwrap());
    }
    assert!(coll.update_by_id("0000000000000001", named("changed")).unwrap());
    moments.push(coll.all().unwrap());
    assert!(coll.delete_by_id("0000000000000002").unwrap());
    moments.push(coll.all().unwrap());
    for state in crash_states(&disk, &mut coll) {
        assert!(moments.contains(&state.open().all().unwrap()));
    }
}

#[test]
fn a_generated_id_passes_over_those_that_are_taken() {
    let mut coll = Disk::new().open();
    for (name, id) in [("A", "0000000000000000"), ("B", "0000000000000001")] {
        let mut doc = named(name);
        doc.insert("_id", id);
        assert_eq!(coll.insert(doc).unwrap(), id);
    }
    assert_eq!(coll.insert(named("C")).unwrap(), "0000000000000002");
    assert_eq!(coll.insert(named("D")).unwrap(), "0000000000000003");
    assert_eq!(names(&coll.all().unwrap()), ["A", "B", "C", "D"]);
    let first = coll.find_by_id("0000000000000000").unwrap().unwrap();
    assert_eq!(first.get("name"), Some(&Value::from("A")));
}

#[test]
fn an_id_that_is_no_string_keeps_its_place() {
    let mut coll = Disk::new().open();
    let mut doc = Document::new();
    doc.insert("a", 1);
    doc.insert("_id", 7);
    doc.insert("b", 2);
    let id = coll.insert(doc).unwrap();
    let mut expected = Document::new();
    expected.insert("a", 1);
    expected.insert("_id", "0000000000000000");
    expected.insert("b", 2);
    let stored = coll.find_by_id(&id).unwrap().unwrap();
    assert_eq!(stored.to_bytes(), expected.to_bytes());
}

#[test]
fn a_thousand_documents_are_listed_by_their_ids() {
    let mut coll = Disk::new().open();
    for i in 0..1000u64 {
        assert_eq!(coll.insert(named("x")).unwrap(), format!("{i:016x}"));
    }
    let docs = coll.all().unwrap();
    assert_eq!(docs.len(), 1000);
    for (i, doc) in docs.iter().enumerate() {
        assert_eq!(doc.get("_id"), Some(&Value::Str(format!("{i:016x}"))));
    }
}

#[test]
fn a_document_is_renewed_beside_the_old_one() {
    let mut disk = Disk::new();
    let mut coll = disk.open();
    let id = coll.insert(named("old")).unwrap();
    disk.settle(&mut coll);
    assert_eq!(disk.heap.file.len(), 2 * 4096);
    assert!(coll.update_by_id(&id, named("new")).unwrap());
    disk.settle(&mut coll);
    assert_eq!(disk.heap.file.len(), 3 * 4096);
    // The page of the first document is free again.
    assert!(coll.update_by_id(&id, named("newer")).unwrap());
    disk.settle(&mut coll);
    assert_eq!(disk.heap.file.len(), 3 * 4096);
    assert_eq!(names(&disk.open().all().unwrap()), ["newer"]);
}

#[test]
fn the_index_is_changed_between_the_two_changes_of_the_documents() {
    let mut disk = Disk::new();
    let mut coll = disk.open();
    let id = coll.insert(named("old")).unwrap();
    disk.settle(&mut coll);
    let order = |actions: Vec<FileAction>| -> String {
        let mut order = String::new();
        for action in &actions {
            let file = if matches!(action, FileAction::Heap(_)) { 'd' } else { 'i' };
            if !order.ends_with(file) {
                order.push(file);
            }
        }
        order
    };
    assert!(coll.update_by_id(&id, named("new")).unwrap());
    assert_eq!(order(coll.take_actions()), "did");
    assert!(coll.delete_by_id(&id).unwrap());
    assert_eq!(order(coll.take_actions()), "id");
    coll.flush();
    assert_eq!(order(coll.take_actions()), "di");
    assert!(coll.take_actions().is_empty());
}

#[test]
fn an_interrupted_creation_is_completed() {
    let disk = Disk::new();
    let mut coll = disk.open();
    for state in crash_states(&disk, &mut coll) {
        let mut reopened = state.open();
        assert!(reopened.all().unwrap().is_empty());
        assert_eq!(reopened.insert(named("first")).unwrap(), "0000000000000000");
    }
}
