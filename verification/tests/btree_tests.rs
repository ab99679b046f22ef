use docdb::btree::BTree;
use docdb::heap::RecordId;
use docdb::pager::Action;
use docdb::pager::StorageError;
use std::collections::BTreeMap;

/// The two files of an index.
struct Files {
    file: Vec<u8>,
    log: Vec<u8>,
}

impl Files {
    fn new() -> Files {
        Files { file: Vec::new(), log: Vec::new() }
    }

    fn open(&self) -> BTree {
        BTree::open(&self.file, self.log.clone()).ok().unwrap()
    }

    fn settle(&mut self, tree: &mut BTree) {
        for action in tree.take_actions() {
            match action {
                Action::AppendLog(bytes) => self.log.extend_from_slice(&bytes),
                Action::WritePage(page_no, page) => {
                    let start = page_no as usize * 4096;
                    if self.file.len() < start + 4096 {
                        self.file.resize(start + 4096, 0);
                    }
                    self.file[start..start + 4096].copy_from_slice(page.as_bytes());
                }
                Action::TruncateLog(len) => self.log.resize(len as usize, 0),
                Action::SyncLog | Action::SyncFile => {}
            }
        }
    }
}

#[test]
fn insert_and_get_single_key() {
    let mut tree = Files::new().open();
    tree.insert("alice", RecordId(42)).unwrap();

    assert_eq!(tree.get("alice").unwrap(), Some(RecordId(42)));
    assert_eq!(tree.get("bob").unwrap(), None);
}

#[test]
fn upsert_overwrites_existing_key() {
    let mut tree = Files::new().open();
    tree.insert("alice", RecordId(1)).unwrap();
    tree.insert("alice", RecordId(2)).unwrap();

    assert_eq!(tree.get("alice").unwrap(), Some(RecordId(2)));
}

#[test]
fn bulk_insert_forces_splits_and_stays_correct() {
    let mut tree = Files::new().open();

    let mut keys: Vec<String> = (0..1000).map(|i| format!("key{i:05}")).collect();
    keys.sort_by_key(|k| {
        let n: usize = k[3..].parse().unwrap();
        (n * 37) % 1000
    });

    for (i, key) in keys.iter().enumerate() {
        tree.insert(key, RecordId(i as u64)).unwrap();
    }

    assert!(!tree.root_is_leaf().unwrap(), "expected root to have split into an internal node");

    for (i, key) in keys.iter().enumerate() {
        assert_eq!(tree.get(key).unwrap(), Some(RecordId(i as u64)), "lookup failed for {key}");
    }
}

#[test]
fn scan_all_returns_sorted_order() {
    let mut tree = Files::new().open();
    for key in ["banana", "apple", "cherry", "date"] {
        tree.insert(key, RecordId(key.len() as u64)).unwrap();
    }

    let all: Vec<String> = tree.scan_all().unwrap().into_iter().map(|(k, _)| k).collect();
    assert_eq!(all, vec!["apple", "banana", "cherry", "date"]);
}

#[test]
fn delete_removes_key_without_disturbing_others() {
    let mut tree = Files::new().open();
    tree.insert("a", RecordId(1)).unwrap();
    tree.insert("b", RecordId(2)).unwrap();
    tree.insert("c", RecordId(3)).unwrap();

    assert_eq!(tree.delete("b").unwrap(), Some(RecordId(2)));
    assert_eq!(tree.get("b").unwrap(), None);
    assert_eq!(tree.get("a").unwrap(), Some(RecordId(1)));
    assert_eq!(tree.get("c").unwrap(), Some(RecordId(3)));
}

#[test]
fn btree_data_survives_reopening_the_file() {
    let mut files = Files::new();
    {
        let mut tree = files.open();
        tree.insert("durable", RecordId(7)).unwrap();
        tree.flush();
        files.settle(&mut tree);
    }

    let tree = files.open();
    assert_eq!(tree.get("durable").unwrap(), Some(RecordId(7)));
}

#[test]
fn an_empty_index_has_no_keys() {
    let mut files = Files::new();
    let mut tree = files.open();
    assert!(tree.root_is_leaf().unwrap());
    assert_eq!(tree.get(""), Ok(None));
    assert_eq!(tree.delete("x"), Ok(None));
    assert_eq!(tree.scan_all(), Ok(Vec::new()));
    files.settle(&mut tree);
    assert_eq!(files.file.len(), 2 * 4096);
    assert_eq!(files.open().scan_all(), Ok(Vec::new()));
}

#[test]
fn keys_are_ordered_by_their_bytes() {
    let mut tree = Files::new().open();
    for key in ["b", "é", "", "a", "ab", "€", "Z", "\u{10000}", "\u{ffff}"] {
        tree.insert(key, RecordId(1)).unwrap();
    }
    let all: Vec<String> = tree.scan_all().unwrap().into_iter().map(|(k, _)| k).collect();
    assert_eq!(all, vec!["", "Z", "a", "ab", "b", "é", "€", "\u{ffff}", "\u{10000}"]);
}

/// The index agrees with a map of the standard library, through many changes
/// and across reopening.
#[test]
fn the_index_is_a_map() {
    let mut files = Files::new();
    let mut tree = files.open();
    let mut expected: BTreeMap<String, u64> = BTreeMap::new();
    let mut state: u64 = 7;
    for round in 0..3000u64 {
        state = state.wrapping_mul(6364136223846793005).wrapping_add(1442695040888963407);
        let n = (state >> 33) % 900;
        let key = format!("{}{n}", "k".repeat(n as usize % 60));
        if state >> 60 == 0 {
            let removed = tree.delete(&key).unwrap();
            assert_eq!(removed.map(|id| id.0), expected.remove(&key));
        } else {
            tree.insert(&key, RecordId(round)).unwrap();
            expected.insert(key.clone(), round);
        }
        let found = tree.get(&key).unwrap();
        assert_eq!(found.map(|id| id.0), expected.get(&key).copied());
        if round % 500 == 499 {
            files.settle(&mut tree);
            tree = files.open();
        }
    }
    let all: Vec<(String, u64)> =
        tree.scan_all().unwrap().into_iter().map(|(k, id)| (k, id.0)).collect();
    let wanted: Vec<(String, u64)> = expected.into_iter().collect();
    assert_eq!(all, wanted);
}

#[test]
fn long_keys_that_are_short_enough_are_always_taken() {
    let mut tree = Files::new().open();
    for i in 0..400u64 {
        let key = format!("{:0>190}", i * 7919 % 400);
        tree.insert(&key, RecordId(i)).unwrap();
    }
    assert!(!tree.root_is_leaf().unwrap());
    assert_eq!(tree.scan_all().unwrap().len(), 400);
    let key = format!("{:0>190}", 7919 % 400);
    assert_eq!(tree.get(&key).unwrap(), Some(RecordId(1)));
}

#[test]
fn a_key_that_is_too_long_is_refused() {
    let mut tree = Files::new().open();
    tree.insert("a", RecordId(1)).unwrap();
    assert_eq!(tree.insert(&"x".repeat(5000), RecordId(2)), Err(StorageError::PageOverflow));
    assert_eq!(tree.get("a").unwrap(), Some(RecordId(1)));
    assert_eq!(tree.scan_all().unwrap().len(), 1);
    tree.insert("b", RecordId(3)).unwrap();
    assert_eq!(tree.scan_all().unwrap().len(), 2);
}

#[test]
fn a_damaged_page_is_an_error() {
    let mut files = Files::new();
    let mut tree = files.open();
    tree.insert("a", RecordId(1)).unwrap();
    files.settle(&mut tree);
    let mut root = [0; 8];
    root.copy_from_slice(&files.file[..8]);
    let start = u64::from_le_bytes(root) as usize * 4096;
    files.file[start] = 77;
    let tree = files.open();
    assert_eq!(tree.get("a"), Err(StorageError::CorruptPage));
    assert_eq!(tree.scan_all(), Err(StorageError::CorruptPage));
}
