use kvs::kv_store::KvStore;
use kvs::log::DirEntry;

fn open_empty() -> KvStore {
    let entries: Vec<DirEntry> = Vec::new();
    KvStore::open(&entries).unwrap()
}

fn reopen(store: &KvStore) -> KvStore {
    let entries = store.dir_entries();
    KvStore::open(&entries).unwrap()
}

#[test]
fn get_set_reopen() {
    // empty store; get("a") -> None; set("a","1"); get("a") -> Some("1");
    // reopen; get("a") -> Some("1")
    let mut store = open_empty();
    assert_eq!(store.get(&"a".to_string()).unwrap(), None);
    store.set("a".to_string(), "1".to_string()).unwrap();
    assert_eq!(store.get(&"a".to_string()).unwrap(), Some("1".to_string()));
    let store2 = reopen(&store);
    assert_eq!(store2.get(&"a".to_string()).unwrap(), Some("1".to_string()));
}

#[test]
fn overwrite_many_times_compacts() {
    // repeated overwrites of one key always read back the latest value, and
    // compaction keeps the directory small
    let mut store = open_empty();
    let n = 2000u32;
    for i in 0..n {
        store.set("a".to_string(), format!("{}", i)).unwrap();
        if i % 250 == 0 {
            assert_eq!(store.get(&"a".to_string()).unwrap(), Some(format!("{}", i)));
        }
    }
    assert_eq!(
        store.get(&"a".to_string()).unwrap(),
        Some(format!("{}", n - 1))
    );
    let entries = store.dir_entries();
    // compaction ran at least once, so passive files exist
    assert!(entries.len() >= 2);
    let total: usize = entries.iter().map(|e| e.content.len()).sum();
    // far less than 2000 records' worth remains on disk
    assert!(total < 20000, "on-disk size {} too large", total);
    // and the live value survives a reopen
    let store2 = reopen(&store);
    assert_eq!(
        store2.get(&"a".to_string()).unwrap(),
        Some(format!("{}", n - 1))
    );
}

#[test]
fn remove_then_missing() {
    // insert key1..key120, remove key60; get(key60) -> None;
    // get(key59) -> Some("value"); remove(key60) again -> KeyNotFound
    let mut store = open_empty();
    for i in 1..=120 {
        store
            .set(format!("key{}", i), "value".to_string())
            .unwrap();
    }
    store.remove("key60".to_string()).unwrap();
    assert_eq!(store.get(&"key60".to_string()).unwrap(), None);
    assert_eq!(
        store.get(&"key59".to_string()).unwrap(),
        Some("value".to_string())
    );
    let before = store.dir_entries();
    let err = store.remove("key60".to_string()).unwrap_err();
    assert_eq!(err, kvs::error::KvError::KeyNotFound);
    // a failed remove appends nothing
    let after = store.dir_entries();
    assert_eq!(before.len(), after.len());
    for (b, a) in before.iter().zip(after.iter()) {
        assert_eq!(b.name, a.name);
        assert_eq!(b.content, a.content);
    }
}

#[test]
fn interleaved_writers_disjoint_keys() {
    // two writers over disjoint key spaces, interleaved; every written key
    // reads back as its written value
    let mut store = open_empty();
    let n = 500u32;
    for i in 0..n {
        store
            .set(format!("left{}", i), format!("lv{}", i))
            .unwrap();
        store
            .set(format!("right{}", i), format!("rv{}", i))
            .unwrap();
    }
    for i in 0..n {
        assert_eq!(
            store.get(&format!("left{}", i)).unwrap(),
            Some(format!("lv{}", i))
        );
        assert_eq!(
            store.get(&format!("right{}", i)).unwrap(),
            Some(format!("rv{}", i))
        );
    }
}

#[test]
fn close_compacts_and_preserves() {
    // compaction preserves the live map; after close, the on-disk size is
    // bounded by the number of live records times the largest record
    let mut store = open_empty();
    for i in 0..50 {
        store.set(format!("k{}", i), format!("val{}", i)).unwrap();
    }
    for i in 0..50 {
        store.set(format!("k{}", i), format!("new{}", i)).unwrap();
    }
    for i in 40..50 {
        store.remove(format!("k{}", i)).unwrap();
    }
    store.close().unwrap();
    for i in 0..40 {
        assert_eq!(
            store.get(&format!("k{}", i)).unwrap(),
            Some(format!("new{}", i))
        );
    }
    for i in 40..50 {
        assert_eq!(store.get(&format!("k{}", i)).unwrap(), None);
    }
    let entries = store.dir_entries();
    // active file is empty right after a close
    assert_eq!(entries[0].name, "log.active".to_string());
    assert_eq!(entries[0].content, String::new());
    // 40 live records, each encoded in well under 40 characters
    let total: usize = entries.iter().map(|e| e.content.len()).sum();
    assert!(total <= 40 * 40, "on-disk size {} too large", total);
    let store2 = reopen(&store);
    assert_eq!(
        store2.get(&"k0".to_string()).unwrap(),
        Some("new0".to_string())
    );
    assert_eq!(store2.get(&"k40".to_string()).unwrap(), None);
}

#[test]
fn reopen_after_removals() {
    let mut store = open_empty();
    store.set("x".to_string(), "1".to_string()).unwrap();
    store.set("y".to_string(), "2".to_string()).unwrap();
    store.remove("x".to_string()).unwrap();
    let store2 = reopen(&store);
    assert_eq!(store2.get(&"x".to_string()).unwrap(), None);
    assert_eq!(store2.get(&"y".to_string()).unwrap(), Some("2".to_string()));
}

#[test]
fn open_rejects_corrupt_datafile() {
    let entries = vec![DirEntry {
        name: "log.active".to_string(),
        content: "garbage".to_string(),
    }];
    match KvStore::open(&entries) {
        Err(e) => assert_eq!(e, kvs::error::KvError::SerdeError),
        Ok(_) => panic!("expected a decode error"),
    }
}

#[test]
fn open_ignores_unrelated_files() {
    let entries = vec![
        DirEntry {
            name: "notes.txt".to_string(),
            content: "garbage".to_string(),
        },
        DirEntry {
            name: "engine".to_string(),
            content: "kvs".to_string(),
        },
    ];
    let store = KvStore::open(&entries).unwrap();
    assert_eq!(store.get(&"a".to_string()).unwrap(), None);
}

#[test]
fn backups_record_passives() {
    let mut store = open_empty();
    store.set_backups_dir("backups".to_string());
    for i in 0..20 {
        store.set(format!("b{}", i), "v".to_string()).unwrap();
    }
    store.close().unwrap();
    let backups = store.take_backups();
    assert_eq!(backups.len(), 1);
    // the snapshot was taken right after rotation, before the rewrite:
    // one passive file, serial 1, holding the rotated records
    assert_eq!(backups[0].files.len(), 1);
    assert_eq!(backups[0].files[0].serial, 1);
    assert!(!backups[0].files[0].content.is_empty());
    let backups_again = store.take_backups();
    assert_eq!(backups_again.len(), 0);
}

#[test]
fn values_up_to_four_kib() {
    let mut store = open_empty();
    let big = "x".repeat(4096);
    store.set("big".to_string(), big.clone()).unwrap();
    assert_eq!(store.get(&"big".to_string()).unwrap(), Some(big.clone()));
    let store2 = reopen(&store);
    assert_eq!(store2.get(&"big".to_string()).unwrap(), Some(big));
}
