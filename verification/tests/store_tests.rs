//! Scenario tests for the log-structured engine: the get/set/remove
//! contract, compaction, persistence through effects, and recovery.

use kvs::codec::{encode_op, Op};
use kvs::store::{apply_effects, DiskFile, KvStore};
use kvs::Error;

fn s(x: &str) -> String {
    x.to_string()
}

/// Apply every queued effect of the store to a directory image, as the
/// surrounding process would apply them to the real directory.
fn sync_disk(store: &mut KvStore, disk: &mut Vec<DiskFile>) {
    let effs = store.take_effects();
    apply_effects(disk, &effs);
}

#[test]
fn parse_good_file_num() {
    assert_eq!(Some(100_102), kvs::dir::parse_file_num("100102.log"));
    assert_eq!(Some(0), kvs::dir::parse_file_num("0.log"));
}

#[test]
fn parse_bad_file_num() {
    assert_eq!(None, kvs::dir::parse_file_num("kvs.log"));
}

#[test]
fn store_parse_good_file_num() {
    assert_eq!(Some(100_102), kvs::dir::parse_file_num("100102.log"));
    assert_eq!(Some(0), kvs::dir::parse_file_num("0.log"));
}

#[test]
fn store_parse_bad_file_num() {
    assert_eq!(None, kvs::dir::parse_file_num("kvs.log"));
}

#[test]
fn get_after_set_on_fresh_store() {
    let mut store = KvStore::open(Vec::new());
    store.set(s("a"), s("1")).unwrap();
    store.set(s("b"), s("2")).unwrap();
    assert_eq!(store.get(s("a")).unwrap(), Some(s("1")));
    assert_eq!(store.get(s("b")).unwrap(), Some(s("2")));
    assert_eq!(store.get(s("c")).unwrap(), None);
}

#[test]
fn remove_then_get_then_remove_again() {
    let mut store = KvStore::open(Vec::new());
    store.set(s("k"), s("v")).unwrap();
    store.remove(s("k")).unwrap();
    assert_eq!(store.get(s("k")).unwrap(), None);
    match store.remove(s("k")) {
        Err(Error::KeyNotFound { key }) => assert_eq!(key, s("k")),
        other => panic!("expected KeyNotFound, got {:?}", other),
    }
}

#[test]
fn remove_missing_key_fails() {
    let mut store = KvStore::open(Vec::new());
    assert!(matches!(
        store.remove(s("never")),
        Err(Error::KeyNotFound { .. })
    ));
}

#[test]
fn overwrite_keeps_last_value() {
    let mut store = KvStore::open(Vec::new());
    for i in 1..=5u32 {
        store.set(s("k"), i.to_string()).unwrap();
    }
    assert_eq!(store.get(s("k")).unwrap(), Some(s("5")));
}

#[test]
fn hundred_overwrites_trigger_compaction() {
    let mut store = KvStore::open(Vec::new());
    for i in 1..=100u32 {
        store.set(s("x"), i.to_string()).unwrap();
    }
    assert_eq!(store.get(s("x")).unwrap(), Some(s("100")));
    // At least one automatic compaction ran: the active log advanced and
    // only one log file remains.
    assert!(store.active_file_num() > 1);
    assert_eq!(store.num_log_files(), 1);
}

#[test]
fn reopen_preserves_state() {
    let mut disk: Vec<DiskFile> = Vec::new();
    let mut store = KvStore::open(Vec::new());
    store.set(s("k"), s("v")).unwrap();
    sync_disk(&mut store, &mut disk);
    drop(store);

    let store2 = KvStore::open(disk);
    assert_eq!(store2.get(s("k")).unwrap(), Some(s("v")));
}

#[test]
fn reopen_after_many_operations() {
    let mut disk: Vec<DiskFile> = Vec::new();
    let mut store = KvStore::open(Vec::new());
    for i in 0..70u32 {
        store.set(format!("key{}", i % 7), i.to_string()).unwrap();
    }
    store.remove(s("key3")).unwrap();
    sync_disk(&mut store, &mut disk);

    let store2 = KvStore::open(disk);
    for i in 0..7u32 {
        let key = format!("key{}", i);
        assert_eq!(store2.get(key.clone()).unwrap(), store.get(key).unwrap());
    }
}

#[test]
fn compaction_preserves_observable_state() {
    let mut store = KvStore::open(Vec::new());
    for i in 0..20u32 {
        store.set(format!("k{}", i % 4), i.to_string()).unwrap();
    }
    store.remove(s("k0")).unwrap();
    let before: Vec<Option<String>> = (0..4u32)
        .map(|i| store.get(format!("k{}", i)).unwrap())
        .collect();
    store.compact();
    let after: Vec<Option<String>> = (0..4u32)
        .map(|i| store.get(format!("k{}", i)).unwrap())
        .collect();
    assert_eq!(before, after);
    assert_eq!(store.stale_count(), 0);
    assert_eq!(store.num_log_files(), 1);
}

#[test]
fn compacted_log_size_depends_on_live_keys_only() {
    let mut store = KvStore::open(Vec::new());
    for i in 1..=100u32 {
        store.set(s("x"), s("100")).unwrap();
        let _ = i;
    }
    store.compact();
    // One live key, one record: 4 tag bytes + (8 + 1) key + (8 + 3) value.
    assert_eq!(store.num_log_files(), 1);
    assert_eq!(store.live_key_count(), 1);
    assert_eq!(store.active_log_len(), 24);
}

#[test]
fn recovery_tolerates_truncated_trailing_record() {
    // A directory left by a crash during compaction: the old log is whole,
    // the new one ends in a partial record.
    let mut whole = Vec::new();
    whole.extend_from_slice(&encode_op(&Op::Put {
        key: s("k"),
        value: s("one"),
    }));
    whole.extend_from_slice(&encode_op(&Op::Put {
        key: s("k"),
        value: s("two"),
    }));
    let fresh = encode_op(&Op::Put {
        key: s("k"),
        value: s("two"),
    });
    let cut = fresh.len() / 2;
    let partial = fresh[..cut].to_vec();

    let disk = vec![
        DiskFile {
            file_num: 3,
            data: whole,
        },
        DiskFile {
            file_num: 4,
            data: partial,
        },
    ];
    let store = KvStore::open(disk);
    // The most recent successfully written value survives, and the store
    // resumes on the highest surviving file number.
    assert_eq!(store.get(s("k")).unwrap(), Some(s("two")));
    assert_eq!(store.active_file_num(), 4);
}

#[test]
fn truncation_effect_repairs_the_directory() {
    let rec = encode_op(&Op::Put {
        key: s("a"),
        value: s("b"),
    });
    let mut data = rec.clone();
    data.extend_from_slice(&rec[..rec.len() / 2]);
    let disk0 = vec![DiskFile {
        file_num: 1,
        data,
    }];

    let mut disk: Vec<DiskFile> = disk0
        .iter()
        .map(|f| DiskFile {
            file_num: f.file_num,
            data: f.data.clone(),
        })
        .collect();
    let mut store = KvStore::open(disk0);
    sync_disk(&mut store, &mut disk);
    assert_eq!(disk.len(), 1);
    assert_eq!(disk[0].data, rec);

    // Writing after recovery keeps the directory image in step.
    store.set(s("c"), s("d")).unwrap();
    sync_disk(&mut store, &mut disk);
    let store2 = KvStore::open(disk);
    assert_eq!(store2.get(s("a")).unwrap(), Some(s("b")));
    assert_eq!(store2.get(s("c")).unwrap(), Some(s("d")));
}

#[test]
fn fresh_open_starts_log_one() {
    let store = KvStore::open(Vec::new());
    assert_eq!(store.active_file_num(), 1);
    assert_eq!(store.num_log_files(), 1);
    assert_eq!(store.live_key_count(), 0);
}

#[test]
fn set_always_succeeds_and_counts_stale_records() {
    let mut store = KvStore::open(Vec::new());
    assert!(store.set(s("a"), s("1")).is_ok());
    assert_eq!(store.stale_count(), 0);
    assert!(store.set(s("a"), s("2")).is_ok());
    assert_eq!(store.stale_count(), 1);
    assert!(store.set(s("b"), s("3")).is_ok());
    assert_eq!(store.stale_count(), 1);
    store.compact();
    assert_eq!(store.stale_count(), 0);
}

#[test]
fn sorted_file_nums_filters_sorts_and_deduplicates() {
    let entry = |name: &str, is_dir: bool| kvs::dir::DirEntry {
        name: name.to_string(),
        is_dir,
    };
    let entries = vec![
        entry("12.log", false),
        entry("3.log", false),
        entry("3x.log", false),
        entry("kvs.log", false),
        entry("notes.txt", false),
        entry("7.log", true),
        entry("0.log", false),
    ];
    // "3x.log" parses to the same number as "3.log"; directories and
    // names without a digit prefix are ignored.
    assert_eq!(kvs::dir::sorted_file_nums(&entries), vec![0, 3, 12]);
}

#[test]
fn kvs_open_refuses_tree_directory() {
    let entries = vec![
        kvs::dir::DirEntry {
            name: s("db"),
            is_dir: false,
        },
        kvs::dir::DirEntry {
            name: s("conf"),
            is_dir: false,
        },
    ];
    match KvStore::open_dir(&entries, Vec::new()) {
        Err(Error::EngineMismatch) => {}
        Err(e) => panic!("expected EngineMismatch, got {:?}", e),
        Ok(_) => panic!("expected EngineMismatch, got a store"),
    }
}

#[test]
fn kvs_open_accepts_its_own_directory() {
    let entries = vec![kvs::dir::DirEntry {
        name: s("1.log"),
        is_dir: false,
    }];
    let store = KvStore::open_dir(&entries, vec![DiskFile {
        file_num: 1,
        data: Vec::new(),
    }])
    .unwrap();
    assert_eq!(store.active_file_num(), 1);
}

#[test]
fn stale_counter_stays_below_threshold() {
    let mut store = KvStore::open(Vec::new());
    for i in 1..=200u32 {
        store.set(s("x"), i.to_string()).unwrap();
        assert!(store.stale_count() < 50);
    }
    store.set(s("y"), s("1")).unwrap();
    store.remove(s("y")).unwrap();
    assert!(store.stale_count() < 50);
}
