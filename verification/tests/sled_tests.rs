//! Tests of the tree-backed engine against a real `sled` database in a
//! temporary directory.

use kvs::dir::DirEntry;
use kvs::sled_engine::SledEngine;
use kvs::{Error, KvsEngine};

fn s(x: &str) -> String {
    x.to_string()
}

#[test]
fn sled_set_get_remove() {
    let dir = tempfile::tempdir().unwrap();
    let path = dir.path().to_str().unwrap();
    let engine = SledEngine::open(path, &Vec::new()).unwrap();

    engine.set(s("k"), s("v")).unwrap();
    assert_eq!(engine.get(s("k")).unwrap(), Some(s("v")));
    assert_eq!(engine.get(s("missing")).unwrap(), None);

    engine.remove(s("k")).unwrap();
    assert_eq!(engine.get(s("k")).unwrap(), None);
    match engine.remove(s("k")) {
        Err(Error::KeyNotFound { key }) => assert_eq!(key, s("k")),
        other => panic!("expected KeyNotFound, got {:?}", other),
    }
}

#[test]
fn sled_clones_share_the_tree() {
    let dir = tempfile::tempdir().unwrap();
    let path = dir.path().to_str().unwrap();
    let engine = SledEngine::open(path, &Vec::new()).unwrap();
    let other = engine.clone();
    engine.set(s("a"), s("1")).unwrap();
    assert_eq!(other.get(s("a")).unwrap(), Some(s("1")));
}

#[test]
fn sled_refuses_log_engine_directory() {
    let dir = tempfile::tempdir().unwrap();
    let path = dir.path().to_str().unwrap();
    let entries = vec![DirEntry {
        name: s("17.log"),
        is_dir: false,
    }];
    match SledEngine::open(path, &entries) {
        Err(Error::EngineMismatch) => {}
        Err(e) => panic!("expected EngineMismatch, got {:?}", e),
        Ok(_) => panic!("expected EngineMismatch, got an engine"),
    }
}
