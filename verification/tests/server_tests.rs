//! Server tests: the per-connection handler against both engines, the
//! engine-selection guard, and the shared handle's clone semantics.

use kvs::dir::DirEntry;
use kvs::protocol::{
    decode_get_response_at, decode_remove_response_at, decode_set_response_at, encode_request,
    GetResponse, RemoveResponse, Request, SetResponse,
};
use kvs::server::{check_engine_dir, handle_request_kv, EngineImpl, KvsServer};
use kvs::shared::SharedKvStore;
use kvs::store::KvStore;
use kvs::KvsEngine;

fn s(x: &str) -> String {
    x.to_string()
}

fn entry(name: &str, is_dir: bool) -> DirEntry {
    DirEntry {
        name: s(name),
        is_dir,
    }
}

#[test]
fn handler_serves_the_store() {
    let mut store = KvStore::open(Vec::new());

    let req = encode_request(&Request::Put {
        key: s("foo"),
        value: s("bar"),
    });
    let out = handle_request_kv(&mut store, &req).unwrap();
    let (resp, end) = decode_set_response_at(&out, 0).unwrap();
    assert_eq!(end, out.len());
    assert!(matches!(resp, SetResponse::Okay));

    let req = encode_request(&Request::Get { key: s("foo") });
    let out = handle_request_kv(&mut store, &req).unwrap();
    let (resp, _) = decode_get_response_at(&out, 0).unwrap();
    match resp {
        GetResponse::Okay(v) => assert_eq!(v, Some(s("bar"))),
        other => panic!("unexpected response: {:?}", other),
    }

    let req = encode_request(&Request::Get { key: s("missing") });
    let out = handle_request_kv(&mut store, &req).unwrap();
    let (resp, _) = decode_get_response_at(&out, 0).unwrap();
    assert!(matches!(resp, GetResponse::Okay(None)));

    let req = encode_request(&Request::Remove { key: s("missing") });
    let out = handle_request_kv(&mut store, &req).unwrap();
    let (resp, _) = decode_remove_response_at(&out, 0).unwrap();
    match resp {
        RemoveResponse::Failed(msg) => assert_eq!(msg, s("Key not found: missing")),
        other => panic!("unexpected response: {:?}", other),
    }

    let req = encode_request(&Request::Remove { key: s("foo") });
    let out = handle_request_kv(&mut store, &req).unwrap();
    let (resp, _) = decode_remove_response_at(&out, 0).unwrap();
    assert!(matches!(resp, RemoveResponse::Okay));
}

#[test]
fn handler_rejects_garbage() {
    let mut store = KvStore::open(Vec::new());
    let garbage = vec![9u8, 9, 9];
    assert!(handle_request_kv(&mut store, &garbage).is_err());
    // The store is untouched.
    assert_eq!(store.live_key_count(), 0);
}

#[test]
fn server_over_shared_engine() {
    let shared = SharedKvStore::open(Vec::new());
    let server = KvsServer::new(shared);

    let req = encode_request(&Request::Put {
        key: s("a"),
        value: s("1"),
    });
    let out = server.handle_request_bytes(&req).unwrap();
    let (resp, _) = decode_set_response_at(&out, 0).unwrap();
    assert!(matches!(resp, SetResponse::Okay));

    let req = encode_request(&Request::Get { key: s("a") });
    let out = server.handle_request_bytes(&req).unwrap();
    let (resp, _) = decode_get_response_at(&out, 0).unwrap();
    match resp {
        GetResponse::Okay(v) => assert_eq!(v, Some(s("1"))),
        other => panic!("unexpected response: {:?}", other),
    }
}

#[test]
fn clones_share_one_store() {
    let first = SharedKvStore::open(Vec::new());
    let second = first.clone();
    first.set(s("shared"), s("yes")).unwrap();
    assert_eq!(second.get(s("shared")).unwrap(), Some(s("yes")));
    second.remove(s("shared")).unwrap();
    assert_eq!(first.get(s("shared")).unwrap(), None);
}

#[test]
fn shared_store_compacts_on_demand() {
    let store = SharedKvStore::open(Vec::new());
    for i in 0..10u32 {
        store.set(s("k"), i.to_string()).unwrap();
    }
    store.compact();
    assert_eq!(store.get(s("k")).unwrap(), Some(s("9")));
}

#[test]
fn guard_refuses_mismatched_directories() {
    // A directory produced by the tree backend refuses the log engine.
    let tree_dir = vec![entry("db", false), entry("conf", false)];
    assert!(check_engine_dir(EngineImpl::Kvs, &tree_dir).is_err());

    // A directory produced by the log engine refuses the tree backend.
    let kvs_dir = vec![entry("42.log", false)];
    assert!(check_engine_dir(EngineImpl::Sled, &kvs_dir).is_err());
}

#[test]
fn guard_accepts_matching_directories() {
    let kvs_dir = vec![entry("1.log", false), entry("2.log", false)];
    assert!(check_engine_dir(EngineImpl::Kvs, &kvs_dir).is_ok());

    let tree_dir = vec![entry("db", false), entry("conf", false)];
    assert!(check_engine_dir(EngineImpl::Sled, &tree_dir).is_ok());

    let empty: Vec<DirEntry> = Vec::new();
    assert!(check_engine_dir(EngineImpl::Kvs, &empty).is_ok());
    assert!(check_engine_dir(EngineImpl::Sled, &empty).is_ok());

    // Directories named like markers do not count as markers.
    let subdirs = vec![entry("db", true), entry("7.log", true)];
    assert!(check_engine_dir(EngineImpl::Kvs, &subdirs).is_ok());
    assert!(check_engine_dir(EngineImpl::Sled, &subdirs).is_ok());
}
