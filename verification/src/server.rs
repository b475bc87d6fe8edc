//! The server half of the store: engine selection, the startup guard, and
//! the per-connection request handling.
//!
//! The surrounding process owns the listening socket and the worker pool;
//! each accepted connection hands the bytes of exactly one request to the
//! handler here and writes the returned response bytes back.

use vstd::prelude::*;
use vstd::string::StringExecFns;
use crate::dir::{
    check_kvs_dir, check_tree_dir, spec_entry_log_num, spec_is_tree_marker, DirEntry,
};
use crate::engine::KvsEngine;
use crate::error::Error;
use crate::protocol::{
    decode_request_at, encode_get_response, encode_remove_response, encode_set_response,
    lemma_get_response_round_trip, lemma_remove_response_round_trip,
    lemma_set_response_round_trip, spec_decode_get_response_at, spec_decode_remove_response_at,
    spec_decode_request_at, spec_decode_set_response_at, spec_encode_get_response,
    spec_encode_remove_response, spec_encode_set_response, GetResponse, GetResponseView, Request,
    RequestView, RemoveResponse, RemoveResponseView, SetResponse, SetResponseView,
};
use crate::store::KvStore;

verus! {

/// Which storage engine a server runs on.
#[derive(Clone, Copy, Debug, PartialEq, Eq, Structural)]
pub enum EngineImpl {
    Kvs,
    Sled,
}

/// The startup guard: refuse to run an engine against a directory owned
/// by the other engine.
pub fn check_engine_dir(engine: EngineImpl, entries: &Vec<DirEntry>) -> (r: Result<(), Error>)
    ensures
        engine is Kvs ==> (r is Ok <==> !(exists|k: int|
            0 <= k < entries@.len() && spec_is_tree_marker(
                #[trigger] entries@[k].name@,
                entries@[k].is_dir,
            ))),
        engine is Sled ==> (r is Ok <==> !(exists|k: int|
            0 <= k < entries@.len() && spec_entry_log_num(
                #[trigger] entries@[k].name@,
                entries@[k].is_dir,
            ) is Some)),
        r matches Err(e) ==> e is EngineMismatch,
{
    match engine {
        EngineImpl::Kvs => check_kvs_dir(entries),
        EngineImpl::Sled => check_tree_dir(entries),
    }
}

/// A server: an engine handle behind the per-connection request handler.
pub struct KvsServer<E: KvsEngine> {
    engine: E,
}

impl<E: KvsEngine> KvsServer<E> {
    /// Validity: the engine handle is valid.
    pub closed spec fn wf(self) -> bool {
        self.engine.inv()
    }

    pub fn new(engine: E) -> (r: KvsServer<E>)
        requires
            engine.inv(),
        ensures
            r.wf(),
    {
        KvsServer { engine }
    }

    /// Handle the one request of a connection: decode it, dispatch to the
    /// engine, and encode the response of the matching kind. Bytes that do
    /// not decode to a request are a serialization failure, and no
    /// response is produced — the connection just closes, as it would on
    /// a client that speaks garbage. A produced response always decodes
    /// back as exactly one message of the matching kind.
    pub fn handle_request_bytes(&self, req_bytes: &Vec<u8>) -> (r: Result<Vec<u8>, Error>)
        requires
            self.wf(),
        ensures
            spec_decode_request_at(req_bytes@, 0) is None ==> (r matches Err(e)
                && e is Serialization),
            spec_decode_request_at(req_bytes@, 0) matches Some((rv, end)) ==> (r matches Ok(out)
                && match rv {
                    RequestView::Put { key, value } => spec_decode_set_response_at(out@, 0)
                        matches Some((v, n)) && n == out@.len(),
                    RequestView::Get { key } => spec_decode_get_response_at(out@, 0)
                        matches Some((v, n)) && n == out@.len(),
                    RequestView::Remove { key } => spec_decode_remove_response_at(out@, 0)
                        matches Some((v, n)) && n == out@.len(),
                }),
    {
        match decode_request_at(req_bytes, 0) {
            None => Err(Error::Serialization { msg: String::from_str("bad request") }),
            Some((Request::Put { key, value }, _)) => {
                let res = self.engine.set(key, value);
                let resp = SetResponse::from_result(res);
                let out = encode_set_response(&resp);
                proof {
                    lemma_set_response_round_trip(resp@);
                }
                Ok(out)
            },
            Some((Request::Get { key }, _)) => {
                let res = self.engine.get(key);
                let resp = GetResponse::from_result(res);
                let out = encode_get_response(&resp);
                proof {
                    lemma_get_response_round_trip(resp@);
                }
                Ok(out)
            },
            Some((Request::Remove { key }, _)) => {
                let res = self.engine.remove(key);
                let resp = RemoveResponse::from_result(res);
                let out = encode_remove_response(&resp);
                proof {
                    lemma_remove_response_round_trip(resp@);
                }
                Ok(out)
            },
        }
    }
}

/// Handle one request directly against a log-structured store, with the
/// full engine semantics pinned down: what the store's map becomes, and
/// which exact response bytes go back.
pub fn handle_request_kv(store: &mut KvStore, req_bytes: &Vec<u8>) -> (r: Result<Vec<u8>, Error>)
    requires
        old(store).wf(),
    ensures
        final(store).wf(),
        spec_decode_request_at(req_bytes@, 0) is None ==> (r matches Err(e) && e is Serialization
            && *final(store) == *old(store)),
        spec_decode_request_at(req_bytes@, 0) matches Some((rv, end)) ==> (r matches Ok(out)
            && match rv {
                RequestView::Put { key, value } => final(store)@ == old(store)@.insert(key, value)
                    && out@ == spec_encode_set_response(SetResponseView::Okay),
                RequestView::Get { key } => final(store)@ == old(store)@ && out@
                    == spec_encode_get_response(
                    GetResponseView::Okay(
                        if old(store)@.contains_key(key) {
                            Some(old(store)@[key])
                        } else {
                            None
                        },
                    ),
                ),
                RequestView::Remove { key } => {
                    if old(store)@.contains_key(key) {
                        final(store)@ == old(store)@.remove(key) && out@
                            == spec_encode_remove_response(RemoveResponseView::Okay)
                    } else {
                        final(store)@ == old(store)@ && out@ == spec_encode_remove_response(
                            RemoveResponseView::Failed("Key not found: "@ + key),
                        )
                    }
                },
            }),
{
    match decode_request_at(req_bytes, 0) {
        None => Err(Error::Serialization { msg: String::from_str("bad request") }),
        Some((Request::Put { key, value }, _)) => {
            let res = store.set(key, value);
            let resp = SetResponse::from_result(res);
            Ok(encode_set_response(&resp))
        },
        Some((Request::Get { key }, _)) => {
            let res = store.get(key);
            let resp = GetResponse::from_result(res);
            Ok(encode_get_response(&resp))
        },
        Some((Request::Remove { key }, _)) => {
            let res = store.remove(key);
            let resp = RemoveResponse::from_result(res);
            Ok(encode_remove_response(&resp))
        },
    }
}

} // verus!
