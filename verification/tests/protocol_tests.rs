//! Wire-protocol tests: exact encodings, round trips for every message
//! kind, the client's reading of responses, and agreement with the
//! reference serializer on the layout.

use kvs::protocol::{
    decode_get_response_at, decode_remove_response_at, decode_request_at, decode_set_response_at,
    encode_get_response, encode_remove_response, encode_request, encode_set_response, GetResponse,
    RemoveResponse, Request, SetResponse,
};
use kvs::Error;

fn s(x: &str) -> String {
    x.to_string()
}

#[test]
fn request_round_trips() {
    let reqs = vec![
        Request::Put {
            key: s("k"),
            value: s("v"),
        },
        Request::Get { key: s("k") },
        Request::Remove { key: s("k") },
    ];
    for req in reqs {
        let bytes = encode_request(&req);
        let (back, end) = decode_request_at(&bytes, 0).unwrap();
        assert_eq!(end, bytes.len());
        match (&req, &back) {
            (Request::Put { key: a, value: b }, Request::Put { key: c, value: d }) => {
                assert_eq!((a, b), (c, d));
            }
            (Request::Get { key: a }, Request::Get { key: c }) => assert_eq!(a, c),
            (Request::Remove { key: a }, Request::Remove { key: c }) => assert_eq!(a, c),
            other => panic!("variant changed in round trip: {:?}", other),
        }
    }
}

#[test]
fn request_tags_follow_declaration_order() {
    let put = encode_request(&Request::Put {
        key: s(""),
        value: s(""),
    });
    let get = encode_request(&Request::Get { key: s("") });
    let remove = encode_request(&Request::Remove { key: s("") });
    assert_eq!(&put[..4], &0u32.to_le_bytes());
    assert_eq!(&get[..4], &1u32.to_le_bytes());
    assert_eq!(&remove[..4], &2u32.to_le_bytes());
}

#[test]
fn set_response_round_trips() {
    for resp in vec![SetResponse::Okay, SetResponse::Failed(s("boom"))] {
        let bytes = encode_set_response(&resp);
        let (back, end) = decode_set_response_at(&bytes, 0).unwrap();
        assert_eq!(end, bytes.len());
        match (resp, back) {
            (SetResponse::Okay, SetResponse::Okay) => {}
            (SetResponse::Failed(a), SetResponse::Failed(b)) => assert_eq!(a, b),
            other => panic!("variant changed in round trip: {:?}", other),
        }
    }
}

#[test]
fn get_response_round_trips() {
    let cases = vec![
        GetResponse::Okay(Some(s("value"))),
        GetResponse::Okay(None),
        GetResponse::Failed(s("oops")),
    ];
    for resp in cases {
        let bytes = encode_get_response(&resp);
        let (back, end) = decode_get_response_at(&bytes, 0).unwrap();
        assert_eq!(end, bytes.len());
        match (resp, back) {
            (GetResponse::Okay(a), GetResponse::Okay(b)) => assert_eq!(a, b),
            (GetResponse::Failed(a), GetResponse::Failed(b)) => assert_eq!(a, b),
            other => panic!("variant changed in round trip: {:?}", other),
        }
    }
}

#[test]
fn remove_response_round_trips() {
    for resp in vec![RemoveResponse::Okay, RemoveResponse::Failed(s("no"))] {
        let bytes = encode_remove_response(&resp);
        let (back, end) = decode_remove_response_at(&bytes, 0).unwrap();
        assert_eq!(end, bytes.len());
        match (resp, back) {
            (RemoveResponse::Okay, RemoveResponse::Okay) => {}
            (RemoveResponse::Failed(a), RemoveResponse::Failed(b)) => assert_eq!(a, b),
            other => panic!("variant changed in round trip: {:?}", other),
        }
    }
}

#[test]
fn ok_response_carries_no_payload_beyond_tag() {
    assert_eq!(encode_set_response(&SetResponse::Okay).len(), 4);
    assert_eq!(encode_remove_response(&RemoveResponse::Okay).len(), 4);
    // An absent value is the tag plus one discriminator byte.
    assert_eq!(encode_get_response(&GetResponse::Okay(None)).len(), 5);
}

#[test]
fn matches_reference_serializer_for_responses() {
    let ours = encode_get_response(&GetResponse::Okay(Some(s("x"))));
    let reference = bincode::serialize(&(0u32, Some("x"))).unwrap();
    assert_eq!(ours, reference);

    let ours = encode_get_response(&GetResponse::Okay(None));
    let reference = bincode::serialize(&(0u32, Option::<&str>::None)).unwrap();
    assert_eq!(ours, reference);

    let ours = encode_set_response(&SetResponse::Failed(s("msg")));
    let reference = bincode::serialize(&(1u32, "msg")).unwrap();
    assert_eq!(ours, reference);
}

#[test]
fn matches_reference_serializer_for_requests() {
    let ours = encode_request(&Request::Put {
        key: s("foo"),
        value: s("bar"),
    });
    let reference = bincode::serialize(&(0u32, "foo", "bar")).unwrap();
    assert_eq!(ours, reference);
}

#[test]
fn client_reads_failure_as_server_error() {
    match GetResponse::Failed(s("remote trouble")).into_result() {
        Err(Error::Server { msg }) => assert_eq!(msg, s("remote trouble")),
        other => panic!("expected Server error, got {:?}", other),
    }
    assert!(SetResponse::Okay.into_result().is_ok());
    assert!(RemoveResponse::Okay.into_result().is_ok());
    assert_eq!(
        GetResponse::Okay(Some(s("v"))).into_result().unwrap(),
        Some(s("v"))
    );
}

#[test]
fn server_renders_errors_as_messages() {
    let resp = RemoveResponse::from_result(Err(Error::KeyNotFound { key: s("k") }));
    match resp {
        RemoveResponse::Failed(msg) => assert_eq!(msg, s("Key not found: k")),
        other => panic!("expected failure response, got {:?}", other),
    }
    let resp = SetResponse::from_result(Ok(()));
    assert!(matches!(resp, SetResponse::Okay));
}

#[test]
fn error_messages_render() {
    assert_eq!(
        Error::KeyNotFound { key: s("a") }.to_message(),
        s("Key not found: a")
    );
    assert_eq!(Error::Io { msg: s("x") }.to_message(), s("Io: x"));
    assert_eq!(
        Error::Serialization { msg: s("y") }.to_message(),
        s("Serialization: y")
    );
    assert_eq!(Error::Server { msg: s("z") }.to_message(), s("Server: z"));
    assert_eq!(
        Error::Synchronization { msg: s("w") }.to_message(),
        s("Synchronization: w")
    );
    assert_eq!(Error::Backend { msg: s("b") }.to_message(), s("Backend: b"));
    assert_eq!(Error::EngineMismatch.to_message(), s("Engine mismatch"));
    assert_eq!(Error::Corruption.to_message(), s("Corruption"));
}
