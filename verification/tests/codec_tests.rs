//! Byte-level tests of the record codec: exact encodings, round trips,
//! rejection of damaged input, and agreement with the reference
//! serializer (`bincode` with its default function configuration) on the
//! tag-plus-length-prefixed layout.

use kvs::codec::{decode_op_at, encode_op, Op};

fn s(x: &str) -> String {
    x.to_string()
}

#[test]
fn put_record_exact_bytes() {
    let rec = encode_op(&Op::Put {
        key: s("a"),
        value: s("1"),
    });
    let mut expected: Vec<u8> = Vec::new();
    expected.extend_from_slice(&0u32.to_le_bytes());
    expected.extend_from_slice(&1u64.to_le_bytes());
    expected.push(b'a');
    expected.extend_from_slice(&1u64.to_le_bytes());
    expected.push(b'1');
    assert_eq!(rec, expected);
}

#[test]
fn rm_record_exact_bytes() {
    let rec = encode_op(&Op::Rm { key: s("key") });
    let mut expected: Vec<u8> = Vec::new();
    expected.extend_from_slice(&1u32.to_le_bytes());
    expected.extend_from_slice(&3u64.to_le_bytes());
    expected.extend_from_slice(b"key");
    assert_eq!(rec, expected);
}

#[test]
fn record_round_trip() {
    let rec = encode_op(&Op::Put {
        key: s("hello"),
        value: s("wörld"),
    });
    match decode_op_at(&rec, 0) {
        Some((Op::Put { key, value }, end)) => {
            assert_eq!(key, s("hello"));
            assert_eq!(value, s("wörld"));
            assert_eq!(end, rec.len());
        }
        other => panic!("bad decode: {:?}", other),
    }
}

#[test]
fn records_concatenate_without_separators() {
    let mut log = encode_op(&Op::Put {
        key: s("a"),
        value: s("x"),
    });
    let second = encode_op(&Op::Rm { key: s("a") });
    let boundary = log.len();
    log.extend_from_slice(&second);

    let (first_op, end1) = decode_op_at(&log, 0).unwrap();
    assert!(matches!(first_op, Op::Put { .. }));
    assert_eq!(end1, boundary);
    let (second_op, end2) = decode_op_at(&log, end1).unwrap();
    assert!(matches!(second_op, Op::Rm { .. }));
    assert_eq!(end2, log.len());
}

#[test]
fn truncated_record_is_rejected() {
    let rec = encode_op(&Op::Put {
        key: s("k"),
        value: s("value"),
    });
    for cut in 0..rec.len() {
        let partial = rec[..cut].to_vec();
        assert!(decode_op_at(&partial, 0).is_none(), "cut at {}", cut);
    }
}

#[test]
fn unknown_tag_is_rejected() {
    let mut rec = encode_op(&Op::Rm { key: s("k") });
    rec[0] = 7;
    assert!(decode_op_at(&rec, 0).is_none());
}

#[test]
fn invalid_utf8_payload_is_rejected() {
    let mut rec = encode_op(&Op::Rm { key: s("ab") });
    // Overwrite the two key bytes with an invalid UTF-8 sequence.
    let n = rec.len();
    rec[n - 2] = 0xff;
    rec[n - 1] = 0xfe;
    assert!(decode_op_at(&rec, 0).is_none());
}

#[test]
fn matches_reference_serializer_for_put() {
    let ours = encode_op(&Op::Put {
        key: s("key"),
        value: s("value"),
    });
    let reference = bincode::serialize(&(0u32, "key", "value")).unwrap();
    assert_eq!(ours, reference);
}

#[test]
fn matches_reference_serializer_for_rm() {
    let ours = encode_op(&Op::Rm { key: s("gone") });
    let reference = bincode::serialize(&(1u32, "gone")).unwrap();
    assert_eq!(ours, reference);
}

#[test]
fn reference_serializer_output_decodes() {
    let bytes = bincode::serialize(&(0u32, "k", "v")).unwrap();
    match decode_op_at(&bytes, 0) {
        Some((Op::Put { key, value }, end)) => {
            assert_eq!(key, s("k"));
            assert_eq!(value, s("v"));
            assert_eq!(end, bytes.len());
        }
        other => panic!("bad decode: {:?}", other),
    }
}
