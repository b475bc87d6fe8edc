//! The binary record format shared by the on-disk log and the wire protocol.
//!
//! Every message is a tagged variant: a fixed-size unsigned tag in declaration
//! order (4 bytes, little-endian), followed by its fields. A text field is its
//! UTF-8 byte length as a little-endian unsigned 64-bit integer followed by
//! the UTF-8 bytes themselves. Records are concatenated with no separator; a
//! decoder finds each record boundary from the decoded field lengths alone.

use vstd::prelude::*;
use vstd::bytes::*;
use vstd::slice::*;
use vstd::string::*;
use vstd::utf8::*;

verus! {

/// A log operation: the two kinds of mutation the store persists.
#[derive(Debug)]
pub enum Op {
    Put { key: String, value: String },
    Rm { key: String },
}

/// The mathematical value of an [`Op`]: its strings as character sequences.
pub enum OpView {
    Put { key: Seq<char>, value: Seq<char> },
    Rm { key: Seq<char> },
}

impl View for Op {
    type V = OpView;

    open spec fn view(&self) -> OpView {
        match self {
            Op::Put { key, value } => OpView::Put { key: key@, value: value@ },
            Op::Rm { key } => OpView::Rm { key: key@ },
        }
    }
}

/// Number of bytes in the UTF-8 encoding of `s`.
pub open spec fn str_bytes_len(s: Seq<char>) -> nat {
    encode_utf8(s).len()
}

/// A string fits in the format when its byte length fits the 64-bit prefix.
pub open spec fn str_encodable(s: Seq<char>) -> bool {
    str_bytes_len(s) <= u64::MAX
}

pub open spec fn op_encodable(op: OpView) -> bool {
    match op {
        OpView::Put { key, value } => str_encodable(key) && str_encodable(value),
        OpView::Rm { key } => str_encodable(key),
    }
}

/// Encoding of one text field: length prefix, then UTF-8 bytes.
pub open spec fn spec_encode_str(s: Seq<char>) -> Seq<u8> {
    spec_u64_to_le_bytes(str_bytes_len(s) as u64) + encode_utf8(s)
}

/// Encoding of one log record. `Put` has tag 0, `Rm` tag 1.
pub open spec fn spec_encode_op(op: OpView) -> Seq<u8> {
    match op {
        OpView::Put { key, value } => spec_u32_to_le_bytes(0u32) + spec_encode_str(key)
            + spec_encode_str(value),
        OpView::Rm { key } => spec_u32_to_le_bytes(1u32) + spec_encode_str(key),
    }
}

/// What decoding one text field at `pos` yields: the string and the position
/// just past it, or nothing if the bytes there are not a well-formed field.
pub open spec fn spec_decode_str_at(data: Seq<u8>, pos: int) -> Option<(Seq<char>, int)> {
    if pos + 8 > data.len() {
        None
    } else {
        let n = spec_u64_from_le_bytes(data.subrange(pos, pos + 8)) as int;
        if pos + 8 + n > data.len() {
            None
        } else {
            let bytes = data.subrange(pos + 8, pos + 8 + n);
            if valid_utf8(bytes) {
                Some((decode_utf8(bytes), pos + 8 + n))
            } else {
                None
            }
        }
    }
}

/// What decoding one log record at `pos` yields.
pub open spec fn spec_decode_op_at(data: Seq<u8>, pos: int) -> Option<(OpView, int)> {
    if pos + 4 > data.len() {
        None
    } else {
        let tag = spec_u32_from_le_bytes(data.subrange(pos, pos + 4));
        if tag == 0 {
            match spec_decode_str_at(data, pos + 4) {
                Some((key, p2)) => match spec_decode_str_at(data, p2) {
                    Some((value, p3)) => Some((OpView::Put { key, value }, p3)),
                    None => None,
                },
                None => None,
            }
        } else if tag == 1 {
            match spec_decode_str_at(data, pos + 4) {
                Some((key, p2)) => Some((OpView::Rm { key }, p2)),
                None => None,
            }
        } else {
            None
        }
    }
}

/// Relies on `String::from_utf8`: it succeeds exactly on valid UTF-8 input
/// and returns the string whose encoding is that input.
#[verifier::external_body]
pub(crate) fn string_from_utf8(bytes: Vec<u8>) -> (r: Option<String>)
    ensures
        r matches Some(s) ==> valid_utf8(bytes@) && s@ == decode_utf8(bytes@),
        r is None ==> !valid_utf8(bytes@),
{
    String::from_utf8(bytes).ok()
}

/// Append the encoding of one text field to `out`.
pub fn encode_str_into(out: &mut Vec<u8>, s: &String)
    ensures
        final(out)@ == old(out)@ + spec_encode_str(s@),
        str_encodable(s@),
{
    let bytes: Vec<u8> = s.as_str().as_bytes_vec();
    let n: u64 = bytes.len() as u64;
    let mut prefix: Vec<u8> = u64_to_le_bytes(n);
    out.append(&mut prefix);
    let mut bytes = bytes;
    out.append(&mut bytes);
}

/// Encode one log record as a fresh byte vector.
pub fn encode_op(op: &Op) -> (r: Vec<u8>)
    ensures
        r@ == spec_encode_op(op@),
        op_encodable(op@),
{
    match op {
        Op::Put { key, value } => {
            let mut out: Vec<u8> = u32_to_le_bytes(0u32);
            encode_str_into(&mut out, key);
            encode_str_into(&mut out, value);
            assert(out@ =~= spec_encode_op(op@));
            out
        },
        Op::Rm { key } => {
            let mut out: Vec<u8> = u32_to_le_bytes(1u32);
            encode_str_into(&mut out, key);
            assert(out@ =~= spec_encode_op(op@));
            out
        },
    }
}

/// Decode one text field at `pos`, returning the string and the position
/// just past the field.
pub fn decode_str_at(data: &Vec<u8>, pos: usize) -> (r: Option<(String, usize)>)
    ensures
        match r {
            Some((s, end)) => spec_decode_str_at(data@, pos as int) == Some((s@, end as int)),
            None => spec_decode_str_at(data@, pos as int) is None,
        },
{
    if data.len() < 8 || pos > data.len() - 8 {
        return None;
    }
    let n: u64 = u64_from_le_bytes(slice_subrange(data.as_slice(), pos, pos + 8));
    let remaining: usize = data.len() - (pos + 8);
    if n > remaining as u64 {
        return None;
    }
    let nb: usize = n as usize;
    let bytes: Vec<u8> = slice_to_vec(slice_subrange(data.as_slice(), pos + 8, pos + 8 + nb));
    match string_from_utf8(bytes) {
        Some(s) => Some((s, pos + 8 + nb)),
        None => None,
    }
}

/// Decode one log record at `pos`, returning the operation and the position
/// just past the record.
pub fn decode_op_at(data: &Vec<u8>, pos: usize) -> (r: Option<(Op, usize)>)
    ensures
        match r {
            Some((op, end)) => spec_decode_op_at(data@, pos as int) == Some((op@, end as int)),
            None => spec_decode_op_at(data@, pos as int) is None,
        },
{
    if data.len() < 4 || pos > data.len() - 4 {
        return None;
    }
    let tag: u32 = u32_from_le_bytes(slice_subrange(data.as_slice(), pos, pos + 4));
    if tag == 0 {
        match decode_str_at(data, pos + 4) {
            Some((key, p2)) => match decode_str_at(data, p2) {
                Some((value, p3)) => Some((Op::Put { key, value }, p3)),
                None => None,
            },
            None => None,
        }
    } else if tag == 1 {
        match decode_str_at(data, pos + 4) {
            Some((key, p2)) => Some((Op::Rm { key }, p2)),
            None => None,
        }
    } else {
        None
    }
}

/// Length of an encoded text field: 8 prefix bytes plus the UTF-8 bytes.
pub proof fn lemma_encode_str_len(s: Seq<char>)
    ensures
        spec_encode_str(s).len() == 8 + str_bytes_len(s),
{
    lemma_auto_spec_u64_to_from_le_bytes();
}

/// Length of an encoded record: the 4 tag bytes plus its fields.
pub proof fn lemma_encode_op_len(op: OpView)
    ensures
        op matches OpView::Put { key, value } ==> spec_encode_op(op).len() == 20
            + str_bytes_len(key) + str_bytes_len(value),
        op matches OpView::Rm { key } ==> spec_encode_op(op).len() == 12 + str_bytes_len(key),
        spec_encode_op(op).len() >= 12,
{
    lemma_auto_spec_u32_to_from_le_bytes();
    match op {
        OpView::Put { key, value } => {
            lemma_encode_str_len(key);
            lemma_encode_str_len(value);
        },
        OpView::Rm { key } => {
            lemma_encode_str_len(key);
        },
    }
}

/// An encoded text field sitting at `pos` decodes back to the same string.
pub proof fn lemma_decode_str_encoded(data: Seq<u8>, pos: int, s: Seq<char>)
    requires
        str_encodable(s),
        0 <= pos,
        pos + 8 + str_bytes_len(s) <= data.len(),
        data.subrange(pos, pos + 8 + str_bytes_len(s)) == spec_encode_str(s),
    ensures
        spec_decode_str_at(data, pos) == Some((s, pos + 8 + str_bytes_len(s))),
{
    lemma_auto_spec_u64_to_from_le_bytes();
    let eb = spec_encode_str(s);
    let bl = str_bytes_len(s) as int;
    lemma_encode_str_len(s);
    assert(data.subrange(pos, pos + 8) =~= eb.subrange(0, 8));
    assert(eb.subrange(0, 8) =~= spec_u64_to_le_bytes(str_bytes_len(s) as u64));
    let n = spec_u64_from_le_bytes(data.subrange(pos, pos + 8)) as int;
    assert(n == bl);
    assert(data.subrange(pos + 8, pos + 8 + n) =~= eb.subrange(8, eb.len() as int));
    assert(eb.subrange(8, eb.len() as int) =~= encode_utf8(s));
    broadcast use encode_utf8_valid_utf8, encode_utf8_decode_utf8;

    assert(decode_utf8(data.subrange(pos + 8, pos + 8 + n)) == s);
}

/// If a text field decodes at `pos`, the bytes there are exactly the
/// encoding of the decoded string.
pub proof fn lemma_decode_str_implies(data: Seq<u8>, pos: int)
    requires
        0 <= pos,
    ensures
        spec_decode_str_at(data, pos) matches Some((s, end)) ==> {
            &&& str_encodable(s)
            &&& end == pos + 8 + str_bytes_len(s)
            &&& pos + 8 <= end <= data.len()
            &&& data.subrange(pos, end) == spec_encode_str(s)
        },
{
    lemma_auto_spec_u64_to_from_le_bytes();
    if let Some((s, end)) = spec_decode_str_at(data, pos) {
        let n = spec_u64_from_le_bytes(data.subrange(pos, pos + 8)) as int;
        let bytes = data.subrange(pos + 8, pos + 8 + n);
        broadcast use decode_utf8_encode_utf8;

        assert(encode_utf8(s) == bytes);
        assert(str_bytes_len(s) == n);
        assert(data.subrange(pos, pos + 8).len() == 8);
        assert(spec_u64_to_le_bytes(spec_u64_from_le_bytes(data.subrange(pos, pos + 8)))
            == data.subrange(pos, pos + 8));
        assert(data.subrange(pos, end) =~= data.subrange(pos, pos + 8) + bytes);
    }
}

/// An encoded record sitting at `pos` decodes back to the same operation.
pub proof fn lemma_decode_op_encoded(data: Seq<u8>, pos: int, op: OpView)
    requires
        op_encodable(op),
        0 <= pos,
        pos + spec_encode_op(op).len() <= data.len(),
        data.subrange(pos, pos + spec_encode_op(op).len()) == spec_encode_op(op),
    ensures
        spec_decode_op_at(data, pos) == Some((op, pos + spec_encode_op(op).len())),
{
    lemma_auto_spec_u32_to_from_le_bytes();
    let enc = spec_encode_op(op);
    lemma_encode_op_len(op);
    assert(data.subrange(pos, pos + 4) =~= enc.subrange(0, 4));
    match op {
        OpView::Put { key, value } => {
            let ek = spec_encode_str(key);
            let ev = spec_encode_str(value);
            lemma_encode_str_len(key);
            lemma_encode_str_len(value);
            assert(enc.subrange(0, 4) =~= spec_u32_to_le_bytes(0u32));
            assert(spec_u32_from_le_bytes(data.subrange(pos, pos + 4)) == 0);
            let p1 = pos + 4;
            let p2 = p1 + ek.len();
            assert(data.subrange(p1, p2) =~= enc.subrange(4, 4 + ek.len() as int));
            assert(enc.subrange(4, 4 + ek.len() as int) =~= ek);
            lemma_decode_str_encoded(data, p1, key);
            assert(data.subrange(p2, p2 + ev.len()) =~= enc.subrange(
                4 + ek.len() as int,
                enc.len() as int,
            ));
            assert(enc.subrange(4 + ek.len() as int, enc.len() as int) =~= ev);
            lemma_decode_str_encoded(data, p2, value);
        },
        OpView::Rm { key } => {
            let ek = spec_encode_str(key);
            lemma_encode_str_len(key);
            assert(enc.subrange(0, 4) =~= spec_u32_to_le_bytes(1u32));
            assert(spec_u32_from_le_bytes(data.subrange(pos, pos + 4)) == 1);
            let p1 = pos + 4;
            assert(data.subrange(p1, p1 + ek.len()) =~= enc.subrange(4, enc.len() as int));
            assert(enc.subrange(4, enc.len() as int) =~= ek);
            lemma_decode_str_encoded(data, p1, key);
        },
    }
}

/// If a record decodes at `pos`, the bytes there are exactly the encoding
/// of the decoded operation.
pub proof fn lemma_decode_op_implies(data: Seq<u8>, pos: int)
    requires
        0 <= pos,
    ensures
        spec_decode_op_at(data, pos) matches Some((op, end)) ==> {
            &&& op_encodable(op)
            &&& end == pos + spec_encode_op(op).len()
            &&& pos + 12 <= end <= data.len()
            &&& data.subrange(pos, end) == spec_encode_op(op)
        },
{
    lemma_auto_spec_u32_to_from_le_bytes();
    if let Some((op, end)) = spec_decode_op_at(data, pos) {
        let tagb = data.subrange(pos, pos + 4);
        assert(tagb.len() == 4);
        assert(spec_u32_to_le_bytes(spec_u32_from_le_bytes(tagb)) == tagb);
        let tag = spec_u32_from_le_bytes(tagb);
        lemma_decode_str_implies(data, pos + 4);
        if tag == 0 {
            let (key, p2) = spec_decode_str_at(data, pos + 4)->Some_0;
            lemma_decode_str_implies(data, p2);
            let (value, p3) = spec_decode_str_at(data, p2)->Some_0;
            lemma_encode_op_len(op);
            assert(data.subrange(pos, end) =~= tagb + data.subrange(pos + 4, p2)
                + data.subrange(p2, p3));
        } else {
            let (key, p2) = spec_decode_str_at(data, pos + 4)->Some_0;
            lemma_encode_op_len(op);
            assert(data.subrange(pos, end) =~= tagb + data.subrange(pos + 4, p2));
        }
    }
}

/// Round trip for a single record: encoding then decoding is the identity.
pub proof fn lemma_op_round_trip(op: OpView)
    requires
        op_encodable(op),
    ensures
        spec_decode_op_at(spec_encode_op(op), 0) == Some((
            op,
            spec_encode_op(op).len() as int,
        )),
{
    let enc = spec_encode_op(op);
    assert(enc.subrange(0, enc.len() as int) =~= enc);
    lemma_decode_op_encoded(enc, 0, op);
}

/// The bytes of a whole sequence of records, concatenated in order.
pub open spec fn records_bytes(ops: Seq<OpView>) -> Seq<u8>
    decreases ops.len(),
{
    if ops.len() == 0 {
        Seq::empty()
    } else {
        spec_encode_op(ops.first()) + records_bytes(ops.drop_first())
    }
}

pub open spec fn ops_encodable(ops: Seq<OpView>) -> bool {
    forall|i: int| 0 <= i < ops.len() ==> op_encodable(#[trigger] ops[i])
}

pub proof fn lemma_records_bytes_concat(a: Seq<OpView>, b: Seq<OpView>)
    ensures
        records_bytes(a + b) == records_bytes(a) + records_bytes(b),
    decreases a.len(),
{
    if a.len() == 0 {
        assert(a + b =~= b);
        assert(records_bytes(a) + records_bytes(b) =~= records_bytes(b));
    } else {
        assert((a + b).first() == a.first());
        assert((a + b).drop_first() =~= a.drop_first() + b);
        lemma_records_bytes_concat(a.drop_first(), b);
        assert(records_bytes(a + b) =~= records_bytes(a) + records_bytes(b));
    }
}

pub proof fn lemma_records_bytes_one(op: OpView)
    ensures
        records_bytes(seq![op]) == spec_encode_op(op),
{
    let s = seq![op];
    assert(s.drop_first() =~= Seq::<OpView>::empty());
    assert(records_bytes(Seq::<OpView>::empty()) == Seq::<u8>::empty());
    assert(records_bytes(s) == spec_encode_op(op) + Seq::<u8>::empty());
    assert(spec_encode_op(op) + Seq::<u8>::empty() =~= spec_encode_op(op));
}

/// Appending one record to a stream appends its encoding to the bytes.
pub proof fn lemma_records_bytes_push(ops: Seq<OpView>, op: OpView)
    ensures
        records_bytes(ops.push(op)) == records_bytes(ops) + spec_encode_op(op),
{
    assert(ops.push(op) =~= ops + seq![op]);
    lemma_records_bytes_concat(ops, seq![op]);
    lemma_records_bytes_one(op);
}

/// The records decoded from `data` starting at `pos`: the longest cleanly
/// decodable prefix, stopping at the first position with no valid record.
pub open spec fn spec_decode_records(data: Seq<u8>, pos: int) -> Seq<OpView>
    decreases data.len() - pos,
    when 0 <= pos <= data.len()
{
    match spec_decode_op_at(data, pos) {
        Some((op, end)) => if pos < end <= data.len() {
            seq![op] + spec_decode_records(data, end)
        } else {
            seq![op]
        },
        None => Seq::empty(),
    }
}

/// The position just past the last cleanly decoded record.
pub open spec fn spec_decode_consumed(data: Seq<u8>, pos: int) -> int
    decreases data.len() - pos,
    when 0 <= pos <= data.len()
{
    match spec_decode_op_at(data, pos) {
        Some((op, end)) => if pos < end <= data.len() {
            spec_decode_consumed(data, end)
        } else {
            pos
        },
        None => pos,
    }
}

/// Whatever bytes the decoder consumed are exactly the re-encoding of the
/// records it produced: decoding loses nothing before the cut-off.
pub proof fn lemma_decode_records_parse_back(data: Seq<u8>, pos: int)
    requires
        0 <= pos <= data.len(),
    ensures
        pos <= spec_decode_consumed(data, pos) <= data.len(),
        records_bytes(spec_decode_records(data, pos)) == data.subrange(
            pos,
            spec_decode_consumed(data, pos),
        ),
        ops_encodable(spec_decode_records(data, pos)),
    decreases data.len() - pos,
{
    lemma_decode_op_implies(data, pos);
    match spec_decode_op_at(data, pos) {
        Some((op, end)) => {
            lemma_decode_records_parse_back(data, end);
            let rest = spec_decode_records(data, end);
            let c = spec_decode_consumed(data, end);
            lemma_records_bytes_concat(seq![op], rest);
            lemma_records_bytes_one(op);
            assert(spec_decode_records(data, pos) == seq![op] + rest);
            assert(data.subrange(pos, c) =~= data.subrange(pos, end) + data.subrange(end, c));
            let ops = seq![op] + rest;
            assert forall|i: int| 0 <= i < ops.len() implies op_encodable(#[trigger] ops[i]) by {
                if i > 0 {
                    assert(ops[i] == rest[i - 1]);
                }
            }
        },
        None => {
            assert(records_bytes(spec_decode_records(data, pos)) =~= data.subrange(pos, pos));
        },
    }
}

/// A byte image that is exactly a concatenation of encoded records decodes
/// back to those records, consuming everything.
pub proof fn lemma_decode_records_of_clean(data: Seq<u8>, pos: int, ops: Seq<OpView>)
    requires
        0 <= pos,
        ops_encodable(ops),
        data.len() == pos + records_bytes(ops).len(),
        data.subrange(pos, data.len() as int) == records_bytes(ops),
    ensures
        spec_decode_records(data, pos) == ops,
        spec_decode_consumed(data, pos) == data.len(),
    decreases ops.len(),
{
    if ops.len() == 0 {
        assert(records_bytes(ops).len() == 0);
        assert(spec_decode_op_at(data, pos) is None);
        assert(spec_decode_records(data, pos) =~= ops);
    } else {
        let op = ops.first();
        let rest = ops.drop_first();
        assert(op_encodable(ops[0]));
        let enc = spec_encode_op(op);
        lemma_encode_op_len(op);
        let end = pos + enc.len();
        assert(records_bytes(ops) == enc + records_bytes(rest));
        assert(data.subrange(pos, end) =~= enc) by {
            assert(data.subrange(pos, end) =~= data.subrange(pos, data.len() as int).subrange(
                0,
                enc.len() as int,
            ));
        }
        lemma_decode_op_encoded(data, pos, op);
        assert forall|i: int| 0 <= i < rest.len() implies op_encodable(#[trigger] rest[i]) by {
            assert(rest[i] == ops[i + 1]);
        }
        assert(data.subrange(end, data.len() as int) =~= records_bytes(rest)) by {
            assert(data.subrange(end, data.len() as int) =~= data.subrange(
                pos,
                data.len() as int,
            ).subrange(enc.len() as int, records_bytes(ops).len() as int));
        }
        lemma_decode_records_of_clean(data, end, rest);
        assert(spec_decode_records(data, pos) =~= seq![op] + rest);
        assert(seq![op] + rest =~= ops);
    }
}

} // verus!
