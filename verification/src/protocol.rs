//! The wire protocol: request and response value types and their binary
//! encoding, in the same tag-plus-length-prefixed-text format as the log.
//!
//! Exactly one request travels per connection, answered by exactly one
//! response of the matching kind. Tags count up in declaration order; an
//! `Option` is one discriminator byte, possibly followed by a text field.

use vstd::prelude::*;
use vstd::bytes::{spec_u32_to_le_bytes, spec_u32_from_le_bytes, u32_to_le_bytes, u32_from_le_bytes};
use vstd::slice::slice_subrange;
use crate::codec::{
    decode_str_at, encode_str_into, lemma_decode_str_encoded, lemma_encode_str_len,
    spec_decode_str_at, spec_encode_str, str_encodable,
};
use crate::error::{spec_message, Error};

verus! {

/// A database command that can be sent across the network.
#[derive(Debug)]
pub enum Request {
    Put { key: String, value: String },
    Get { key: String },
    Remove { key: String },
}

pub enum RequestView {
    Put { key: Seq<char>, value: Seq<char> },
    Get { key: Seq<char> },
    Remove { key: Seq<char> },
}

impl View for Request {
    type V = RequestView;

    open spec fn view(&self) -> RequestView {
        match self {
            Request::Put { key, value } => RequestView::Put { key: key@, value: value@ },
            Request::Get { key } => RequestView::Get { key: key@ },
            Request::Remove { key } => RequestView::Remove { key: key@ },
        }
    }
}

/// The server's answer to a `Put` request.
#[derive(Debug)]
pub enum SetResponse {
    Okay,
    Failed(String),
}

pub enum SetResponseView {
    Okay,
    Failed(Seq<char>),
}

impl View for SetResponse {
    type V = SetResponseView;

    open spec fn view(&self) -> SetResponseView {
        match self {
            SetResponse::Okay => SetResponseView::Okay,
            SetResponse::Failed(msg) => SetResponseView::Failed(msg@),
        }
    }
}

/// The server's answer to a `Get` request.
#[derive(Debug)]
pub enum GetResponse {
    Okay(Option<String>),
    Failed(String),
}

pub enum GetResponseView {
    Okay(Option<Seq<char>>),
    Failed(Seq<char>),
}

impl View for GetResponse {
    type V = GetResponseView;

    open spec fn view(&self) -> GetResponseView {
        match self {
            GetResponse::Okay(o) => GetResponseView::Okay(
                match o {
                    Some(s) => Some(s@),
                    None => None,
                },
            ),
            GetResponse::Failed(msg) => GetResponseView::Failed(msg@),
        }
    }
}

/// The server's answer to a `Remove` request.
#[derive(Debug)]
pub enum RemoveResponse {
    Okay,
    Failed(String),
}

pub enum RemoveResponseView {
    Okay,
    Failed(Seq<char>),
}

impl View for RemoveResponse {
    type V = RemoveResponseView;

    open spec fn view(&self) -> RemoveResponseView {
        match self {
            RemoveResponse::Okay => RemoveResponseView::Okay,
            RemoveResponse::Failed(msg) => RemoveResponseView::Failed(msg@),
        }
    }
}

pub open spec fn request_encodable(r: RequestView) -> bool {
    match r {
        RequestView::Put { key, value } => str_encodable(key) && str_encodable(value),
        RequestView::Get { key } => str_encodable(key),
        RequestView::Remove { key } => str_encodable(key),
    }
}

/// Encoding of a request: `Put` has tag 0, `Get` tag 1, `Remove` tag 2.
pub open spec fn spec_encode_request(r: RequestView) -> Seq<u8> {
    match r {
        RequestView::Put { key, value } => spec_u32_to_le_bytes(0u32) + spec_encode_str(key)
            + spec_encode_str(value),
        RequestView::Get { key } => spec_u32_to_le_bytes(1u32) + spec_encode_str(key),
        RequestView::Remove { key } => spec_u32_to_le_bytes(2u32) + spec_encode_str(key),
    }
}

pub open spec fn spec_decode_request_at(data: Seq<u8>, pos: int) -> Option<(RequestView, int)> {
    if pos + 4 > data.len() {
        None
    } else {
        let tag = spec_u32_from_le_bytes(data.subrange(pos, pos + 4));
        if tag == 0 {
            match spec_decode_str_at(data, pos + 4) {
                Some((key, p2)) => match spec_decode_str_at(data, p2) {
                    Some((value, p3)) => Some((RequestView::Put { key, value }, p3)),
                    None => None,
                },
                None => None,
            }
        } else if tag == 1 {
            match spec_decode_str_at(data, pos + 4) {
                Some((key, p2)) => Some((RequestView::Get { key }, p2)),
                None => None,
            }
        } else if tag == 2 {
            match spec_decode_str_at(data, pos + 4) {
                Some((key, p2)) => Some((RequestView::Remove { key }, p2)),
                None => None,
            }
        } else {
            None
        }
    }
}

/// Encoding of a set response: `Okay` has tag 0 and no payload, `Failed`
/// tag 1 followed by its message.
pub open spec fn spec_encode_set_response(r: SetResponseView) -> Seq<u8> {
    match r {
        SetResponseView::Okay => spec_u32_to_le_bytes(0u32),
        SetResponseView::Failed(msg) => spec_u32_to_le_bytes(1u32) + spec_encode_str(msg),
    }
}

pub open spec fn spec_decode_set_response_at(data: Seq<u8>, pos: int) -> Option<(
    SetResponseView,
    int,
)> {
    if pos + 4 > data.len() {
        None
    } else {
        let tag = spec_u32_from_le_bytes(data.subrange(pos, pos + 4));
        if tag == 0 {
            Some((SetResponseView::Okay, pos + 4))
        } else if tag == 1 {
            match spec_decode_str_at(data, pos + 4) {
                Some((msg, p2)) => Some((SetResponseView::Failed(msg), p2)),
                None => None,
            }
        } else {
            None
        }
    }
}

/// Encoding of a get response: `Okay` is tag 0 then one discriminator byte
/// (0 absent, 1 present) and, when present, the value; `Failed` is tag 1
/// and its message.
pub open spec fn spec_encode_get_response(r: GetResponseView) -> Seq<u8> {
    match r {
        GetResponseView::Okay(o) => match o {
            None => spec_u32_to_le_bytes(0u32) + seq![0u8],
            Some(s) => spec_u32_to_le_bytes(0u32) + seq![1u8] + spec_encode_str(s),
        },
        GetResponseView::Failed(msg) => spec_u32_to_le_bytes(1u32) + spec_encode_str(msg),
    }
}

pub open spec fn spec_decode_get_response_at(data: Seq<u8>, pos: int) -> Option<(
    GetResponseView,
    int,
)> {
    if pos + 4 > data.len() {
        None
    } else {
        let tag = spec_u32_from_le_bytes(data.subrange(pos, pos + 4));
        if tag == 0 {
            if pos + 5 > data.len() {
                None
            } else if data[pos + 4] == 0 {
                Some((GetResponseView::Okay(None), pos + 5))
            } else if data[pos + 4] == 1 {
                match spec_decode_str_at(data, pos + 5) {
                    Some((s, p2)) => Some((GetResponseView::Okay(Some(s)), p2)),
                    None => None,
                }
            } else {
                None
            }
        } else if tag == 1 {
            match spec_decode_str_at(data, pos + 4) {
                Some((msg, p2)) => Some((GetResponseView::Failed(msg), p2)),
                None => None,
            }
        } else {
            None
        }
    }
}

pub open spec fn spec_encode_remove_response(r: RemoveResponseView) -> Seq<u8> {
    match r {
        RemoveResponseView::Okay => spec_u32_to_le_bytes(0u32),
        RemoveResponseView::Failed(msg) => spec_u32_to_le_bytes(1u32) + spec_encode_str(msg),
    }
}

pub open spec fn spec_decode_remove_response_at(data: Seq<u8>, pos: int) -> Option<(
    RemoveResponseView,
    int,
)> {
    if pos + 4 > data.len() {
        None
    } else {
        let tag = spec_u32_from_le_bytes(data.subrange(pos, pos + 4));
        if tag == 0 {
            Some((RemoveResponseView::Okay, pos + 4))
        } else if tag == 1 {
            match spec_decode_str_at(data, pos + 4) {
                Some((msg, p2)) => Some((RemoveResponseView::Failed(msg), p2)),
                None => None,
            }
        } else {
            None
        }
    }
}

pub fn encode_request(r: &Request) -> (out: Vec<u8>)
    ensures
        out@ == spec_encode_request(r@),
        request_encodable(r@),
{
    match r {
        Request::Put { key, value } => {
            let mut out: Vec<u8> = u32_to_le_bytes(0u32);
            encode_str_into(&mut out, key);
            encode_str_into(&mut out, value);
            assert(out@ =~= spec_encode_request(r@));
            out
        },
        Request::Get { key } => {
            let mut out: Vec<u8> = u32_to_le_bytes(1u32);
            encode_str_into(&mut out, key);
            assert(out@ =~= spec_encode_request(r@));
            out
        },
        Request::Remove { key } => {
            let mut out: Vec<u8> = u32_to_le_bytes(2u32);
            encode_str_into(&mut out, key);
            assert(out@ =~= spec_encode_request(r@));
            out
        },
    }
}

pub fn decode_request_at(data: &Vec<u8>, pos: usize) -> (r: Option<(Request, usize)>)
    ensures
        match r {
            Some((req, end)) => spec_decode_request_at(data@, pos as int) == Some((
                req@,
                end as int,
            )),
            None => spec_decode_request_at(data@, pos as int) is None,
        },
{
    if data.len() < 4 || pos > data.len() - 4 {
        return None;
    }
    let tag: u32 = u32_from_le_bytes(slice_subrange(data.as_slice(), pos, pos + 4));
    if tag == 0 {
        match decode_str_at(data, pos + 4) {
            Some((key, p2)) => match decode_str_at(data, p2) {
                Some((value, p3)) => Some((Request::Put { key, value }, p3)),
                None => None,
            },
            None => None,
        }
    } else if tag == 1 {
        match decode_str_at(data, pos + 4) {
            Some((key, p2)) => Some((Request::Get { key }, p2)),
            None => None,
        }
    } else if tag == 2 {
        match decode_str_at(data, pos + 4) {
            Some((key, p2)) => Some((Request::Remove { key }, p2)),
            None => None,
        }
    } else {
        None
    }
}

pub fn encode_set_response(r: &SetResponse) -> (out: Vec<u8>)
    ensures
        out@ == spec_encode_set_response(r@),
        r@ matches SetResponseView::Failed(m) ==> str_encodable(m),
{
    match r {
        SetResponse::Okay => u32_to_le_bytes(0u32),
        SetResponse::Failed(msg) => {
            let mut out: Vec<u8> = u32_to_le_bytes(1u32);
            encode_str_into(&mut out, msg);
            assert(out@ =~= spec_encode_set_response(r@));
            out
        },
    }
}

pub fn decode_set_response_at(data: &Vec<u8>, pos: usize) -> (r: Option<(SetResponse, usize)>)
    ensures
        match r {
            Some((resp, end)) => spec_decode_set_response_at(data@, pos as int) == Some((
                resp@,
                end as int,
            )),
            None => spec_decode_set_response_at(data@, pos as int) is None,
        },
{
    if data.len() < 4 || pos > data.len() - 4 {
        return None;
    }
    let tag: u32 = u32_from_le_bytes(slice_subrange(data.as_slice(), pos, pos + 4));
    if tag == 0 {
        Some((SetResponse::Okay, pos + 4))
    } else if tag == 1 {
        match decode_str_at(data, pos + 4) {
            Some((msg, p2)) => Some((SetResponse::Failed(msg), p2)),
            None => None,
        }
    } else {
        None
    }
}

pub fn encode_get_response(r: &GetResponse) -> (out: Vec<u8>)
    ensures
        out@ == spec_encode_get_response(r@),
        r@ matches GetResponseView::Okay(o) ==> (o matches Some(s) ==> str_encodable(s)),
        r@ matches GetResponseView::Failed(m) ==> str_encodable(m),
{
    match r {
        GetResponse::Okay(o) => {
            let mut out: Vec<u8> = u32_to_le_bytes(0u32);
            match o {
                None => {
                    out.push(0u8);
                    assert(out@ =~= spec_encode_get_response(r@));
                },
                Some(s) => {
                    out.push(1u8);
                    encode_str_into(&mut out, s);
                    assert(out@ =~= spec_encode_get_response(r@));
                },
            }
            out
        },
        GetResponse::Failed(msg) => {
            let mut out: Vec<u8> = u32_to_le_bytes(1u32);
            encode_str_into(&mut out, msg);
            assert(out@ =~= spec_encode_get_response(r@));
            out
        },
    }
}

pub fn decode_get_response_at(data: &Vec<u8>, pos: usize) -> (r: Option<(GetResponse, usize)>)
    ensures
        match r {
            Some((resp, end)) => spec_decode_get_response_at(data@, pos as int) == Some((
                resp@,
                end as int,
            )),
            None => spec_decode_get_response_at(data@, pos as int) is None,
        },
{
    if data.len() < 4 || pos > data.len() - 4 {
        return None;
    }
    let tag: u32 = u32_from_le_bytes(slice_subrange(data.as_slice(), pos, pos + 4));
    if tag == 0 {
        if pos + 4 >= data.len() {
            return None;
        }
        let disc = data[pos + 4];
        if disc == 0 {
            Some((GetResponse::Okay(None), pos + 5))
        } else if disc == 1 {
            match decode_str_at(data, pos + 5) {
                Some((s, p2)) => Some((GetResponse::Okay(Some(s)), p2)),
                None => None,
            }
        } else {
            None
        }
    } else if tag == 1 {
        match decode_str_at(data, pos + 4) {
            Some((msg, p2)) => Some((GetResponse::Failed(msg), p2)),
            None => None,
        }
    } else {
        None
    }
}

pub fn encode_remove_response(r: &RemoveResponse) -> (out: Vec<u8>)
    ensures
        out@ == spec_encode_remove_response(r@),
        r@ matches RemoveResponseView::Failed(m) ==> str_encodable(m),
{
    match r {
        RemoveResponse::Okay => u32_to_le_bytes(0u32),
        RemoveResponse::Failed(msg) => {
            let mut out: Vec<u8> = u32_to_le_bytes(1u32);
            encode_str_into(&mut out, msg);
            assert(out@ =~= spec_encode_remove_response(r@));
            out
        },
    }
}

pub fn decode_remove_response_at(data: &Vec<u8>, pos: usize) -> (r: Option<(
    RemoveResponse,
    usize,
)>)
    ensures
        match r {
            Some((resp, end)) => spec_decode_remove_response_at(data@, pos as int) == Some((
                resp@,
                end as int,
            )),
            None => spec_decode_remove_response_at(data@, pos as int) is None,
        },
{
    if data.len() < 4 || pos > data.len() - 4 {
        return None;
    }
    let tag: u32 = u32_from_le_bytes(slice_subrange(data.as_slice(), pos, pos + 4));
    if tag == 0 {
        Some((RemoveResponse::Okay, pos + 4))
    } else if tag == 1 {
        match decode_str_at(data, pos + 4) {
            Some((msg, p2)) => Some((RemoveResponse::Failed(msg), p2)),
            None => None,
        }
    } else {
        None
    }
}

impl SetResponse {
    /// The response the server sends for the outcome of a `set`.
    pub fn from_result(res: Result<(), Error>) -> (r: SetResponse)
        ensures
            res is Ok ==> r is Okay,
            res matches Err(e) ==> (r matches SetResponse::Failed(m) && m@ == spec_message(e)),
    {
        match res {
            Ok(()) => SetResponse::Okay,
            Err(e) => SetResponse::Failed(e.to_message()),
        }
    }

    /// What a client makes of the response: a remote failure message
    /// becomes a `Server` error.
    pub fn into_result(self) -> (r: Result<(), Error>)
        ensures
            self is Okay ==> r is Ok,
            self matches SetResponse::Failed(m) ==> (r matches Err(e) && e matches Error::Server {
                msg,
            } && msg@ == m@),
    {
        match self {
            SetResponse::Okay => Ok(()),
            SetResponse::Failed(msg) => Err(Error::Server { msg }),
        }
    }
}

impl GetResponse {
    /// The response the server sends for the outcome of a `get`.
    pub fn from_result(res: Result<Option<String>, Error>) -> (r: GetResponse)
        ensures
            res matches Ok(o) ==> (r matches GetResponse::Okay(o2) && o2 == o),
            res matches Err(e) ==> (r matches GetResponse::Failed(m) && m@ == spec_message(e)),
    {
        match res {
            Ok(o) => GetResponse::Okay(o),
            Err(e) => GetResponse::Failed(e.to_message()),
        }
    }

    pub fn into_result(self) -> (r: Result<Option<String>, Error>)
        ensures
            self matches GetResponse::Okay(o) ==> r == Ok::<Option<String>, Error>(o),
            self matches GetResponse::Failed(m) ==> (r matches Err(e) && e matches Error::Server {
                msg,
            } && msg@ == m@),
    {
        match self {
            GetResponse::Okay(o) => Ok(o),
            GetResponse::Failed(msg) => Err(Error::Server { msg }),
        }
    }
}

impl RemoveResponse {
    /// The response the server sends for the outcome of a `remove`.
    pub fn from_result(res: Result<(), Error>) -> (r: RemoveResponse)
        ensures
            res is Ok ==> r is Okay,
            res matches Err(e) ==> (r matches RemoveResponse::Failed(m) && m@ == spec_message(
                e,
            )),
    {
        match res {
            Ok(()) => RemoveResponse::Okay,
            Err(e) => RemoveResponse::Failed(e.to_message()),
        }
    }

    pub fn into_result(self) -> (r: Result<(), Error>)
        ensures
            self is Okay ==> r is Ok,
            self matches RemoveResponse::Failed(m) ==> (r matches Err(e)
                && e matches Error::Server { msg } && msg@ == m@),
    {
        match self {
            RemoveResponse::Okay => Ok(()),
            RemoveResponse::Failed(msg) => Err(Error::Server { msg }),
        }
    }
}

/// Round trip for a request: encoding then decoding is the identity.
pub proof fn lemma_request_round_trip(r: RequestView)
    requires
        request_encodable(r),
    ensures
        spec_decode_request_at(spec_encode_request(r), 0) == Some((
            r,
            spec_encode_request(r).len() as int,
        )),
{
    vstd::bytes::lemma_auto_spec_u32_to_from_le_bytes();
    let enc = spec_encode_request(r);
    match r {
        RequestView::Put { key, value } => {
            lemma_encode_str_len(key);
            lemma_encode_str_len(value);
            let ek = spec_encode_str(key);
            let ev = spec_encode_str(value);
            assert(enc.subrange(0, 4) =~= spec_u32_to_le_bytes(0u32));
            assert(enc.subrange(4, 4 + ek.len() as int) =~= ek);
            lemma_decode_str_encoded(enc, 4, key);
            assert(enc.subrange(4 + ek.len() as int, enc.len() as int) =~= ev);
            lemma_decode_str_encoded(enc, 4 + ek.len() as int, value);
        },
        RequestView::Get { key } => {
            lemma_encode_str_len(key);
            assert(enc.subrange(0, 4) =~= spec_u32_to_le_bytes(1u32));
            assert(enc.subrange(4, enc.len() as int) =~= spec_encode_str(key));
            lemma_decode_str_encoded(enc, 4, key);
        },
        RequestView::Remove { key } => {
            lemma_encode_str_len(key);
            assert(enc.subrange(0, 4) =~= spec_u32_to_le_bytes(2u32));
            assert(enc.subrange(4, enc.len() as int) =~= spec_encode_str(key));
            lemma_decode_str_encoded(enc, 4, key);
        },
    }
}

/// Round trip for a set response.
pub proof fn lemma_set_response_round_trip(r: SetResponseView)
    requires
        r matches SetResponseView::Failed(m) ==> str_encodable(m),
    ensures
        spec_decode_set_response_at(spec_encode_set_response(r), 0) == Some((
            r,
            spec_encode_set_response(r).len() as int,
        )),
{
    vstd::bytes::lemma_auto_spec_u32_to_from_le_bytes();
    let enc = spec_encode_set_response(r);
    match r {
        SetResponseView::Okay => {
            assert(enc.subrange(0, 4) =~= spec_u32_to_le_bytes(0u32));
        },
        SetResponseView::Failed(m) => {
            lemma_encode_str_len(m);
            assert(enc.subrange(0, 4) =~= spec_u32_to_le_bytes(1u32));
            assert(enc.subrange(4, enc.len() as int) =~= spec_encode_str(m));
            lemma_decode_str_encoded(enc, 4, m);
        },
    }
}

/// Round trip for a get response.
pub proof fn lemma_get_response_round_trip(r: GetResponseView)
    requires
        r matches GetResponseView::Okay(o) ==> (o matches Some(s) ==> str_encodable(s)),
        r matches GetResponseView::Failed(m) ==> str_encodable(m),
    ensures
        spec_decode_get_response_at(spec_encode_get_response(r), 0) == Some((
            r,
            spec_encode_get_response(r).len() as int,
        )),
{
    vstd::bytes::lemma_auto_spec_u32_to_from_le_bytes();
    let enc = spec_encode_get_response(r);
    match r {
        GetResponseView::Okay(o) => {
            match o {
                None => {
                    assert(enc.subrange(0, 4) =~= spec_u32_to_le_bytes(0u32));
                    assert(enc[4] == 0u8);
                },
                Some(s) => {
                    lemma_encode_str_len(s);
                    assert(enc.subrange(0, 4) =~= spec_u32_to_le_bytes(0u32));
                    assert(enc[4] == 1u8);
                    assert(enc.subrange(5, enc.len() as int) =~= spec_encode_str(s));
                    lemma_decode_str_encoded(enc, 5, s);
                },
            }
        },
        GetResponseView::Failed(m) => {
            lemma_encode_str_len(m);
            assert(enc.subrange(0, 4) =~= spec_u32_to_le_bytes(1u32));
            assert(enc.subrange(4, enc.len() as int) =~= spec_encode_str(m));
            lemma_decode_str_encoded(enc, 4, m);
        },
    }
}

/// Round trip for a remove response.
pub proof fn lemma_remove_response_round_trip(r: RemoveResponseView)
    requires
        r matches RemoveResponseView::Failed(m) ==> str_encodable(m),
    ensures
        spec_decode_remove_response_at(spec_encode_remove_response(r), 0) == Some((
            r,
            spec_encode_remove_response(r).len() as int,
        )),
{
    vstd::bytes::lemma_auto_spec_u32_to_from_le_bytes();
    let enc = spec_encode_remove_response(r);
    match r {
        RemoveResponseView::Okay => {
            assert(enc.subrange(0, 4) =~= spec_u32_to_le_bytes(0u32));
        },
        RemoveResponseView::Failed(m) => {
            lemma_encode_str_len(m);
            assert(enc.subrange(0, 4) =~= spec_u32_to_le_bytes(1u32));
            assert(enc.subrange(4, enc.len() as int) =~= spec_encode_str(m));
            lemma_decode_str_encoded(enc, 4, m);
        },
    }
}

} // verus!
