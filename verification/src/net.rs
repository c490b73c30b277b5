//! The messages that client and server exchange, and their form in bytes.
//!
//! One connection carries one request and one response. A message is one tag
//! byte followed by its fields; a string is written as in the log, and an
//! optional string is preceded by one byte that says whether it is present.
//! A payload is a message only if the message takes all of it.

use vstd::prelude::*;
use crate::encoding::{
    encodable, lemma_parse_text_complete, lemma_text_bytes_len, parse_text, put_text, take_text,
    text_bytes,
};

verus! {

/// A request of a client to the server.
#[derive(Debug)]
pub enum KvsRequest {
    /// Asks for the value of `key`.
    Get { key: String },
    /// Asks to set the value of `key` to `value`.
    Put { key: String, value: String },
    /// Asks to remove `key` and its value.
    Remove { key: String },
}

/// What a `KvsRequest` stands for in specifications.
pub enum RequestView {
    Get { key: Seq<char> },
    Put { key: Seq<char>, value: Seq<char> },
    Remove { key: Seq<char> },
}

impl View for KvsRequest {
    type V = RequestView;

    open spec fn view(&self) -> RequestView {
        match self {
            KvsRequest::Get { key } => RequestView::Get { key: key@ },
            KvsRequest::Put { key, value } => RequestView::Put { key: key@, value: value@ },
            KvsRequest::Remove { key } => RequestView::Remove { key: key@ },
        }
    }
}

/// A response of the server to a client.
#[derive(Debug)]
pub enum KvsResponse {
    /// The answer to a `Get`: the value of the key, if it has one.
    Get { value: Option<String> },
    /// The value was set.
    Put,
    /// The key was removed.
    Remove,
    /// The request failed; `message` says why.
    Error { message: String },
}

/// What a `KvsResponse` stands for in specifications.
pub enum ResponseView {
    Get { value: Option<Seq<char>> },
    Put,
    Remove,
    Error { message: Seq<char> },
}

impl View for KvsResponse {
    type V = ResponseView;

    open spec fn view(&self) -> ResponseView {
        match self {
            KvsResponse::Get { value } => ResponseView::Get {
                value: match value {
                    Some(text) => Some(text@),
                    None => None,
                },
            },
            KvsResponse::Put => ResponseView::Put,
            KvsResponse::Remove => ResponseView::Remove,
            KvsResponse::Error { message } => ResponseView::Error { message: message@ },
        }
    }
}

/// The tag byte of a `Get` request.
pub const REQUEST_GET: u8 = 0;

/// The tag byte of a `Put` request.
pub const REQUEST_PUT: u8 = 1;

/// The tag byte of a `Remove` request.
pub const REQUEST_REMOVE: u8 = 2;

/// The tag byte of a `Get` response.
pub const RESPONSE_GET: u8 = 0;

/// The tag byte of a `Put` response.
pub const RESPONSE_PUT: u8 = 1;

/// The tag byte of a `Remove` response.
pub const RESPONSE_REMOVE: u8 = 2;

/// The tag byte of an `Error` response.
pub const RESPONSE_ERROR: u8 = 3;

/// The byte that precedes an optional string that is absent.
pub const ABSENT: u8 = 0;

/// The byte that precedes an optional string that is present.
pub const PRESENT: u8 = 1;

impl RequestView {
    /// Whether every string of the request is short enough to be written.
    pub open spec fn well_sized(self) -> bool {
        match self {
            RequestView::Get { key } => encodable(key),
            RequestView::Put { key, value } => encodable(key) && encodable(value),
            RequestView::Remove { key } => encodable(key),
        }
    }

    /// The payload that carries the request.
    pub open spec fn bytes(self) -> Seq<u8> {
        match self {
            RequestView::Get { key } => seq![REQUEST_GET] + text_bytes(key),
            RequestView::Put { key, value } => seq![REQUEST_PUT] + text_bytes(key) + text_bytes(
                value,
            ),
            RequestView::Remove { key } => seq![REQUEST_REMOVE] + text_bytes(key),
        }
    }
}

impl ResponseView {
    /// Whether every string of the response is short enough to be written.
    pub open spec fn well_sized(self) -> bool {
        match self {
            ResponseView::Get { value: Some(text) } => encodable(text),
            ResponseView::Error { message } => encodable(message),
            _ => true,
        }
    }

    /// The payload that carries the response.
    pub open spec fn bytes(self) -> Seq<u8> {
        match self {
            ResponseView::Get { value: None } => seq![RESPONSE_GET, ABSENT],
            ResponseView::Get { value: Some(text) } => seq![RESPONSE_GET, PRESENT] + text_bytes(
                text,
            ),
            ResponseView::Put => seq![RESPONSE_PUT],
            ResponseView::Remove => seq![RESPONSE_REMOVE],
            ResponseView::Error { message } => seq![RESPONSE_ERROR] + text_bytes(message),
        }
    }
}

/// The request that the payload `bytes` carries, or `None` where it carries
/// none.
pub open spec fn parse_request(bytes: Seq<u8>) -> Option<RequestView> {
    if bytes.len() == 0 {
        None
    } else if bytes[0] == REQUEST_GET {
        match parse_text(bytes, 1) {
            Some((key, end)) if end == bytes.len() => Some(RequestView::Get { key }),
            _ => None,
        }
    } else if bytes[0] == REQUEST_PUT {
        match parse_text(bytes, 1) {
            Some((key, mid)) => match parse_text(bytes, mid) {
                Some((value, end)) if end == bytes.len() => Some(RequestView::Put { key, value }),
                _ => None,
            },
            None => None,
        }
    } else if bytes[0] == REQUEST_REMOVE {
        match parse_text(bytes, 1) {
            Some((key, end)) if end == bytes.len() => Some(RequestView::Remove { key }),
            _ => None,
        }
    } else {
        None
    }
}

/// The response that the payload `bytes` carries, or `None` where it carries
/// none.
pub open spec fn parse_response(bytes: Seq<u8>) -> Option<ResponseView> {
    if bytes.len() == 0 {
        None
    } else if bytes[0] == RESPONSE_GET {
        if bytes.len() == 2 && bytes[1] == ABSENT {
            Some(ResponseView::Get { value: None })
        } else if bytes.len() >= 2 && bytes[1] == PRESENT {
            match parse_text(bytes, 2) {
                Some((text, end)) if end == bytes.len() => Some(
                    ResponseView::Get { value: Some(text) },
                ),
                _ => None,
            }
        } else {
            None
        }
    } else if bytes[0] == RESPONSE_PUT {
        if bytes.len() == 1 {
            Some(ResponseView::Put)
        } else {
            None
        }
    } else if bytes[0] == RESPONSE_REMOVE {
        if bytes.len() == 1 {
            Some(ResponseView::Remove)
        } else {
            None
        }
    } else if bytes[0] == RESPONSE_ERROR {
        match parse_text(bytes, 1) {
            Some((message, end)) if end == bytes.len() => Some(ResponseView::Error { message }),
            _ => None,
        }
    } else {
        None
    }
}

/// A request that is written and read back is the request again.
pub proof fn law_request_round_trip(request: RequestView)
    requires
        request.well_sized(),
    ensures
        parse_request(request.bytes()) == Some(request),
{
    let form = request.bytes();
    match request {
        RequestView::Get { key } => {
            lemma_text_bytes_len(key);
            assert(form.subrange(1, 1 + text_bytes(key).len() as int) =~= text_bytes(key));
            lemma_parse_text_complete(form, 1, key);
        },
        RequestView::Put { key, value } => {
            lemma_text_bytes_len(key);
            lemma_text_bytes_len(value);
            let kn = text_bytes(key).len() as int;
            let vn = text_bytes(value).len() as int;
            assert(form.subrange(1, 1 + kn) =~= text_bytes(key));
            lemma_parse_text_complete(form, 1, key);
            assert(form.subrange(1 + kn, 1 + kn + vn) =~= text_bytes(value));
            lemma_parse_text_complete(form, 1 + kn, value);
        },
        RequestView::Remove { key } => {
            lemma_text_bytes_len(key);
            assert(form.subrange(1, 1 + text_bytes(key).len() as int) =~= text_bytes(key));
            lemma_parse_text_complete(form, 1, key);
        },
    }
}

/// A response that is written and read back is the response again.
pub proof fn law_response_round_trip(response: ResponseView)
    requires
        response.well_sized(),
    ensures
        parse_response(response.bytes()) == Some(response),
{
    let form = response.bytes();
    match response {
        ResponseView::Get { value: Some(text) } => {
            lemma_text_bytes_len(text);
            assert(form.subrange(2, 2 + text_bytes(text).len() as int) =~= text_bytes(text));
            lemma_parse_text_complete(form, 2, text);
        },
        ResponseView::Error { message } => {
            lemma_text_bytes_len(message);
            assert(form.subrange(1, 1 + text_bytes(message).len() as int) =~= text_bytes(
                message,
            ));
            lemma_parse_text_complete(form, 1, message);
        },
        _ => {},
    }
}

impl KvsRequest {
    /// The payload that carries this request.
    pub fn encode(&self) -> (out: Vec<u8>)
        ensures
            out@ == self@.bytes(),
            self@.well_sized(),
    {
        let mut out: Vec<u8> = Vec::new();
        match self {
            KvsRequest::Get { key } => {
                out.push(REQUEST_GET);
                put_text(&mut out, key.as_str());
            },
            KvsRequest::Put { key, value } => {
                out.push(REQUEST_PUT);
                put_text(&mut out, key.as_str());
                put_text(&mut out, value.as_str());
            },
            KvsRequest::Remove { key } => {
                out.push(REQUEST_REMOVE);
                put_text(&mut out, key.as_str());
            },
        }
        assert(out@ =~= self@.bytes());
        out
    }

    /// The request that the payload `bytes` carries, if it carries one.
    pub fn decode(bytes: &[u8]) -> (r: Option<KvsRequest>)
        ensures
            match r {
                Some(request) => parse_request(bytes@) == Some(request@),
                None => parse_request(bytes@) is None,
            },
    {
        if bytes.len() == 0 {
            return None;
        }
        let tag: u8 = bytes[0];
        if tag == REQUEST_GET {
            match take_text(bytes, 1) {
                Some((key, end)) => if end == bytes.len() {
                    Some(KvsRequest::Get { key })
                } else {
                    None
                },
                None => None,
            }
        } else if tag == REQUEST_PUT {
            match take_text(bytes, 1) {
                Some((key, mid)) => match take_text(bytes, mid) {
                    Some((value, end)) => if end == bytes.len() {
                        Some(KvsRequest::Put { key, value })
                    } else {
                        None
                    },
                    None => None,
                },
                None => None,
            }
        } else if tag == REQUEST_REMOVE {
            match take_text(bytes, 1) {
                Some((key, end)) => if end == bytes.len() {
                    Some(KvsRequest::Remove { key })
                } else {
                    None
                },
                None => None,
            }
        } else {
            None
        }
    }
}

impl KvsResponse {
    /// The payload that carries this response.
    pub fn encode(&self) -> (out: Vec<u8>)
        ensures
            out@ == self@.bytes(),
            self@.well_sized(),
    {
        let mut out: Vec<u8> = Vec::new();
        match self {
            KvsResponse::Get { value } => {
                out.push(RESPONSE_GET);
                match value {
                    Some(text) => {
                        out.push(PRESENT);
                        put_text(&mut out, text.as_str());
                    },
                    None => {
                        out.push(ABSENT);
                    },
                }
            },
            KvsResponse::Put => {
                out.push(RESPONSE_PUT);
            },
            KvsResponse::Remove => {
                out.push(RESPONSE_REMOVE);
            },
            KvsResponse::Error { message } => {
                out.push(RESPONSE_ERROR);
                put_text(&mut out, message.as_str());
            },
        }
        assert(out@ =~= self@.bytes());
        out
    }

    /// The response that the payload `bytes` carries, if it carries one.
    pub fn decode(bytes: &[u8]) -> (r: Option<KvsResponse>)
        ensures
            match r {
                Some(response) => parse_response(bytes@) == Some(response@),
                None => parse_response(bytes@) is None,
            },
    {
        if bytes.len() == 0 {
            return None;
        }
        let tag: u8 = bytes[0];
        if tag == RESPONSE_GET {
            if bytes.len() < 2 {
                None
            } else if bytes[1] == ABSENT {
                if bytes.len() == 2 {
                    Some(KvsResponse::Get { value: None })
                } else {
                    None
                }
            } else if bytes[1] == PRESENT {
                match take_text(bytes, 2) {
                    Some((text, end)) => if end == bytes.len() {
                        Some(KvsResponse::Get { value: Some(text) })
                    } else {
                        None
                    },
                    None => None,
                }
            } else {
                None
            }
        } else if tag == RESPONSE_PUT {
            if bytes.len() == 1 {
                Some(KvsResponse::Put)
            } else {
                None
            }
        } else if tag == RESPONSE_REMOVE {
            if bytes.len() == 1 {
                Some(KvsResponse::Remove)
            } else {
                None
            }
        } else if tag == RESPONSE_ERROR {
            match take_text(bytes, 1) {
                Some((message, end)) => if end == bytes.len() {
                    Some(KvsResponse::Error { message })
                } else {
                    None
                },
                None => None,
            }
        } else {
            None
        }
    }
}

} // verus!
