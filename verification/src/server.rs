//! What the server does with one request: decode it, hand it to the engine,
//! and encode the response.

use vstd::prelude::*;
use crate::engine::{text_of, value_of, KvsEngine};
use crate::error::KvsError;
use crate::net::{
    law_response_round_trip, parse_request, parse_response, KvsRequest, KvsResponse, RequestView,
    ResponseView,
};

verus! {

/// What an engine that holds `contents`, and whose operations fail for no
/// outside reason, answers to `request`, and what it holds afterwards.
pub open spec fn outcome(contents: Map<Seq<char>, Seq<char>>, request: RequestView) -> (
    ResponseView,
    Map<Seq<char>, Seq<char>>,
) {
    match request {
        RequestView::Get { key } => (
            ResponseView::Get { value: value_of(contents, key) },
            contents,
        ),
        RequestView::Put { key, value } => (ResponseView::Put, contents.insert(key, value)),
        RequestView::Remove { key } => if contents.contains_key(key) {
            (ResponseView::Remove, contents.remove(key))
        } else {
            (
                ResponseView::Error { message: KvsError::BadRemovalError.message_spec() },
                contents,
            )
        },
    }
}

/// The response to a `Get` whose result from the engine is `result`: the
/// value found, or the text of the error.
pub fn response_to_get(result: Result<Option<String>, KvsError>) -> (response: KvsResponse)
    ensures
        response@ == match result {
            Ok(found) => ResponseView::Get { value: text_of(found) },
            Err(e) => ResponseView::Error { message: e.message_spec() },
        },
{
    match result {
        Ok(value) => KvsResponse::Get { value },
        Err(e) => KvsResponse::Error { message: e.message() },
    }
}

/// The response to a `Put` whose result from the engine is `result`.
pub fn response_to_set(result: Result<(), KvsError>) -> (response: KvsResponse)
    ensures
        response@ == match result {
            Ok(_) => ResponseView::Put,
            Err(e) => ResponseView::Error { message: e.message_spec() },
        },
{
    match result {
        Ok(_) => KvsResponse::Put,
        Err(e) => KvsResponse::Error { message: e.message() },
    }
}

/// The response to a `Remove` whose result from the engine is `result`.
pub fn response_to_remove(result: Result<(), KvsError>) -> (response: KvsResponse)
    ensures
        response@ == match result {
            Ok(_) => ResponseView::Remove,
            Err(e) => ResponseView::Error { message: e.message_spec() },
        },
{
    match result {
        Ok(_) => KvsResponse::Remove,
        Err(e) => KvsResponse::Error { message: e.message() },
    }
}

/// Hands `request` to the engine and turns the result into a response. An
/// error of the engine becomes an `Error` response that carries its text.
pub fn respond<E: KvsEngine>(engine: &mut E, request: KvsRequest) -> (response: KvsResponse)
    requires
        old(engine).valid(),
    ensures
        final(engine).valid(),
        final(engine).model() is Some == old(engine).model() is Some,
        old(engine).model() matches Some(contents) ==> (response@, final(engine).model())
            == (outcome(contents, request@).0, Some(outcome(contents, request@).1)),
{
    match request {
        KvsRequest::Get { key } => {
            let result = engine.get(key);
            response_to_get(result)
        },
        KvsRequest::Put { key, value } => {
            let result = engine.set(key, value);
            response_to_set(result)
        },
        KvsRequest::Remove { key } => {
            let result = engine.remove(key);
            response_to_remove(result)
        },
    }
}

/// Serves the request that `payload` carries. A payload that carries no
/// request gets no reply and leaves the engine as it is; any other gets the
/// payload of the response.
pub fn handle_request<E: KvsEngine>(engine: &mut E, payload: &[u8]) -> (reply: Option<Vec<u8>>)
    requires
        old(engine).valid(),
    ensures
        final(engine).valid(),
        final(engine).model() is Some == old(engine).model() is Some,
        reply is Some == parse_request(payload@) is Some,
        reply matches Some(bytes) ==> parse_response(bytes@) is Some && parse_response(
            bytes@,
        ).unwrap().bytes() == bytes@,
        old(engine).model() matches Some(contents) ==> match parse_request(payload@) {
            None => final(engine).model() == Some(contents),
            Some(request) => {
                &&& reply matches Some(bytes)
                &&& bytes@ == outcome(contents, request).0.bytes()
                &&& final(engine).model() == Some(outcome(contents, request).1)
            },
        },
{
    match KvsRequest::decode(payload) {
        None => None,
        Some(request) => {
            let response = respond(engine, request);
            let bytes = response.encode();
            proof {
                law_response_round_trip(response@);
            }
            Some(bytes)
        },
    }
}

} // verus!
