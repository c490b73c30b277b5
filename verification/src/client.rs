//! What the client does around the connection: write the request, read the
//! reply, and decide what to tell the user.

use vstd::prelude::*;
use vstd::string::*;
use crate::error::KvsError;
use crate::net::{parse_response, KvsRequest, KvsResponse, ResponseView};

verus! {

/// What the client tells the user once the response is in.
#[derive(Debug)]
pub struct Report {
    /// The line for the normal stream, if any.
    pub output: Option<String>,
    /// The line for the error stream, if any.
    pub error: Option<String>,
    /// The exit code of the process.
    pub exit_code: i32,
}

/// What a `Report` stands for in specifications.
pub struct ReportView {
    pub output: Option<Seq<char>>,
    pub error: Option<Seq<char>>,
    pub exit_code: i32,
}

impl View for Report {
    type V = ReportView;

    open spec fn view(&self) -> ReportView {
        ReportView {
            output: match self.output {
                Some(text) => Some(text@),
                None => None,
            },
            error: match self.error {
                Some(text) => Some(text@),
                None => None,
            },
            exit_code: self.exit_code,
        }
    }
}

/// The report that belongs to a response. A value found is printed; a key
/// without value gives a notice on the normal stream; an error is printed on
/// the error stream and makes the process fail.
pub open spec fn report_of(response: ResponseView) -> ReportView {
    match response {
        ResponseView::Get { value: Some(text) } => ReportView {
            output: Some(text),
            error: None,
            exit_code: 0,
        },
        ResponseView::Get { value: None } => ReportView {
            output: Some("Key not found"@),
            error: None,
            exit_code: 0,
        },
        ResponseView::Error { message } => ReportView {
            output: None,
            error: Some(message),
            exit_code: 1,
        },
        _ => ReportView { output: None, error: None, exit_code: 0 },
    }
}

/// The payload to send for `request`.
pub fn request_payload(request: &KvsRequest) -> (payload: Vec<u8>)
    ensures
        payload@ == request@.bytes(),
        request@.well_sized(),
{
    request.encode()
}

/// The response that the reply `payload` carries. A payload that carries no
/// response is a serialization error.
pub fn read_reply(payload: &[u8]) -> (r: Result<KvsResponse, KvsError>)
    ensures
        match r {
            Ok(response) => parse_response(payload@) == Some(response@),
            Err(KvsError::SerdeError(detail)) => parse_response(payload@) is None && detail@
                == "the reply carries no response"@,
            Err(_) => false,
        },
{
    match KvsResponse::decode(payload) {
        Some(response) => Ok(response),
        None => Err(KvsError::SerdeError(String::from_str("the reply carries no response"))),
    }
}

/// What to tell the user about `response`.
pub fn report(response: KvsResponse) -> (r: Report)
    ensures
        r@ == report_of(response@),
{
    match response {
        KvsResponse::Get { value: Some(text) } => Report {
            output: Some(text),
            error: None,
            exit_code: 0,
        },
        KvsResponse::Get { value: None } => Report {
            output: Some(String::from_str("Key not found")),
            error: None,
            exit_code: 0,
        },
        KvsResponse::Error { message } => Report {
            output: None,
            error: Some(message),
            exit_code: 1,
        },
        _ => Report { output: None, error: None, exit_code: 0 },
    }
}

} // verus!
