//! What a connection is answered with: the response a handler gave, the fixed
//! 404 when none claimed the request, or a 500 that carries the failure.
use vstd::prelude::*;
use vstd::utf8::*;
use crate::middleware::{content_response, server_header};
use crate::text::decimal;
use crate::request::{Fail, ParseFailure, RequestParseError};
use crate::response::{push_bytes, Response};

verus! {

/// The body of the 404 response.
pub open spec fn not_found_body() -> Seq<u8> {
    encode_utf8("This URI was not handled by any middleware."@)
}

/// `resp` has the status line `code message`, `body`, and the headers
/// `server` and `Content-Length`.
pub open spec fn fallback(resp: Response, code: u16, message: Seq<char>, body: Seq<u8>) -> bool {
    &&& resp.status_code == code
    &&& resp.status_message@ == message
    &&& resp.body@ == body
    &&& resp.headers_view() == seq![server_header(), ("Content-Length"@, decimal(body.len()))]
    &&& resp.wf()
}

/// The response when no handler claims a request.
pub fn not_found_response() -> (r: Response)
    ensures
        fallback(r, 404, "Not Found"@, not_found_body()),
{
    let body = "This URI was not handled by any middleware.".as_bytes();
    let mut b: Vec<u8> = Vec::new();
    push_bytes(&mut b, body);
    let r = content_response(b, None);
    assert(seq![server_header()] + Seq::empty() + seq![("Content-Length"@, decimal(b@.len()))] =~= seq![
        server_header(),
        ("Content-Length"@, decimal(b@.len())),
    ]);
    let r = r.with_status_code(404).with_status_message("Not Found".to_owned());
    r
}

/// The response for a failure, whose description is `description`.
pub fn server_error_response(description: Vec<u8>) -> (r: Response)
    ensures
        fallback(r, 500, "Server Error"@, description@),
{
    let ghost d = description@;
    let r = content_response(description, None);
    assert(seq![server_header()] + Seq::empty() + seq![("Content-Length"@, decimal(d.len()))] =~= seq![
        server_header(),
        ("Content-Length"@, decimal(d.len())),
    ]);
    r.with_status_code(500).with_status_message("Server Error".to_owned())
}

/// The response for what the handler chain gave: its response, the 404 when
/// every handler declined, or a 500 with the failure's description.
pub fn respond_to(outcome: Result<Option<Response>, Vec<u8>>) -> (r: Response)
    ensures
        outcome matches Ok(Some(resp)) ==> r == resp,
        outcome matches Ok(None) ==> fallback(r, 404, "Not Found"@, not_found_body()),
        outcome matches Err(d) ==> fallback(r, 500, "Server Error"@, d@),
{
    match outcome {
        Ok(Some(resp)) => resp,
        Ok(None) => not_found_response(),
        Err(d) => server_error_response(d),
    }
}

/// The description of a parse failure.
pub open spec fn failure_text(f: Fail) -> Seq<u8> {
    match f {
        Fail::FirstLine => encode_utf8("malformed request line"@),
        Fail::Header(l) => encode_utf8("malformed header line: \""@) + encode_utf8(l) + encode_utf8(
            "\""@,
        ),
        Fail::ContentLength => encode_utf8("could not determine content length"@),
        Fail::Utf8 => encode_utf8("invalid utf-8 sequence in request head"@),
        Fail::Eof => encode_utf8("failed to fill whole buffer"@),
        Fail::Incomplete => encode_utf8("incomplete request"@),
    }
}

impl ParseFailure {
    /// The failure's description, as bytes.
    pub fn description(&self) -> (r: Vec<u8>)
        ensures
            r@ == failure_text(self.kind()),
    {
        let mut out: Vec<u8> = Vec::new();
        match self {
            ParseFailure::Malformed(RequestParseError::MalformedFirstLine) => {
                push_bytes(&mut out, "malformed request line".as_bytes());
            },
            ParseFailure::Malformed(RequestParseError::MalformedHeader(l)) => {
                push_bytes(&mut out, "malformed header line: \"".as_bytes());
                push_bytes(&mut out, l.as_str().as_bytes());
                push_bytes(&mut out, "\"".as_bytes());
            },
            ParseFailure::Malformed(RequestParseError::MalformedContentLength) => {
                push_bytes(&mut out, "could not determine content length".as_bytes());
            },
            ParseFailure::InvalidUtf8 => {
                push_bytes(&mut out, "invalid utf-8 sequence in request head".as_bytes());
            },
            ParseFailure::UnexpectedEof => {
                push_bytes(&mut out, "failed to fill whole buffer".as_bytes());
            },
            ParseFailure::Incomplete => {
                push_bytes(&mut out, "incomplete request".as_bytes());
            },
        }
        assert(out@ =~= failure_text(self.kind()));
        out
    }
}

} // verus!
