//! Handlers of the dispatch chain whose work is in memory, and the
//! first-match rule that runs the chain.
use vstd::prelude::*;
use vstd::utf8::*;
use crate::request::{Request, RequestMethod};
use crate::response::{push_bytes, Response};
use crate::text::{decimal, decimal_string, parse_decimal, parse_numeral, utf8_string};
use crate::bytes::sub_vec;

verus! {

/// What a handler does with a request: claims it with a response
/// (`Ok(Some(_))`), declines it (`Ok(None)`), or fails.
pub open spec fn claims<E>(o: Result<Option<Response>, E>) -> bool {
    !(o matches Ok(None))
}

/// The result of a chain whose handlers give `outcomes`, in order: the first
/// outcome that is not a decline, or a decline when every handler declines.
pub open spec fn first_match<E>(outcomes: Seq<Result<Option<Response>, E>>) -> Result<Option<Response>, E>
    decreases outcomes.len(),
{
    if outcomes.len() == 0 {
        Ok(None)
    } else if claims(outcomes[0]) {
        outcomes[0]
    } else {
        first_match(outcomes.drop_first())
    }
}

/// Whether dispatch stops at this outcome: it does at a response and at a failure.
pub fn ends_dispatch<E>(o: &Result<Option<Response>, E>) -> (r: bool)
    ensures
        r == claims(*o),
{
    match o {
        Ok(None) => false,
        _ => true,
    }
}

/// Runs the first-match rule over the outcomes of a chain, in order.
pub fn dispatch<E>(outcomes: Vec<Result<Option<Response>, E>>) -> (r: Result<Option<Response>, E>)
    ensures
        r == first_match(outcomes@),
{
    let mut rest = outcomes;
    while rest.len() > 0
        invariant
            first_match(outcomes@) == first_match(rest@),
        decreases rest@.len(),
    {
        let ghost before = rest@;
        let o = rest.remove(0);
        assert(rest@ =~= before.drop_first());
        if ends_dispatch(&o) {
            return o;
        }
    }
    Ok(None)
}

/// Taking out a handler that declines leaves the chain's result as it was.
pub proof fn lemma_remove_decline<E>(outcomes: Seq<Result<Option<Response>, E>>, i: int)
    requires
        0 <= i < outcomes.len(),
        !claims(outcomes[i]),
    ensures
        first_match(outcomes.remove(i)) == first_match(outcomes),
    decreases outcomes.len(),
{
    if i > 0 && !claims(outcomes[0]) {
        assert(outcomes.remove(i).drop_first() =~= outcomes.drop_first().remove(i - 1));
        lemma_remove_decline(outcomes.drop_first(), i - 1);
    } else if i == 0 {
        assert(outcomes.remove(0) =~= outcomes.drop_first());
    } else {
        assert(outcomes.remove(i)[0] == outcomes[0]);
    }
}

/// Putting a handler that declines anywhere in the chain leaves its result as it was.
pub proof fn lemma_insert_decline<E>(outcomes: Seq<Result<Option<Response>, E>>, j: int, o: Result<Option<Response>, E>)
    requires
        0 <= j <= outcomes.len(),
        !claims(o),
    ensures
        first_match(outcomes.insert(j, o)) == first_match(outcomes),
{
    assert(outcomes.insert(j, o).remove(j) =~= outcomes);
    lemma_remove_decline(outcomes.insert(j, o), j);
}

/// Moving a handler that declines from place `i` to place `j` leaves the
/// chain's result as it was.
pub proof fn lemma_reorder_decline<E>(outcomes: Seq<Result<Option<Response>, E>>, i: int, j: int)
    requires
        0 <= i < outcomes.len(),
        0 <= j < outcomes.len(),
        !claims(outcomes[i]),
    ensures
        first_match(outcomes.remove(i).insert(j, outcomes[i])) == first_match(outcomes),
{
    lemma_remove_decline(outcomes, i);
    lemma_insert_decline(outcomes.remove(i), j, outcomes[i]);
}

/// A handler that claims the request, put before every handler that claims
/// it, decides the chain's result.
pub proof fn lemma_insert_claim_first<E>(outcomes: Seq<Result<Option<Response>, E>>, j: int, o: Result<Option<Response>, E>)
    requires
        0 <= j <= outcomes.len(),
        claims(o),
        forall|k: int| 0 <= k < j ==> !claims(#[trigger] outcomes[k]),
    ensures
        first_match(outcomes.insert(j, o)) == o,
    decreases j,
{
    if j > 0 {
        assert(outcomes.insert(j, o).drop_first() =~= outcomes.drop_first().insert(j - 1, o));
        assert(outcomes.insert(j, o)[0] == outcomes[0]);
        assert forall|k: int| 0 <= k < j - 1 implies !claims(#[trigger] outcomes.drop_first()[k]) by {
            assert(outcomes.drop_first()[k] == outcomes[k + 1]);
        }
        lemma_insert_claim_first(outcomes.drop_first(), j - 1, o);
    } else {
        assert(outcomes.insert(0, o)[0] == o);
    }
}

/// A handler failure.
#[derive(Debug, Clone, Copy, PartialEq, Eq, Structural)]
pub enum MiddlewareError {
    /// A body that should hold a number is not UTF-8.
    BodyNotUtf8,
    /// A body that should hold a number holds something else.
    NotANumber,
}

impl MiddlewareError {
    /// A description for the error response.
    pub fn message(&self) -> (r: String)
        ensures
            *self == MiddlewareError::BodyNotUtf8 ==> r@ == "invalid utf-8 in request body"@,
            *self == MiddlewareError::NotANumber ==> r@ == "invalid digit found in string"@,
    {
        match self {
            MiddlewareError::BodyNotUtf8 => "invalid utf-8 in request body".to_owned(),
            MiddlewareError::NotANumber => "invalid digit found in string".to_owned(),
        }
    }
}

/// The header every response starts with.
pub open spec fn server_header() -> (Seq<char>, Seq<char>) {
    ("server"@, "my-rust-server"@)
}

/// `resp` is a 200 response with `body`, and the headers `server`, then
/// `extra`, then `Content-Length`.
pub open spec fn served(resp: Response, body: Seq<u8>, extra: Seq<(Seq<char>, Seq<char>)>) -> bool {
    &&& resp.status_code == 200
    &&& resp.status_message@ == "OK"@
    &&& resp.body@ == body
    &&& resp.headers_view() == seq![server_header()] + extra + seq![
        ("Content-Length"@, decimal(body.len())),
    ]
    &&& resp.wf()
}

/// A 200 response with `body`, an optional `Content-Type`, and its length.
pub fn content_response(body: Vec<u8>, content_type: Option<String>) -> (r: Response)
    ensures
        content_type matches Some(t) ==> served(r, body@, seq![("Content-Type"@, t@)]),
        content_type is None ==> served(r, body@, Seq::empty()),
{
    let ghost b = body@;
    let ghost ct = content_type;
    proof {
        reveal_strlit("server");
        reveal_strlit("Content-Type");
        reveal_strlit("Content-Length");
    }
    let r = Response::default().with_body(body);
    let r = r.try_with_header("Content-Type".to_owned(), content_type);
    let ghost mid = r.headers_view();
    let r = r.with_content_length();
    proof {
        let s0 = seq![server_header()];
        assert(!crate::text::has_key(s0, "Content-Type"@)) by {
            if crate::text::has_key(s0, "Content-Type"@) {
                let i = crate::text::key_pos(s0, "Content-Type"@);
                assert(s0[i].0 == "Content-Type"@);
            }
        }
        if let Some(t) = ct {
            assert(mid =~= seq![server_header(), ("Content-Type"@, t@)]);
        } else {
            assert(mid =~= s0);
        }
        assert(!crate::text::has_key(mid, "Content-Length"@)) by {
            if crate::text::has_key(mid, "Content-Length"@) {
                let i = crate::text::key_pos(mid, "Content-Length"@);
                assert(mid[i].0 == "Content-Length"@);
            }
        }
        if let Some(t) = ct {
            assert(r.headers_view() =~= seq![server_header()] + seq![("Content-Type"@, t@)] + seq![
                ("Content-Length"@, decimal(b.len())),
            ]);
        } else {
            assert(r.headers_view() =~= seq![server_header()] + Seq::empty() + seq![
                ("Content-Length"@, decimal(b.len())),
            ]);
        }
    }
    r
}

/// `prefix`, the numeral of `n`, then `suffix`, as bytes.
pub open spec fn numbered_text(prefix: Seq<char>, n: nat, suffix: Seq<char>) -> Seq<u8> {
    encode_utf8(prefix) + encode_utf8(decimal(n)) + encode_utf8(suffix)
}

fn numbered_bytes(prefix: &str, n: u64, suffix: &str) -> (r: Vec<u8>)
    ensures
        r@ == numbered_text(prefix@, n as nat, suffix@),
{
    let mut out: Vec<u8> = Vec::new();
    push_bytes(&mut out, prefix.as_bytes());
    let d = decimal_string(n);
    push_bytes(&mut out, d.as_str().as_bytes());
    push_bytes(&mut out, suffix.as_bytes());
    assert(out@ =~= numbered_text(prefix@, n as nat, suffix@));
    out
}

/// Whether the request's path is `path`.
fn endpoint_is(request: &Request, path: &str) -> (r: bool)
    ensures
        r == (request.uri.endpoint@ == path@),
{
    let p = path.to_owned();
    request.uri.endpoint == p
}

/// Serves files under the public directory. Finding and reading the file is
/// work on the file system; the response is built here.
#[derive(Debug)]
pub struct StaticMiddleware;

/// The content type that mime_guess gives for a file path.
pub uninterp spec fn mime_type_of(path: Seq<char>) -> Option<Seq<char>>;

/// Relies on `mime_guess::from_path(path).first_raw()`: the first content
/// type known for the path's extension, looked up in a fixed table, so a
/// function of the path alone.
#[verifier::external_body]
fn guess_mime(path: &str) -> (r: Option<String>)
    ensures
        r matches Some(t) ==> mime_type_of(path@) == Some(t@),
        r is None ==> mime_type_of(path@) is None,
{
    mime_guess::from_path(path).first_raw().map(String::from)
}

impl StaticMiddleware {
    /// The response for the file at `path`, whose bytes are `content`: a
    /// `Content-Type` guessed from the path when one is known, and the length.
    pub fn respond(&self, content: Vec<u8>, path: &str) -> (r: Response)
        ensures
            mime_type_of(path@) matches Some(t) ==> served(r, content@, seq![("Content-Type"@, t)]),
            mime_type_of(path@) is None ==> served(r, content@, Seq::empty()),
    {
        let content_type = guess_mime(path);
        content_response(content, content_type)
    }
}

/// Lists directories of the public directory through a template; its work is
/// on the file system.
#[derive(Debug)]
pub struct IndexMiddleware;

/// Counts the requests to `/visitors` and reports the count.
#[derive(Debug)]
pub struct VisitorsMiddleware(pub u64);

/// The body of the visitor count report.
pub open spec fn visitors_body(n: nat) -> Seq<u8> {
    numbered_text("This page has been requested "@, n, " times since the server started!"@)
}

impl VisitorsMiddleware {
    /// Claims `/visitors`: counts the visit and reports the new count as HTML.
    pub fn handle_connection(&mut self, request: &Request) -> (r: Result<Option<Response>, MiddlewareError>)
        requires
            request.uri.endpoint@ == "/visitors"@ ==> old(self).0 < u64::MAX,
        ensures
            request.uri.endpoint@ == "/visitors"@ ==> final(self).0 == old(self).0 + 1 && (r matches Ok(
                Some(resp),
            ) && served(resp, visitors_body(final(self).0 as nat), seq![("Content-Type"@, "text/html"@)])),
            request.uri.endpoint@ != "/visitors"@ ==> final(self).0 == old(self).0 && r matches Ok(None),
    {
        if endpoint_is(request, "/visitors") {
            self.0 = self.0 + 1;
            let body = numbered_bytes("This page has been requested ", self.0, " times since the server started!");
            Ok(Some(content_response(body, Some("text/html".to_owned()))))
        } else {
            Ok(None)
        }
    }
}

/// Holds a number that `POST /mutable` sets and `GET /mutable` reports.
#[derive(Debug)]
pub struct MutableMiddleware(pub u64);

impl MutableMiddleware {
    /// Claims `/mutable`. A POST sets the number from the body, which must be
    /// an unsigned numeral; a GET reports it.
    pub fn handle_connection(&mut self, request: &Request) -> (r: Result<Option<Response>, MiddlewareError>)
        ensures
            request.uri.endpoint@ != "/mutable"@ ==> final(self).0 == old(self).0 && r matches Ok(None),
            request.uri.endpoint@ == "/mutable"@ && request.method == RequestMethod::GET ==> final(self).0
                == old(self).0 && (r matches Ok(Some(resp)) && served(
                resp,
                numbered_text("Currently at "@, old(self).0 as nat, ""@),
                Seq::empty(),
            )),
            request.uri.endpoint@ == "/mutable"@ && request.method == RequestMethod::POST ==> {
                if !valid_utf8(request.body@) {
                    final(self).0 == old(self).0 && r == Err::<Option<Response>, MiddlewareError>(
                        MiddlewareError::BodyNotUtf8,
                    )
                } else {
                    match parse_numeral(request.body@, u64::MAX as nat) {
                        None => final(self).0 == old(self).0 && r == Err::<
                            Option<Response>,
                            MiddlewareError,
                        >(MiddlewareError::NotANumber),
                        Some(n) => final(self).0 == n && (r matches Ok(Some(resp)) && served(
                            resp,
                            numbered_text("Updated to "@, n, ""@),
                            Seq::empty(),
                        )),
                    }
                }
            },
    {
        if !endpoint_is(request, "/mutable") {
            return Ok(None);
        }
        if request.method == RequestMethod::POST {
            let copy = sub_vec(request.body.as_slice(), 0, request.body.len());
            assert(copy@ =~= request.body@);
            if utf8_string(copy).is_none() {
                return Err(MiddlewareError::BodyNotUtf8);
            }
            match parse_decimal(request.body.as_slice(), u64::MAX) {
                Some(n) => {
                    self.0 = n;
                    let body = numbered_bytes("Updated to ", n, "");
                    Ok(Some(content_response(body, None)))
                },
                None => Err(MiddlewareError::NotANumber),
            }
        } else {
            let body = numbered_bytes("Currently at ", self.0, "");
            Ok(Some(content_response(body, None)))
        }
    }
}

/// Answers `/echo` with the request written out as JSON.
#[derive(Debug)]
pub struct RequestEchoMiddleware;

impl RequestEchoMiddleware {
    /// Whether this handler claims the request.
    pub fn claims(&self, request: &Request) -> (r: bool)
        ensures
            r == (request.uri.endpoint@ == "/echo"@),
    {
        endpoint_is(request, "/echo")
    }

    /// The response for a claimed request, given the request as JSON.
    pub fn respond(&self, json: Vec<u8>) -> (r: Response)
        ensures
            served(r, json@, seq![("Content-Type"@, "application/json"@)]),
    {
        content_response(json, Some("application/json".to_owned()))
    }
}

/// Claims `/favicon.ico` with an empty response, so that browsers' icon
/// requests go no further.
#[derive(Debug)]
pub struct IgnoreFaviconMiddleware;

impl IgnoreFaviconMiddleware {
    pub fn handle_connection(&mut self, request: &Request) -> (r: Result<Option<Response>, MiddlewareError>)
        ensures
            request.uri.endpoint@ == "/favicon.ico"@ ==> (r matches Ok(Some(resp)) && resp.status_code
                == 200 && resp.status_message@ == "OK"@ && resp.headers_view() == seq![server_header()]
                && resp.body@.len() == 0),
            request.uri.endpoint@ != "/favicon.ico"@ ==> r matches Ok(None),
    {
        if endpoint_is(request, "/favicon.ico") {
            Ok(Some(Response::default()))
        } else {
            Ok(None)
        }
    }
}

} // verus!
