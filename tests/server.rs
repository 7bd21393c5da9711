use tiny_http_server::connection::{not_found_response, respond_to, server_error_response};
use tiny_http_server::middleware::{
    content_response, dispatch, ends_dispatch, IgnoreFaviconMiddleware, StaticMiddleware, MiddlewareError, MutableMiddleware,
    RequestEchoMiddleware, VisitorsMiddleware,
};
use tiny_http_server::pool::RoundRobin;
use tiny_http_server::request::{ParseFailure, Request, RequestMethod, RequestParseError, RequestURI};
use tiny_http_server::response::Response;

fn parse(text: &[u8]) -> Result<Request, ParseFailure> {
    Request::parse(text, true)
}

fn header<'a>(h: &'a [(String, String)], name: &str) -> Option<&'a str> {
    h.iter().find(|(n, _)| n == name).map(|(_, v)| v.as_str())
}

#[test]
fn get_request_parses_with_empty_body() {
    let r = parse(b"GET /a/b?x=1 HTTP/1.1\r\nHost: example\r\nAccept: */*\r\n\r\n").unwrap();
    assert_eq!(r.method, RequestMethod::GET);
    assert_eq!(r.uri.endpoint, "/a/b");
    assert_eq!(header(&r.uri.params, "x"), Some("1"));
    assert_eq!(header(&r.headers, "Host"), Some("example"));
    assert_eq!(header(&r.headers, "Accept"), Some("*/*"));
    assert!(r.body.is_empty());
}

#[test]
fn get_ignores_bytes_after_head() {
    let r = parse(b"GET / HTTP/1.1\r\nContent-Length: 3\r\n\r\nabc").unwrap();
    assert!(r.body.is_empty());
}

#[test]
fn post_reads_exactly_content_length_bytes() {
    let r = parse(b"POST /p HTTP/1.1\r\nContent-Length: 3\r\n\r\nabcdef").unwrap();
    assert_eq!(r.method, RequestMethod::POST);
    assert_eq!(r.body, b"abc".to_vec());
}

#[test]
fn post_body_is_not_interpreted() {
    let r = parse(b"POST /p HTTP/1.1\r\ncontent-length: 4\r\n\r\n\xff\x00\r\n").unwrap();
    assert_eq!(r.body, vec![0xff, 0x00, b'\r', b'\n']);
}

#[test]
fn post_short_stream_is_an_io_failure() {
    let r = parse(b"POST /p HTTP/1.1\r\nContent-Length: 5\r\n\r\nab");
    assert!(matches!(r, Err(ParseFailure::UnexpectedEof)));
}

#[test]
fn post_short_buffer_asks_for_more() {
    let r = Request::parse(b"POST /p HTTP/1.1\r\nContent-Length: 5\r\n\r\nab", false);
    assert!(matches!(r, Err(ParseFailure::Incomplete)));
    let r = Request::parse(b"GET / HTTP/1.1\r\nHost: x", false);
    assert!(matches!(r, Err(ParseFailure::Incomplete)));
}

#[test]
fn post_without_content_length_fails() {
    let r = parse(b"POST /p HTTP/1.1\r\n\r\n42");
    assert!(matches!(
        r,
        Err(ParseFailure::Malformed(RequestParseError::MalformedContentLength))
    ));
}

#[test]
fn post_with_other_casing_of_content_length_fails() {
    let r = parse(b"POST /p HTTP/1.1\r\nCONTENT-LENGTH: 2\r\n\r\n42");
    assert!(matches!(
        r,
        Err(ParseFailure::Malformed(RequestParseError::MalformedContentLength))
    ));
}

#[test]
fn post_with_non_numeric_content_length_fails() {
    let r = parse(b"POST /p HTTP/1.1\r\nContent-Length: two\r\n\r\n42");
    assert!(matches!(
        r,
        Err(ParseFailure::Malformed(RequestParseError::MalformedContentLength))
    ));
}

#[test]
fn content_length_with_plus_sign_is_read() {
    let r = parse(b"POST /p HTTP/1.1\r\nContent-Length: +2\r\n\r\n42").unwrap();
    assert_eq!(r.body, b"42".to_vec());
}

#[test]
fn missing_version_is_malformed_first_line() {
    let r = parse(b"GET /\r\n\r\n");
    assert!(matches!(
        r,
        Err(ParseFailure::Malformed(RequestParseError::MalformedFirstLine))
    ));
}

#[test]
fn missing_version_gets_server_error_response() {
    let e = parse(b"GET /\r\n\r\n").unwrap_err();
    let resp = respond_to(Err(e.description()));
    assert_eq!(resp.status_code, 500);
    assert_eq!(resp.status_message, "Server Error");
    assert_eq!(resp.body, b"malformed request line".to_vec());
    assert_eq!(header(&resp.headers, "Content-Length"), Some("22"));
}

#[test]
fn unknown_method_is_malformed_first_line() {
    let r = parse(b"PUT / HTTP/1.1\r\n\r\n");
    assert!(matches!(
        r,
        Err(ParseFailure::Malformed(RequestParseError::MalformedFirstLine))
    ));
}

#[test]
fn header_without_separator_is_reported() {
    let r = parse(b"GET / HTTP/1.1\r\nBroken-Header\r\n\r\n");
    match r {
        Err(ParseFailure::Malformed(RequestParseError::MalformedHeader(l))) => {
            assert_eq!(l, "Broken-Header")
        }
        _ => panic!("expected a malformed header"),
    }
}

#[test]
fn header_failure_description_quotes_line() {
    let e = parse(b"GET / HTTP/1.1\r\nBad\r\n\r\n").unwrap_err();
    assert_eq!(e.description(), b"malformed header line: \"Bad\"".to_vec());
}

#[test]
fn invalid_utf8_head_fails() {
    let r = parse(b"GET /\xff HTTP/1.1\r\n\r\n");
    assert!(matches!(r, Err(ParseFailure::InvalidUtf8)));
}

#[test]
fn duplicate_header_last_wins() {
    let r = parse(b"GET / HTTP/1.1\r\nX: 1\r\nY: 2\r\nX: 3\r\n\r\n").unwrap();
    assert_eq!(r.headers.len(), 2);
    assert_eq!(r.headers[0], ("X".to_string(), "3".to_string()));
    assert_eq!(r.headers[1], ("Y".to_string(), "2".to_string()));
}

#[test]
fn header_names_keep_their_case() {
    let r = parse(b"GET / HTTP/1.1\r\nhost: a\r\nHost: b\r\n\r\n").unwrap();
    assert_eq!(header(&r.headers, "host"), Some("a"));
    assert_eq!(header(&r.headers, "Host"), Some("b"));
}

#[test]
fn query_repeated_key_last_wins() {
    let u = RequestURI::from_bytes(b"/s?a=1&b=2&a=3").unwrap();
    assert_eq!(u.endpoint, "/s");
    assert_eq!(u.params.len(), 2);
    assert_eq!(header(&u.params, "a"), Some("3"));
    assert_eq!(header(&u.params, "b"), Some("2"));
}

#[test]
fn query_pieces_without_equals_are_skipped() {
    let u = RequestURI::from_bytes(b"/s?flag&k=v=w&").unwrap();
    assert_eq!(u.params, vec![("k".to_string(), "v=w".to_string())]);
}

#[test]
fn uri_without_query_has_no_params() {
    let u = RequestURI::from_bytes(b"/plain/../path").unwrap();
    assert_eq!(u.endpoint, "/plain/../path");
    assert!(u.params.is_empty());
}

#[test]
fn default_response() {
    let r = Response::default();
    assert_eq!(r.status_code, 200);
    assert_eq!(r.status_message, "OK");
    assert_eq!(r.headers, vec![("server".to_string(), "my-rust-server".to_string())]);
    assert!(r.body.is_empty());
}

#[test]
fn response_serialises_exactly() {
    let r = Response::default()
        .with_status_code(201)
        .with_status_message("Created".to_string())
        .with_body(b"hello".to_vec())
        .with_header("X".to_string(), "y".to_string())
        .with_content_length();
    assert_eq!(
        r.to_bytes(),
        b"HTTP/1.1 201 Created\r\nserver: my-rust-server\r\nX: y\r\nContent-Length: 5\r\n\r\nhello"
            .to_vec()
    );
}

#[test]
fn with_header_replaces_in_place() {
    let r = Response::default()
        .with_header("A".to_string(), "1".to_string())
        .with_header("server".to_string(), "other".to_string());
    assert_eq!(
        r.headers,
        vec![
            ("server".to_string(), "other".to_string()),
            ("A".to_string(), "1".to_string())
        ]
    );
}

#[test]
fn try_with_header_only_sets_given_value() {
    let r = Response::default().try_with_header("T".to_string(), None);
    assert_eq!(r.headers.len(), 1);
    let r = r.try_with_header("T".to_string(), Some("v".to_string()));
    assert_eq!(header(&r.headers, "T"), Some("v"));
}

#[test]
fn content_length_of_large_body() {
    let r = Response::default().with_body(vec![7u8; 1234]).with_content_length();
    assert_eq!(header(&r.headers, "Content-Length"), Some("1234"));
    let r = Response::default().with_content_length();
    assert_eq!(header(&r.headers, "Content-Length"), Some("0"));
}

#[test]
fn serialised_response_reads_back() {
    let r = Response::default()
        .with_status_code(404)
        .with_status_message("Not Found".to_string())
        .with_body(b"a\r\n\r\nb".to_vec())
        .with_content_length();
    let bytes = r.to_bytes();
    let text = String::from_utf8(bytes.clone()).unwrap();
    let (head, body) = text.split_once("\r\n\r\n").unwrap();
    let mut lines = head.split("\r\n");
    assert_eq!(lines.next(), Some("HTTP/1.1 404 Not Found"));
    let headers: Vec<(String, String)> = lines
        .map(|l| {
            let (n, v) = l.split_once(": ").unwrap();
            (n.to_string(), v.to_string())
        })
        .collect();
    assert_eq!(headers, r.headers);
    let n: usize = header(&headers, "Content-Length").unwrap().parse().unwrap();
    assert_eq!(&body.as_bytes()[..n], &r.body[..]);
    assert_eq!(body.len(), n);
}

#[test]
fn visitors_counts_one_two_three() {
    let req = parse(b"GET /visitors HTTP/1.1\r\n\r\n").unwrap();
    let mut v = VisitorsMiddleware(0);
    for n in 1..=3u64 {
        let resp = v.handle_connection(&req).unwrap().unwrap();
        let expected = format!("This page has been requested {} times since the server started!", n);
        assert_eq!(resp.body, expected.as_bytes().to_vec());
        assert_eq!(header(&resp.headers, "Content-Type"), Some("text/html"));
    }
    assert_eq!(v.0, 3);
}

#[test]
fn visitors_declines_other_paths() {
    let req = parse(b"GET /other HTTP/1.1\r\n\r\n").unwrap();
    let mut v = VisitorsMiddleware(5);
    assert!(v.handle_connection(&req).unwrap().is_none());
    assert_eq!(v.0, 5);
}

#[test]
fn mutable_post_then_get() {
    let post = parse(b"POST /mutable HTTP/1.1\r\nContent-Length: 2\r\n\r\n42").unwrap();
    let get = parse(b"GET /mutable HTTP/1.1\r\n\r\n").unwrap();
    let mut m = MutableMiddleware(u64::MAX);
    let r = m.handle_connection(&post).unwrap().unwrap();
    assert_eq!(r.body, b"Updated to 42".to_vec());
    let r = m.handle_connection(&get).unwrap().unwrap();
    assert_eq!(r.body, b"Currently at 42".to_vec());
    assert_eq!(header(&r.headers, "Content-Length"), Some("15"));
}

#[test]
fn mutable_rejects_non_numbers() {
    let post = parse(b"POST /mutable HTTP/1.1\r\nContent-Length: 3\r\n\r\nabc").unwrap();
    let mut m = MutableMiddleware(7);
    assert_eq!(m.handle_connection(&post).unwrap_err(), MiddlewareError::NotANumber);
    assert_eq!(m.0, 7);
    let post = parse(b"POST /mutable HTTP/1.1\r\nContent-Length: 1\r\n\r\n\xff").unwrap();
    assert_eq!(m.handle_connection(&post).unwrap_err(), MiddlewareError::BodyNotUtf8);
    let post = parse(b"POST /mutable HTTP/1.1\r\nContent-Length: 20\r\n\r\n18446744073709551616").unwrap();
    assert_eq!(m.handle_connection(&post).unwrap_err(), MiddlewareError::NotANumber);
    assert_eq!(m.0, 7);
}

#[test]
fn mutable_error_message() {
    assert_eq!(MiddlewareError::NotANumber.message(), "invalid digit found in string");
}

#[test]
fn favicon_is_claimed_with_default_response() {
    let req = parse(b"GET /favicon.ico HTTP/1.1\r\n\r\n").unwrap();
    let r = IgnoreFaviconMiddleware.handle_connection(&req).unwrap().unwrap();
    assert_eq!(r.status_code, 200);
    assert!(r.body.is_empty());
}

#[test]
fn echo_claims_only_its_path() {
    let e = RequestEchoMiddleware;
    assert!(e.claims(&parse(b"GET /echo HTTP/1.1\r\n\r\n").unwrap()));
    assert!(!e.claims(&parse(b"GET /echo/x HTTP/1.1\r\n\r\n").unwrap()));
    let r = e.respond(b"{}".to_vec());
    assert_eq!(header(&r.headers, "Content-Type"), Some("application/json"));
    assert_eq!(header(&r.headers, "Content-Length"), Some("2"));
}

#[test]
fn unmatched_endpoint_gets_not_found() {
    let req = parse(b"GET /nope HTTP/1.1\r\n\r\n").unwrap();
    let mut v = VisitorsMiddleware(0);
    let mut m = MutableMiddleware(0);
    let mut f = IgnoreFaviconMiddleware;
    let outcomes = vec![
        v.handle_connection(&req).map_err(|e| e.message().into_bytes()),
        m.handle_connection(&req).map_err(|e| e.message().into_bytes()),
        f.handle_connection(&req).map_err(|e| e.message().into_bytes()),
    ];
    let resp = respond_to(dispatch(outcomes));
    assert_eq!(resp.status_code, 404);
    assert_eq!(resp.status_message, "Not Found");
    assert_eq!(resp.body, b"This URI was not handled by any middleware.".to_vec());
    assert_eq!(resp.to_bytes(), not_found_response().to_bytes());
}

#[test]
fn dispatch_first_claim_wins() {
    let a = Response::default().with_status_code(201);
    let b = Response::default().with_status_code(202);
    let outcomes: Vec<Result<Option<Response>, u8>> = vec![Ok(None), Ok(Some(a)), Ok(Some(b))];
    assert_eq!(dispatch(outcomes).unwrap().unwrap().status_code, 201);
}

#[test]
fn dispatch_stops_at_failure() {
    let b = Response::default().with_status_code(202);
    let outcomes: Vec<Result<Option<Response>, u8>> = vec![Ok(None), Err(9), Ok(Some(b))];
    assert_eq!(dispatch(outcomes).unwrap_err(), 9);
    assert!(ends_dispatch::<u8>(&Err(1)));
    assert!(!ends_dispatch::<u8>(&Ok(None)));
}

#[test]
fn dispatch_all_decline() {
    let outcomes: Vec<Result<Option<Response>, u8>> = vec![Ok(None), Ok(None)];
    assert!(dispatch(outcomes).unwrap().is_none());
}

#[test]
fn server_error_carries_description() {
    let r = server_error_response(b"boom".to_vec());
    assert_eq!(
        r.to_bytes(),
        b"HTTP/1.1 500 Server Error\r\nserver: my-rust-server\r\nContent-Length: 4\r\n\r\nboom".to_vec()
    );
}

#[test]
fn round_robin_is_fair() {
    let n = 4usize;
    let k = 3usize;
    let mut rr = RoundRobin::new(n);
    let mut given: Vec<Vec<usize>> = vec![Vec::new(); n];
    for t in 0..k * n {
        given[rr.next()].push(t);
    }
    for (w, tasks) in given.iter().enumerate() {
        assert_eq!(tasks.len(), k);
        assert_eq!(tasks, &(0..k).map(|j| j * n + w).collect::<Vec<_>>());
    }
    assert_eq!(rr.cursor, 0);
}

#[test]
fn round_robin_single_worker() {
    let mut rr = RoundRobin::new(1);
    assert_eq!(rr.next(), 0);
    assert_eq!(rr.next(), 0);
}

#[test]
fn content_length_beyond_usize_fails() {
    let r = parse(b"POST /p HTTP/1.1\r\nContent-Length: 18446744073709551616\r\n\r\n");
    assert!(matches!(
        r,
        Err(ParseFailure::Malformed(RequestParseError::MalformedContentLength))
    ));
}

#[test]
fn mutable_accepts_largest_value() {
    let post =
        parse(b"POST /mutable HTTP/1.1\r\nContent-Length: 20\r\n\r\n18446744073709551615").unwrap();
    let mut m = MutableMiddleware(0);
    let r = m.handle_connection(&post).unwrap().unwrap();
    assert_eq!(m.0, u64::MAX);
    assert_eq!(r.body, b"Updated to 18446744073709551615".to_vec());
}

#[test]
fn parsed_request_query_last_occurrence_wins() {
    let r = parse(b"GET /q?k=first&x=0&k=second HTTP/1.1\r\n\r\n").unwrap();
    assert_eq!(r.uri.endpoint, "/q");
    assert_eq!(header(&r.uri.params, "k"), Some("second"));
    assert_eq!(header(&r.uri.params, "x"), Some("0"));
}

#[test]
fn partial_request_line_asks_for_more() {
    let r = Request::parse(b"GET / HTT", false);
    assert!(matches!(r, Err(ParseFailure::Incomplete)));
    let r = Request::parse(b"", true);
    assert!(matches!(
        r,
        Err(ParseFailure::Malformed(RequestParseError::MalformedFirstLine))
    ));
}

#[test]
fn unexpected_eof_description() {
    let e = parse(b"POST /p HTTP/1.1\r\nContent-Length: 9\r\n\r\nab").unwrap_err();
    assert_eq!(e.description(), b"failed to fill whole buffer".to_vec());
}

#[test]
fn static_response_guesses_content_type() {
    let r = StaticMiddleware.respond(b"<p>".to_vec(), "public/a/index.html");
    assert_eq!(header(&r.headers, "Content-Type"), Some("text/html"));
    assert_eq!(header(&r.headers, "Content-Length"), Some("3"));
    assert_eq!(r.body, b"<p>".to_vec());
    let r = StaticMiddleware.respond(b"x".to_vec(), "public/LICENSE");
    assert_eq!(header(&r.headers, "Content-Type"), None);
}

#[test]
fn content_response_with_and_without_type() {
    let r = content_response(b"ab".to_vec(), Some("text/plain".to_string()));
    assert_eq!(
        r.headers,
        vec![
            ("server".to_string(), "my-rust-server".to_string()),
            ("Content-Type".to_string(), "text/plain".to_string()),
            ("Content-Length".to_string(), "2".to_string())
        ]
    );
    let r = content_response(Vec::new(), None);
    assert_eq!(r.headers.len(), 2);
}
