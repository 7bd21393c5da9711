//! The request model and its parser, which works on the bytes read so far
//! from a connection.
use vstd::prelude::*;
use vstd::utf8::*;
use crate::bytes::{byte_pairs_view, bytes_eq, find_byte, find_byte_from, lemma_find_byte, sub_vec, upsert_bytes};
use crate::text::{has_key, key_pos, parse_numeral, parse_decimal,keys_unique, lemma_upsert, lookup, pairs_view, upsert, utf8_string};

verus! {

pub const AMP: u8 = 38;

pub const EQ: u8 = 61;

pub const QMARK: u8 = 63;

/// Adds one `key=value` piece of a query; a piece without `=` is skipped.
pub open spec fn add_param(acc: Seq<(Seq<u8>, Seq<u8>)>, piece: Seq<u8>) -> Seq<(Seq<u8>, Seq<u8>)> {
    match find_byte(piece, 0, EQ) {
        Some(j) => upsert(acc, piece.subrange(0, j), piece.subrange(j + 1, piece.len() as int)),
        None => acc,
    }
}

/// The parameters of the query `q[from..]` added to `acc`, piece by piece
/// between the `&` separators.
pub open spec fn params_from(q: Seq<u8>, from: int, acc: Seq<(Seq<u8>, Seq<u8>)>) -> Seq<(Seq<u8>, Seq<u8>)>
    decreases q.len() - from,
{
    if from < 0 || from > q.len() {
        acc
    } else {
        match find_byte(q, from, AMP) {
            Some(i) => if from <= i < q.len() {
                params_from(q, i + 1, add_param(acc, q.subrange(from, i)))
            } else {
                acc
            },
            None => add_param(acc, q.subrange(from, q.len() as int)),
        }
    }
}

/// The path of a URI: what comes before the first `?`.
pub open spec fn uri_endpoint(u: Seq<u8>) -> Seq<u8> {
    match find_byte(u, 0, QMARK) {
        Some(i) => u.subrange(0, i),
        None => u,
    }
}

/// The query parameters of a URI, the last occurrence of a key winning.
pub open spec fn uri_params(u: Seq<u8>) -> Seq<(Seq<u8>, Seq<u8>)> {
    match find_byte(u, 0, QMARK) {
        Some(i) => params_from(u.subrange(i + 1, u.len() as int), 0, Seq::empty()),
        None => Seq::empty(),
    }
}

/// Every name and value is valid UTF-8.
pub open spec fn pairs_utf8(h: Seq<(Seq<u8>, Seq<u8>)>) -> bool {
    forall|i: int| 0 <= i < h.len() ==> valid_utf8(#[trigger] h[i].0) && valid_utf8(h[i].1)
}

/// The decoded names and values.
pub open spec fn decode_pairs(h: Seq<(Seq<u8>, Seq<u8>)>) -> Seq<(Seq<char>, Seq<char>)> {
    h.map_values(|p: (Seq<u8>, Seq<u8>)| (decode_utf8(p.0), decode_utf8(p.1)))
}

/// Decodes every name and value, or gives `None` if one is not UTF-8.
pub fn decode_pair_list(h: Vec<(Vec<u8>, Vec<u8>)>) -> (r: Option<Vec<(String, String)>>)
    ensures
        r is Some <==> pairs_utf8(byte_pairs_view(h@)),
        r matches Some(v) ==> pairs_view(v@) == decode_pairs(byte_pairs_view(h@)),
{
    let ghost s = byte_pairs_view(h@);
    let mut out: Vec<(String, String)> = Vec::new();
    let mut i: usize = 0;
    while i < h.len()
        invariant
            s == byte_pairs_view(h@),
            i <= s.len(),
            out@.len() == i,
            forall|j: int| 0 <= j < i ==> valid_utf8(#[trigger] s[j].0) && valid_utf8(s[j].1),
            forall|j: int|
                0 <= j < i ==> (#[trigger] out@[j]).0@ == decode_utf8(s[j].0) && out@[j].1@
                    == decode_utf8(s[j].1),
        decreases s.len() - i,
    {
        let k = sub_vec(h[i].0.as_slice(), 0, h[i].0.len());
        let v = sub_vec(h[i].1.as_slice(), 0, h[i].1.len());
        assert(k@ =~= s[i as int].0);
        assert(v@ =~= s[i as int].1);
        let ks = utf8_string(k);
        let vs = utf8_string(v);
        let ghost both = ks is Some && vs is Some;
        assert(both ==> valid_utf8(s[i as int].0) && valid_utf8(s[i as int].1));
        match (ks, vs) {
            (Some(ks), Some(vs)) => {
                out.push((ks, vs));
                assert forall|j: int| 0 <= j < i + 1 implies valid_utf8(#[trigger] s[j].0) && valid_utf8(s[j].1) by {
                    if j == i {
                        assert(both);
                    }
                }
                i = i + 1;
            },
            _ => {
                assert(!(valid_utf8(s[i as int].0) && valid_utf8(s[i as int].1)));
                return None;
            },
        }
    }
    assert(pairs_view(out@) =~= decode_pairs(s));
    Some(out)
}

/// Adds one `key=value` piece of a query, as `add_param` says.
fn add_param_piece(acc: &mut Vec<(Vec<u8>, Vec<u8>)>, piece: &[u8])
    requires
        keys_unique(byte_pairs_view(old(acc)@)),
    ensures
        byte_pairs_view(final(acc)@) == add_param(byte_pairs_view(old(acc)@), piece@),
        keys_unique(byte_pairs_view(final(acc)@)),
{
    proof {
        lemma_find_byte(piece@, 0, EQ);
    }
    match find_byte_from(piece, 0, EQ) {
        Some(j) => {
            let k = sub_vec(piece, 0, j);
            let v = sub_vec(piece, j + 1, piece.len());
            proof {
                lemma_upsert(byte_pairs_view(acc@), k@, v@);
            }
            upsert_bytes(acc, k, v);
        },
        None => {},
    }
}

/// The parameters of a query string.
fn parse_params(q: &[u8]) -> (r: Vec<(Vec<u8>, Vec<u8>)>)
    ensures
        byte_pairs_view(r@) == params_from(q@, 0, Seq::empty()),
        keys_unique(byte_pairs_view(r@)),
{
    let mut acc: Vec<(Vec<u8>, Vec<u8>)> = Vec::new();
    let mut from: usize = 0;
    assert(byte_pairs_view(acc@) =~= Seq::empty());
    loop
        invariant
            from <= q@.len(),
            params_from(q@, 0, Seq::empty()) == params_from(q@, from as int, byte_pairs_view(acc@)),
            keys_unique(byte_pairs_view(acc@)),
        decreases q@.len() - from,
    {
        proof {
            lemma_find_byte(q@, from as int, AMP);
        }
        match find_byte_from(q, from, AMP) {
            Some(i) => {
                let piece = sub_vec(q, from, i);
                add_param_piece(&mut acc, piece.as_slice());
                from = i + 1;
            },
            None => {
                let piece = sub_vec(q, from, q.len());
                add_param_piece(&mut acc, piece.as_slice());
                return acc;
            },
        }
    }
}

/// A request target split into its path and its query parameters. Neither is
/// decoded or normalised beyond that split.
#[derive(Debug, Clone)]
pub struct RequestURI {
    pub endpoint: String,
    pub params: Vec<(String, String)>,
}

impl RequestURI {
    /// The path and the parameters can be read as UTF-8.
    pub open spec fn decodable(u: Seq<u8>) -> bool {
        valid_utf8(uri_endpoint(u)) && pairs_utf8(uri_params(u))
    }

    /// This value is the URI `u` split and decoded.
    pub open spec fn of_bytes(&self, u: Seq<u8>) -> bool {
        self.endpoint@ == decode_utf8(uri_endpoint(u)) && pairs_view(self.params@) == decode_pairs(
            uri_params(u),
        )
    }

    /// Splits a request target at the first `?`; the query is cut at each `&`
    /// and each piece at its first `=`, pieces without `=` being skipped and
    /// the last value of a repeated key kept.
    pub fn from_bytes(u: &[u8]) -> (r: Option<RequestURI>)
        ensures
            r is Some <==> Self::decodable(u@),
            r matches Some(x) ==> x.of_bytes(u@),
    {
        proof {
            lemma_find_byte(u@, 0, QMARK);
        }
        let (path, params) = match find_byte_from(u, 0, QMARK) {
            Some(i) => {
                let q = sub_vec(u, i + 1, u.len());
                (sub_vec(u, 0, i), parse_params(q.as_slice()))
            },
            None => {
                let p: Vec<(Vec<u8>, Vec<u8>)> = Vec::new();
                assert(byte_pairs_view(p@) =~= Seq::empty());
                (sub_vec(u, 0, u.len()), p)
            },
        };
        assert(path@ =~= uri_endpoint(u@));
        let endpoint = utf8_string(path);
        let params = decode_pair_list(params);
        match (endpoint, params) {
            (Some(endpoint), Some(params)) => Some(RequestURI { endpoint, params }),
            _ => None,
        }
    }
}

pub const LF: u8 = 10;

pub const CR: u8 = 13;

pub const SP: u8 = 32;

pub const COLON: u8 = 58;

#[derive(Debug, Clone, Copy, PartialEq, Eq, Structural)]
pub enum RequestMethod {
    GET,
    POST,
}

/// Why a request could not be read.
#[derive(Debug, Clone)]
pub enum RequestParseError {
    /// The request line lacks a piece or names another method.
    MalformedFirstLine,
    /// A header line without `": "`; it carries the line.
    MalformedHeader(String),
    /// A body is due but `Content-Length` is missing or not a number.
    MalformedContentLength,
}

/// Everything that can stop the parser.
#[derive(Debug, Clone)]
pub enum ParseFailure {
    Malformed(RequestParseError),
    /// A line of the head, or a piece of one, is not UTF-8.
    InvalidUtf8,
    /// The stream ended before the body was complete.
    UnexpectedEof,
    /// The bytes so far end before the request does; more are needed.
    Incomplete,
}

/// The outcomes of `ParseFailure`, with the text of a header line as characters.
pub enum Fail {
    FirstLine,
    Header(Seq<char>),
    ContentLength,
    Utf8,
    Eof,
    Incomplete,
}

impl ParseFailure {
    pub open spec fn kind(&self) -> Fail {
        match self {
            ParseFailure::Malformed(RequestParseError::MalformedFirstLine) => Fail::FirstLine,
            ParseFailure::Malformed(RequestParseError::MalformedHeader(l)) => Fail::Header(l@),
            ParseFailure::Malformed(RequestParseError::MalformedContentLength) => Fail::ContentLength,
            ParseFailure::InvalidUtf8 => Fail::Utf8,
            ParseFailure::UnexpectedEof => Fail::Eof,
            ParseFailure::Incomplete => Fail::Incomplete,
        }
    }
}

/// Where the line that starts at `pos` ends (after its `\n`). Without a `\n`
/// the line runs to the end of the stream, or is not complete yet.
pub open spec fn line_end(d: Seq<u8>, pos: int, at_eof: bool) -> Option<int> {
    match find_byte(d, pos, LF) {
        Some(i) => Some(i + 1),
        None => if at_eof {
            Some(d.len() as int)
        } else {
            None
        },
    }
}

/// The method and the target of a request line.
pub open spec fn request_line(l: Seq<u8>) -> Result<(RequestMethod, Seq<u8>), Fail> {
    if !valid_utf8(l) {
        Err(Fail::Utf8)
    } else {
        match find_byte(l, 0, SP) {
            None => Err(Fail::FirstLine),
            Some(a) => match find_byte(l, a + 1, SP) {
                None => Err(Fail::FirstLine),
                Some(b) => {
                    let m = l.subrange(0, a);
                    let uri = l.subrange(a + 1, b);
                    if m == encode_utf8("GET"@) {
                        Ok((RequestMethod::GET, uri))
                    } else if m == encode_utf8("POST"@) {
                        Ok((RequestMethod::POST, uri))
                    } else {
                        Err(Fail::FirstLine)
                    }
                },
            },
        }
    }
}

/// A line without its trailing `\n` and then `\r`.
pub open spec fn strip_eol(l: Seq<u8>) -> Seq<u8> {
    let a = if l.len() > 0 && l.last() == LF {
        l.drop_last()
    } else {
        l
    };
    if a.len() > 0 && a.last() == CR {
        a.drop_last()
    } else {
        a
    }
}

/// The first position at or after `from` of `": "`.
pub open spec fn find_sep(s: Seq<u8>, from: int) -> Option<int>
    decreases s.len() - from,
{
    if from < 0 || from + 1 >= s.len() {
        None
    } else if s[from] == COLON && s[from + 1] == SP {
        Some(from)
    } else {
        find_sep(s, from + 1)
    }
}

/// The headers from `pos` on, added to `acc`, and where the body starts; the
/// head ends at a line that is exactly `\r\n`.
pub open spec fn headers_from(d: Seq<u8>, pos: int, at_eof: bool, acc: Seq<(Seq<u8>, Seq<u8>)>) -> Result<
    (Seq<(Seq<u8>, Seq<u8>)>, int),
    Fail,
>
    decreases d.len() - pos,
{
    match line_end(d, pos, at_eof) {
        None => Err(Fail::Incomplete),
        Some(e) => {
            let l = d.subrange(pos, e);
            if l == encode_utf8("\r\n"@) {
                Ok((acc, e))
            } else {
                let s = strip_eol(l);
                if !valid_utf8(s) {
                    Err(Fail::Utf8)
                } else {
                    match find_sep(s, 0) {
                        None => Err(Fail::Header(decode_utf8(s))),
                        Some(c) => if 0 <= pos < e <= d.len() {
                            headers_from(
                                d,
                                e,
                                at_eof,
                                upsert(acc, s.subrange(0, c), s.subrange(c + 2, s.len() as int)),
                            )
                        } else {
                            Err(Fail::Incomplete)
                        },
                    }
                }
            }
        },
    }
}

/// The body length that the headers give: `Content-Length`, else
/// `content-length`, read as an unsigned numeral.
pub open spec fn content_length(h: Seq<(Seq<u8>, Seq<u8>)>) -> Option<nat> {
    let v = match lookup(h, encode_utf8("Content-Length"@)) {
        Some(v) => Some(v),
        None => lookup(h, encode_utf8("content-length"@)),
    };
    match v {
        Some(v) => parse_numeral(v, usize::MAX as nat),
        None => None,
    }
}

/// A request as bytes: the target and the header names and values undecoded.
pub struct RequestBytes {
    pub method: RequestMethod,
    pub uri: Seq<u8>,
    pub headers: Seq<(Seq<u8>, Seq<u8>)>,
    pub body: Seq<u8>,
}

/// What the stream `d` holds: a request, or why it is not one. With `at_eof`
/// the stream ends after `d`; without, more bytes may follow.
pub open spec fn parse_spec(d: Seq<u8>, at_eof: bool) -> Result<RequestBytes, Fail> {
    match line_end(d, 0, at_eof) {
        None => Err(Fail::Incomplete),
        Some(e) => match request_line(d.subrange(0, e)) {
            Err(f) => Err(f),
            Ok((m, uri)) => match headers_from(d, e, at_eof, Seq::empty()) {
                Err(f) => Err(f),
                Ok((h, start)) => if m == RequestMethod::GET {
                    Ok(RequestBytes { method: m, uri, headers: h, body: Seq::empty() })
                } else {
                    match content_length(h) {
                        None => Err(Fail::ContentLength),
                        Some(n) => if start + n <= d.len() {
                            Ok(
                                RequestBytes {
                                    method: m,
                                    uri,
                                    headers: h,
                                    body: d.subrange(start, start + n),
                                },
                            )
                        } else if at_eof {
                            Err(Fail::Eof)
                        } else {
                            Err(Fail::Incomplete)
                        },
                    }
                },
            },
        },
    }
}

/// Where the line at `pos` ends, as `line_end` says.
fn line_end_exec(d: &[u8], pos: usize, at_eof: bool) -> (r: Option<usize>)
    requires
        pos <= d@.len(),
    ensures
        r matches Some(e) ==> line_end(d@, pos as int, at_eof) == Some(e as int) && pos <= e <= d@.len(),
        r is None ==> line_end(d@, pos as int, at_eof) is None,
{
    proof {
        lemma_find_byte(d@, pos as int, LF);
    }
    match find_byte_from(d, pos, LF) {
        Some(i) => Some(i + 1),
        None => if at_eof {
            Some(d.len())
        } else {
            None
        },
    }
}

fn parse_request_line(l: &[u8]) -> (r: Result<(RequestMethod, Vec<u8>), ParseFailure>)
    ensures
        match request_line(l@) {
            Ok((m, uri)) => r matches Ok((m2, uri2)) && m2 == m && uri2@ == uri,
            Err(f) => r matches Err(e) && e.kind() == f,
        },
{
    let copy = sub_vec(l, 0, l.len());
    assert(copy@ =~= l@);
    if utf8_string(copy).is_none() {
        return Err(ParseFailure::InvalidUtf8);
    }
    proof {
        lemma_find_byte(l@, 0, SP);
    }
    let a = match find_byte_from(l, 0, SP) {
        Some(a) => a,
        None => return Err(ParseFailure::Malformed(RequestParseError::MalformedFirstLine)),
    };
    proof {
        lemma_find_byte(l@, a + 1, SP);
    }
    let b = match find_byte_from(l, a + 1, SP) {
        Some(b) => b,
        None => return Err(ParseFailure::Malformed(RequestParseError::MalformedFirstLine)),
    };
    let m = sub_vec(l, 0, a);
    let uri = sub_vec(l, a + 1, b);
    if bytes_eq(m.as_slice(), "GET".as_bytes()) {
        Ok((RequestMethod::GET, uri))
    } else if bytes_eq(m.as_slice(), "POST".as_bytes()) {
        Ok((RequestMethod::POST, uri))
    } else {
        Err(ParseFailure::Malformed(RequestParseError::MalformedFirstLine))
    }
}

fn find_sep_exec(s: &[u8]) -> (r: Option<usize>)
    ensures
        r matches Some(c) ==> find_sep(s@, 0) == Some(c as int) && c + 2 <= s@.len(),
        r is None ==> find_sep(s@, 0) is None,
{
    let mut i: usize = 0;
    while i < s.len() && i + 1 < s.len()
        invariant
            find_sep(s@, 0) == find_sep(s@, i as int),
        decreases s@.len() - i,
    {
        if s[i] == COLON && s[i + 1] == SP {
            return Some(i);
        }
        i = i + 1;
    }
    None
}

fn strip_eol_exec(l: Vec<u8>) -> (r: Vec<u8>)
    ensures
        r@ == strip_eol(l@),
{
    let mut s = l;
    if s.len() > 0 && s[s.len() - 1] == LF {
        s.pop();
    }
    if s.len() > 0 && s[s.len() - 1] == CR {
        s.pop();
    }
    s
}

/// Reads the header lines from `pos` on, as `headers_from` says.
fn parse_headers(d: &[u8], first: usize, at_eof: bool) -> (r: Result<(Vec<(Vec<u8>, Vec<u8>)>, usize), ParseFailure>)
    requires
        first <= d@.len(),
    ensures
        match headers_from(d@, first as int, at_eof, Seq::empty()) {
            Ok((h, start)) => r matches Ok((h2, start2)) && byte_pairs_view(h2@) == h && start2 == start
                && keys_unique(h) && start <= d@.len(),
            Err(f) => r matches Err(e) && e.kind() == f,
        },
{
    let mut acc: Vec<(Vec<u8>, Vec<u8>)> = Vec::new();
    let mut pos = first;
    assert(byte_pairs_view(acc@) =~= Seq::empty());
    loop
        invariant
            pos <= d@.len(),
            headers_from(d@, pos as int, at_eof, byte_pairs_view(acc@)) == headers_from(
                d@,
                first as int,
                at_eof,
                Seq::empty(),
            ),
            keys_unique(byte_pairs_view(acc@)),
        decreases d@.len() - pos,
    {
        let e = match line_end_exec(d, pos, at_eof) {
            Some(e) => e,
            None => return Err(ParseFailure::Incomplete),
        };
        let l = sub_vec(d, pos, e);
        if bytes_eq(l.as_slice(), "\r\n".as_bytes()) {
            return Ok((acc, e));
        }
        let s = strip_eol_exec(l);
        let copy = sub_vec(s.as_slice(), 0, s.len());
        assert(copy@ =~= s@);
        let text = match utf8_string(copy) {
            Some(t) => t,
            None => return Err(ParseFailure::InvalidUtf8),
        };
        let c = match find_sep_exec(s.as_slice()) {
            Some(c) => c,
            None => return Err(ParseFailure::Malformed(RequestParseError::MalformedHeader(text))),
        };
        assert(pos < e) by {
            if pos == e {
                assert(l@.len() == 0);
                assert(s@.len() == 0);
            }
        }
        let name = sub_vec(s.as_slice(), 0, c);
        let value = sub_vec(s.as_slice(), c + 2, s.len());
        proof {
            lemma_upsert(byte_pairs_view(acc@), name@, value@);
        }
        upsert_bytes(&mut acc, name, value);
        pos = e;
    }
}

/// The value stored under `k`, as `lookup` says.
fn lookup_bytes<'a>(h: &'a Vec<(Vec<u8>, Vec<u8>)>, k: &[u8]) -> (r: Option<&'a Vec<u8>>)
    requires
        keys_unique(byte_pairs_view(h@)),
    ensures
        r matches Some(v) ==> lookup(byte_pairs_view(h@), k@) == Some(v@),
        r is None ==> lookup(byte_pairs_view(h@), k@) is None,
{
    let ghost s = byte_pairs_view(h@);
    let mut i: usize = 0;
    while i < h.len()
        invariant
            s == byte_pairs_view(h@),
            keys_unique(s),
            i <= s.len(),
            forall|j: int| 0 <= j < i ==> s[j].0 != k@,
        decreases s.len() - i,
    {
        if bytes_eq(h[i].0.as_slice(), k) {
            assert(s[i as int].0 == k@);
            assert(has_key(s, k@));
            let ghost p = key_pos(s, k@);
            assert(s[p].0 == k@);
            return Some(&h[i].1);
        }
        i = i + 1;
    }
    assert(!has_key(s, k@)) by {
        if has_key(s, k@) {
            let p = key_pos(s, k@);
            assert(s[p].0 == k@);
        }
    }
    None
}

/// The body length, as `content_length` says.
fn content_length_exec(h: &Vec<(Vec<u8>, Vec<u8>)>) -> (r: Option<usize>)
    requires
        keys_unique(byte_pairs_view(h@)),
    ensures
        r matches Some(n) ==> content_length(byte_pairs_view(h@)) == Some(n as nat),
        r is None ==> content_length(byte_pairs_view(h@)) is None,
{
    let v = match lookup_bytes(h, "Content-Length".as_bytes()) {
        Some(v) => Some(v),
        None => lookup_bytes(h, "content-length".as_bytes()),
    };
    match v {
        Some(v) => match parse_decimal(v.as_slice(), usize::MAX as u64) {
            Some(n) => Some(n as usize),
            None => None,
        },
        None => None,
    }
}

/// A parsed request.
#[derive(Debug, Clone)]
pub struct Request {
    pub method: RequestMethod,
    pub uri: RequestURI,
    pub headers: Vec<(String, String)>,
    pub body: Vec<u8>,
}

impl Request {
    /// The target and the headers of `m` can be read as UTF-8.
    pub open spec fn decodable(m: RequestBytes) -> bool {
        RequestURI::decodable(m.uri) && pairs_utf8(m.headers)
    }

    /// This request is `m` with its text decoded.
    pub open spec fn of_bytes(&self, m: RequestBytes) -> bool {
        &&& self.method == m.method
        &&& self.uri.of_bytes(m.uri)
        &&& pairs_view(self.headers@) == decode_pairs(m.headers)
        &&& self.body@ == m.body
    }

    /// Reads a request from the bytes `data` received so far. With `at_eof`
    /// nothing follows them; without, `Incomplete` asks for more.
    pub fn parse(data: &[u8], at_eof: bool) -> (r: Result<Request, ParseFailure>)
        ensures
            match parse_spec(data@, at_eof) {
                Ok(m) => if Self::decodable(m) {
                    r matches Ok(req) && req.of_bytes(m)
                } else {
                    r matches Err(e) && e.kind() == Fail::Utf8
                },
                Err(f) => r matches Err(e) && e.kind() == f,
            },
    {
        let e = match line_end_exec(data, 0, at_eof) {
            Some(e) => e,
            None => return Err(ParseFailure::Incomplete),
        };
        let line = sub_vec(data, 0, e);
        let (method, uri) = match parse_request_line(line.as_slice()) {
            Ok(x) => x,
            Err(f) => return Err(f),
        };
        let (headers, start) = match parse_headers(data, e, at_eof) {
            Ok(x) => x,
            Err(f) => return Err(f),
        };
        let body = if method == RequestMethod::GET {
            Vec::new()
        } else {
            let n = match content_length_exec(&headers) {
                Some(n) => n,
                None => return Err(
                    ParseFailure::Malformed(RequestParseError::MalformedContentLength),
                ),
            };
            if n <= data.len() - start {
                sub_vec(data, start, start + n)
            } else if at_eof {
                return Err(ParseFailure::UnexpectedEof);
            } else {
                return Err(ParseFailure::Incomplete);
            }
        };
        let uri = match RequestURI::from_bytes(uri.as_slice()) {
            Some(u) => u,
            None => return Err(ParseFailure::InvalidUtf8),
        };
        let headers = match decode_pair_list(headers) {
            Some(h) => h,
            None => return Err(ParseFailure::InvalidUtf8),
        };
        Ok(Request { method, uri, headers, body })
    }
}

/// A GET request whose request line and headers are well formed is read,
/// with an empty body, whatever follows the head.
pub proof fn lemma_get_parses_with_empty_body(
    d: Seq<u8>,
    at_eof: bool,
    e: int,
    uri: Seq<u8>,
    h: Seq<(Seq<u8>, Seq<u8>)>,
    start: int,
)
    requires
        line_end(d, 0, at_eof) == Some(e),
        request_line(d.subrange(0, e)) == Ok::<(RequestMethod, Seq<u8>), Fail>((RequestMethod::GET, uri)),
        headers_from(d, e, at_eof, Seq::empty()) == Ok::<(Seq<(Seq<u8>, Seq<u8>)>, int), Fail>((h, start)),
    ensures
        parse_spec(d, at_eof) == Ok::<RequestBytes, Fail>(
            RequestBytes { method: RequestMethod::GET, uri, headers: h, body: Seq::empty() },
        ),
{
}

/// A POST request reads exactly `Content-Length` bytes of body; a stream that
/// ends before them is an end-of-stream failure, never a shorter body.
pub proof fn lemma_post_body_is_content_length(
    d: Seq<u8>,
    at_eof: bool,
    e: int,
    uri: Seq<u8>,
    h: Seq<(Seq<u8>, Seq<u8>)>,
    start: int,
    n: nat,
)
    requires
        line_end(d, 0, at_eof) == Some(e),
        request_line(d.subrange(0, e)) == Ok::<(RequestMethod, Seq<u8>), Fail>((RequestMethod::POST, uri)),
        headers_from(d, e, at_eof, Seq::empty()) == Ok::<(Seq<(Seq<u8>, Seq<u8>)>, int), Fail>((h, start)),
        content_length(h) == Some(n),
    ensures
        start + n <= d.len() ==> (parse_spec(d, at_eof) matches Ok(m) && m.body.len() == n && m.body
            == d.subrange(start, start + n)),
        start + n > d.len() && at_eof ==> parse_spec(d, at_eof) == Err::<RequestBytes, Fail>(Fail::Eof),
        start + n > d.len() && !at_eof ==> parse_spec(d, at_eof) == Err::<RequestBytes, Fail>(
            Fail::Incomplete,
        ),
{
    lemma_headers_end(d, e, at_eof, Seq::empty());
}

/// Where the headers end lies between the head's start and the stream's end.
pub proof fn lemma_headers_end(d: Seq<u8>, pos: int, at_eof: bool, acc: Seq<(Seq<u8>, Seq<u8>)>)
    requires
        0 <= pos <= d.len(),
    ensures
        headers_from(d, pos, at_eof, acc) matches Ok((h, start)) ==> pos <= start <= d.len(),
    decreases d.len() - pos,
{
    lemma_find_byte(d, pos, LF);
    match line_end(d, pos, at_eof) {
        Some(e) => {
            if 0 <= pos < e <= d.len() {
                let l = d.subrange(pos, e);
                let s = strip_eol(l);
                if let Some(c) = find_sep(s, 0) {
                    lemma_headers_end(d, e, at_eof, upsert(acc, s.subrange(0, c), s.subrange(c + 2, s.len() as int)));
                }
            }
        },
        None => {},
    }
}

proof fn lemma_find_byte_prefix(p: Seq<u8>, q: Seq<u8>, from: int, b: u8)
    requires
        p.len() <= q.len(),
        q.subrange(0, p.len() as int) == p,
        0 <= from <= p.len(),
    ensures
        find_byte(p, from, b) matches Some(i) ==> find_byte(q, from, b) == Some(i),
        find_byte(p, from, b) is None ==> find_byte(q, from, b) == find_byte(q, p.len() as int, b),
    decreases p.len() - from,
{
    if from < p.len() {
        assert(q[from] == q.subrange(0, p.len() as int)[from]);
        if p[from] != b {
            lemma_find_byte_prefix(p, q, from + 1, b);
        }
    }
}

pub proof fn lemma_find_byte_at(d: Seq<u8>, from: int, j: int, b: u8)
    requires
        0 <= from <= j < d.len(),
        d[j] == b,
        forall|x: int| from <= x < j ==> d[x] != b,
    ensures
        find_byte(d, from, b) == Some(j),
    decreases j - from,
{
    if from < j {
        lemma_find_byte_at(d, from + 1, j, b);
    }
}

proof fn lemma_find_byte_absent(d: Seq<u8>, from: int, b: u8)
    requires
        0 <= from,
        forall|x: int| from <= x < d.len() ==> d[x] != b,
    ensures
        find_byte(d, from, b) is None,
    decreases d.len() - from,
{
    if from < d.len() {
        lemma_find_byte_absent(d, from + 1, b);
    }
}

proof fn lemma_params_unique(q: Seq<u8>, from: int, acc: Seq<(Seq<u8>, Seq<u8>)>)
    requires
        keys_unique(acc),
    ensures
        keys_unique(params_from(q, from, acc)),
    decreases q.len() - from,
{
    if 0 <= from <= q.len() {
        lemma_find_byte(q, from, AMP);
        match find_byte(q, from, AMP) {
            Some(i) => {
                let piece = q.subrange(from, i);
                lemma_add_param_unique(acc, piece);
                lemma_params_unique(q, i + 1, add_param(acc, piece));
            },
            None => {
                lemma_add_param_unique(acc, q.subrange(from, q.len() as int));
            },
        }
    }
}

proof fn lemma_add_param_unique(acc: Seq<(Seq<u8>, Seq<u8>)>, piece: Seq<u8>)
    requires
        keys_unique(acc),
    ensures
        keys_unique(add_param(acc, piece)),
{
    if let Some(j) = find_byte(piece, 0, EQ) {
        lemma_upsert(acc, piece.subrange(0, j), piece.subrange(j + 1, piece.len() as int));
    }
}

/// The query `p&piece`, where `piece` holds no `&`, has the parameters of
/// `p` with `piece` added last.
proof fn lemma_params_last_piece(p: Seq<u8>, piece: Seq<u8>, from: int, acc: Seq<(Seq<u8>, Seq<u8>)>)
    requires
        0 <= from <= p.len(),
        forall|x: int| 0 <= x < piece.len() ==> piece[x] != AMP,
    ensures
        params_from(p + seq![AMP] + piece, from, acc) == add_param(params_from(p, from, acc), piece),
    decreases p.len() - from,
{
    let q = p + seq![AMP] + piece;
    let l = p.len() as int;
    assert(q.subrange(0, l) =~= p);
    lemma_find_byte(p, from, AMP);
    lemma_find_byte_prefix(p, q, from, AMP);
    match find_byte(p, from, AMP) {
        Some(i) => {
            assert(q.subrange(from, i) =~= p.subrange(from, i));
            lemma_params_last_piece(p, piece, i + 1, add_param(acc, p.subrange(from, i)));
        },
        None => {
            lemma_find_byte_at(q, l, l, AMP);
            assert(q.subrange(from, l) =~= p.subrange(from, l));
            let acc2 = add_param(acc, p.subrange(from, l));
            assert forall|x: int| l + 1 <= x < q.len() implies q[x] != AMP by {
                assert(q[x] == piece[x - l - 1]);
            }
            lemma_find_byte_absent(q, l + 1, AMP);
            assert(q.subrange(l + 1, q.len() as int) =~= piece);
            assert(params_from(q, l + 1, acc2) == add_param(acc2, piece));
            assert(params_from(q, from, acc) == params_from(q, l + 1, acc2));
            assert(params_from(p, from, acc) == acc2);
        },
    }
}

/// In a query that ends with `&key=value`, `key` maps to `value`, whatever
/// earlier pieces gave it: the last occurrence of a key wins.
pub proof fn lemma_query_last_value_wins(p: Seq<u8>, key: Seq<u8>, value: Seq<u8>)
    requires
        forall|x: int| 0 <= x < key.len() ==> key[x] != AMP && key[x] != EQ,
        forall|x: int| 0 <= x < value.len() ==> value[x] != AMP,
    ensures
        lookup(params_from(p + seq![AMP] + key + seq![EQ] + value, 0, Seq::empty()), key) == Some(value),
{
    let piece = key + seq![EQ] + value;
    assert forall|x: int| 0 <= x < piece.len() implies piece[x] != AMP by {
        if x < key.len() {
            assert(piece[x] == key[x]);
        } else if x > key.len() {
            assert(piece[x] == value[x - key.len() - 1]);
        }
    }
    assert(p + seq![AMP] + key + seq![EQ] + value =~= p + seq![AMP] + piece);
    lemma_params_last_piece(p, piece, 0, Seq::empty());
    let x = params_from(p, 0, Seq::empty());
    lemma_params_unique(p, 0, Seq::empty());
    assert forall|y: int| 0 <= y < key.len() implies piece[y] != EQ by {
        assert(piece[y] == key[y]);
    }
    lemma_find_byte_at(piece, 0, key.len() as int, EQ);
    assert(piece.subrange(0, key.len() as int) =~= key);
    assert(piece.subrange(key.len() as int + 1, piece.len() as int) =~= value);
    lemma_upsert(x, key, value);
}

} // verus!
