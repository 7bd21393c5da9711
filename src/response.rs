//! The response model: a status line, an ordered header list, a body, and the
//! exact bytes that go on the wire.
use vstd::prelude::*;
use vstd::utf8::*;
use crate::text::{digit_char, lookup, decimal, decimal_string, keys_unique, lemma_upsert, pairs_view, upsert, upsert_pair};

verus! {

/// An HTTP response under construction. Header names are unique; setting one
/// again replaces its value in place.
#[derive(Debug, Clone)]
pub struct Response {
    pub status_code: u16,
    pub status_message: String,
    pub headers: Vec<(String, String)>,
    pub body: Vec<u8>,
}

/// The bytes of a text.
pub open spec fn utf8(s: Seq<char>) -> Seq<u8> {
    encode_utf8(s)
}

/// `<name>: <value>\r\n`
pub open spec fn header_line_bytes(p: (Seq<char>, Seq<char>)) -> Seq<u8> {
    utf8(p.0) + utf8(": "@) + utf8(p.1) + utf8("\r\n"@)
}

/// The header lines, in list order.
pub open spec fn headers_bytes(h: Seq<(Seq<char>, Seq<char>)>) -> Seq<u8>
    decreases h.len(),
{
    if h.len() == 0 {
        Seq::empty()
    } else {
        headers_bytes(h.drop_last()) + header_line_bytes(h.last())
    }
}

/// `HTTP/1.1 <code> <message>\r\n`
pub open spec fn status_line_bytes(code: u16, message: Seq<char>) -> Seq<u8> {
    utf8("HTTP/1.1 "@) + utf8(decimal(code as nat)) + utf8(" "@) + utf8(message) + utf8("\r\n"@)
}

/// The name of the header that gives the body's length.
pub open spec fn content_length_name() -> Seq<char> {
    "Content-Length"@
}

impl Response {
    /// The header list as characters.
    pub open spec fn headers_view(&self) -> Seq<(Seq<char>, Seq<char>)> {
        pairs_view(self.headers@)
    }

    /// Header names are unique.
    pub open spec fn wf(&self) -> bool {
        keys_unique(self.headers_view())
    }

    /// What `to_bytes` writes: status line, header lines, a bare CRLF, the body.
    pub open spec fn wire(&self) -> Seq<u8> {
        status_line_bytes(self.status_code, self.status_message@) + headers_bytes(
            self.headers_view(),
        ) + utf8("\r\n"@) + self.body@
    }

    pub fn with_status_code(self, code: u16) -> (r: Self)
        ensures
            r.status_code == code,
            r.status_message == self.status_message,
            r.headers == self.headers,
            r.body == self.body,
    {
        let mut r = self;
        r.status_code = code;
        r
    }

    pub fn with_status_message(self, message: String) -> (r: Self)
        ensures
            r.status_code == self.status_code,
            r.status_message == message,
            r.headers == self.headers,
            r.body == self.body,
    {
        let mut r = self;
        r.status_message = message;
        r
    }

    /// Sets a header; one already present keeps its place and takes the value.
    pub fn with_header(self, name: String, value: String) -> (r: Self)
        requires
            self.wf(),
        ensures
            r.status_code == self.status_code,
            r.status_message == self.status_message,
            r.headers_view() == upsert(self.headers_view(), name@, value@),
            r.body == self.body,
            r.wf(),
    {
        let mut r = self;
        upsert_pair(&mut r.headers, name, value);
        proof {
            lemma_upsert(self.headers_view(), name@, value@);
        }
        r
    }

    /// Sets a header when a value is given, and changes nothing otherwise.
    pub fn try_with_header(self, name: String, value: Option<String>) -> (r: Self)
        requires
            self.wf(),
        ensures
            r.status_code == self.status_code,
            r.status_message == self.status_message,
            r.body == self.body,
            value matches Some(v) ==> r.headers_view() == upsert(self.headers_view(), name@, v@),
            value is None ==> r.headers == self.headers,
            r.wf(),
    {
        match value {
            Some(v) => self.with_header(name, v),
            None => self,
        }
    }

    /// Sets `Content-Length` to the body's length in bytes.
    pub fn with_content_length(self) -> (r: Self)
        requires
            self.wf(),
        ensures
            r.status_code == self.status_code,
            r.status_message == self.status_message,
            r.headers_view() == upsert(
                self.headers_view(),
                content_length_name(),
                decimal(self.body@.len()),
            ),
            r.body == self.body,
            r.wf(),
    {
        let len = self.body.len();
        let value = decimal_string(len as u64);
        let name = "Content-Length".to_owned();
        proof {
            reveal_strlit("Content-Length");
        }
        self.with_header(name, value)
    }

    pub fn with_body(self, content: Vec<u8>) -> (r: Self)
        ensures
            r.status_code == self.status_code,
            r.status_message == self.status_message,
            r.headers == self.headers,
            r.body == content,
    {
        let mut r = self;
        r.body = content;
        r
    }

    /// The response as it goes on the wire.
    pub fn to_bytes(&self) -> (r: Vec<u8>)
        ensures
            r@ == self.wire(),
    {
        let mut out: Vec<u8> = Vec::new();
        push_bytes(&mut out, "HTTP/1.1 ".as_bytes());
        let code = decimal_string(self.status_code as u64);
        push_bytes(&mut out, code.as_str().as_bytes());
        push_bytes(&mut out, " ".as_bytes());
        push_bytes(&mut out, self.status_message.as_str().as_bytes());
        push_bytes(&mut out, "\r\n".as_bytes());
        assert(out@ =~= status_line_bytes(self.status_code, self.status_message@));
        let ghost h = self.headers_view();
        let mut i: usize = 0;
        while i < self.headers.len()
            invariant
                h == self.headers_view(),
                i <= h.len(),
                out@ == status_line_bytes(self.status_code, self.status_message@) + headers_bytes(
                    h.subrange(0, i as int),
                ),
            decreases self.headers.len() - i,
        {
            let ghost before = out@;
            push_bytes(&mut out, self.headers[i].0.as_str().as_bytes());
            push_bytes(&mut out, ": ".as_bytes());
            push_bytes(&mut out, self.headers[i].1.as_str().as_bytes());
            push_bytes(&mut out, "\r\n".as_bytes());
            assert(h.subrange(0, i + 1).drop_last() =~= h.subrange(0, i as int));
            assert(out@ =~= before + header_line_bytes(h[i as int]));
            i = i + 1;
        }
        assert(h.subrange(0, h.len() as int) =~= h);
        push_bytes(&mut out, "\r\n".as_bytes());
        push_bytes(&mut out, self.body.as_slice());
        assert(out@ =~= self.wire());
        out
    }
}

impl Default for Response {
    /// Status 200 `OK`, the `server` header, an empty body.
    fn default() -> (r: Self)
        ensures
            r.status_code == 200,
            r.status_message@ == "OK"@,
            r.headers_view() == seq![("server"@, "my-rust-server"@)],
            r.body@ == Seq::<u8>::empty(),
            r.wf(),
    {
        let mut headers: Vec<(String, String)> = Vec::new();
        headers.push(("server".to_owned(), "my-rust-server".to_owned()));
        let r = Response { status_code: 200, status_message: "OK".to_owned(), headers, body: Vec::new() };
        assert(r.headers_view() =~= seq![("server"@, "my-rust-server"@)]);
        r
    }
}

/// Appends `b` to `out`.
pub fn push_bytes(out: &mut Vec<u8>, b: &[u8])
    ensures
        final(out)@ == old(out)@ + b@,
{
    let mut i: usize = 0;
    while i < b.len()
        invariant
            i <= b@.len(),
            out@ == old(out)@ + b@.subrange(0, i as int),
        decreases b@.len() - i,
    {
        out.push(b[i]);
        i = i + 1;
        assert(out@ =~= old(out)@ + b@.subrange(0, i as int));
    }
    assert(b@.subrange(0, b@.len() as int) =~= b@);
}

/// After `with_content_length` a response's header list says the body's
/// length, and its bytes on the wire are its head, a bare CRLF, then exactly
/// the body: the last `Content-Length` bytes are the body.
pub proof fn lemma_wire_ends_with_declared_body(r: Response, before: Response)
    requires
        before.wf(),
        r.status_code == before.status_code,
        r.status_message == before.status_message,
        r.body == before.body,
        r.headers_view() == upsert(before.headers_view(), content_length_name(), decimal(before.body@.len())),
    ensures
        r.wf(),
        lookup(r.headers_view(), content_length_name()) == Some(decimal(r.body@.len())),
        r.wire() == status_line_bytes(r.status_code, r.status_message@) + headers_bytes(r.headers_view())
            + utf8("\r\n"@) + r.body@,
        r.wire().subrange(r.wire().len() - r.body@.len(), r.wire().len() as int) == r.body@,
{
    lemma_upsert(before.headers_view(), content_length_name(), decimal(before.body@.len()));
    let w = r.wire();
    let head = status_line_bytes(r.status_code, r.status_message@) + headers_bytes(r.headers_view()) + utf8(
        "\r\n"@,
    );
    assert(w =~= head + r.body@);
    assert(w.subrange(head.len() as int, w.len() as int) =~= r.body@);
}

/// No byte of `s` is `b`.
pub open spec fn no_byte(s: Seq<u8>, b: u8) -> bool {
    forall|i: int| 0 <= i < s.len() ==> s[i] != b
}

/// The first CRLF at or after `from`.
pub open spec fn find_crlf(w: Seq<u8>, from: int) -> Option<int>
    decreases w.len() - from,
{
    if from < 0 || from + 1 >= w.len() {
        None
    } else if w[from] == 13 && w[from + 1] == 10 {
        Some(from)
    } else {
        find_crlf(w, from + 1)
    }
}

/// Reads header lines from `pos` on until a bare CRLF, each split at its
/// first `": "`; gives them in order, and where the body starts.
pub open spec fn read_headers(w: Seq<u8>, pos: int, acc: Seq<(Seq<u8>, Seq<u8>)>) -> Option<
    (Seq<(Seq<u8>, Seq<u8>)>, int),
>
    decreases w.len() - pos,
{
    match find_crlf(w, pos) {
        None => None,
        Some(e) => if e == pos {
            Some((acc, e + 2))
        } else if 0 <= pos < e && e + 2 <= w.len() {
            let line = w.subrange(pos, e);
            match crate::request::find_sep(line, 0) {
                None => None,
                Some(c) => read_headers(
                    w,
                    e + 2,
                    acc.push((line.subrange(0, c), line.subrange(c + 2, line.len() as int))),
                ),
            }
        } else {
            None
        },
    }
}

/// A response read back from its bytes.
pub struct ReadBack {
    pub code: Seq<u8>,
    pub message: Seq<u8>,
    pub headers: Seq<(Seq<u8>, Seq<u8>)>,
    pub body: Seq<u8>,
}

/// Reads a response from the bytes of a connection: `HTTP/1.1 `, the code up
/// to a space, the message up to CRLF, the header lines, and what follows
/// the bare CRLF as the body.
pub open spec fn read_response(w: Seq<u8>) -> Option<ReadBack> {
    let pre = utf8("HTTP/1.1 "@);
    if w.len() < pre.len() || w.subrange(0, pre.len() as int) != pre {
        None
    } else {
        match find_crlf(w, pre.len() as int) {
            None => None,
            Some(e) => {
                let status = w.subrange(pre.len() as int, e);
                match crate::bytes::find_byte(status, 0, 32) {
                    None => None,
                    Some(sp) => match read_headers(w, e + 2, Seq::empty()) {
                        None => None,
                        Some((h, start)) => Some(
                            ReadBack {
                                code: status.subrange(0, sp),
                                message: status.subrange(sp + 1, status.len() as int),
                                headers: h,
                                body: w.subrange(start, w.len() as int),
                            },
                        ),
                    },
                }
            },
        }
    }
}

/// The header list as bytes.
pub open spec fn headers_utf8(h: Seq<(Seq<char>, Seq<char>)>) -> Seq<(Seq<u8>, Seq<u8>)> {
    h.map_values(|p: (Seq<char>, Seq<char>)| (utf8(p.0), utf8(p.1)))
}

/// Every header line can be read back: no CR in names or values, no colon in names.
pub open spec fn lines_readable(h: Seq<(Seq<char>, Seq<char>)>) -> bool {
    forall|i: int|
        0 <= i < h.len() ==> no_byte(utf8(#[trigger] h[i].0), 13) && no_byte(utf8(h[i].0), 58) && no_byte(
            utf8(h[i].1),
            13,
        )
}

proof fn lemma_find_crlf_at(w: Seq<u8>, from: int, e: int)
    requires
        0 <= from <= e,
        e + 1 < w.len(),
        w[e] == 13 && w[e + 1] == 10,
        forall|x: int| from <= x < e ==> w[x] != 13,
    ensures
        find_crlf(w, from) == Some(e),
    decreases e - from,
{
    if from < e {
        lemma_find_crlf_at(w, from + 1, e);
    }
}

proof fn lemma_find_sep_at(s: Seq<u8>, from: int, c: int)
    requires
        0 <= from <= c,
        c + 1 < s.len(),
        s[c] == 58 && s[c + 1] == 32,
        forall|x: int| from <= x < c ==> s[x] != 58,
    ensures
        crate::request::find_sep(s, from) == Some(c),
    decreases c - from,
{
    if from < c {
        lemma_find_sep_at(s, from + 1, c);
    }
}

proof fn lemma_headers_bytes_front(h: Seq<(Seq<char>, Seq<char>)>)
    requires
        h.len() > 0,
    ensures
        headers_bytes(h) == header_line_bytes(h[0]) + headers_bytes(h.drop_first()),
    decreases h.len(),
{
    if h.len() > 1 {
        lemma_headers_bytes_front(h.drop_last());
        assert(h.drop_last().drop_first() =~= h.drop_first().drop_last());
        assert(h.drop_first().last() == h.last());
        assert(h.drop_last()[0] == h[0]);
    } else {
        assert(h.drop_first() =~= Seq::<(Seq<char>, Seq<char>)>::empty());
        assert(h.drop_last() =~= Seq::<(Seq<char>, Seq<char>)>::empty());
    }
}

proof fn lemma_literals()
    ensures
        utf8("\r\n"@) == seq![13u8, 10u8],
        utf8(": "@) == seq![58u8, 32u8],
        utf8(" "@) == seq![32u8],
{
    reveal_strlit("\r\n");
    reveal_strlit(": ");
    reveal_strlit(" ");
    is_ascii_chars_encode_utf8("\r\n"@);
    is_ascii_chars_encode_utf8(": "@);
    is_ascii_chars_encode_utf8(" "@);
    assert(utf8("\r\n"@) =~= seq![13u8, 10u8]);
    assert(utf8(": "@) =~= seq![58u8, 32u8]);
    assert(utf8(" "@) =~= seq![32u8]);
}

proof fn lemma_read_headers(w: Seq<u8>, pos: int, h: Seq<(Seq<char>, Seq<char>)>, acc: Seq<(Seq<u8>, Seq<u8>)>)
    requires
        0 <= pos,
        lines_readable(h),
        pos + headers_bytes(h).len() + 2 <= w.len(),
        w.subrange(pos, pos + headers_bytes(h).len() + 2) == headers_bytes(h) + utf8("\r\n"@),
    ensures
        read_headers(w, pos, acc) == Some((acc + headers_utf8(h), pos + headers_bytes(h).len() + 2)),
    decreases h.len(),
{
    lemma_literals();
    let crlf = utf8("\r\n"@);
    if h.len() == 0 {
        assert(headers_bytes(h) =~= Seq::<u8>::empty());
        assert(w[pos] == w.subrange(pos, pos + 2)[0]);
        assert(w[pos + 1] == w.subrange(pos, pos + 2)[1]);
        lemma_find_crlf_at(w, pos, pos);
        assert(acc + headers_utf8(h) =~= acc);
    } else {
        lemma_headers_bytes_front(h);
        let n = utf8(h[0].0);
        let v = utf8(h[0].1);
        let line = n + utf8(": "@) + v;
        let rest = h.drop_first();
        let e = pos + line.len();
        assert(header_line_bytes(h[0]) =~= line + crlf);
        let seg = w.subrange(pos, pos + headers_bytes(h).len() + 2);
        assert(seg =~= line + crlf + headers_bytes(rest) + crlf);
        assert(w[e] == seg[line.len() as int]);
        assert(w[e + 1] == seg[line.len() as int + 1]);
        assert forall|x: int| pos <= x < e implies w[x] != 13 by {
            assert(w[x] == seg[x - pos]);
            assert(seg[x - pos] == line[x - pos]);
            if x - pos < n.len() {
                assert(line[x - pos] == n[x - pos]);
            } else if x - pos >= n.len() + 2 {
                assert(line[x - pos] == v[x - pos - n.len() - 2]);
            }
        }
        lemma_find_crlf_at(w, pos, e);
        assert(w.subrange(pos, e) =~= line);
        assert forall|x: int| 0 <= x < n.len() implies line[x] != 58 by {
            assert(line[x] == n[x]);
        }
        lemma_find_sep_at(line, 0, n.len() as int);
        assert(line.subrange(0, n.len() as int) =~= n);
        assert(line.subrange(n.len() as int + 2, line.len() as int) =~= v);
        assert(lines_readable(rest)) by {
            assert forall|i: int| 0 <= i < rest.len() implies no_byte(utf8(#[trigger] rest[i].0), 13) && no_byte(utf8(rest[i].0), 58) && no_byte(utf8(rest[i].1), 13) by {
                assert(rest[i] == h[i + 1]);
            }
        }
        let pos2 = e + 2;
        assert(w.subrange(pos2, pos2 + headers_bytes(rest).len() + 2) =~= headers_bytes(rest) + crlf) by {
            assert forall|x: int| 0 <= x < headers_bytes(rest).len() + 2 implies w.subrange(pos2, pos2 + headers_bytes(rest).len() + 2)[x] == (headers_bytes(rest) + crlf)[x] by {
                assert(w[pos2 + x] == seg[line.len() as int + 2 + x]);
            }
        }
        lemma_read_headers(w, pos2, rest, acc.push((n, v)));
        assert(acc.push((n, v)) + headers_utf8(rest) =~= acc + headers_utf8(h));
    }
}

proof fn lemma_digit_char(d: nat)
    requires
        d < 10,
    ensures
        '0' <= digit_char(d) <= '9',
{
    let t = seq!['0', '1', '2', '3', '4', '5', '6', '7', '8', '9'];
    assert(digit_char(d) == t[d as int]);
    if d == 0 {} else if d == 1 {} else if d == 2 {} else if d == 3 {} else if d == 4 {}
    else if d == 5 {} else if d == 6 {} else if d == 7 {} else if d == 8 {} else {}
}

proof fn lemma_decimal_bytes(n: nat)
    ensures
        forall|i: int| 0 <= i < utf8(decimal(n)).len() ==> 48 <= #[trigger] utf8(decimal(n))[i] <= 57,
{
    lemma_decimal_chars(n);
    assert(is_ascii_chars(decimal(n)));
    is_ascii_chars_encode_utf8(decimal(n));
}

proof fn lemma_decimal_chars(n: nat)
    ensures
        forall|i: int| 0 <= i < decimal(n).len() ==> '0' <= #[trigger] decimal(n)[i] <= '9',
    decreases n,
{
    let s = decimal(n);
    assert forall|i: int| 0 <= i < s.len() implies '0' <= #[trigger] s[i] <= '9' by {
        if n < 10 {
            lemma_digit_char(n);
        } else {
            lemma_decimal_chars(n / 10);
            lemma_digit_char(n % 10);
            if i < s.len() - 1 {
                assert(s[i] == decimal(n / 10)[i]);
            }
        }
    }
}

/// Reading a response back from its bytes gives its status code and
/// message, its headers in order, and its body, when no message, header name
/// or header value holds a CR and no header name holds a colon.
pub proof fn lemma_round_trip(r: Response)
    requires
        no_byte(utf8(r.status_message@), 13),
        lines_readable(r.headers_view()),
    ensures
        read_response(r.wire()) == Some(
            ReadBack {
                code: utf8(decimal(r.status_code as nat)),
                message: utf8(r.status_message@),
                headers: headers_utf8(r.headers_view()),
                body: r.body@,
            },
        ),
{
    lemma_literals();
    lemma_decimal_bytes(r.status_code as nat);
    let pre = utf8("HTTP/1.1 "@);
    let d = utf8(decimal(r.status_code as nat));
    let sp = utf8(" "@);
    let m = utf8(r.status_message@);
    let crlf = utf8("\r\n"@);
    let hb = headers_bytes(r.headers_view());
    let w = r.wire();
    let p = pre.len() as int;
    assert(w =~= pre + (d + sp + m) + crlf + hb + crlf + r.body@);
    assert(w.subrange(0, p) =~= pre);
    let e = p + d.len() + 1 + m.len();
    assert(w[e] == 13 && w[e + 1] == 10) by {
        assert(w[e] == crlf[0]);
        assert(w[e + 1] == crlf[1]);
    }
    assert forall|x: int| p <= x < e implies w[x] != 13 by {
        if x < p + d.len() {
            assert(w[x] == d[x - p]);
        } else if x == p + d.len() {
            assert(w[x] == sp[0]);
        } else {
            assert(w[x] == m[x - p - d.len() - 1]);
        }
    }
    lemma_find_crlf_at(w, p, e);
    let status = w.subrange(p, e);
    assert(status =~= d + sp + m);
    assert(status[d.len() as int] == 32);
    assert forall|x: int| 0 <= x < d.len() implies status[x] != 32 by {
        assert(status[x] == d[x]);
    }
    crate::request::lemma_find_byte_at(status, 0, d.len() as int, 32);
    assert(status.subrange(0, d.len() as int) =~= d);
    assert(status.subrange(d.len() as int + 1, status.len() as int) =~= m);
    let pos = e + 2;
    assert(w.subrange(pos, pos + hb.len() + 2) =~= hb + crlf);
    lemma_read_headers(w, pos, r.headers_view(), Seq::empty());
    assert(Seq::<(Seq<u8>, Seq<u8>)>::empty() + headers_utf8(r.headers_view()) =~= headers_utf8(
        r.headers_view(),
    ));
    assert(w.subrange(pos + hb.len() + 2, w.len() as int) =~= r.body@);
}

} // verus!
