//! HTTP responses: construction, body encoding and the HTTP/1.x wire format.
use vstd::prelude::*;
use vstd::utf8::*;

use crate::compression::{self, accepted_encoding, encoded, encoding_name, Encoding};
use crate::request::{Request, RequestView};
use crate::text::{
    append_bytes, append_str, chars_end_with, chars_of, decimal_bytes, decimal_u8s, ends_with,
    eq_ignore_ascii_case, starts_with, str_eq_ignore_ascii_case,
};

verus! {

pub struct Response {
    pub version: String,
    pub status_code: u16,
    pub reason: &'static str,
    pub content_encoding: Option<String>,
    pub content_type: Option<&'static str>,
    pub body: Option<Vec<u8>>,
    pub connection: Option<String>,
}

pub ghost struct ResponseView {
    pub version: Seq<char>,
    pub status_code: u16,
    pub reason: Seq<char>,
    pub content_encoding: Option<Seq<char>>,
    pub content_type: Option<Seq<char>>,
    pub body: Option<Seq<u8>>,
    pub connection: Option<Seq<char>>,
}

impl View for Response {
    type V = ResponseView;

    open spec fn view(&self) -> ResponseView {
        ResponseView {
            version: self.version@,
            status_code: self.status_code,
            reason: self.reason@,
            content_encoding: match self.content_encoding {
                Some(e) => Some(e@),
                None => None,
            },
            content_type: match self.content_type {
                Some(t) => Some(t@),
                None => None,
            },
            body: match self.body {
                Some(b) => Some(b@),
                None => None,
            },
            connection: match self.connection {
                Some(c) => Some(c@),
                None => None,
            },
        }
    }
}

/// A response with a status line only: no body and no optional headers.
pub open spec fn status_only(version: Seq<char>, code: u16, reason: Seq<char>) -> ResponseView {
    ResponseView {
        version,
        status_code: code,
        reason,
        content_encoding: None,
        content_type: None,
        body: None,
        connection: None,
    }
}

/// The encoding that a request's `Accept-Encoding` header selects.
pub open spec fn request_encoding(req: RequestView) -> Option<Encoding> {
    if req.headers.contains_key("Accept-Encoding"@) {
        accepted_encoding(req.headers["Accept-Encoding"@])
    } else {
        None
    }
}

/// `res` with body `body` of type `content_type`, encoded as the request
/// accepts (and marked with `Content-Encoding`), or unencoded.
pub open spec fn with_body_view(
    res: ResponseView,
    body: Seq<u8>,
    content_type: Seq<char>,
    req: RequestView,
) -> ResponseView {
    match request_encoding(req) {
        Some(e) => ResponseView {
            content_type: Some(content_type),
            content_encoding: Some(encoding_name(e)),
            body: Some(encoded(body, e)),
            ..res
        },
        None => ResponseView { content_type: Some(content_type), body: Some(body), ..res },
    }
}

/// `res` with an `application/octet-stream` body.
pub open spec fn octet_stream_view(res: ResponseView, body: Seq<u8>, req: RequestView) -> ResponseView {
    with_body_view(res, body, "application/octet-stream"@, req)
}

/// `res` with a `text/plain` body holding the UTF-8 bytes of `text`.
pub open spec fn text_body_view(res: ResponseView, text: Seq<char>, req: RequestView) -> ResponseView {
    with_body_view(res, encode_utf8(text), "text/plain"@, req)
}

/// The body builders agree: an octet-stream body is the typed body of type
/// `application/octet-stream`, and a text body is the typed body of the
/// text's UTF-8 bytes, of type `text/plain`.
pub proof fn law_body_builders_agree(
    res: ResponseView,
    body: Seq<u8>,
    text: Seq<char>,
    req: RequestView,
)
    ensures
        octet_stream_view(res, body, req) == with_body_view(
            res,
            body,
            "application/octet-stream"@,
            req,
        ),
        text_body_view(res, text, req) == with_body_view(res, encode_utf8(text), "text/plain"@, req),
{
}

/// The request asks for the connection to be closed after the response.
pub open spec fn asks_close(req: RequestView) -> bool {
    req.headers.contains_key("Connection"@) && eq_ignore_ascii_case(
        req.headers["Connection"@],
        "close"@,
    )
}

pub open spec fn crlf() -> Seq<u8> {
    encode_utf8("\r\n"@)
}

/// One header line `name: value\r\n`.
pub open spec fn header_line(name: Seq<char>, value: Seq<u8>) -> Seq<u8> {
    encode_utf8(name) + encode_utf8(": "@) + value + crlf()
}

/// The status line, `version code reason\r\n`.
pub open spec fn status_line(res: ResponseView) -> Seq<u8> {
    encode_utf8(res.version) + encode_utf8(" "@) + decimal_bytes(res.status_code as nat)
        + encode_utf8(" "@) + encode_utf8(res.reason) + crlf()
}

/// Length of the body, zero when there is none.
pub open spec fn body_len(res: ResponseView) -> nat {
    match res.body {
        Some(b) => b.len(),
        None => 0,
    }
}

/// The `Content-Encoding` line, when the response is encoded.
pub open spec fn encoding_line(res: ResponseView) -> Seq<u8> {
    match res.content_encoding {
        Some(e) => header_line("Content-Encoding"@, encode_utf8(e)),
        None => Seq::empty(),
    }
}

/// The `Content-Type` and `Content-Length` lines, when a type is set.
pub open spec fn typed_lines(res: ResponseView) -> Seq<u8> {
    match res.content_type {
        Some(t) => header_line("Content-Type"@, encode_utf8(t)) + header_line(
            "Content-Length"@,
            decimal_bytes(body_len(res)),
        ),
        None => Seq::empty(),
    }
}

/// The `Connection` line, when set.
pub open spec fn connection_line(res: ResponseView) -> Seq<u8> {
    match res.connection {
        Some(c) => header_line("Connection"@, encode_utf8(c)),
        None => Seq::empty(),
    }
}

/// The optional header lines: `Content-Encoding`, then `Content-Type` with
/// `Content-Length` (when a content type is set), then `Connection`.
pub open spec fn header_lines(res: ResponseView) -> Seq<u8> {
    encoding_line(res) + typed_lines(res) + connection_line(res)
}

/// The HTTP/1.x bytes of a response: status line, header lines, blank line,
/// body.
pub open spec fn wire_format(res: ResponseView) -> Seq<u8> {
    let body = match res.body {
        Some(b) => b,
        None => Seq::empty(),
    };
    status_line(res) + header_lines(res) + crlf() + body
}

/// A response that carries a connection option is sent with the line
/// `Connection: c` as its last header line, right before the blank line and
/// the body, whatever its content type, encoding and body; the bytes begin
/// with the status line.
pub proof fn law_connection_line_before_blank_line(res: ResponseView)
    ensures
        starts_with(wire_format(res), status_line(res)),
        res.connection matches Some(c) ==> exists|pre: Seq<u8>|
            wire_format(res) == #[trigger] (pre + header_line("Connection"@, encode_utf8(c)))
                + crlf() + match res.body {
                Some(b) => b,
                None => Seq::<u8>::empty(),
            },
{
    let body = match res.body {
        Some(b) => b,
        None => Seq::<u8>::empty(),
    };
    let w = wire_format(res);
    let sl = status_line(res);
    assert(w.subrange(0, sl.len() as int) =~= sl);
    if let Some(c) = res.connection {
        let pre = status_line(res) + encoding_line(res) + typed_lines(res);
        assert(w =~= (pre + header_line("Connection"@, encode_utf8(c))) + crlf() + body);
    }
}

/// The MIME type that a file name's extension suggests.
pub open spec fn mime_type(path: Seq<char>) -> Seq<char> {
    if ends_with(path, ".html"@) || ends_with(path, ".htm"@) {
        "text/html; charset=utf-8"@
    } else if ends_with(path, ".css"@) {
        "text/css"@
    } else if ends_with(path, ".js"@) {
        "text/javascript"@
    } else if ends_with(path, ".json"@) {
        "application/json"@
    } else if ends_with(path, ".png"@) {
        "image/png"@
    } else if ends_with(path, ".jpg"@) || ends_with(path, ".jpeg"@) {
        "image/jpeg"@
    } else if ends_with(path, ".svg"@) {
        "image/svg+xml"@
    } else if ends_with(path, ".txt"@) {
        "text/plain"@
    } else {
        "application/octet-stream"@
    }
}

/// Appends the header line `name: value\r\n`.
fn push_header_line(out: &mut Vec<u8>, name: &str, value: &[u8])
    ensures
        final(out)@ == old(out)@ + header_line(name@, value@),
{
    let ghost start = out@;
    append_str(out, name);
    append_str(out, ": ");
    append_bytes(out, value);
    append_str(out, "\r\n");
    assert(out@ =~= start + header_line(name@, value@));
}

impl Response {
    pub fn ok(req: &Request) -> (r: Self)
        ensures
            r@ == status_only(req.version@, 200, "OK"@),
    {
        Self {
            version: req.version.clone(),
            status_code: 200,
            reason: "OK",
            content_encoding: None,
            content_type: None,
            body: None,
            connection: None,
        }
    }

    pub fn created(req: &Request) -> (r: Self)
        ensures
            r@ == status_only(req.version@, 201, "Created"@),
    {
        Self {
            version: req.version.clone(),
            status_code: 201,
            reason: "Created",
            content_encoding: None,
            content_type: None,
            body: None,
            connection: None,
        }
    }

    pub fn no_content(req: &Request) -> (r: Self)
        ensures
            r@ == status_only(req.version@, 204, "No Content"@),
    {
        Self {
            version: req.version.clone(),
            status_code: 204,
            reason: "No Content",
            content_encoding: None,
            content_type: None,
            body: None,
            connection: None,
        }
    }

    pub fn create_error(req: &Request) -> (r: Self)
        ensures
            r@ == status_only(req.version@, 500, "Internal Server Error"@),
    {
        Self {
            version: req.version.clone(),
            status_code: 500,
            reason: "Internal Server Error",
            content_encoding: None,
            content_type: None,
            body: None,
            connection: None,
        }
    }

    pub fn not_found() -> (r: Self)
        ensures
            r@ == status_only("HTTP/1.1"@, 404, "Not Found"@),
    {
        Self {
            version: "HTTP/1.1".to_owned(),
            status_code: 404,
            reason: "Not Found",
            content_encoding: None,
            content_type: None,
            body: None,
            connection: None,
        }
    }

    pub fn method_not_allowed() -> (r: Self)
        ensures
            r@ == status_only("HTTP/1.1"@, 405, "Method Not Allowed"@),
    {
        Self {
            version: "HTTP/1.1".to_owned(),
            status_code: 405,
            reason: "Method Not Allowed",
            content_encoding: None,
            content_type: None,
            body: None,
            connection: None,
        }
    }

    pub fn with_text_body(self, body: String, req: &Request) -> (r: Self)
        ensures
            r@ == text_body_view(self@, body@, req@),
    {
        let bytes = vstd::slice::slice_to_vec(body.as_str().as_bytes());
        self.with_body(bytes, "text/plain", req)
    }

    pub fn with_octet_stream(self, body: Vec<u8>, req: &Request) -> (r: Self)
        ensures
            r@ == octet_stream_view(self@, body@, req@),
    {
        self.with_body(body, "application/octet-stream", req)
    }

    pub fn with_typed_body(self, body: Vec<u8>, content_type: &'static str, req: &Request) -> (r:
        Self)
        ensures
            r@ == with_body_view(self@, body@, content_type@, req@),
    {
        self.with_body(body, content_type, req)
    }

    /// Attaches a body, compressing it when the request's `Accept-Encoding`
    /// allows.
    fn with_body(self, body: Vec<u8>, content_type: &'static str, req: &Request) -> (r: Self)
        ensures
            r@ == with_body_view(self@, body@, content_type@, req@),
    {
        let mut res = self;
        res.content_type = Some(content_type);
        let accepted = match req.headers.get("Accept-Encoding") {
            Some(h) => Encoding::parse_accept_encoding(h),
            None => None,
        };
        match accepted {
            Some(encoding) => {
                res.content_encoding = Some(encoding.as_str().to_owned());
                res.body = Some(compression::compress(body.as_slice(), encoding));
            },
            None => {
                res.body = Some(body);
            },
        }
        res
    }

    /// Evaluates Connection header from Request and sets connection header on Response.
    /// Returns `true` if the connection should be closed after writing.
    pub fn apply_connection_header(&mut self, req: &Request) -> (close: bool)
        ensures
            close == asks_close(req@),
            final(self)@ == (if close {
                ResponseView { connection: Some("close"@), ..old(self)@ }
            } else {
                old(self)@
            }),
    {
        if let Some(conn) = req.headers.get("Connection") {
            if str_eq_ignore_ascii_case(conn, "close") {
                self.connection = Some("close".to_owned());
                return true;
            }
        }
        false
    }

    fn push_status_line(&self, out: &mut Vec<u8>)
        ensures
            final(out)@ == old(out)@ + status_line(self@),
    {
        let ghost start = out@;
        append_str(out, self.version.as_str());
        append_str(out, " ");
        let code = decimal_u8s(self.status_code as u64);
        append_bytes(out, code.as_slice());
        append_str(out, " ");
        append_str(out, self.reason);
        append_str(out, "\r\n");
        assert(out@ =~= start + status_line(self@));
    }

    fn push_encoding_line(&self, out: &mut Vec<u8>)
        ensures
            final(out)@ == old(out)@ + encoding_line(self@),
    {
        let ghost start = out@;
        if let Some(encoding) = &self.content_encoding {
            push_header_line(out, "Content-Encoding", encoding.as_str().as_bytes());
        } else {
            assert(out@ =~= start + encoding_line(self@));
        }
    }

    fn push_typed_lines(&self, out: &mut Vec<u8>)
        ensures
            final(out)@ == old(out)@ + typed_lines(self@),
    {
        let ghost start = out@;
        if let Some(ct) = self.content_type {
            let len: usize = match &self.body {
                Some(b) => b.len(),
                None => 0,
            };
            push_header_line(out, "Content-Type", ct.as_bytes());
            let digits = decimal_u8s(len as u64);
            push_header_line(out, "Content-Length", digits.as_slice());
            assert(out@ =~= start + typed_lines(self@));
        } else {
            assert(out@ =~= start + typed_lines(self@));
        }
    }

    fn push_connection_line(&self, out: &mut Vec<u8>)
        ensures
            final(out)@ == old(out)@ + connection_line(self@),
    {
        let ghost start = out@;
        if let Some(conn) = &self.connection {
            push_header_line(out, "Connection", conn.as_str().as_bytes());
        } else {
            assert(out@ =~= start + connection_line(self@));
        }
    }

    /// The bytes of this response on an HTTP/1.x connection.
    pub fn to_bytes(&self) -> (out: Vec<u8>)
        ensures
            out@ == wire_format(self@),
    {
        let mut out: Vec<u8> = Vec::new();
        self.push_status_line(&mut out);
        self.push_encoding_line(&mut out);
        self.push_typed_lines(&mut out);
        self.push_connection_line(&mut out);
        append_str(&mut out, "\r\n");
        if let Some(body) = &self.body {
            append_bytes(&mut out, body.as_slice());
        }
        assert(out@ =~= wire_format(self@));
        out
    }
}

/// Utility function to guess MIME content type based on file extension
pub fn mime_type_for_path(path: &str) -> (r: &'static str)
    ensures
        r@ == mime_type(path@),
{
    let p = chars_of(path);
    let s = p.as_slice();
    if chars_end_with(s, chars_of(".html").as_slice()) || chars_end_with(
        s,
        chars_of(".htm").as_slice(),
    ) {
        "text/html; charset=utf-8"
    } else if chars_end_with(s, chars_of(".css").as_slice()) {
        "text/css"
    } else if chars_end_with(s, chars_of(".js").as_slice()) {
        "text/javascript"
    } else if chars_end_with(s, chars_of(".json").as_slice()) {
        "application/json"
    } else if chars_end_with(s, chars_of(".png").as_slice()) {
        "image/png"
    } else if chars_end_with(s, chars_of(".jpg").as_slice()) || chars_end_with(
        s,
        chars_of(".jpeg").as_slice(),
    ) {
        "image/jpeg"
    } else if chars_end_with(s, chars_of(".svg").as_slice()) {
        "image/svg+xml"
    } else if chars_end_with(s, chars_of(".txt").as_slice()) {
        "text/plain"
    } else {
        "application/octet-stream"
    }
}

} // verus!
