//! HTTP request methods and HTTP/1.x request parsing.
use vstd::prelude::*;
use vstd::utf8::*;

use crate::error::HttpError;
use crate::string_map::StringMap;
use crate::text::{
    chars_of, decimal, decimal_chars, parse_usize, parse_usize_chars, str_eq, string_of,
    utf8_string,
};

verus! {

#[derive(Debug, Clone, PartialEq, Eq, Hash)]
pub enum Method {
    Get,
    Post,
    Put,
    Delete,
    Head,
    Options,
    Patch,
    Unknown(String),
}

/// A method as a value: the known methods, or the text of any other.
pub ghost enum MethodView {
    Get,
    Post,
    Put,
    Delete,
    Head,
    Options,
    Patch,
    Unknown(Seq<char>),
}

impl View for Method {
    type V = MethodView;

    open spec fn view(&self) -> MethodView {
        match self {
            Method::Get => MethodView::Get,
            Method::Post => MethodView::Post,
            Method::Put => MethodView::Put,
            Method::Delete => MethodView::Delete,
            Method::Head => MethodView::Head,
            Method::Options => MethodView::Options,
            Method::Patch => MethodView::Patch,
            Method::Unknown(s) => MethodView::Unknown(s@),
        }
    }
}

/// The text of a method as it appears on the request line.
pub open spec fn method_name(m: MethodView) -> Seq<char> {
    match m {
        MethodView::Get => "GET"@,
        MethodView::Post => "POST"@,
        MethodView::Put => "PUT"@,
        MethodView::Delete => "DELETE"@,
        MethodView::Head => "HEAD"@,
        MethodView::Options => "OPTIONS"@,
        MethodView::Patch => "PATCH"@,
        MethodView::Unknown(s) => s,
    }
}

/// The method that an already uppercased token names.
pub open spec fn method_from_upper(u: Seq<char>) -> MethodView {
    if u == "GET"@ {
        MethodView::Get
    } else if u == "POST"@ {
        MethodView::Post
    } else if u == "PUT"@ {
        MethodView::Put
    } else if u == "DELETE"@ {
        MethodView::Delete
    } else if u == "HEAD"@ {
        MethodView::Head
    } else if u == "OPTIONS"@ {
        MethodView::Options
    } else if u == "PATCH"@ {
        MethodView::Patch
    } else {
        MethodView::Unknown(u)
    }
}

/// The result of `str::to_uppercase` (Unicode uppercase mapping).
pub uninterp spec fn unicode_uppercase(s: Seq<char>) -> Seq<char>;

/// All characters are ASCII.
pub open spec fn all_ascii(s: Seq<char>) -> bool {
    forall|i: int| 0 <= i < s.len() ==> (#[trigger] s[i] as u32) < 128
}

/// The ASCII uppercase of a character: `a`..`z` become `A`..`Z`.
pub open spec fn ascii_upper(c: char) -> char {
    if 'a' <= c && c <= 'z' {
        ((c as u32) - 32) as char
    } else {
        c
    }
}

/// The uppercase of a text: for ASCII text, each letter's ASCII uppercase;
/// otherwise what `unicode_uppercase` says.
pub open spec fn uppercase(s: Seq<char>) -> Seq<char> {
    if all_ascii(s) {
        s.map_values(|c: char| ascii_upper(c))
    } else {
        unicode_uppercase(s)
    }
}

/// `str::to_uppercase`; its result is named by `unicode_uppercase`, a
/// function of the text alone.  ASCII letters map to their ASCII uppercase and
/// other ASCII characters to themselves, as std documents.
#[verifier::external_body]
fn to_uppercase(s: &str) -> (r: String)
    ensures
        r@ == unicode_uppercase(s@),
        all_ascii(s@) ==> r@ == s@.map_values(|c: char| ascii_upper(c)),
{
    s.to_uppercase()
}

/// The method that a token names, matched after uppercasing it.
pub open spec fn method_from_token(s: Seq<char>) -> MethodView {
    method_from_upper(uppercase(s))
}

impl Method {
    pub fn as_str(&self) -> (r: &str)
        ensures
            r@ == method_name(self@),
    {
        match self {
            Method::Get => "GET",
            Method::Post => "POST",
            Method::Put => "PUT",
            Method::Delete => "DELETE",
            Method::Head => "HEAD",
            Method::Options => "OPTIONS",
            Method::Patch => "PATCH",
            Method::Unknown(s) => s.as_str(),
        }
    }

    /// The method that the uppercased token `upper` names.
    pub fn from_uppercase(upper: &str) -> (m: Method)
        ensures
            m@ == method_from_upper(upper@),
    {
        if str_eq(upper, "GET") {
            Method::Get
        } else if str_eq(upper, "POST") {
            Method::Post
        } else if str_eq(upper, "PUT") {
            Method::Put
        } else if str_eq(upper, "DELETE") {
            Method::Delete
        } else if str_eq(upper, "HEAD") {
            Method::Head
        } else if str_eq(upper, "OPTIONS") {
            Method::Options
        } else if str_eq(upper, "PATCH") {
            Method::Patch
        } else {
            Method::Unknown(upper.to_owned())
        }
    }

    /// Parses a method token case-insensitively; any other token is kept,
    /// uppercased, as `Unknown`.  Never fails.
    pub fn from_str(s: &str) -> (m: Method)
        ensures
            m@ == method_from_token(s@),
    {
        let upper = to_uppercase(s);
        Method::from_uppercase(upper.as_str())
    }

    /// Whether two methods are the same.
    pub fn same_as(&self, other: &Method) -> (r: bool)
        ensures
            r == (self@ == other@),
    {
        match (self, other) {
            (Method::Get, Method::Get) => true,
            (Method::Post, Method::Post) => true,
            (Method::Put, Method::Put) => true,
            (Method::Delete, Method::Delete) => true,
            (Method::Head, Method::Head) => true,
            (Method::Options, Method::Options) => true,
            (Method::Patch, Method::Patch) => true,
            (Method::Unknown(a), Method::Unknown(b)) => str_eq(a.as_str(), b.as_str()),
            _ => false,
        }
    }
}

/// Canonical names parse back to the method they name: rendering a method and
/// reading the (already uppercase) text again gives the same method, for every
/// method whose text is not one of the known names.
pub proof fn law_method_name_round_trip(m: MethodView)
    requires
        m matches MethodView::Unknown(s) ==> method_from_upper(s) == m,
    ensures
        method_from_upper(method_name(m)) == m,
{
    reveal_strlit("GET");
    reveal_strlit("POST");
    reveal_strlit("PUT");
    reveal_strlit("DELETE");
    reveal_strlit("HEAD");
    reveal_strlit("OPTIONS");
    reveal_strlit("PATCH");
    let (get, post, put, delete, head, options, patch) = (
        "GET"@,
        "POST"@,
        "PUT"@,
        "DELETE"@,
        "HEAD"@,
        "OPTIONS"@,
        "PATCH"@,
    );
    assert(get.len() == 3 && post.len() == 4 && put.len() == 3 && delete.len() == 6 && head.len()
        == 4 && options.len() == 7 && patch.len() == 5);
    assert(get[0] == 'G' && put[0] == 'P' && post[0] == 'P' && head[0] == 'H' && patch[0] == 'P');
    assert(post != head);
    assert(get != put);
}

/// The name of a known method reads back as that method, as `from_str`
/// reads it (uppercasing first): "GET" gives `Get`, and so on.
pub proof fn law_known_method_token_round_trip(m: MethodView)
    requires
        !(m is Unknown),
    ensures
        method_from_token(method_name(m)) == m,
{
    law_method_name_round_trip(m);
    let n = method_name(m);
    reveal_strlit("GET");
    reveal_strlit("POST");
    reveal_strlit("PUT");
    reveal_strlit("DELETE");
    reveal_strlit("HEAD");
    reveal_strlit("OPTIONS");
    reveal_strlit("PATCH");
    assert(forall|i: int| 0 <= i < n.len() ==> 'A' <= #[trigger] n[i] && n[i] <= 'Z');
    assert(all_ascii(n));
    assert(n.map_values(|c: char| ascii_upper(c)) =~= n);
}

/// The ASCII lowercase of a character: `A`..`Z` become `a`..`z`.
pub open spec fn ascii_lower(c: char) -> char {
    if 'A' <= c && c <= 'Z' {
        ((c as u32) + 32) as char
    } else {
        c
    }
}

/// The lowercase name of a known method reads back as that method too:
/// "get" gives `Get`, "options" gives `Options`, and so on.
pub proof fn law_lowercase_method_token_round_trip(m: MethodView)
    requires
        !(m is Unknown),
    ensures
        method_from_token(method_name(m).map_values(|c: char| ascii_lower(c))) == m,
{
    law_known_method_token_round_trip(m);
    let n = method_name(m);
    let l = n.map_values(|c: char| ascii_lower(c));
    reveal_strlit("GET");
    reveal_strlit("POST");
    reveal_strlit("PUT");
    reveal_strlit("DELETE");
    reveal_strlit("HEAD");
    reveal_strlit("OPTIONS");
    reveal_strlit("PATCH");
    assert(forall|i: int| 0 <= i < n.len() ==> 'A' <= #[trigger] n[i] && n[i] <= 'Z');
    assert forall|i: int| 0 <= i < l.len() implies (#[trigger] l[i] as u32) < 128 && ascii_upper(
        l[i],
    ) == n[i] by {
        assert('A' <= n[i] && n[i] <= 'Z');
    }
    assert(all_ascii(l));
    assert(l.map_values(|c: char| ascii_upper(c)) =~= n);
}

pub struct Request {
    pub method: Method,
    pub path: String,
    pub version: String,
    pub headers: StringMap,
    pub body: Option<Vec<u8>>,
}

pub ghost struct RequestView {
    pub method: MethodView,
    pub path: Seq<char>,
    pub version: Seq<char>,
    pub headers: Map<Seq<char>, Seq<char>>,
    pub body: Option<Seq<u8>>,
}

impl View for Request {
    type V = RequestView;

    open spec fn view(&self) -> RequestView {
        RequestView {
            method: self.method@,
            path: self.path@,
            version: self.version@,
            headers: self.headers@,
            body: match self.body {
                Some(b) => Some(b@),
                None => None,
            },
        }
    }
}

/// What the request-head parser found in a complete head.
pub struct ParsedHead {
    /// Length of the head, up to and including the blank line.
    pub header_len: usize,
    pub method: Option<String>,
    pub path: Option<String>,
    /// Minor version: `1` for `HTTP/1.1`.
    pub version: Option<u8>,
    /// Header names and raw values, in the order they appear.
    pub headers: Vec<(String, Vec<u8>)>,
}

/// The outcome of parsing a request head.
pub enum RequestHead {
    Complete(ParsedHead),
    /// The bytes are a valid beginning of a head, but it has not ended yet.
    Partial,
    /// The bytes cannot begin a request head.
    Invalid,
}

pub ghost struct ParsedHeadView {
    pub header_len: nat,
    pub method: Option<Seq<char>>,
    pub path: Option<Seq<char>>,
    pub version: Option<u8>,
    pub headers: Seq<(Seq<char>, Seq<u8>)>,
}

pub ghost enum RequestHeadView {
    Complete(ParsedHeadView),
    Partial,
    Invalid,
}

pub open spec fn opt_string_view(o: Option<String>) -> Option<Seq<char>> {
    match o {
        Some(s) => Some(s@),
        None => None,
    }
}

impl View for ParsedHead {
    type V = ParsedHeadView;

    open spec fn view(&self) -> ParsedHeadView {
        ParsedHeadView {
            header_len: self.header_len as nat,
            method: opt_string_view(self.method),
            path: opt_string_view(self.path),
            version: self.version,
            headers: self.headers@.map_values(|h: (String, Vec<u8>)| (h.0@, h.1@)),
        }
    }
}

impl View for RequestHead {
    type V = RequestHeadView;

    open spec fn view(&self) -> RequestHeadView {
        match self {
            RequestHead::Complete(h) => RequestHeadView::Complete(h@),
            RequestHead::Partial => RequestHeadView::Partial,
            RequestHead::Invalid => RequestHeadView::Invalid,
        }
    }
}

/// The outcome that `httparse::Request::parse` gives for `buf`, with room for
/// `max_headers` headers.
pub uninterp spec fn httparse_request_head(buf: Seq<u8>, max_headers: nat) -> RequestHeadView;

/// `httparse::Request::parse` on `buf`, with a header array of `max_headers`
/// slots.  The outcome is named by `httparse_request_head`, a function of the
/// bytes and the slot count alone; nothing else is claimed of it.
#[verifier::external_body]
fn httparse_head(buf: &[u8], max_headers: usize) -> (r: RequestHead)
    ensures
        r@ == httparse_request_head(buf@, max_headers as nat),
{
    let mut slots = vec![httparse::EMPTY_HEADER; max_headers];
    let mut req = httparse::Request::new(&mut slots);
    match req.parse(buf) {
        Ok(httparse::Status::Complete(n)) => RequestHead::Complete(ParsedHead {
            header_len: n, method: req.method.map(|m| m.to_string()),
            path: req.path.map(|p| p.to_string()), version: req.version,
            headers: req.headers.iter().map(|h| (h.name.to_string(), h.value.to_vec())).collect(),
        }),
        Ok(httparse::Status::Partial) => RequestHead::Partial,
        Err(_) => RequestHead::Invalid,
    }
}

/// Header slots offered to the head parser; a head with more headers is
/// rejected.
pub const MAX_HEADERS: usize = 64;

/// The header map of a parsed head: names map to values; a value that is not
/// UTF-8 is left out, and a later header replaces an earlier one of the same
/// name.
pub open spec fn header_map(hs: Seq<(Seq<char>, Seq<u8>)>) -> Map<Seq<char>, Seq<char>>
    decreases hs.len(),
{
    if hs.len() == 0 {
        Map::empty()
    } else {
        let prev = header_map(hs.drop_last());
        if valid_utf8(hs.last().1) {
            prev.insert(hs.last().0, decode_utf8(hs.last().1))
        } else {
            prev
        }
    }
}

/// The body length that the headers announce: `Content-Length` read as a
/// `usize`, or zero when it is absent or not a number.
pub open spec fn content_length(headers: Map<Seq<char>, Seq<char>>) -> nat {
    if headers.contains_key("Content-Length"@) {
        match parse_usize(headers["Content-Length"@]) {
            Some(n) => n as nat,
            None => 0,
        }
    } else {
        0
    }
}

/// The version text `HTTP/1.<minor>`.
pub open spec fn version_text(minor: u8) -> Seq<char> {
    "HTTP/1."@ + decimal(minor as nat)
}

pub ghost enum ParseOutcome {
    /// A complete request, and the number of bytes it takes up.
    Complete(RequestView, nat),
    /// More bytes are needed.
    Incomplete,
    /// The bytes are not a request.
    Malformed,
}

/// What parsing `buf` gives, once the head parser has reported `head`.
pub open spec fn request_outcome(buf: Seq<u8>, head: RequestHeadView) -> ParseOutcome {
    match head {
        RequestHeadView::Complete(h) => {
            let headers = header_map(h.headers);
            let total = h.header_len + content_length(headers);
            if buf.len() < total {
                ParseOutcome::Incomplete
            } else {
                let body = buf.subrange(h.header_len as int, total as int);
                ParseOutcome::Complete(
                    RequestView {
                        method: method_from_token(
                            match h.method {
                                Some(m) => m,
                                None => "GET"@,
                            },
                        ),
                        path: match h.path {
                            Some(p) => p,
                            None => "/"@,
                        },
                        version: version_text(
                            match h.version {
                                Some(v) => v,
                                None => 1,
                            },
                        ),
                        headers: headers,
                        body: if body.len() == 0 {
                            None
                        } else {
                            Some(body)
                        },
                    },
                    total,
                )
            }
        },
        RequestHeadView::Partial => ParseOutcome::Incomplete,
        RequestHeadView::Invalid => ParseOutcome::Malformed,
    }
}

/// A parsed request never takes up more bytes than the buffer holds, and its
/// body is exactly the announced length.
pub proof fn law_parse_stays_within_buffer(buf: Seq<u8>, head: RequestHeadView)
    ensures
        request_outcome(buf, head) matches ParseOutcome::Complete(req, n) ==> {
            &&& n <= buf.len()
            &&& head matches RequestHeadView::Complete(h) && n == h.header_len + content_length(
                req.headers,
            )
            &&& match req.body {
                Some(b) => b.len() == content_length(req.headers) && b.len() > 0,
                None => content_length(req.headers) == 0,
            }
        },
{
}

/// `r` reports `outcome`.
pub open spec fn reports(
    r: Result<Option<(Request, usize)>, HttpError>,
    outcome: ParseOutcome,
) -> bool {
    match outcome {
        ParseOutcome::Complete(req, n) => r matches Ok(Some((q, m))) && q@ == req && m == n,
        ParseOutcome::Incomplete => r matches Ok(None),
        ParseOutcome::Malformed => r matches Err(HttpError::MalformedRequest(msg)) && msg@
            == "invalid http request format"@,
    }
}

/// Builds the header map from the parsed header list.
fn collect_headers(hs: &Vec<(String, Vec<u8>)>) -> (m: StringMap)
    ensures
        m@ == header_map(hs@.map_values(|h: (String, Vec<u8>)| (h.0@, h.1@))),
{
    let ghost views = hs@.map_values(|h: (String, Vec<u8>)| (h.0@, h.1@));
    let mut m = StringMap::new();
    let mut i: usize = 0;
    while i < hs.len()
        invariant
            i <= hs.len(),
            views == hs@.map_values(|h: (String, Vec<u8>)| (h.0@, h.1@)),
            m@ == header_map(views.take(i as int)),
        decreases hs.len() - i,
    {
        assert(views.take(i + 1).drop_last() =~= views.take(i as int));
        assert(views.take(i + 1).last() == views[i as int]);
        match utf8_string(hs[i].1.as_slice()) {
            Some(v) => {
                m.insert(hs[i].0.clone(), v);
            },
            None => {},
        }
        i = i + 1;
    }
    assert(views.take(hs.len() as int) =~= views);
    m
}

impl Request {
    /// Finishes parsing `buf` from the head parser's report `head`: builds the
    /// request and takes `Content-Length` bytes of body after the head.
    pub fn from_head(buf: &[u8], head: RequestHead) -> (r: Result<Option<(Request, usize)>, HttpError>)
        ensures
            reports(r, request_outcome(buf@, head@)),
    {
        match head {
            RequestHead::Complete(h) => {
                let method = match &h.method {
                    Some(m) => Method::from_str(m.as_str()),
                    None => Method::from_str("GET"),
                };
                let path = match &h.path {
                    Some(p) => p.clone(),
                    None => "/".to_owned(),
                };
                let minor: u8 = match h.version {
                    Some(v) => v,
                    None => 1,
                };
                let mut vchars = chars_of("HTTP/1.");
                let mut digits = decimal_chars(minor as u64);
                vchars.append(&mut digits);
                let version = string_of(vchars.as_slice());
                let headers = collect_headers(&h.headers);
                let content_length: usize = match headers.get("Content-Length") {
                    Some(v) => {
                        let cs = chars_of(v);
                        match parse_usize_chars(cs.as_slice()) {
                            Some(n) => n,
                            None => 0,
                        }
                    },
                    None => 0,
                };
                let header_len = h.header_len;
                if header_len > buf.len() || content_length > buf.len() - header_len {
                    return Ok(None);
                }
                let total = header_len + content_length;
                let body_bytes = vstd::slice::slice_subrange(buf, header_len, total);
                let body = if body_bytes.len() != 0 {
                    Some(vstd::slice::slice_to_vec(body_bytes))
                } else {
                    None
                };
                Ok(Some((Request { method, path, version, headers, body }, total)))
            },
            RequestHead::Partial => Ok(None),
            RequestHead::Invalid => Err(HttpError::MalformedRequest("invalid http request format")),
        }
    }

    /// Parses one HTTP/1.x request from the start of `buf`.  Returns the
    /// request and the number of bytes it takes up, `Ok(None)` when more bytes
    /// are needed, or an error when the bytes are not a request.
    pub fn parse(buf: &[u8]) -> (r: Result<Option<(Request, usize)>, HttpError>)
        ensures
            reports(r, request_outcome(buf@, httparse_request_head(buf@, MAX_HEADERS as nat))),
    {
        let head = httparse_head(buf, MAX_HEADERS);
        Request::from_head(buf, head)
    }

    /// Parses a request from text that must hold a complete request.
    pub fn from_str(text: &str) -> (r: Result<Request, HttpError>)
        ensures
            match request_outcome(
                encode_utf8(text@),
                httparse_request_head(encode_utf8(text@), MAX_HEADERS as nat),
            ) {
                ParseOutcome::Complete(req, _) => r matches Ok(q) && q@ == req,
                ParseOutcome::Incomplete => r matches Err(HttpError::MalformedRequest(msg))
                    && msg@ == "partial request"@,
                ParseOutcome::Malformed => r matches Err(HttpError::MalformedRequest(msg))
                    && msg@ == "invalid http request format"@,
            },
    {
        match Request::parse(text.as_bytes()) {
            Ok(Some((req, _len))) => Ok(req),
            Ok(None) => Err(HttpError::MalformedRequest("partial request")),
            Err(e) => Err(e),
        }
    }
}

} // verus!
