use mp_http_server::error::HttpError;
use mp_http_server::request::{Method, ParsedHead, Request, RequestHead};

#[test]
fn parse_complete_request_with_body() {
    let raw = b"POST /files/a.txt HTTP/1.1\r\nHost: x\r\nContent-Length: 5\r\n\r\nhelloEXTRA";
    let (req, consumed) = Request::parse(raw).unwrap().unwrap();
    assert_eq!(req.method, Method::Post);
    assert_eq!(req.path, "/files/a.txt");
    assert_eq!(req.version, "HTTP/1.1");
    assert_eq!(req.headers.get("Host"), Some("x"));
    assert_eq!(req.headers.get("Content-Length"), Some("5"));
    assert_eq!(req.body, Some(b"hello".to_vec()));
    assert_eq!(consumed, raw.len() - 5);
}

#[test]
fn parse_request_without_body_has_none() {
    let raw = b"GET / HTTP/1.0\r\n\r\n";
    let (req, consumed) = Request::parse(raw).unwrap().unwrap();
    assert_eq!(req.method, Method::Get);
    assert_eq!(req.version, "HTTP/1.0");
    assert_eq!(req.body, None);
    assert_eq!(consumed, raw.len());
}

#[test]
fn parse_partial_head_needs_more() {
    assert!(matches!(Request::parse(b"GET / HTTP/1.1\r\nHost: x\r\n"), Ok(None)));
}

#[test]
fn parse_incomplete_body_needs_more() {
    assert!(matches!(
        Request::parse(b"POST / HTTP/1.1\r\nContent-Length: 10\r\n\r\nabc"),
        Ok(None)
    ));
}

#[test]
fn parse_huge_content_length_needs_more() {
    let raw = format!("POST / HTTP/1.1\r\nContent-Length: {}\r\n\r\n", usize::MAX);
    assert!(matches!(Request::parse(raw.as_bytes()), Ok(None)));
}

#[test]
fn parse_malformed_is_an_error() {
    match Request::parse(b"GET / HTTP/1.1\r\nBad Header\r\n\r\n") {
        Err(HttpError::MalformedRequest(m)) => assert_eq!(m, "invalid http request format"),
        _ => panic!("expected a malformed-request error"),
    }
}

#[test]
fn parse_bad_content_length_means_no_body() {
    let raw = b"POST / HTTP/1.1\r\nContent-Length: abc\r\n\r\nxyz";
    let (req, consumed) = Request::parse(raw).unwrap().unwrap();
    assert_eq!(req.body, None);
    assert_eq!(consumed, raw.len() - 3);
}

#[test]
fn parse_plus_signed_content_length() {
    let raw = b"POST / HTTP/1.1\r\nContent-Length: +2\r\n\r\nxyz";
    let (req, consumed) = Request::parse(raw).unwrap().unwrap();
    assert_eq!(req.body, Some(b"xy".to_vec()));
    assert_eq!(consumed, raw.len() - 1);
}

#[test]
fn parse_lowercase_method_is_normalised() {
    let (req, _) = Request::parse(b"get /a HTTP/1.1\r\n\r\n").unwrap().unwrap();
    assert_eq!(req.method, Method::Get);
    let (req, _) = Request::parse(b"brew /pot HTTP/1.1\r\n\r\n").unwrap().unwrap();
    assert_eq!(req.method, Method::Unknown("BREW".to_string()));
    assert_eq!(req.method.as_str(), "BREW");
}

#[test]
fn parse_later_header_replaces_earlier() {
    let raw = b"GET / HTTP/1.1\r\nX: 1\r\nX: 2\r\n\r\n";
    let (req, _) = Request::parse(raw).unwrap().unwrap();
    assert_eq!(req.headers.get("X"), Some("2"));
    assert_eq!(req.headers.get("x"), None);
}

#[test]
fn parse_drops_non_utf8_header_values() {
    let raw = b"GET / HTTP/1.1\r\nA: \xff\xfe\r\nB: ok\r\n\r\n";
    let (req, _) = Request::parse(raw).unwrap().unwrap();
    assert_eq!(req.headers.get("A"), None);
    assert_eq!(req.headers.get("B"), Some("ok"));
}

#[test]
fn from_str_partial_is_an_error() {
    match Request::from_str("GET / HTTP/1.1\r\n") {
        Err(HttpError::MalformedRequest(m)) => assert_eq!(m, "partial request"),
        _ => panic!("expected a partial-request error"),
    }
}

#[test]
fn from_head_reports_each_outcome() {
    assert!(matches!(Request::from_head(b"", RequestHead::Partial), Ok(None)));
    assert!(matches!(
        Request::from_head(b"", RequestHead::Invalid),
        Err(HttpError::MalformedRequest("invalid http request format"))
    ));
    let buf = b"0123456789ABCDEF";
    let head = ParsedHead {
        header_len: 10,
        method: None,
        path: None,
        version: None,
        headers: vec![("Content-Length".to_string(), b"4".to_vec())],
    };
    let (req, n) = Request::from_head(buf, RequestHead::Complete(head)).unwrap().unwrap();
    assert_eq!(req.method, Method::Get);
    assert_eq!(req.path, "/");
    assert_eq!(req.version, "HTTP/1.1");
    assert_eq!(req.body, Some(b"ABCD".to_vec()));
    assert_eq!(n, 14);
}

#[test]
fn method_names_round_trip() {
    for m in [
        Method::Get,
        Method::Post,
        Method::Put,
        Method::Delete,
        Method::Head,
        Method::Options,
        Method::Patch,
    ] {
        assert_eq!(Method::from_uppercase(m.as_str()), m);
        assert_eq!(Method::from_str(m.as_str()), m);
        assert_eq!(Method::from_str(&m.as_str().to_lowercase()), m);
    }
    assert_eq!(Method::from_str("oPtIoNs"), Method::Options);
    assert!(Method::Get.same_as(&Method::Get));
    assert!(!Method::Get.same_as(&Method::Post));
    assert!(Method::Unknown("X".to_string()).same_as(&Method::Unknown("X".to_string())));
}
