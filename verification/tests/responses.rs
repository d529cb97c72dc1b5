use std::io::Read;

use mp_http_server::request::Request;
use mp_http_server::response::{mime_type_for_path, Response};

fn request(text: &str) -> Request {
    Request::from_str(text).unwrap()
}

#[test]
fn constructors_set_status_and_version() {
    let req = request("GET / HTTP/1.0\r\n\r\n");
    assert_eq!((Response::ok(&req).status_code, Response::ok(&req).reason), (200, "OK"));
    assert_eq!(Response::ok(&req).version, "HTTP/1.0");
    assert_eq!(Response::created(&req).status_code, 201);
    assert_eq!(Response::no_content(&req).status_code, 204);
    assert_eq!(Response::create_error(&req).status_code, 500);
    assert_eq!(Response::not_found().status_code, 404);
    assert_eq!(Response::not_found().version, "HTTP/1.1");
    assert_eq!(Response::method_not_allowed().reason, "Method Not Allowed");
}

#[test]
fn text_body_wire_format() {
    let req = request("GET / HTTP/1.1\r\n\r\n");
    let res = Response::ok(&req).with_text_body("hello".to_string(), &req);
    assert_eq!(
        res.to_bytes(),
        b"HTTP/1.1 200 OK\r\nContent-Type: text/plain\r\nContent-Length: 5\r\n\r\nhello".to_vec()
    );
}

#[test]
fn status_only_wire_format() {
    assert_eq!(Response::not_found().to_bytes(), b"HTTP/1.1 404 Not Found\r\n\r\n".to_vec());
}

#[test]
fn gzip_when_accepted() {
    let req = request("GET / HTTP/1.1\r\nAccept-Encoding: deflate, GZIP \r\n\r\n");
    let res = Response::ok(&req).with_octet_stream(b"hello hello hello".to_vec(), &req);
    assert_eq!(res.content_encoding.as_deref(), Some("gzip"));
    assert_eq!(res.content_type, Some("application/octet-stream"));
    let body = res.body.clone().unwrap();
    assert_eq!(&body[..2], &[0x1f, 0x8b]);
    let mut plain = Vec::new();
    flate2::read::GzDecoder::new(&body[..]).read_to_end(&mut plain).unwrap();
    assert_eq!(plain, b"hello hello hello");
    let wire = String::from_utf8_lossy(&res.to_bytes()).to_string();
    assert!(wire.contains("Content-Encoding: gzip\r\n"));
    assert!(wire.contains(&format!("Content-Length: {}\r\n", body.len())));
}

#[test]
fn no_gzip_without_accept() {
    let req = request("GET / HTTP/1.1\r\nAccept-Encoding: br\r\n\r\n");
    let res = Response::ok(&req).with_typed_body(b"x".to_vec(), "image/png", &req);
    assert_eq!(res.content_encoding, None);
    assert_eq!(res.body, Some(b"x".to_vec()));
}

#[test]
fn connection_close_is_honoured() {
    let req = request("GET / HTTP/1.1\r\nConnection: Close\r\n\r\n");
    let mut res = Response::ok(&req);
    assert!(res.apply_connection_header(&req));
    assert_eq!(res.connection.as_deref(), Some("close"));
    assert_eq!(res.to_bytes(), b"HTTP/1.1 200 OK\r\nConnection: close\r\n\r\n".to_vec());

    let req = request("GET / HTTP/1.1\r\nConnection: keep-alive\r\n\r\n");
    let mut res = Response::ok(&req);
    assert!(!res.apply_connection_header(&req));
    assert_eq!(res.connection, None);
}

#[test]
fn mime_types() {
    assert_eq!(mime_type_for_path("index.html"), "text/html; charset=utf-8");
    assert_eq!(mime_type_for_path("a.htm"), "text/html; charset=utf-8");
    assert_eq!(mime_type_for_path("a.css"), "text/css");
    assert_eq!(mime_type_for_path("a.js"), "text/javascript");
    assert_eq!(mime_type_for_path("a.json"), "application/json");
    assert_eq!(mime_type_for_path("a.png"), "image/png");
    assert_eq!(mime_type_for_path("a.jpeg"), "image/jpeg");
    assert_eq!(mime_type_for_path("a.svg"), "image/svg+xml");
    assert_eq!(mime_type_for_path("a.txt"), "text/plain");
    assert_eq!(mime_type_for_path("a.tar.gz"), "application/octet-stream");
    assert_eq!(mime_type_for_path("json"), "application/octet-stream");
}
