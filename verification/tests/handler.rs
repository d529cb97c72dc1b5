use mp_http_server::handler::{deleted_file, echo, served_file, stored_file, user_agent};
use mp_http_server::request::Request;
use mp_http_server::router::Params;

fn request(text: &str) -> Request {
    Request::from_str(text).unwrap()
}

#[test]
fn echo_returns_the_parameter() {
    let req = request("GET /echo/abc HTTP/1.1\r\n\r\n");
    let mut params = Params::new();
    params.insert("str".to_string(), "abc".to_string());
    let res = echo(&req, &params);
    assert_eq!(res.status_code, 200);
    assert_eq!(res.content_type, Some("text/plain"));
    assert_eq!(res.body, Some(b"abc".to_vec()));
    let res = echo(&req, &Params::new());
    assert_eq!(res.body, Some(Vec::new()));
}

#[test]
fn user_agent_is_echoed() {
    let req = request("GET /user-agent HTTP/1.1\r\nUser-Agent: curl/8\r\n\r\n");
    assert_eq!(user_agent(&req).body, Some(b"curl/8".to_vec()));
    let bare = request("GET /user-agent HTTP/1.1\r\n\r\n");
    assert_eq!(user_agent(&bare).body, Some(Vec::new()));
}

#[test]
fn served_file_is_typed_or_missing() {
    let req = request("GET /files/a.json HTTP/1.0\r\n\r\n");
    let res = served_file(&req, "a.json", Some(b"{}".to_vec()));
    assert_eq!(res.status_code, 200);
    assert_eq!(res.version, "HTTP/1.0");
    assert_eq!(res.content_type, Some("application/json"));
    assert_eq!(res.body, Some(b"{}".to_vec()));
    let missing = served_file(&req, "a.json", None);
    assert_eq!(missing.status_code, 404);
    assert_eq!(missing.version, "HTTP/1.1");
}

#[test]
fn stored_and_deleted_files() {
    let req = request("POST /files/a HTTP/1.1\r\n\r\n");
    assert_eq!(stored_file(&req, true).status_code, 201);
    assert_eq!(stored_file(&req, false).status_code, 500);
    assert_eq!(deleted_file(&req, false, false).status_code, 404);
    assert_eq!(deleted_file(&req, true, true).status_code, 204);
    let failed = deleted_file(&req, true, false);
    assert_eq!(failed.status_code, 500);
    assert_eq!(failed.reason, "Internal Server Error");
}
