use std::cell::Cell;

use mp_http_server::request::{Method, Request};
use mp_http_server::response::Response;
use mp_http_server::router::{endpoint_router, PathPattern, Router};

#[test]
fn test_pattern_matching() {
    let pattern = PathPattern::parse("/echo/{str}");
    let matched = pattern.matches("/echo/hello-world");
    assert!(matched.is_some());
    assert_eq!(matched.unwrap().get("str"), Some("hello-world"));
}

#[test]
fn test_router_method_not_allowed() {
    let mut router = Router::new();
    router.add_route(Method::Get, "/files/{filename}", |req, _params| {
        Response::ok(req)
    });

    let req = Request::from_str("POST /files/foo.txt HTTP/1.1\r\n\r\n").unwrap();
    let res = router.handle(&req);
    assert_eq!(res.status_code, 405);
}

use mp_http_server::router::Params;

type Handler = fn(&Request, &Params) -> Response;

fn answer_ok(req: &Request, _params: &Params) -> Response {
    Response::ok(req)
}

fn answer_created(req: &Request, _params: &Params) -> Response {
    Response::created(req)
}

fn answer_param(req: &Request, params: &Params) -> Response {
    let name = params.get("name").unwrap_or("").to_string();
    Response::ok(req).with_text_body(name, req)
}

fn request(text: &str) -> Request {
    Request::from_str(text).unwrap()
}

#[test]
fn unknown_path_is_not_found() {
    let mut router: Router<Handler> = Router::new();
    router.add_route(Method::Get, "/", answer_ok);
    let res = router.handle(&request("GET /missing HTTP/1.1\r\n\r\n"));
    assert_eq!(res.status_code, 404);
    assert_eq!(res.reason, "Not Found");
    assert_eq!(res.version, "HTTP/1.1");
}

#[test]
fn empty_router_answers_not_found() {
    let router: Router<Handler> = Router::new();
    assert_eq!(router.handle(&request("GET / HTTP/1.1\r\n\r\n")).status_code, 404);
}

#[test]
fn first_matching_route_wins() {
    let mut router: Router<Handler> = Router::new();
    router.add_route(Method::Get, "/a/{name}", answer_param);
    router.add_route(Method::Get, "/a/b", answer_created);
    let res = router.handle(&request("GET /a/b HTTP/1.1\r\n\r\n"));
    assert_eq!(res.status_code, 200);
    assert_eq!(res.body, Some(b"b".to_vec()));
}

#[test]
fn method_is_matched_after_path() {
    let mut router: Router<Handler> = Router::new();
    router.add_route(Method::Get, "/files/{name}", answer_param);
    router.add_route(Method::Post, "/files/{name}", answer_created);
    let res = router.handle(&request("POST /files/a HTTP/1.1\r\n\r\n"));
    assert_eq!(res.status_code, 201);
    let res = router.handle(&request("DELETE /files/a HTTP/1.1\r\n\r\n"));
    assert_eq!(res.status_code, 405);
    assert_eq!(res.reason, "Method Not Allowed");
}

#[test]
fn root_pattern_matches_root_only() {
    let pattern = PathPattern::parse("/");
    assert!(pattern.matches("/").is_some());
    assert!(pattern.matches("").is_some());
    assert!(pattern.matches("/x").is_none());
}

#[test]
fn empty_segments_are_ignored() {
    let pattern = PathPattern::parse("//echo//{str}/");
    let params = pattern.matches("/echo///hi//").unwrap();
    assert_eq!(params.get("str"), Some("hi"));
    assert!(pattern.matches("/echo").is_none());
    assert!(pattern.matches("/echo/hi/there").is_none());
    assert!(pattern.matches("/ECHO/hi").is_none());
}

#[test]
fn wildcard_takes_the_rest() {
    let pattern = PathPattern::parse("/static/*");
    assert!(pattern.matches("/static/a/b/c").is_some());
    assert!(pattern.matches("/static").is_some());
    assert!(pattern.matches("/other/a").is_none());
    assert!(pattern.matches("/").is_none());
}

#[test]
fn several_parameters_are_captured() {
    let pattern = PathPattern::parse("/users/{id}/posts/{post}");
    let params = pattern.matches("/users/7/posts/42").unwrap();
    assert_eq!(params.get("id"), Some("7"));
    assert_eq!(params.get("post"), Some("42"));
    assert_eq!(params.get("other"), None);
}

#[test]
fn literal_pattern_matches_itself() {
    let pattern = PathPattern::parse("/user-agent");
    let params = pattern.matches("/user-agent").unwrap();
    assert_eq!(params.get("user-agent"), None);
}

#[test]
fn params_keep_the_last_value() {
    let mut params = Params::new();
    assert_eq!(params.get("k"), None);
    params.insert("k".to_string(), "1".to_string());
    params.insert("k".to_string(), "2".to_string());
    assert_eq!(params.get("k"), Some("2"));
    let pattern = PathPattern::parse("/{x}/{x}");
    assert_eq!(pattern.matches("/a/b").unwrap().get("x"), Some("b"));
}

fn a1(req: &Request, _p: &Params) -> Response {
    Response::ok(req)
}
fn a2(req: &Request, _p: &Params) -> Response {
    Response::created(req)
}
fn a3(req: &Request, _p: &Params) -> Response {
    Response::no_content(req)
}
fn a4(req: &Request, _p: &Params) -> Response {
    Response::create_error(req)
}
fn a5(_req: &Request, _p: &Params) -> Response {
    Response::not_found()
}
fn a6(_req: &Request, _p: &Params) -> Response {
    Response::method_not_allowed()
}

#[test]
fn endpoint_router_routes_the_server_endpoints() {
    let router: Router<Handler> = endpoint_router(a1, a2, a3, a4, a5, a6);
    assert_eq!(router.handle(&request("GET / HTTP/1.1\r\n\r\n")).status_code, 200);
    assert_eq!(router.handle(&request("GET /echo/x HTTP/1.1\r\n\r\n")).status_code, 201);
    assert_eq!(router.handle(&request("GET /user-agent HTTP/1.1\r\n\r\n")).status_code, 204);
    assert_eq!(router.handle(&request("GET /files/a HTTP/1.1\r\n\r\n")).status_code, 500);
    assert_eq!(router.handle(&request("POST /files/a HTTP/1.1\r\n\r\n")).status_code, 404);
    assert_eq!(router.handle(&request("DELETE /files/a HTTP/1.1\r\n\r\n")).status_code, 405);
    assert_eq!(router.handle(&request("PUT /files/a HTTP/1.1\r\n\r\n")).status_code, 405);
    assert_eq!(router.handle(&request("GET /nowhere HTTP/1.1\r\n\r\n")).status_code, 404);
}

#[test]
fn only_the_first_matching_handler_runs() {
    let calls = [Cell::new(0u32), Cell::new(0u32), Cell::new(0u32), Cell::new(0u32)];
    let mut router: Router<Box<dyn Fn(&Request, &Params) -> Response + '_>> = Router::new();
    let c = &calls;
    router.add_route(Method::Post, "/x/{id}", Box::new(move |req: &Request, _p: &Params| {
        c[0].set(c[0].get() + 1);
        Response::created(req)
    }));
    router.add_route(Method::Get, "/y", Box::new(move |req: &Request, _p: &Params| {
        c[1].set(c[1].get() + 1);
        Response::ok(req)
    }));
    router.add_route(Method::Get, "/x/{id}", Box::new(move |req: &Request, p: &Params| {
        c[2].set(c[2].get() + 1);
        Response::ok(req).with_text_body(p.get("id").unwrap_or("").to_string(), req)
    }));
    router.add_route(Method::Get, "/x/{other}", Box::new(move |req: &Request, _p: &Params| {
        c[3].set(c[3].get() + 1);
        Response::ok(req)
    }));
    let res = router.handle(&request("GET /x/7 HTTP/1.1\r\n\r\n"));
    assert_eq!(res.status_code, 200);
    assert_eq!(res.body, Some(b"7".to_vec()));
    assert_eq!([calls[0].get(), calls[1].get(), calls[2].get(), calls[3].get()], [0, 0, 1, 0]);

    let res = router.handle(&request("PUT /x/7 HTTP/1.1\r\n\r\n"));
    assert_eq!(res.status_code, 405);
    let res = router.handle(&request("GET /z HTTP/1.1\r\n\r\n"));
    assert_eq!(res.status_code, 404);
    assert_eq!([calls[0].get(), calls[1].get(), calls[2].get(), calls[3].get()], [0, 0, 1, 0]);
}
