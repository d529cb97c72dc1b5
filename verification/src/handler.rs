//! The answers of the server's routes, given what the file system reported.
use vstd::prelude::*;
use vstd::utf8::*;

use crate::request::{Request, RequestView};
use crate::response::{mime_type, status_only, with_body_view, mime_type_for_path, Response, ResponseView};
use crate::router::Params;

verus! {

/// `200 OK` for the request's version.
pub open spec fn ok_view(req: RequestView) -> ResponseView {
    status_only(req.version, 200, "OK"@)
}

/// The text of parameter `name`, or the empty text.
pub open spec fn param_or_empty(params: Map<Seq<char>, Seq<char>>, name: Seq<char>) -> Seq<char> {
    if params.contains_key(name) {
        params[name]
    } else {
        Seq::empty()
    }
}

/// `GET /echo/{str}`: the path segment back as plain text.
pub fn echo(req: &Request, params: &Params) -> (r: Response)
    ensures
        r@ == with_body_view(
            ok_view(req@),
            encode_utf8(param_or_empty(params@, "str"@)),
            "text/plain"@,
            req@,
        ),
{
    let echo_val: &str = match params.get("str") {
        Some(v) => v,
        None => "",
    };
    proof {
        reveal_strlit("");
    }
    Response::ok(req).with_text_body(echo_val.to_owned(), req)
}

/// `GET /user-agent`: the request's `User-Agent` header as plain text (empty
/// when absent).
pub fn user_agent(req: &Request) -> (r: Response)
    ensures
        r@ == with_body_view(
            ok_view(req@),
            encode_utf8(param_or_empty(req@.headers, "User-Agent"@)),
            "text/plain"@,
            req@,
        ),
{
    let agent: String = match req.headers.get("User-Agent") {
        Some(v) => v.to_owned(),
        None => String::new(),
    };
    Response::ok(req).with_text_body(agent, req)
}

/// `GET /files/{filename}` once the file has been looked up: its contents,
/// typed by the file name's extension, or `404` when it is not a readable
/// regular file.
pub fn served_file(req: &Request, filename: &str, contents: Option<Vec<u8>>) -> (r: Response)
    ensures
        match contents {
            Some(c) => r@ == with_body_view(ok_view(req@), c@, mime_type(filename@), req@),
            None => r@ == status_only("HTTP/1.1"@, 404, "Not Found"@),
        },
{
    match contents {
        Some(content) => {
            let mime = mime_type_for_path(filename);
            Response::ok(req).with_typed_body(content, mime, req)
        },
        None => Response::not_found(),
    }
}

/// `POST /files/{filename}` once the body has been written (or not):
/// `201 Created`, or `500` when writing failed.
pub fn stored_file(req: &Request, written: bool) -> (r: Response)
    ensures
        r@ == (if written {
            status_only(req@.version, 201, "Created"@)
        } else {
            status_only(req@.version, 500, "Internal Server Error"@)
        }),
{
    if written {
        Response::created(req)
    } else {
        Response::create_error(req)
    }
}

/// `DELETE /files/{filename}`: `404` when there was no such file, `204` when
/// it was removed, `500` when removing it failed.
pub fn deleted_file(req: &Request, existed: bool, removed: bool) -> (r: Response)
    ensures
        r@ == (if !existed {
            status_only("HTTP/1.1"@, 404, "Not Found"@)
        } else if removed {
            status_only(req@.version, 204, "No Content"@)
        } else {
            status_only(req@.version, 500, "Internal Server Error"@)
        }),
{
    if !existed {
        Response::not_found()
    } else if removed {
        Response::no_content(req)
    } else {
        Response::create_error(req)
    }
}

} // verus!
