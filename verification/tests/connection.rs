use mp_http_server::connection::{
    cleanup_due, expired_connections, next_step, ConnectionEvent, NextStep,
    detect_protocol, http1_reply, next_worker, ClientState, ProtocolState, Received,
};
use mp_http_server::http2::{write_frame_header, Http2Connection};
use mp_http_server::http2::HTTP2_PREFACE;
use mp_http_server::request::Request;
use mp_http_server::response::Response;

fn is_unknown(p: &ProtocolState) -> bool {
    matches!(p, ProtocolState::Unknown)
}

#[test]
fn preface_means_http2() {
    match detect_protocol(ProtocolState::Unknown, &HTTP2_PREFACE) {
        ProtocolState::Http2(conn) => {
            assert!(!conn.preface_received);
            assert_eq!(conn.connection_window_size, 65535);
        }
        _ => panic!("the preface was not recognised"),
    }
}

#[test]
fn blank_line_means_http1() {
    let p = detect_protocol(ProtocolState::Unknown, b"GET / HTTP/1.1\r\n\r\n");
    assert!(matches!(p, ProtocolState::Http1));
}

#[test]
fn long_enough_input_means_http1() {
    let p = detect_protocol(ProtocolState::Unknown, b"GET /a/very/long/path HTTP/1.1\r\nHost");
    assert!(matches!(p, ProtocolState::Http1));
}

#[test]
fn too_little_input_is_undecided() {
    assert!(is_unknown(&detect_protocol(ProtocolState::Unknown, b"PRI * HTTP/2.0")));
    assert!(is_unknown(&detect_protocol(ProtocolState::Unknown, b"GET / HTTP/1.1\r\n")));
    assert!(is_unknown(&detect_protocol(ProtocolState::Unknown, b"")));
}

#[test]
fn known_protocol_is_kept() {
    let p = detect_protocol(ProtocolState::Http1, &HTTP2_PREFACE);
    assert!(matches!(p, ProtocolState::Http1));
}

#[test]
fn reply_closes_when_asked() {
    let req = Request::from_str("GET / HTTP/1.1\r\nConnection: Close\r\n\r\n").unwrap();
    let mut res = Response::ok(&req);
    let (bytes, close) = http1_reply(&mut res, &req);
    assert!(close);
    assert_eq!(res.connection, Some("close".to_string()));
    assert_eq!(bytes, b"HTTP/1.1 200 OK\r\nConnection: close\r\n\r\n".to_vec());
}

#[test]
fn reply_keeps_alive_otherwise() {
    let req = Request::from_str("GET / HTTP/1.0\r\nConnection: keep-alive\r\n\r\n").unwrap();
    let mut res = Response::ok(&req);
    let (bytes, close) = http1_reply(&mut res, &req);
    assert!(!close);
    assert_eq!(res.connection, None);
    assert_eq!(bytes, b"HTTP/1.0 200 OK\r\n\r\n".to_vec());
}

#[test]
fn workers_take_turns() {
    let mut w = 0;
    let mut seen = Vec::new();
    for _ in 0..7 {
        seen.push(w);
        w = next_worker(w, 3);
    }
    assert_eq!(seen, vec![0, 1, 2, 0, 1, 2, 0]);
    assert_eq!(next_worker(0, 1), 0);
}


#[test]
fn new_client_has_nothing_to_send() {
    let state = ClientState::new();
    assert!(!state.wants_write());
    assert!(state.unsent().is_empty());
}

#[test]
fn http1_request_split_across_reads() {
    let mut state = ClientState::new();
    assert!(matches!(state.receive(b"GET /echo/x HT"), Received::Wait));
    match state.receive(b"TP/1.1\r\nHost: a\r\n\r\n") {
        Received::Http1Request(req) => {
            assert_eq!(req.path, "/echo/x");
            assert_eq!(req.headers.get("Host"), Some("a"));
        }
        _ => panic!("the request was not recognised"),
    }
    // nothing is left over
    assert!(matches!(state.receive(b""), Received::Wait));
}

#[test]
fn pipelined_requests_come_one_at_a_time() {
    let mut state = ClientState::new();
    let first = state.receive(b"GET /a HTTP/1.1\r\n\r\nGET /b HTTP/1.1\r\n\r\n");
    assert!(matches!(first, Received::Http1Request(ref r) if r.path == "/a"));
    let second = state.receive(b"");
    assert!(matches!(second, Received::Http1Request(ref r) if r.path == "/b"));
    assert!(matches!(state.receive(b""), Received::Wait));
}

#[test]
fn malformed_http1_closes() {
    let mut state = ClientState::new();
    assert!(matches!(state.receive(b"GET / HTTP/1.1\r\nBad Header\r\n\r\n"), Received::Close));
}

#[test]
fn replies_are_queued_and_sent_in_pieces() {
    let mut state = ClientState::new();
    let req = match state.receive(b"GET / HTTP/1.1\r\n\r\n") {
        Received::Http1Request(req) => req,
        _ => panic!("the request was not recognised"),
    };
    let mut res = Response::ok(&req);
    let close = state.respond_http1(&mut res, &req);
    assert!(!close);
    let wire = b"HTTP/1.1 200 OK\r\n\r\n".to_vec();
    assert_eq!(state.unsent(), &wire[..]);
    assert!(state.wants_write());
    state.sent(5);
    assert_eq!(state.unsent(), &wire[5..]);
    assert!(state.wants_write());
    state.sent(wire.len() - 5);
    assert!(state.unsent().is_empty());
    assert!(!state.wants_write());
}

#[test]
fn http2_requests_and_frames() {
    let mut state = ClientState::new();
    let mut input = HTTP2_PREFACE.to_vec();
    let mut block = Vec::new();
    for (name, value) in [(":method", "GET"), (":path", "/")] {
        block.push(0x00);
        block.push(name.len() as u8);
        block.extend_from_slice(name.as_bytes());
        block.push(value.len() as u8);
        block.extend_from_slice(value.as_bytes());
    }
    write_frame_header(&mut input, block.len() as u32, 0x1, 0x5, 1);
    input.extend(&block);
    let (part, rest) = input.split_at(30);
    match state.receive(part) {
        Received::Http2Requests(reqs) => assert!(reqs.is_empty()),
        _ => panic!("the connection did not switch to HTTP/2"),
    }
    let reqs = match state.receive(rest) {
        Received::Http2Requests(reqs) => reqs,
        _ => panic!("the HTTP/2 request was lost"),
    };
    assert_eq!(reqs.len(), 1);
    assert_eq!(reqs[0].0, 1);
    assert_eq!(reqs[0].1.version, "HTTP/2");
    let res = Response::ok(&reqs[0].1);
    state.respond_http2(1, &res);
    assert_eq!(state.unsent(), &Http2Connection::encode_response(1, &res)[..]);
}

#[test]
fn reading_keeps_queued_output_and_protocol() {
    let mut state = ClientState::new();
    let req = match state.receive(b"GET / HTTP/1.1\r\n\r\n") {
        Received::Http1Request(req) => req,
        _ => panic!("the request was not recognised"),
    };
    let mut res = Response::not_found();
    state.respond_http1(&mut res, &req);
    let queued = state.unsent().to_vec();
    // a preface arriving on an HTTP/1 connection is read as HTTP/1 bytes
    assert!(matches!(state.receive(&HTTP2_PREFACE), Received::Close));
    assert_eq!(state.unsent(), &queued[..]);
}

#[test]
fn idle_sweeps() {
    assert!(!cleanup_due(1999, 0));
    assert!(cleanup_due(2000, 0));
    assert!(!cleanup_due(5, 10));
    let clients = vec![(1, 0), (2, 5000), (3, 15000), (4, 20000)];
    assert_eq!(expired_connections(25000, &clients), vec![1, 2, 3]);
    assert_eq!(expired_connections(9999, &clients), Vec::<usize>::new());
    assert_eq!(expired_connections(0, &clients), Vec::<usize>::new());
}

#[test]
fn next_steps_after_events() {
    assert_eq!(next_step(ConnectionEvent::PeerClosed), NextStep::Drop);
    assert_eq!(next_step(ConnectionEvent::IoFailed), NextStep::Drop);
    assert_eq!(next_step(ConnectionEvent::ProtocolError), NextStep::Drop);
    assert_eq!(next_step(ConnectionEvent::Http1Answered(true)), NextStep::FlushThenDrop);
    assert_eq!(next_step(ConnectionEvent::Http1Answered(false)), NextStep::KeepReading);
    assert_eq!(next_step(ConnectionEvent::Http2Handled), NextStep::KeepReading);
    assert_eq!(next_step(ConnectionEvent::WouldBlock), NextStep::StopReading);
    assert_eq!(next_step(ConnectionEvent::NeedMore), NextStep::StopReading);
}
