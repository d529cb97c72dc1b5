use mp_http_server::http2::{write_frame_header, FrameHeader, FrameType, Http2Connection, HTTP2_PREFACE};

#[test]
fn test_http2_preface_detection() {
    assert!(Http2Connection::is_http2_preface(&HTTP2_PREFACE));
    assert!(!Http2Connection::is_http2_preface(b"GET / HTTP/1.1\r\n\r\n"));
}

#[test]
fn test_frame_header_parse() {
    let mut raw_frame = Vec::new();
    write_frame_header(&mut raw_frame, 15, 0x1, 0x5, 3);
    let header = FrameHeader::parse(&raw_frame).unwrap();
    assert_eq!(header.length, 15);
    assert_eq!(header.frame_type, FrameType::Headers);
    assert_eq!(header.flags, 0x5);
    assert_eq!(header.stream_id, 3);
}

use mp_http_server::request::{Method, Request};
use mp_http_server::response::Response;

fn literal_field(out: &mut Vec<u8>, name: &str, value: &str) {
    out.push(0x00);
    out.push(name.len() as u8);
    out.extend_from_slice(name.as_bytes());
    out.push(value.len() as u8);
    out.extend_from_slice(value.as_bytes());
}

fn frame(frame_type: u8, flags: u8, stream_id: u32, payload: &[u8]) -> Vec<u8> {
    let mut out = Vec::new();
    write_frame_header(&mut out, payload.len() as u32, frame_type, flags, stream_id);
    out.extend_from_slice(payload);
    out
}

fn get_block(path: &str) -> Vec<u8> {
    let mut block = Vec::new();
    literal_field(&mut block, ":method", "GET");
    literal_field(&mut block, ":path", path);
    literal_field(&mut block, "user-agent", "probe");
    block
}

#[test]
fn write_frame_header_layout() {
    let mut out = Vec::new();
    write_frame_header(&mut out, 0x010203, 0x8, 0x1, 0x8000_0005);
    assert_eq!(out, vec![0x01, 0x02, 0x03, 0x08, 0x01, 0x00, 0x00, 0x00, 0x05]);
}

#[test]
fn frame_header_round_trip_masks_reserved_bit() {
    let mut out = Vec::new();
    write_frame_header(&mut out, 0xFF_FFFF, 0x7, 0xAB, 0xFFFF_FFFF);
    let header = FrameHeader::parse(&out).unwrap();
    assert_eq!(header.length, 0xFF_FFFF);
    assert_eq!(header.frame_type, FrameType::GoAway);
    assert_eq!(header.flags, 0xAB);
    assert_eq!(header.stream_id, 0x7FFF_FFFF);
}

#[test]
fn frame_header_needs_nine_bytes() {
    assert!(FrameHeader::parse(&[0, 0, 0, 1, 0, 0, 0, 0]).is_none());
}

#[test]
fn frame_types_from_bytes() {
    assert_eq!(FrameType::from(0x0), FrameType::Data);
    assert_eq!(FrameType::from(0x1), FrameType::Headers);
    assert_eq!(FrameType::from(0x4), FrameType::Settings);
    assert_eq!(FrameType::from(0x6), FrameType::Ping);
    assert_eq!(FrameType::from(0x7), FrameType::GoAway);
    assert_eq!(FrameType::from(0x8), FrameType::WindowUpdate);
    assert_eq!(FrameType::from(0x9), FrameType::Unknown(0x9));
}

#[test]
fn short_input_waits_for_preface() {
    let mut conn = Http2Connection::new();
    let res = conn.process_input(&HTTP2_PREFACE[..10]);
    assert!(matches!(res, Ok(None)));
    assert!(!conn.preface_received);
}

#[test]
fn wrong_preface_is_refused() {
    let mut conn = Http2Connection::new();
    let res = conn.process_input(b"GET / HTTP/1.1\r\nHost: example\r\n\r\n");
    match res {
        Err(e) => assert_eq!(e, "invalid http/2 connection preface"),
        Ok(_) => panic!("a wrong preface was accepted"),
    }
    assert!(!conn.preface_received);
}

#[test]
fn headers_with_end_stream_complete_a_request() {
    let mut conn = Http2Connection::new();
    let mut input = HTTP2_PREFACE.to_vec();
    input.extend(frame(0x4, 0x0, 0, &[]));
    input.extend(frame(0x1, 0x5, 1, &get_block("/echo/hi")));
    let (consumed, requests) = conn.process_input(&input).unwrap().unwrap();
    assert_eq!(consumed, input.len());
    assert!(conn.preface_received);
    assert_eq!(requests.len(), 1);
    let (id, req) = &requests[0];
    assert_eq!(*id, 1);
    assert_eq!(req.method, Method::Get);
    assert_eq!(req.path, "/echo/hi");
    assert_eq!(req.version, "HTTP/2");
    assert_eq!(req.headers.get("user-agent"), Some("probe"));
    assert_eq!(req.headers.get(":method"), None);
    assert_eq!(req.body, None);
}

#[test]
fn data_frames_carry_the_body() {
    let mut conn = Http2Connection::new();
    let mut input = HTTP2_PREFACE.to_vec();
    let mut block = Vec::new();
    literal_field(&mut block, ":method", "post");
    literal_field(&mut block, ":path", "/files/a.txt");
    input.extend(frame(0x1, 0x4, 3, &block));
    input.extend(frame(0x0, 0x0, 3, b"hello "));
    let (consumed, requests) = conn.process_input(&input).unwrap().unwrap();
    assert_eq!(consumed, input.len());
    assert!(requests.is_empty());

    let last = frame(0x0, 0x1, 3, b"world");
    let (consumed, requests) = conn.process_input(&last).unwrap().unwrap();
    assert_eq!(consumed, last.len());
    assert_eq!(requests.len(), 1);
    assert_eq!(requests[0].0, 3);
    assert_eq!(requests[0].1.method, Method::Post);
    assert_eq!(requests[0].1.body, Some(b"hello world".to_vec()));
}

#[test]
fn request_without_path_is_dropped() {
    let mut conn = Http2Connection::new();
    let mut input = HTTP2_PREFACE.to_vec();
    let mut block = Vec::new();
    literal_field(&mut block, ":method", "GET");
    input.extend(frame(0x1, 0x5, 1, &block));
    let (consumed, requests) = conn.process_input(&input).unwrap().unwrap();
    assert_eq!(consumed, input.len());
    assert!(requests.is_empty());
}

#[test]
fn partial_frame_is_left_unconsumed() {
    let mut conn = Http2Connection::new();
    let mut input = HTTP2_PREFACE.to_vec();
    let whole = frame(0x6, 0x0, 0, &[0; 8]);
    input.extend(&whole);
    let next = frame(0x1, 0x5, 1, &get_block("/"));
    input.extend(&next[..next.len() - 2]);
    let (consumed, requests) = conn.process_input(&input).unwrap().unwrap();
    assert_eq!(consumed, HTTP2_PREFACE.len() + whole.len());
    assert!(requests.is_empty());
}

#[test]
fn window_updates_grow_and_saturate() {
    let mut conn = Http2Connection::new();
    assert_eq!(conn.connection_window_size, 65535);
    let mut input = HTTP2_PREFACE.to_vec();
    input.extend(frame(0x8, 0x0, 0, &[0x00, 0x00, 0x10, 0x00]));
    conn.process_input(&input).unwrap().unwrap();
    assert_eq!(conn.connection_window_size, 65535 + 4096);

    let big = frame(0x8, 0x0, 0, &[0xFF, 0xFF, 0xFF, 0xFF]);
    let mut twice = big.clone();
    twice.extend(&big);
    conn.process_input(&twice).unwrap().unwrap();
    assert_eq!(conn.connection_window_size, u32::MAX);

    let short = frame(0x8, 0x0, 0, &[0x00, 0x01]);
    conn.process_input(&short).unwrap().unwrap();
    assert_eq!(conn.connection_window_size, u32::MAX);
}

#[test]
fn settings_ack_bytes() {
    assert_eq!(Http2Connection::build_settings_ack(), vec![0, 0, 0, 0x4, 0x1, 0, 0, 0, 0]);
}

#[test]
fn encode_response_with_body() {
    let req = Request::from_str("GET / HTTP/1.1\r\n\r\n").unwrap();
    let res = Response::ok(&req).with_text_body("hi".to_string(), &req);
    let out = Http2Connection::encode_response(5, &res);

    let mut block = Vec::new();
    literal_field(&mut block, ":status", "200");
    literal_field(&mut block, "content-type", "text/plain");
    literal_field(&mut block, "content-length", "2");
    let mut expected = Vec::new();
    write_frame_header(&mut expected, block.len() as u32, 0x1, 0x4, 5);
    expected.extend(&block);
    write_frame_header(&mut expected, 2, 0x0, 0x1, 5);
    expected.extend(b"hi");
    assert_eq!(out, expected);
}

#[test]
fn encode_response_without_body_ends_the_stream() {
    let out = Http2Connection::encode_response(7, &Response::not_found());
    let mut block = Vec::new();
    literal_field(&mut block, ":status", "404");
    let mut expected = Vec::new();
    write_frame_header(&mut expected, block.len() as u32, 0x1, 0x5, 7);
    expected.extend(&block);
    assert_eq!(out, expected);
}

#[test]
fn encoded_response_is_read_back_by_the_decoder() {
    let req = Request::from_str("GET / HTTP/1.1\r\n\r\n").unwrap();
    let res = Response::ok(&req).with_text_body("abc".to_string(), &req);
    let out = Http2Connection::encode_response(1, &res);
    let header = FrameHeader::parse(&out).unwrap();
    assert_eq!(header.frame_type, FrameType::Headers);
    assert_eq!(header.stream_id, 1);
    let data = FrameHeader::parse(&out[9 + header.length as usize..]).unwrap();
    assert_eq!(data.frame_type, FrameType::Data);
    assert_eq!(data.length, 3);
    assert_eq!(&out[out.len() - 3..], b"abc");
}

#[test]
fn literal_request_frame_is_received_whole() {
    let mut conn = Http2Connection::new();
    conn.process_input(&HTTP2_PREFACE).unwrap().unwrap();
    let mut block = Vec::new();
    literal_field(&mut block, ":method", "delete");
    literal_field(&mut block, ":path", "/files/old.txt");
    let input = frame(0x1, 0x5, 9, &block);
    let (consumed, requests) = conn.process_input(&input).unwrap().unwrap();
    assert_eq!(consumed, input.len());
    assert_eq!(requests.len(), 1);
    assert_eq!(requests[0].0, 9);
    assert_eq!(requests[0].1.method, Method::Delete);
    assert_eq!(requests[0].1.path, "/files/old.txt");
    assert_eq!(requests[0].1.headers.get("user-agent"), None);
    assert_eq!(requests[0].1.body, None);
    assert_eq!(conn.connection_window_size, 65535);
}

#[test]
fn indexed_header_block_is_decoded() {
    let mut conn = Http2Connection::new();
    let mut input = HTTP2_PREFACE.to_vec();
    // static-table entries 2 (`:method: GET`) and 4 (`:path: /`)
    input.extend(frame(0x1, 0x5, 3, &[0x82, 0x84]));
    let (consumed, requests) = conn.process_input(&input).unwrap().unwrap();
    assert_eq!(consumed, input.len());
    assert_eq!(requests.len(), 1);
    assert_eq!(requests[0].1.method, Method::Get);
    assert_eq!(requests[0].1.path, "/");
}

#[test]
fn cut_short_size_update_is_a_connection_error() {
    let mut conn = Http2Connection::new();
    let mut input = HTTP2_PREFACE.to_vec();
    input.extend(frame(0x1, 0x5, 1, &[0x3F]));
    match conn.process_input(&input) {
        Err(e) => assert_eq!(e, "malformed http/2 header block"),
        Ok(_) => panic!("a cut-short size update was accepted"),
    }
    assert!(conn.preface_seen());
    assert_eq!(conn.window(), 65535);
}

#[test]
fn block_refused_by_decoder_before_a_cut_short_update_is_skipped() {
    let mut conn = Http2Connection::new();
    let (consumed, requests) = conn.process_input(&HTTP2_PREFACE).unwrap().unwrap();
    assert_eq!((consumed, requests.len()), (24, 0));
    // index 0 stops the decoder before it reaches the cut-short update
    let input = frame(0x1, 0x4, 1, &[0x80, 0x3F]);
    assert_eq!(input, vec![0, 0, 2, 1, 4, 0, 0, 0, 1, 0x80, 0x3F]);
    let (consumed, requests) = conn.process_input(&input).unwrap().unwrap();
    assert_eq!(consumed, 11);
    assert!(requests.is_empty());
}

#[test]
fn whole_size_update_is_decoded() {
    let mut conn = Http2Connection::new();
    let mut input = HTTP2_PREFACE.to_vec();
    // a size update to 0, then `:method: GET` and `:path: /`
    input.extend(frame(0x1, 0x5, 1, &[0x20, 0x82, 0x84]));
    let (_, requests) = conn.process_input(&input).unwrap().unwrap();
    assert_eq!(requests.len(), 1);
}
