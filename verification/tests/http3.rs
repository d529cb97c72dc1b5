use mp_http_server::http3::{
    encode_qpack_field, parse_qpack_headers, Http3StreamBuilder, QuicPacketHeader, QuicPacketType,
};
use mp_http_server::string_map::StringMap;

#[test]
fn test_quic_packet_header_parse() {
    let raw = vec![0x80, 1, 2, 3, 4, 4, 10, 20, 30, 40, 4, 50, 60, 70, 80, 0, 1, 2];
    let header = QuicPacketHeader::parse(&raw).unwrap();
    assert_eq!(header.packet_type, QuicPacketType::Initial);
    assert_eq!(header.dcid, vec![10, 20, 30, 40]);
    assert_eq!(header.scid, vec![50, 60, 70, 80]);
}

use mp_http_server::http3::Http3Connection;
use mp_http_server::request::{Method, Request};
use mp_http_server::response::Response;

fn qpack_field(out: &mut Vec<u8>, name: &str, value: &str) {
    out.push(0x00);
    out.push(name.len() as u8);
    out.extend_from_slice(name.as_bytes());
    out.push(value.len() as u8);
    out.extend_from_slice(value.as_bytes());
}

fn short_datagram(frames: &[u8]) -> Vec<u8> {
    let mut d = vec![0x40, 1, 2, 3, 4, 5, 6, 7, 8];
    d.extend_from_slice(frames);
    d
}

#[test]
fn quic_short_header_takes_eight_dcid_bytes() {
    let raw = vec![0x40, 1, 2, 3, 4, 5, 6, 7, 8, 9, 10];
    let header = QuicPacketHeader::parse(&raw).unwrap();
    assert_eq!(header.packet_type, QuicPacketType::Short);
    assert_eq!(header.dcid, vec![1, 2, 3, 4, 5, 6, 7, 8]);
    assert!(header.scid.is_empty());
    assert_eq!(header.payload_offset, 9);
}

#[test]
fn quic_short_header_on_a_short_buffer() {
    let header = QuicPacketHeader::parse(&[0x40, 7, 8]).unwrap();
    assert_eq!(header.dcid, vec![7, 8]);
    assert_eq!(header.payload_offset, 3);
}

#[test]
fn quic_header_rejections_and_types() {
    assert!(QuicPacketHeader::parse(&[]).is_none());
    assert!(QuicPacketHeader::parse(&[0xC0, 0, 0, 0, 1, 0, 0, 0, 0, 0, 0]).is_none());
    // a destination id that runs past the buffer
    assert!(QuicPacketHeader::parse(&[0xC0, 0, 0, 0, 1, 20, 0, 0, 0, 0, 0, 0]).is_none());
    let handshake = [0xE0, 0, 0, 0, 1, 1, 9, 2, 5, 6, 0, 0];
    let h = QuicPacketHeader::parse(&handshake).unwrap();
    assert_eq!(h.packet_type, QuicPacketType::Handshake);
    assert_eq!(h.dcid, vec![9]);
    assert_eq!(h.scid, vec![5, 6]);
    assert_eq!(h.payload_offset, 10);
    let other = [0x90, 0, 0, 0, 1, 0, 0, 0, 0, 0, 0, 0];
    assert_eq!(QuicPacketHeader::parse(&other).unwrap().packet_type, QuicPacketType::Unknown);
}

#[test]
fn datagram_with_headers_and_data_yields_a_request() {
    let mut block = Vec::new();
    qpack_field(&mut block, ":method", "post");
    qpack_field(&mut block, ":path", "/files/x");
    qpack_field(&mut block, "host", "example");
    let mut frames = vec![0x01, block.len() as u8];
    frames.extend(&block);
    frames.extend([0x00, 2, b'a', b'b']);
    let mut conn = Http3Connection::new(());
    let requests = conn.process_datagram(&short_datagram(&frames)).unwrap();
    assert_eq!(requests.len(), 1);
    let (id, req) = &requests[0];
    assert_eq!(*id, 0);
    assert_eq!(req.method, Method::Post);
    assert_eq!(req.path, "/files/x");
    assert_eq!(req.version, "HTTP/3");
    assert_eq!(req.headers.get("host"), Some("example"));
    assert_eq!(req.body, Some(b"ab".to_vec()));
    assert!(conn.active_streams.is_empty());
}

#[test]
fn datagram_without_payload_or_path_yields_nothing() {
    let mut conn = Http3Connection::new(());
    assert!(conn.process_datagram(&short_datagram(&[])).unwrap().is_empty());
    assert!(conn.process_datagram(&[]).unwrap().is_empty());
    let mut block = Vec::new();
    qpack_field(&mut block, ":method", "GET");
    let mut frames = vec![0x01, block.len() as u8];
    frames.extend(&block);
    assert!(conn.process_datagram(&short_datagram(&frames)).unwrap().is_empty());
    assert!(conn.active_streams.is_empty());
}

#[test]
fn truncated_frame_is_ignored() {
    let mut block = Vec::new();
    qpack_field(&mut block, ":method", "GET");
    qpack_field(&mut block, ":path", "/");
    let mut frames = vec![0x01, block.len() as u8];
    frames.extend(&block);
    frames.extend([0x00, 10, b'x']);
    let mut conn = Http3Connection::new(());
    let requests = conn.process_datagram(&short_datagram(&frames)).unwrap();
    assert_eq!(requests.len(), 1);
    assert_eq!(requests[0].1.body, None);
}

#[test]
fn http3_encode_response_bytes() {
    let req = Request::from_str("GET / HTTP/1.1\r\n\r\n").unwrap();
    let res = Response::ok(&req).with_text_body("hey".to_string(), &req);
    let out = Http3Connection::<()>::encode_response(0x105, &res);
    let mut block = Vec::new();
    qpack_field(&mut block, ":status", "200");
    qpack_field(&mut block, "content-type", "text/plain");
    qpack_field(&mut block, "content-length", "3");
    let mut expected = vec![0x40, 0x05, 0x01, block.len() as u8];
    expected.extend(&block);
    expected.extend([0x00, 3, b'h', b'e', b'y']);
    assert_eq!(out, expected);
}

#[test]
fn encoded_fields_are_read_back() {
    let req = Request::from_str("GET / HTTP/1.1\r\n\r\n").unwrap();
    let res = Response::ok(&req).with_text_body("hey".to_string(), &req);
    let out = Http3Connection::<()>::encode_response(0, &res);
    // the header block of a response reads back as regular headers
    let mut conn = Http3Connection::new(());
    let mut frames = out[2..].to_vec();
    let mut block = Vec::new();
    qpack_field(&mut block, ":method", "GET");
    qpack_field(&mut block, ":path", "/");
    frames.extend([0x01, block.len() as u8]);
    frames.extend(&block);
    let requests = conn.process_datagram(&short_datagram(&frames)).unwrap();
    assert_eq!(requests.len(), 1);
    let headers = &requests[0].1.headers;
    assert_eq!(headers.get("content-type"), Some("text/plain"));
    assert_eq!(headers.get("content-length"), Some("3"));
    assert_eq!(headers.get(":status"), None);
    assert_eq!(requests[0].1.body, Some(b"hey".to_vec()));
}

#[test]
fn qpack_fields_read_back_in_order() {
    let fields = [
        (":method", "get"),
        ("x-a", "1"),
        (":path", "/a"),
        (":authority", "example"),
        ("x-a", "2"),
        (":path", "/b"),
        ("x-b", "3"),
    ];
    let mut block = Vec::new();
    for (n, v) in fields {
        encode_qpack_field(&mut block, n, v);
    }
    let mut headers = StringMap::new();
    headers.insert("old".to_string(), "kept".to_string());
    let mut builder = Http3StreamBuilder { headers, method: None, path: None, body: vec![1, 2] };
    parse_qpack_headers(&block, &mut builder);
    assert_eq!(builder.method, Some(Method::Get));
    assert_eq!(builder.path.as_deref(), Some("/b"));
    assert_eq!(builder.headers.get("x-a"), Some("2"));
    assert_eq!(builder.headers.get("x-b"), Some("3"));
    assert_eq!(builder.headers.get("old"), Some("kept"));
    assert_eq!(builder.headers.get(":authority"), None);
    assert_eq!(builder.headers.get(":path"), None);
    assert_eq!(builder.body, vec![1, 2]);

    let mut empty = Http3StreamBuilder {
        headers: StringMap::new(),
        method: Some(Method::Put),
        path: Some("/p".to_string()),
        body: Vec::new(),
    };
    parse_qpack_headers(&[], &mut empty);
    assert_eq!(empty.method, Some(Method::Put));
    assert_eq!(empty.path.as_deref(), Some("/p"));
}
