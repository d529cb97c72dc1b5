//! HTTP/2: connection preface, frame headers, HEADERS/DATA/WINDOW_UPDATE
//! processing into requests, and response framing.
use std::collections::HashMap;

use vstd::prelude::*;
use vstd::utf8::*;

use crate::request::{method_from_token, Method, MethodView, Request, RequestView};
use crate::response::{Response, ResponseView};
use crate::header_block::{cut_update_at, first_cut_update, lemma_cut_prefix, size_updates_whole};
use crate::string_map::StringMap;
use crate::text::{
    append_bytes, append_str, decimal, decimal_chars, starts_with, str_eq,
    string_of, lossy_text,
    utf8_lossy_string,
};

verus! {

/// The client connection preface, `PRI * HTTP/2.0\r\n\r\nSM\r\n\r\n`.
pub const HTTP2_PREFACE: [u8; 24] = [
    0x50,
    0x52,
    0x49,
    0x20,
    0x2a,
    0x20,
    0x48,
    0x54,
    0x54,
    0x50,
    0x2f,
    0x32,
    0x2e,
    0x30,
    0x0d,
    0x0a,
    0x0d,
    0x0a,
    0x53,
    0x4d,
    0x0d,
    0x0a,
    0x0d,
    0x0a,
];

/// Length of a frame header on the wire.
pub const FRAME_HEADER_LEN: usize = 9;

/// Initial flow-control window of a connection and of a stream.
pub const INITIAL_WINDOW: u32 = 65535;

#[derive(Debug, Clone, Copy, PartialEq, Eq, Structural)]
pub enum FrameType {
    Data,
    Headers,
    Settings,
    Ping,
    GoAway,
    WindowUpdate,
    Unknown(u8),
}

/// The frame type that a type byte denotes.
pub open spec fn frame_type_of(b: u8) -> FrameType {
    if b == 0x0 {
        FrameType::Data
    } else if b == 0x1 {
        FrameType::Headers
    } else if b == 0x4 {
        FrameType::Settings
    } else if b == 0x6 {
        FrameType::Ping
    } else if b == 0x7 {
        FrameType::GoAway
    } else if b == 0x8 {
        FrameType::WindowUpdate
    } else {
        FrameType::Unknown(b)
    }
}

impl From<u8> for FrameType {
    fn from(b: u8) -> (r: Self) {
        match b {
            0x0 => FrameType::Data,
            0x1 => FrameType::Headers,
            0x4 => FrameType::Settings,
            0x6 => FrameType::Ping,
            0x7 => FrameType::GoAway,
            0x8 => FrameType::WindowUpdate,
            other => FrameType::Unknown(other),
        }
    }
}

impl vstd::std_specs::convert::FromSpecImpl<u8> for FrameType {
    open spec fn obeys_from_spec() -> bool {
        true
    }

    open spec fn from_spec(b: u8) -> FrameType {
        frame_type_of(b)
    }
}

#[derive(Debug, Clone)]
pub struct FrameHeader {
    pub length: u32,
    pub frame_type: FrameType,
    pub flags: u8,
    pub stream_id: u32,
}

/// The frame header in the first nine bytes of `b`: a 24-bit big-endian
/// length, the type, the flags, and a 31-bit stream id (the reserved bit is
/// dropped).
pub open spec fn frame_header_of(b: Seq<u8>) -> FrameHeader {
    FrameHeader {
        length: (b[0] * 65536 + b[1] * 256 + b[2]) as u32,
        frame_type: frame_type_of(b[3]),
        flags: b[4],
        stream_id: ((b[5] % 128) * 16777216 + b[6] * 65536 + b[7] * 256 + b[8]) as u32,
    }
}

/// The nine bytes of a frame header, as `write_frame_header` lays them out.
pub open spec fn frame_header_bytes(length: u32, frame_type: u8, flags: u8, stream_id: u32) -> Seq<
    u8,
> {
    seq![
        ((length / 65536) % 256) as u8,
        ((length / 256) % 256) as u8,
        (length % 256) as u8,
        frame_type,
        flags,
        ((stream_id / 16777216) % 128) as u8,
        ((stream_id / 65536) % 256) as u8,
        ((stream_id / 256) % 256) as u8,
        (stream_id % 256) as u8,
    ]
}

proof fn lemma_be24(b0: u8, b1: u8, b2: u8)
    ensures
        ((b0 as u32) << 16) | ((b1 as u32) << 8) | (b2 as u32) == b0 * 65536 + b1 * 256 + b2,
{
    assert(((b0 as u32) << 16) | ((b1 as u32) << 8) | (b2 as u32) == (b0 as u32) * 65536 + (
    b1 as u32) * 256 + (b2 as u32)) by (bit_vector);
}

proof fn lemma_be31(b0: u8, b1: u8, b2: u8, b3: u8)
    ensures
        (((b0 as u32) & 0x7F) << 24) | ((b1 as u32) << 16) | ((b2 as u32) << 8) | (b3 as u32) == (
        b0 % 128) * 16777216 + b1 * 65536 + b2 * 256 + b3,
{
    assert((((b0 as u32) & 0x7F) << 24) | ((b1 as u32) << 16) | ((b2 as u32) << 8) | (b3 as u32)
        == ((b0 as u32) % 128) * 16777216 + (b1 as u32) * 65536 + (b2 as u32) * 256 + (b3 as u32))
        by (bit_vector);
}

impl FrameHeader {
    /// The frame header at the start of `buf`, if it holds nine bytes.
    pub fn parse(buf: &[u8]) -> (r: Option<Self>)
        ensures
            buf@.len() < 9 ==> r is None,
            buf@.len() >= 9 ==> r == Some(frame_header_of(buf@)),
    {
        if buf.len() < 9 {
            return None;
        }
        let length = ((buf[0] as u32) << 16) | ((buf[1] as u32) << 8) | (buf[2] as u32);
        let frame_type = FrameType::from(buf[3]);
        let flags = buf[4];
        let stream_id = (((buf[5] as u32) & 0x7F) << 24) | ((buf[6] as u32) << 16) | ((
        buf[7] as u32) << 8) | (buf[8] as u32);
        proof {
            lemma_be24(buf@[0], buf@[1], buf@[2]);
            lemma_be31(buf@[5], buf@[6], buf@[7], buf@[8]);
        }
        Some(Self { length, frame_type, flags, stream_id })
    }
}

/// Appends the nine bytes of a frame header.
pub fn write_frame_header(out: &mut Vec<u8>, length: u32, frame_type: u8, flags: u8, stream_id: u32)
    ensures
        final(out)@ == old(out)@ + frame_header_bytes(length, frame_type, flags, stream_id),
{
    let ghost start = out@;
    out.push(((length >> 16) & 0xFF) as u8);
    out.push(((length >> 8) & 0xFF) as u8);
    out.push((length & 0xFF) as u8);
    out.push(frame_type);
    out.push(flags);
    out.push(((stream_id >> 24) & 0x7F) as u8);
    out.push(((stream_id >> 16) & 0xFF) as u8);
    out.push(((stream_id >> 8) & 0xFF) as u8);
    out.push((stream_id & 0xFF) as u8);
    proof {
        assert(((length >> 16) & 0xFF) == (length / 65536) % 256) by (bit_vector);
        assert(((length >> 8) & 0xFF) == (length / 256) % 256) by (bit_vector);
        assert((length & 0xFF) == length % 256) by (bit_vector);
        assert(((stream_id >> 24) & 0x7F) == (stream_id / 16777216) % 128) by (bit_vector);
        assert(((stream_id >> 16) & 0xFF) == (stream_id / 65536) % 256) by (bit_vector);
        assert(((stream_id >> 8) & 0xFF) == (stream_id / 256) % 256) by (bit_vector);
        assert((stream_id & 0xFF) == stream_id % 256) by (bit_vector);
    }
    assert(out@ =~= start + frame_header_bytes(length, frame_type, flags, stream_id));
}

/// Writing a frame header and parsing it back gives the same length, type,
/// flags and stream id, for every length that fits in 24 bits and every
/// stream id that fits in 31.
pub proof fn law_frame_header_round_trip(length: u32, frame_type: u8, flags: u8, stream_id: u32)
    requires
        length < 0x100_0000,
        stream_id < 0x8000_0000,
    ensures
        frame_header_of(frame_header_bytes(length, frame_type, flags, stream_id)) == (FrameHeader {
            length,
            frame_type: frame_type_of(frame_type),
            flags,
            stream_id,
        }),
{
    let b = frame_header_bytes(length, frame_type, flags, stream_id);
    assert((length / 65536) % 256 * 65536 + (length / 256) % 256 * 256 + length % 256 == length)
        by (nonlinear_arith)
        requires
            length < 0x100_0000,
    ;
    assert(((stream_id / 16777216) % 128) % 128 * 16777216 + (stream_id / 65536) % 256 * 65536 + (
    stream_id / 256) % 256 * 256 + stream_id % 256 == stream_id) by (nonlinear_arith)
        requires
            stream_id < 0x8000_0000,
    ;
}

/// One header field as an HPACK literal without indexing and with a literal
/// name: a zero byte, then name and value, each after a one-byte length
/// (the low eight bits of the byte length).
pub open spec fn literal_field(name: Seq<char>, value: Seq<char>) -> Seq<u8> {
    let n = encode_utf8(name);
    let v = encode_utf8(value);
    seq![0u8, (n.len() % 256) as u8] + n + seq![(v.len() % 256) as u8] + v
}

fn encode_literal_header(out: &mut Vec<u8>, name: &str, value: &str)
    ensures
        final(out)@ == old(out)@ + literal_field(name@, value@),
{
    let ghost start = out@;
    let nb = name.as_bytes();
    let vb = value.as_bytes();
    out.push(0x00);
    out.push((nb.len() % 256) as u8);
    append_bytes(out, nb);
    out.push((vb.len() % 256) as u8);
    append_bytes(out, vb);
    assert(out@ =~= start + literal_field(name@, value@));
}

/// The header block of a response: `:status`, then `content-type`,
/// `content-encoding` and `content-length` where the response has them.
pub open spec fn response_header_block(res: ResponseView) -> Seq<u8> {
    literal_field(":status"@, decimal(res.status_code as nat)) + match res.content_type {
        Some(t) => literal_field("content-type"@, t),
        None => Seq::empty(),
    } + match res.content_encoding {
        Some(e) => literal_field("content-encoding"@, e),
        None => Seq::empty(),
    } + match res.body {
        Some(b) => literal_field("content-length"@, decimal(b.len())),
        None => Seq::empty(),
    }
}

/// A response's HTTP/2 header block, read back field by field (name and
/// value after one-byte lengths, as `crate::http3::qpack_fields` reads
/// them), gives exactly the response's headers: `content-type`,
/// `content-encoding` and `content-length` where the response has a type, an
/// encoding and a body, and none of them where it has not; `:status` is a
/// pseudo-header, which a reader passes over.  Type and encoding are taken to
/// be shorter than 256 bytes.
pub proof fn law_response_header_block_read_back(s: crate::http3::StreamView, res: ResponseView)
    requires
        res.content_type matches Some(t) ==> encode_utf8(t).len() < 256,
        res.content_encoding matches Some(e) ==> encode_utf8(e).len() < 256,
        res.body matches Some(b) ==> b.len() <= usize::MAX,
    ensures
        ({
            let r = crate::http3::qpack_fields(s, response_header_block(res), 0);
            &&& r == (crate::http3::StreamView {
                headers: crate::http3::block_headers(s.headers, res),
                ..s
            })
            &&& res.content_encoding matches Some(e) ==> r.headers.contains_key(
                "content-encoding"@,
            ) && r.headers["content-encoding"@] == e
            &&& res.content_type matches Some(t) ==> r.headers.contains_key("content-type"@)
                && r.headers["content-type"@] == t
            &&& res.body matches Some(b) ==> r.headers.contains_key("content-length"@)
                && r.headers["content-length"@] == decimal(b.len())
            &&& forall|k: Seq<char>|
                k != "content-type"@ && k != "content-encoding"@ && k != "content-length"@
                    ==> r.headers.contains_key(k) == s.headers.contains_key(k)
        }),
{
    crate::http3::law_qpack_header_block_read_back(s, res);
    assert(response_header_block(res) =~= crate::http3::qpack_header_block(res));
    reveal_strlit("content-type");
    reveal_strlit("content-encoding");
    reveal_strlit("content-length");
    assert("content-type"@[8] != "content-encoding"@[8]);
    assert("content-type"@[8] != "content-length"@[8]);
    assert("content-encoding"@[8] != "content-length"@[8]);
}

/// A response on stream `id`: a HEADERS frame (ending the stream when there
/// is no body), then a DATA frame ending the stream when the body is not
/// empty.
pub open spec fn response_frames(id: u32, res: ResponseView) -> Seq<u8> {
    let block = response_header_block(res);
    let has_body = res.body matches Some(b) && b.len() > 0;
    frame_header_bytes(
        block.len() as u32,
        0x1,
        if has_body {
            0x4
        } else {
            0x5
        },
        id,
    ) + block + if has_body {
        let b = res.body->0;
        frame_header_bytes(b.len() as u32, 0x0, 0x1, id) + b
    } else {
        Seq::empty()
    }
}

// ---------------------------------------------------------------------------
// HPACK
// ---------------------------------------------------------------------------

/// `hpack::Decoder`, held by a connection for its whole life.
#[verifier::external_type_specification]
#[verifier::external_body]
pub struct ExHpackDecoder<'a>(hpack::Decoder<'a>);

/// What an HPACK decoder holds: its dynamic table (names and values, newest
/// first) and the table's size limit.
pub uninterp spec fn hpack_table(d: hpack::Decoder<'static>) -> (Seq<(Seq<u8>, Seq<u8>)>, nat);

/// What `hpack::Decoder::decode` gives for `block` from a decoder that holds
/// `table`: the header list (`None` when decoding fails) and what the decoder
/// holds afterwards.
pub uninterp spec fn hpack_block(table: (Seq<(Seq<u8>, Seq<u8>)>, nat), block: Seq<u8>) -> (
    Option<Seq<(Seq<u8>, Seq<u8>)>>,
    (Seq<(Seq<u8>, Seq<u8>)>, nat),
);

/// An HPACK decoder's dynamic table and its size limit.
pub type HpackTable = (Seq<(Seq<u8>, Seq<u8>)>, nat);

/// `hpack::Decoder::new`: a decoder with an empty dynamic table and the
/// default size limit of 4096 octets.
#[verifier::external_body]
fn new_hpack_decoder() -> (d: hpack::Decoder<'static>)
    ensures
        hpack_table(d) == (Seq::<(Seq<u8>, Seq<u8>)>::empty(), 4096nat),
{
    hpack::Decoder::new()
}

/// `hpack::Decoder::decode` on one header block, its error dropped.  What it
/// returns and what the decoder holds afterwards are named by `hpack_block`,
/// a function of what the decoder held and of the block alone.  The crate
/// panics on a dynamic-table size update whose integer is cut short, so such
/// blocks are left out (`size_updates_whole`).
#[verifier::external_body]
fn hpack_decode(decoder: &mut hpack::Decoder<'static>, block: &[u8]) -> (r: Option<
    Vec<(Vec<u8>, Vec<u8>)>,
>)
    requires
        size_updates_whole(block@, 0),
    ensures
        decoded_view(r) == hpack_block(hpack_table(*old(decoder)), block@).0,
        hpack_table(*final(decoder)) == hpack_block(hpack_table(*old(decoder)), block@).1,
{
    decoder.decode(block).ok()
}

pub open spec fn decoded_view(d: Option<Vec<(Vec<u8>, Vec<u8>)>>) -> Option<
    Seq<(Seq<u8>, Seq<u8>)>,
> {
    match d {
        Some(list) => Some(fields_view(list@)),
        None => None,
    }
}

pub open spec fn fields_view(list: Seq<(Vec<u8>, Vec<u8>)>) -> Seq<(Seq<u8>, Seq<u8>)> {
    list.map_values(|f: (Vec<u8>, Vec<u8>)| (f.0@, f.1@))
}

// ---------------------------------------------------------------------------
// Streams
// ---------------------------------------------------------------------------

struct RequestBuilder {
    headers: StringMap,
    method: Option<Method>,
    path: Option<String>,
    body: Vec<u8>,
    end_stream: bool,
    window_size: u32,
}

/// What a stream has received so far.
pub ghost struct StreamView {
    pub headers: Map<Seq<char>, Seq<char>>,
    pub method: Option<MethodView>,
    pub path: Option<Seq<char>>,
    pub body: Seq<u8>,
    pub end_stream: bool,
    pub window_size: u32,
}

impl View for RequestBuilder {
    type V = StreamView;

    closed spec fn view(&self) -> StreamView {
        StreamView {
            headers: self.headers@,
            method: match self.method {
                Some(m) => Some(m@),
                None => None,
            },
            path: match self.path {
                Some(p) => Some(p@),
                None => None,
            },
            body: self.body@,
            end_stream: self.end_stream,
            window_size: self.window_size,
        }
    }
}

/// A stream that has received nothing.
pub open spec fn fresh_stream() -> StreamView {
    StreamView {
        headers: Map::empty(),
        method: None,
        path: None,
        body: Seq::empty(),
        end_stream: false,
        window_size: INITIAL_WINDOW,
    }
}

/// The effect of decoded header fields on a stream: `:method` and `:path`
/// set the method and path, other pseudo-headers are ignored, and regular
/// headers are recorded.  Names and values are read as lossy UTF-8.
pub open spec fn apply_fields(s: StreamView, fields: Seq<(Seq<u8>, Seq<u8>)>) -> StreamView
    decreases fields.len(),
{
    if fields.len() == 0 {
        s
    } else {
        let prev = apply_fields(s, fields.drop_last());
        let name = lossy_text(fields.last().0);
        let value = lossy_text(fields.last().1);
        if name == ":method"@ {
            StreamView { method: Some(method_from_token(value)), ..prev }
        } else if name == ":path"@ {
            StreamView { path: Some(value), ..prev }
        } else if !(name.len() > 0 && name[0] == ':') {
            StreamView { headers: prev.headers.insert(name, value), ..prev }
        } else {
            prev
        }
    }
}

/// The request a finished stream carries, if it named a method and a path.
pub open spec fn stream_request(s: StreamView) -> Option<RequestView> {
    match (s.method, s.path) {
        (Some(m), Some(p)) => Some(
            RequestView {
                method: m,
                path: p,
                version: "HTTP/2"@,
                headers: s.headers,
                body: if s.body.len() == 0 {
                    None
                } else {
                    Some(s.body)
                },
            },
        ),
        _ => None,
    }
}

impl RequestBuilder {
    fn fresh() -> (b: Self)
        ensures
            b@ == fresh_stream(),
    {
        RequestBuilder {
            headers: StringMap::new(),
            method: None,
            path: None,
            body: Vec::new(),
            end_stream: false,
            window_size: INITIAL_WINDOW,
        }
    }

    fn apply(&mut self, fields: &Vec<(Vec<u8>, Vec<u8>)>)
        ensures
            final(self)@ == apply_fields(old(self)@, fields_view(fields@)),
    {
        let ghost start = self@;
        let ghost fv = fields_view(fields@);
        let mut i: usize = 0;
        while i < fields.len()
            invariant
                i <= fields@.len(),
                fv == fields_view(fields@),
                self@ == apply_fields(start, fv.take(i as int)),
            decreases fields@.len() - i,
        {
            assert(fv.take(i + 1).drop_last() =~= fv.take(i as int));
            assert(fv.take(i + 1).last() == (fields@[i as int].0@, fields@[i as int].1@));
            let name = utf8_lossy_string(fields[i].0.as_slice());
            let value = utf8_lossy_string(fields[i].1.as_slice());
            if str_eq(name.as_str(), ":method") {
                self.method = Some(Method::from_str(value.as_str()));
            } else if str_eq(name.as_str(), ":path") {
                self.path = Some(value);
            } else {
                let nc = crate::text::chars_of(name.as_str());
                let pseudo = nc.len() > 0 && nc[0] == ':';
                if !pseudo {
                    self.headers.insert(name, value);
                }
            }
            i = i + 1;
        }
        assert(fv.take(fields@.len() as int) =~= fv);
    }

    fn finish(self) -> (r: Option<Request>)
        ensures
            match stream_request(self@) {
                Some(req) => r matches Some(q) && q@ == req,
                None => r is None,
            },
    {
        let RequestBuilder { headers, method, path, body, end_stream: _, window_size: _ } = self;
        match (method, path) {
            (Some(method), Some(path)) => {
                let body = if body.len() == 0 {
                    None
                } else {
                    Some(body)
                };
                Some(Request { method, path, version: "HTTP/2".to_owned(), headers, body })
            },
            _ => None,
        }
    }
}

// ---------------------------------------------------------------------------
// Connection state and frame processing
// ---------------------------------------------------------------------------

pub struct Http2Connection {
    pub preface_received: bool,
    hpack_decoder: hpack::Decoder<'static>,
    active_streams: HashMap<u32, RequestBuilder>,
    pub connection_window_size: u32,
}

/// The state of a connection.
pub ghost struct ConnectionView {
    pub preface_received: bool,
    /// Streams that have begun and not yet ended.
    pub streams: Map<u32, StreamView>,
    pub connection_window: u32,
    /// What the HPACK decoder holds.
    pub hpack: HpackTable,
}

spec fn streams_view(m: Map<u32, RequestBuilder>) -> Map<u32, StreamView> {
    m.map_values(|b: RequestBuilder| b@)
}

impl View for Http2Connection {
    type V = ConnectionView;

    closed spec fn view(&self) -> ConnectionView {
        ConnectionView {
            preface_received: self.preface_received,
            streams: streams_view(self.active_streams@),
            connection_window: self.connection_window_size,
            hpack: hpack_table(self.hpack_decoder),
        }
    }
}

/// The state of a connection that has received nothing.
pub open spec fn fresh_connection() -> ConnectionView {
    ConnectionView {
        preface_received: false,
        streams: Map::empty(),
        connection_window: INITIAL_WINDOW,
        hpack: (Seq::empty(), 4096),
    }
}

/// The stream `id` as received so far, or a fresh one.
pub open spec fn stream_or_fresh(c: ConnectionView, id: u32) -> StreamView {
    if c.streams.contains_key(id) {
        c.streams[id]
    } else {
        fresh_stream()
    }
}

/// A stream that has ended hands over its request (if complete) and is
/// forgotten; one that has not is kept.
pub open spec fn settle(c: ConnectionView, id: u32, s: StreamView, end: bool) -> (
    ConnectionView,
    Option<(u32, RequestView)>,
) {
    if end {
        (
            ConnectionView { streams: c.streams.remove(id), ..c },
            match stream_request(s) {
                Some(r) => Some((id, r)),
                None => None,
            },
        )
    } else {
        (ConnectionView { streams: c.streams.insert(id, s), ..c }, None)
    }
}

/// The 31-bit window increment in the first four bytes of a payload.
pub open spec fn window_increment(p: Seq<u8>) -> u32 {
    ((p[0] % 128) * 16777216 + p[1] * 65536 + p[2] * 256 + p[3]) as u32
}

pub open spec fn saturating_add(a: u32, b: u32) -> u32 {
    if a + b > u32::MAX {
        u32::MAX
    } else {
        (a + b) as u32
    }
}

/// The effect of one complete frame.  For a HEADERS frame, `fields` is what
/// the HPACK decoder reads its header block from what it holds; the fields it
/// gives (none when decoding fails) are applied to the stream.
pub open spec fn frame_step(c: ConnectionView, h: FrameHeader, payload: Seq<u8>) -> (
    ConnectionView,
    Option<(u32, RequestView)>,
) {
    let end = h.flags % 2 == 1;
    let id = h.stream_id;
    match h.frame_type {
        FrameType::Headers => {
            let (fields, table, _) = header_decode(c.hpack, payload);
            let s0 = stream_or_fresh(c, id);
            let s1 = match fields {
                Some(f) => apply_fields(s0, f),
                None => s0,
            };
            settle(ConnectionView { hpack: table, ..c }, id, StreamView { end_stream: end, ..s1 }, end)
        },
        FrameType::Data => if c.streams.contains_key(id) {
            let s = c.streams[id];
            settle(c, id, StreamView { body: s.body + payload, ..s }, end)
        } else {
            (c, None)
        },
        FrameType::WindowUpdate => if payload.len() >= 4 {
            let inc = window_increment(payload);
            if id == 0 {
                (
                    ConnectionView {
                        connection_window: saturating_add(c.connection_window, inc),
                        ..c
                    },
                    None,
                )
            } else if c.streams.contains_key(id) {
                let s = c.streams[id];
                (
                    ConnectionView {
                        streams: c.streams.insert(
                            id,
                            StreamView { window_size: saturating_add(s.window_size, inc), ..s },
                        ),
                        ..c
                    },
                    None,
                )
            } else {
                (c, None)
            }
        } else {
            (c, None)
        },
        _ => (c, None),
    }
}

/// The header of the frame that starts at `off`.
pub open spec fn header_at(buf: Seq<u8>, off: nat) -> FrameHeader {
    frame_header_of(buf.subrange(off as int, buf.len() as int))
}

/// The complete frames from `off` on: their start offsets, in order.  The
/// scan stops at the first frame whose header or payload is not all there.
pub open spec fn frame_starts(buf: Seq<u8>, off: nat) -> Seq<nat>
    decreases buf.len() - off,
{
    if off + 9 > buf.len() {
        Seq::empty()
    } else {
        let total: nat = 9 + (header_at(buf, off).length as nat);
        if off + total > buf.len() {
            Seq::empty()
        } else {
            seq![off] + frame_starts(buf, off + total)
        }
    }
}

/// Where the complete frames from `off` on end.
pub open spec fn frames_end(buf: Seq<u8>, off: nat) -> nat
    decreases buf.len() - off,
{
    if off + 9 > buf.len() {
        off
    } else {
        let total: nat = 9 + (header_at(buf, off).length as nat);
        if off + total > buf.len() {
            off
        } else {
            frames_end(buf, off + total)
        }
    }
}

/// The payload of the frame that starts at `off`.
pub open spec fn payload_at(buf: Seq<u8>, off: nat) -> Seq<u8> {
    buf.subrange(off as int + 9, off as int + 9 + (header_at(buf, off).length as int))
}

pub open spec fn opt_seq<T>(o: Option<T>) -> Seq<T> {
    match o {
        Some(x) => seq![x],
        None => Seq::empty(),
    }
}

/// What decoding a header block from a decoder that holds `t` gives: the
/// fields (none when decoding fails), what the decoder holds afterwards, and
/// whether the block can be taken.  Where the field walk finds a size update
/// that is cut short (`cut_update_at`), only the bytes before it are decoded:
/// if they decode, the decoder would go on to the update and fail on it, so
/// the block is refused; if they do not, the decoder stops before the update,
/// and the block gives no fields.
pub open spec fn header_decode(t: HpackTable, block: Seq<u8>) -> (
    Option<Seq<(Seq<u8>, Seq<u8>)>>,
    HpackTable,
    bool,
) {
    match cut_update_at(block, 0) {
        None => (hpack_block(t, block).0, hpack_block(t, block).1, true),
        Some(q) => (None, hpack_block(t, block.take(q)).1, hpack_block(t, block.take(q)).0 is None),
    }
}

/// Whether connection `c` can take a frame: a HEADERS block must be one the
/// decoder can take (see `header_decode`).
pub open spec fn frame_acceptable(c: ConnectionView, h: FrameHeader, payload: Seq<u8>) -> bool {
    h.frame_type == FrameType::Headers ==> header_decode(c.hpack, payload).2
}

/// The state in which a connection refuses a HEADERS frame: the decoder holds
/// what decoding the block up to the refused update left it.
pub open spec fn refused(c: ConnectionView, payload: Seq<u8>) -> ConnectionView {
    ConnectionView { hpack: header_decode(c.hpack, payload).1, ..c }
}

/// Processing the frames at `starts` in order: the final state, the requests
/// completed (in order), and whether every frame was acceptable.  At the
/// first frame that is not, processing stops.
pub open spec fn run_frames(c: ConnectionView, buf: Seq<u8>, starts: Seq<nat>) -> (
    ConnectionView,
    Seq<(u32, RequestView)>,
    bool,
)
    decreases starts.len(),
{
    if starts.len() == 0 {
        (c, Seq::empty(), true)
    } else {
        let (c1, done, ok) = run_frames(c, buf, starts.drop_last());
        let off = starts.last();
        if !ok {
            (c1, done, false)
        } else if !frame_acceptable(c1, header_at(buf, off), payload_at(buf, off)) {
            (refused(c1, payload_at(buf, off)), done, false)
        } else {
            let (c2, out) = frame_step(c1, header_at(buf, off), payload_at(buf, off));
            (c2, done + opt_seq(out), true)
        }
    }
}

/// Processing one more acceptable frame.
proof fn lemma_run_frames_push(
    c: ConnectionView,
    buf: Seq<u8>,
    prev: Seq<nat>,
    off: nat,
    st: ConnectionView,
    reqs: Seq<(u32, RequestView)>,
)
    requires
        run_frames(c, buf, prev) == (st, reqs, true),
        frame_acceptable(st, header_at(buf, off), payload_at(buf, off)),
    ensures
        ({
            let (c2, out) = frame_step(st, header_at(buf, off), payload_at(buf, off));
            run_frames(c, buf, prev.push(off)) == (c2, reqs + opt_seq(out), true)
        }),
{
    assert(prev.push(off).drop_last() =~= prev);
}

/// Stopping at a frame that is not acceptable: nothing after it counts.
proof fn lemma_run_frames_stop_at(
    c: ConnectionView,
    buf: Seq<u8>,
    prev: Seq<nat>,
    off: nat,
    rest: Seq<nat>,
    st: ConnectionView,
    reqs: Seq<(u32, RequestView)>,
)
    requires
        run_frames(c, buf, prev) == (st, reqs, true),
        !frame_acceptable(st, header_at(buf, off), payload_at(buf, off)),
    ensures
        run_frames(c, buf, prev.push(off) + rest) == (refused(st, payload_at(buf, off)), reqs, false),
{
    assert(prev.push(off).drop_last() =~= prev);
    lemma_run_frames_stopped(c, buf, prev.push(off), rest);
}

/// Once processing has stopped, later frames change nothing.
proof fn lemma_run_frames_stopped(c: ConnectionView, buf: Seq<u8>, s1: Seq<nat>, s2: Seq<nat>)
    requires
        !run_frames(c, buf, s1).2,
    ensures
        run_frames(c, buf, s1 + s2) == run_frames(c, buf, s1),
    decreases s2.len(),
{
    if s2.len() > 0 {
        lemma_run_frames_stopped(c, buf, s1, s2.drop_last());
        assert((s1 + s2).drop_last() =~= s1 + s2.drop_last());
    } else {
        assert(s1 + s2 =~= s1);
    }
}

pub ghost enum InputOutcome {
    /// The preface has not fully arrived.
    NeedMore,
    /// The bytes do not begin with the preface.
    BadPreface,
    /// Frames were processed up to the offset; requests completed, in order.
    Processed(nat, Seq<(u32, RequestView)>),
    /// A HEADERS frame's block holds a size update, cut short, that the
    /// decoder would reach.
    BadHeaderBlock,
}

/// Where frames begin in `buf`: after the preface if it is still expected.
pub open spec fn frames_begin(c: ConnectionView) -> nat {
    if c.preface_received {
        0
    } else {
        24
    }
}

/// The effect of `process_input` on connection `c` and bytes `buf`.
pub open spec fn input_step(c: ConnectionView, buf: Seq<u8>) -> (ConnectionView, InputOutcome) {
    if !c.preface_received && buf.len() < 24 {
        (c, InputOutcome::NeedMore)
    } else if !c.preface_received && !starts_with(buf, HTTP2_PREFACE@) {
        (c, InputOutcome::BadPreface)
    } else {
        let c0 = ConnectionView { preface_received: true, ..c };
        let begin = frames_begin(c);
        let (c1, reqs, ok) = run_frames(c0, buf, frame_starts(buf, begin));
        if ok {
            (c1, InputOutcome::Processed(frames_end(buf, begin), reqs))
        } else {
            (c1, InputOutcome::BadHeaderBlock)
        }
    }
}

/// `r` reports `outcome`.
pub open spec fn reports_input(
    r: Result<Option<(usize, Vec<(u32, Request)>)>, String>,
    outcome: InputOutcome,
) -> bool {
    match outcome {
        InputOutcome::NeedMore => r matches Ok(None),
        InputOutcome::BadPreface => r matches Err(e) && e@ == "invalid http/2 connection preface"@,
        InputOutcome::BadHeaderBlock => r matches Err(e) && e@ == "malformed http/2 header block"@,
        InputOutcome::Processed(n, reqs) => r matches Ok(Some((m, v))) && m == n && v@.len()
            == reqs.len() && forall|i: int|
            0 <= i < reqs.len() ==> (#[trigger] v@[i]).0 == reqs[i].0 && v@[i].1@ == reqs[i].1,
    }
}

proof fn lemma_frame_starts_step(buf: Seq<u8>, off: nat)
    requires
        off + 9 <= buf.len(),
        off + 9 + header_at(buf, off).length <= buf.len(),
    ensures
        frame_starts(buf, off) == seq![off] + frame_starts(
            buf,
            off + 9 + (header_at(buf, off).length as nat),
        ),
        frames_end(buf, off) == frames_end(buf, off + 9 + (header_at(buf, off).length as nat)),
{
}

/// The frames found from `off` on lie within the buffer, one after another.
pub proof fn law_frames_stay_within_buffer(buf: Seq<u8>, off: nat)
    requires
        off <= buf.len(),
    ensures
        off <= frames_end(buf, off) <= buf.len(),
        forall|i: int|
            0 <= i < frame_starts(buf, off).len() ==> off <= #[trigger] frame_starts(buf, off)[i]
                && frame_starts(buf, off)[i] + 9 <= frames_end(buf, off),
    decreases buf.len() - off,
{
    if off + 9 <= buf.len() {
        let total: nat = 9 + (header_at(buf, off).length as nat);
        if off + total <= buf.len() {
            law_frames_stay_within_buffer(buf, off + total);
            let rest = frame_starts(buf, off + total);
            assert forall|i: int| 0 <= i < frame_starts(buf, off).len() implies off
                <= #[trigger] frame_starts(buf, off)[i] && frame_starts(buf, off)[i] + 9
                <= frames_end(buf, off) by {
                if i > 0 {
                    assert(frame_starts(buf, off)[i] == rest[i - 1]);
                }
            }
        }
    }
}

/// Processing frames only reads the decoder outputs of those frames.
/// Frame processing never lowers the connection's flow-control window:
/// WINDOW_UPDATE only adds to it (saturating), and no other frame touches it.
pub proof fn law_connection_window_never_shrinks(c: ConnectionView, buf: Seq<u8>, starts: Seq<nat>)
    ensures
        run_frames(c, buf, starts).0.connection_window >= c.connection_window,
    decreases starts.len(),
{
    if starts.len() > 0 {
        law_connection_window_never_shrinks(c, buf, starts.drop_last());
    }
}

impl Http2Connection {
    pub fn new() -> (c: Self)
        ensures
            c@ == fresh_connection(),
    {
        let c = Self {
            preface_received: false,
            hpack_decoder: new_hpack_decoder(),
            active_streams: HashMap::new(),
            connection_window_size: INITIAL_WINDOW,
        };
        assert(c@.streams =~= Map::empty());
        c
    }

    /// Whether the preface has been received: the field `preface_received`.
    pub fn preface_seen(&self) -> (r: bool)
        ensures
            r == self@.preface_received,
    {
        self.preface_received
    }

    /// The connection's flow-control window: the field
    /// `connection_window_size`.
    pub fn window(&self) -> (r: u32)
        ensures
            r == self@.connection_window,
    {
        self.connection_window_size
    }

    /// Check if client payload starts with HTTP/2 connection preface
    pub fn is_http2_preface(buf: &[u8]) -> (r: bool)
        ensures
            r == starts_with(buf@, HTTP2_PREFACE@),
    {
        if buf.len() < 24 {
            return false;
        }
        let mut i: usize = 0;
        while i < 24
            invariant
                i <= 24,
                buf@.len() >= 24,
                forall|j: int| 0 <= j < i ==> buf@[j] == HTTP2_PREFACE@[j],
            decreases 24 - i,
        {
            if buf[i] != HTTP2_PREFACE[i] {
                assert(buf@.subrange(0, 24)[i as int] != HTTP2_PREFACE@[i as int]);
                return false;
            }
            i = i + 1;
        }
        assert(buf@.subrange(0, 24) =~= HTTP2_PREFACE@);
        true
    }

    /// Records a completed request, if any, after the earlier ones.
    fn push_completed(completed: &mut Vec<(u32, Request)>, id: u32, req: Option<Request>)
        ensures
            final(completed)@.len() == old(completed)@.len() + (if req is Some {
                1int
            } else {
                0
            }),
            forall|i: int|
                0 <= i < old(completed)@.len() ==> #[trigger] final(completed)@[i]
                    == old(completed)@[i],
            req matches Some(q) ==> final(completed)@.last() == (id, q),
    {
        if let Some(q) = req {
            completed.push((id, q));
        }
    }

    /// Decodes a HEADERS block with the connection's decoder (see
    /// `header_decode`): the fields, or `Err` when the block is refused.
    fn decode_block(&mut self, payload: &[u8]) -> (r: Result<
        Option<Vec<(Vec<u8>, Vec<u8>)>>,
        (),
    >)
        ensures
            ({
                let (f, t, ok) = header_decode(old(self)@.hpack, payload@);
                &&& final(self)@ == (ConnectionView { hpack: t, ..old(self)@ })
                &&& ok ==> (r matches Ok(d) && decoded_view(d) == f)
                &&& !ok ==> r is Err
            }),
    {
        let ghost old_self = self@;
        match first_cut_update(payload) {
            None => {
                let d = hpack_decode(&mut self.hpack_decoder, payload);
                assert(streams_view(self.active_streams@) == old_self.streams);
                Ok(d)
            },
            Some(q) => {
                proof {
                    lemma_cut_prefix(payload@, 0);
                }
                let prefix = vstd::slice::slice_subrange(payload, 0, q);
                assert(prefix@ =~= payload@.take(q as int));
                assert(size_updates_whole(prefix@, 0));
                let d = hpack_decode(&mut self.hpack_decoder, prefix);
                assert(streams_view(self.active_streams@) == old_self.streams);
                if d.is_some() {
                    Err(())
                } else {
                    Ok(None)
                }
            },
        }
    }

    /// A HEADERS frame on stream `id`; `Err` when its block is refused.
    fn on_headers(&mut self, id: u32, end: bool, payload: &[u8]) -> (r: Result<Option<Request>, ()>)
        ensures
            ({
                let h = FrameHeader {
                    length: 0,
                    frame_type: FrameType::Headers,
                    flags: if end {
                        1
                    } else {
                        0
                    },
                    stream_id: id,
                };
                let (c, out) = frame_step(old(self)@, h, payload@);
                &&& frame_acceptable(old(self)@, h, payload@) ==> (final(self)@ == c && match out {
                    Some(x) => r matches Ok(Some(q)) && q@ == x.1 && x.0 == id,
                    None => r matches Ok(None),
                })
                &&& !frame_acceptable(old(self)@, h, payload@) ==> r is Err && final(self)@
                    == refused(old(self)@, payload@)
            }),
    {
        let ghost old_self = self@;
        let decoded = match self.decode_block(payload) {
            Ok(d) => d,
            Err(()) => return Err(()),
        };
        let ghost mid = self@;
        let mut builder = match self.active_streams.remove(&id) {
            Some(b) => b,
            None => RequestBuilder::fresh(),
        };
        assert(builder@ == stream_or_fresh(old_self, id));
        proof {
            assert(streams_view(self.active_streams@) =~= old_self.streams.remove(id));
        }
        if let Some(list) = &decoded {
            builder.apply(list);
        }
        builder.end_stream = end;
        if end {
            Ok(builder.finish())
        } else {
            self.active_streams.insert(id, builder);
            proof {
                assert(streams_view(self.active_streams@) =~= old_self.streams.insert(id, builder@));
            }
            Ok(None)
        }
    }

    /// A DATA frame on stream `id`.
    fn on_data(&mut self, id: u32, end: bool, payload: &[u8]) -> (r: Option<Request>)
        ensures
            ({
                let (c, out) = frame_step(
                    old(self)@,
                    FrameHeader {
                        length: 0,
                        frame_type: FrameType::Data,
                        flags: if end {
                            1
                        } else {
                            0
                        },
                        stream_id: id,
                    },
                    payload@,
                );
                &&& final(self)@ == c
                &&& match out {
                    Some(x) => r matches Some(q) && q@ == x.1 && x.0 == id,
                    None => r is None,
                }
            }),
    {
        let ghost old_self = self@;
        if let Some(mut builder) = self.active_streams.remove(&id) {
            proof {
                assert(streams_view(self.active_streams@) =~= old_self.streams.remove(id));
                assert(old_self.streams.contains_key(id) && old_self.streams[id] == builder@);
            }
            append_bytes(&mut builder.body, payload);
            if end {
                builder.finish()
            } else {
                self.active_streams.insert(id, builder);
                proof {
                    assert(streams_view(self.active_streams@) =~= old_self.streams.insert(
                        id,
                        builder@,
                    ));
                }
                None
            }
        } else {
            assert(!old_self.streams.contains_key(id));
            assert(streams_view(self.active_streams@) =~= old_self.streams);
            None
        }
    }

    /// A WINDOW_UPDATE frame on stream `id` (0 for the connection).
    fn on_window_update(&mut self, id: u32, payload: &[u8])
        ensures
            final(self)@ == frame_step(
                old(self)@,
                FrameHeader { length: 0, frame_type: FrameType::WindowUpdate, flags: 0, stream_id: id },
                payload@,
            ).0,
    {
        let ghost old_self = self@;
        if payload.len() >= 4 {
            let increment = (((payload[0] as u32) & 0x7F) << 24) | ((payload[1] as u32) << 16) | ((
            payload[2] as u32) << 8) | (payload[3] as u32);
            proof {
                lemma_be31(payload@[0], payload@[1], payload@[2], payload@[3]);
            }
            if id == 0 {
                self.connection_window_size = self.connection_window_size.saturating_add(increment);
            } else if let Some(mut builder) = self.active_streams.remove(&id) {
                assert(old_self.streams.contains_key(id) && old_self.streams[id] == builder@);
                builder.window_size = builder.window_size.saturating_add(increment);
                self.active_streams.insert(id, builder);
                proof {
                    assert(streams_view(self.active_streams@) =~= old_self.streams.insert(
                        id,
                        builder@,
                    ));
                }
            } else {
                assert(streams_view(self.active_streams@) =~= old_self.streams);
            }
        }
    }

    /// Handles one complete frame; completed requests are appended to
    /// `completed`.  `false` when the frame is refused.
    fn handle_frame(
        &mut self,
        header: &FrameHeader,
        payload: &[u8],
        completed: &mut Vec<(u32, Request)>,
    ) -> (ok: bool)
        ensures
            ok == frame_acceptable(old(self)@, *header, payload@),
            !ok ==> final(self)@ == refused(old(self)@, payload@) && final(completed)@ == old(
                completed,
            )@,
            ok ==> ({
                let (c, out) = frame_step(old(self)@, *header, payload@);
                &&& final(self)@ == c
                &&& final(completed)@.len() == old(completed)@.len() + opt_seq(out).len()
                &&& forall|i: int|
                    0 <= i < old(completed)@.len() ==> #[trigger] final(completed)@[i]
                        == old(completed)@[i]
                &&& out matches Some(x) ==> final(completed)@.last().0 == x.0
                    && final(completed)@.last().1@ == x.1
            }),
    {
        let fl = header.flags;
        let is_end_stream = (fl & 0x1) != 0;
        assert((fl & 0x1) != 0 <==> fl % 2 == 1) by (bit_vector);
        let id = header.stream_id;
        match header.frame_type {
            FrameType::Headers => {
                match self.on_headers(id, is_end_stream, payload) {
                    Ok(req) => {
                        Self::push_completed(completed, id, req);
                        true
                    },
                    Err(()) => false,
                }
            },
            FrameType::Data => {
                let req = self.on_data(id, is_end_stream, payload);
                Self::push_completed(completed, id, req);
                true
            },
            FrameType::WindowUpdate => {
                self.on_window_update(id, payload);
                true
            },
            _ => true,
        }
    }

    /// Process HTTP/2 input bytes from `buf`.
    /// Returns `Ok(Some((consumed_bytes, requests)))` or `Ok(None)` if more data is needed.
    /// A header block in which the decoder would reach a size update that is
    /// cut short is a connection error (see `header_decode`).
    pub fn process_input(&mut self, buf: &[u8]) -> (r: Result<
        Option<(usize, Vec<(u32, Request)>)>,
        String,
    >)
        ensures
            ({
                let (c, outcome) = input_step(old(self)@, buf@);
                &&& final(self)@ == c
                &&& reports_input(r, outcome)
            }),
            final(self)@.connection_window >= old(self)@.connection_window,
    {
        let ghost start_state = self@;
        let mut offset: usize = 0;
        if !self.preface_received {
            if buf.len() < 24 {
                return Ok(None);
            }
            if !Self::is_http2_preface(buf) {
                return Err("invalid http/2 connection preface".to_owned());
            }
            offset = 24;
            self.preface_received = true;
        }
        let ghost begin = offset as nat;
        let ghost c0 = self@;
        assert(c0 == ConnectionView { preface_received: true, ..start_state });
        assert(begin == frames_begin(start_state));
        let mut completed: Vec<(u32, Request)> = Vec::new();
        let ghost mut done: Seq<nat> = Seq::empty();
        let ghost mut reqs: Seq<(u32, RequestView)> = Seq::empty();
        assert(frame_starts(buf@, begin) =~= done + frame_starts(buf@, offset as nat));
        let mut bad_block = false;
        while offset <= buf.len() && buf.len() - offset >= 9
            invariant_except_break
                !bad_block,
                (self@, reqs, true) == run_frames(c0, buf@, done),
            invariant
                offset <= buf@.len(),
                frame_starts(buf@, begin) == done + frame_starts(buf@, offset as nat),
                frames_end(buf@, begin) == frames_end(buf@, offset as nat),
                self@.connection_window >= start_state.connection_window,
                c0 == (ConnectionView { preface_received: true, ..start_state }),
                begin == frames_begin(start_state),
                start_state.preface_received || (buf@.len() >= 24 && starts_with(
                    buf@,
                    HTTP2_PREFACE@,
                )),
                completed@.len() == reqs.len(),
                forall|i: int|
                    0 <= i < reqs.len() ==> (#[trigger] completed@[i]).0 == reqs[i].0
                        && completed@[i].1@ == reqs[i].1,
            ensures
                bad_block ==> input_step(start_state, buf@) == (self@, InputOutcome::BadHeaderBlock),
                !bad_block ==> frame_starts(buf@, offset as nat) == Seq::<nat>::empty(),
                !bad_block ==> (self@, reqs, true) == run_frames(c0, buf@, done),
                !bad_block ==> frames_end(buf@, offset as nat) == offset,
            decreases buf@.len() - offset,
        {
            let rest = vstd::slice::slice_subrange(buf, offset, buf.len());
            let header = FrameHeader::parse(rest).unwrap();
            assert(header == header_at(buf@, offset as nat));
            let total_frame_len = 9 + header.length as usize;
            if total_frame_len > buf.len() - offset {
                break;
            }
            proof {
                lemma_frame_starts_step(buf@, offset as nat);
            }
            let payload = vstd::slice::slice_subrange(buf, offset + 9, offset + total_frame_len);
            assert(payload@ == payload_at(buf@, offset as nat));
            let ghost next = (offset + total_frame_len) as nat;
            let ghost prev_done = done;
            proof {
                assert(prev_done + (seq![offset as nat] + frame_starts(buf@, next)) =~= prev_done.push(
                    offset as nat,
                ) + frame_starts(buf@, next));
            }
            let ghost prev_completed = completed@;
            let ghost prev_reqs = reqs;
            let ghost prev_state = self@;
            let ok = self.handle_frame(&header, payload, &mut completed);
            if !ok {
                proof {
                    lemma_run_frames_stop_at(
                        c0,
                        buf@,
                        prev_done,
                        offset as nat,
                        frame_starts(buf@, next),
                        prev_state,
                        prev_reqs,
                    );
                    assert(input_step(start_state, buf@) == (self@, InputOutcome::BadHeaderBlock));
                }
                bad_block = true;
                break;
            }
            proof {
                lemma_run_frames_push(c0, buf@, prev_done, offset as nat, prev_state, prev_reqs);
                done = done.push(offset as nat);
                let out = frame_step(prev_state, header, payload@).1;
                reqs = prev_reqs + opt_seq(out);
                law_connection_window_never_shrinks(c0, buf@, done);
                assert forall|i: int| 0 <= i < reqs.len() implies (#[trigger] completed@[i]).0
                    == reqs[i].0 && completed@[i].1@ == reqs[i].1 by {
                    if i < prev_reqs.len() {
                        assert(completed@[i] == prev_completed[i]);
                    }
                }
            }
            offset = offset + total_frame_len;
        }
        if bad_block {
            return Err("malformed http/2 header block".to_owned());
        }
        proof {
            assert(done + Seq::<nat>::empty() =~= done);
            assert(frame_starts(buf@, begin) == done);
            assert(input_step(start_state, buf@) == (
                self@,
                InputOutcome::Processed(offset as nat, reqs),
            ));
        }
        Ok(Some((offset, completed)))
    }

    /// Encode an HTTP response as HTTP/2 HEADERS + DATA frames for a given stream_id
    pub fn encode_response(stream_id: u32, res: &Response) -> (out: Vec<u8>)
        ensures
            out@ == response_frames(stream_id, res@),
    {
        let mut output = Vec::new();
        let mut header_block = Vec::new();
        let status_str = string_of(decimal_chars(res.status_code as u64).as_slice());
        encode_literal_header(&mut header_block, ":status", status_str.as_str());
        if let Some(ct) = res.content_type {
            encode_literal_header(&mut header_block, "content-type", ct);
        }
        if let Some(encoding) = &res.content_encoding {
            encode_literal_header(&mut header_block, "content-encoding", encoding.as_str());
        }
        if let Some(body) = &res.body {
            let len_str = string_of(decimal_chars(body.len() as u64).as_slice());
            encode_literal_header(&mut header_block, "content-length", len_str.as_str());
        }
        assert(header_block@ =~= response_header_block(res@));
        let has_body = match &res.body {
            Some(b) => b.len() != 0,
            None => false,
        };
        let headers_flags: u8 = if has_body {
            0x4
        } else {
            0x5
        };
        write_frame_header(&mut output, header_block.len() as u32, 0x1, headers_flags, stream_id);
        append_bytes(&mut output, header_block.as_slice());
        if let Some(body) = &res.body {
            if body.len() != 0 {
                write_frame_header(&mut output, body.len() as u32, 0x0, 0x1, stream_id);
                append_bytes(&mut output, body.as_slice());
            }
        }
        assert(output@ =~= response_frames(stream_id, res@));
        output
    }

    /// Generate initial HTTP/2 SETTINGS frame response (9 bytes)
    pub fn build_settings_ack() -> (r: Vec<u8>)
        ensures
            r@ == seq![0u8, 0, 0, 0x4, 0x1, 0, 0, 0, 0],
    {
        let mut buf = Vec::with_capacity(9);
        buf.push(0);
        buf.push(0);
        buf.push(0);
        buf.push(0x4);
        buf.push(0x1);
        buf.push(0);
        buf.push(0);
        buf.push(0);
        buf.push(0);
        assert(buf@ =~= seq![0u8, 0, 0, 0x4, 0x1, 0, 0, 0, 0]);
        buf
    }
}

/// The response has a non-empty body, and so a DATA frame.
pub open spec fn has_data_frame(res: ResponseView) -> bool {
    res.body matches Some(b) && b.len() > 0
}

proof fn lemma_header_read_back(
    out: Seq<u8>,
    off: nat,
    length: u32,
    frame_type: u8,
    flags: u8,
    id: u32,
)
    requires
        length < 0x100_0000,
        id < 0x8000_0000,
        off + 9 <= out.len(),
        out.subrange(off as int, off as int + 9) == frame_header_bytes(length, frame_type, flags, id),
    ensures
        header_at(out, off) == (FrameHeader {
            length,
            frame_type: frame_type_of(frame_type),
            flags,
            stream_id: id,
        }),
{
    law_frame_header_round_trip(length, frame_type, flags, id);
    let rest = out.subrange(off as int, out.len() as int);
    let hb = frame_header_bytes(length, frame_type, flags, id);
    assert forall|i: int| 0 <= i < 9 implies rest[i] == hb[i] by {
        assert(rest[i] == out[off + i]);
        assert(out.subrange(off as int, off as int + 9)[i] == out[off + i]);
    }
}

/// The frames of an encoded response read back as written: a HEADERS frame
/// holding the header block, then, when the body is not empty, a DATA frame
/// holding the body.  The last frame ends the stream, and the frames take up
/// all the bytes.
pub proof fn law_response_frames_read_back(id: u32, res: ResponseView)
    requires
        id < 0x8000_0000,
        response_header_block(res).len() < 0x100_0000,
        res.body matches Some(b) ==> b.len() < 0x100_0000,
    ensures
        ({
            let out = response_frames(id, res);
            let block = response_header_block(res);
            &&& header_at(out, 0) == (FrameHeader {
                length: block.len() as u32,
                frame_type: FrameType::Headers,
                flags: if has_data_frame(res) {
                    4
                } else {
                    5
                },
                stream_id: id,
            })
            &&& payload_at(out, 0) == block
            &&& frames_end(out, 0) == out.len()
            &&& !has_data_frame(res) ==> frame_starts(out, 0) == seq![0nat]
            &&& has_data_frame(res) ==> {
                let at: nat = 9 + block.len();
                let b = res.body->0;
                &&& frame_starts(out, 0) == seq![0nat, at]
                &&& header_at(out, at) == (FrameHeader {
                    length: b.len() as u32,
                    frame_type: FrameType::Data,
                    flags: 1,
                    stream_id: id,
                })
                &&& payload_at(out, at) == b
            }
        }),
{
    let out = response_frames(id, res);
    let block = response_header_block(res);
    let has = has_data_frame(res);
    let fl: u8 = if has {
        4
    } else {
        5
    };
    let h1 = frame_header_bytes(block.len() as u32, 0x1, fl, id);
    let at: nat = 9 + block.len();
    assert(out.subrange(0, 9) =~= h1);
    lemma_header_read_back(out, 0, block.len() as u32, 0x1, fl, id);
    assert(payload_at(out, 0) =~= block);
    if has {
        let b = res.body->0;
        let h2 = frame_header_bytes(b.len() as u32, 0x0, 0x1, id);
        assert(out.len() == at + 9 + b.len());
        assert(out.subrange(at as int, at as int + 9) =~= h2);
        lemma_header_read_back(out, at, b.len() as u32, 0x0, 0x1, id);
        assert(payload_at(out, at) =~= b);
        let end: nat = at + 9 + b.len();
        assert(frame_starts(out, end) == Seq::<nat>::empty());
        assert(frames_end(out, end) == end);
        assert(frame_starts(out, at) == seq![at] + frame_starts(out, end));
        assert(frame_starts(out, 0) == seq![0nat] + frame_starts(out, at));
        assert(frame_starts(out, 0) =~= seq![0nat, at]);
        assert(frames_end(out, at) == end);
        assert(frames_end(out, 0) == end);
        assert(frame_type_of(0x0) == FrameType::Data);
    } else {
        assert(out.len() == at);
        assert(frame_starts(out, at) == Seq::<nat>::empty());
        assert(frame_starts(out, 0) =~= seq![0nat]);
        assert(frames_end(out, at) == at);
        assert(frames_end(out, 0) == at);
    }
    assert(frame_type_of(0x1) == FrameType::Headers);
}

/// The layout of a HEADERS frame followed by a DATA frame.
proof fn lemma_two_frames(id: u32, block: Seq<u8>, body: Seq<u8>)
    requires
        id < 0x8000_0000,
        block.len() < 0x100_0000,
        body.len() < 0x100_0000,
    ensures
        ({
            let buf = frame_header_bytes(block.len() as u32, 0x1, 0x4, id) + block
                + frame_header_bytes(body.len() as u32, 0x0, 0x1, id) + body;
            let at: nat = 9 + block.len();
            &&& frame_starts(buf, 0) == seq![0nat, at]
            &&& frames_end(buf, 0) == buf.len()
            &&& header_at(buf, 0) == (FrameHeader {
                length: block.len() as u32,
                frame_type: FrameType::Headers,
                flags: 4,
                stream_id: id,
            })
            &&& header_at(buf, at) == (FrameHeader {
                length: body.len() as u32,
                frame_type: FrameType::Data,
                flags: 1,
                stream_id: id,
            })
            &&& payload_at(buf, 0) == block
            &&& payload_at(buf, at) == body
        }),
{
    let h1 = frame_header_bytes(block.len() as u32, 0x1, 0x4, id);
    let h2 = frame_header_bytes(body.len() as u32, 0x0, 0x1, id);
    let buf = h1 + block + h2 + body;
    let at: nat = 9 + block.len();
    let end: nat = at + 9 + body.len();
    assert(buf.len() == end);
    assert(buf.subrange(0, 9) =~= h1);
    lemma_header_read_back(buf, 0, block.len() as u32, 0x1, 0x4, id);
    assert(buf.subrange(at as int, at as int + 9) =~= h2);
    lemma_header_read_back(buf, at, body.len() as u32, 0x0, 0x1, id);
    assert(frame_type_of(0x1) == FrameType::Headers);
    assert(frame_type_of(0x0) == FrameType::Data);
    assert(payload_at(buf, 0) =~= block);
    assert(payload_at(buf, at) =~= body);
    assert(frame_starts(buf, end) == Seq::<nat>::empty());
    assert(frames_end(buf, end) == end);
    assert(frame_starts(buf, at) == seq![at] + frame_starts(buf, end));
    assert(frames_end(buf, at) == end);
    assert(frame_starts(buf, 0) == seq![0nat] + frame_starts(buf, at));
    assert(frames_end(buf, 0) == end);
    let starts = seq![0nat, at];
    assert(frame_starts(buf, 0) =~= starts);
}

/// The request that a stream carries once a HEADERS frame with `block`, then
/// a DATA frame with `body` ending the stream, have arrived on a fresh stream:
/// the method, path and regular headers are those the decoder reads from the
/// block (none when it fails), and the body is `body`.
pub open spec fn request_from(table: HpackTable, block: Seq<u8>, body: Seq<u8>) -> Option<RequestView> {
    let s1 = match header_decode(table, block).0 {
        Some(fs) => apply_fields(fresh_stream(), fs),
        None => fresh_stream(),
    };
    stream_request(StreamView { body: body, end_stream: true, ..s1 })
}

/// A request sent as a HEADERS frame on a stream that is not open, then a
/// DATA frame that ends the stream, is received as the request that the
/// decoder reads from the header block, with the DATA payload as its body:
/// both frames are consumed, the stream is closed again, and the decoder
/// holds what decoding left it.
pub proof fn law_headers_then_data_is_received(
    c: ConnectionView,
    id: u32,
    block: Seq<u8>,
    body: Seq<u8>,
)
    requires
        c.preface_received,
        !c.streams.contains_key(id),
        id < 0x8000_0000,
        block.len() < 0x100_0000,
        body.len() < 0x100_0000,
        header_decode(c.hpack, block).2,
    ensures
        ({
            let buf = frame_header_bytes(block.len() as u32, 0x1, 0x4, id) + block
                + frame_header_bytes(body.len() as u32, 0x0, 0x1, id) + body;
            input_step(c, buf) == (
                ConnectionView { hpack: header_decode(c.hpack, block).1, ..c },
                InputOutcome::Processed(
                    buf.len(),
                    match request_from(c.hpack, block, body) {
                        Some(r) => seq![(id, r)],
                        None => Seq::empty(),
                    },
                ),
            )
        }),
{
    let buf = frame_header_bytes(block.len() as u32, 0x1, 0x4, id) + block
        + frame_header_bytes(body.len() as u32, 0x0, 0x1, id) + body;
    let at: nat = 9 + block.len();
    let starts = seq![0nat, at];
    lemma_two_frames(id, block, body);
    lemma_open_step(c, id, block);
    lemma_close_step(c, id, block, body);
    lemma_two_frame_input(
        c,
        buf,
        at,
        opened(c, id, block),
        ConnectionView { hpack: header_decode(c.hpack, block).1, ..c },
        match request_from(c.hpack, block, body) {
            Some(r) => Some((id, r)),
            None => None,
        },
    );
    assert(opt_seq(
        match request_from(c.hpack, block, body) {
            Some(r) => Some((id, r)),
            None => None,
        },
    ) =~= match request_from(c.hpack, block, body) {
        Some(r) => seq![(id, r)],
        None => Seq::empty(),
    });
}

/// Input of exactly two acceptable frames, at 0 and `at`, on a connection
/// past the preface.
proof fn lemma_two_frame_input(
    c: ConnectionView,
    buf: Seq<u8>,
    at: nat,
    c1: ConnectionView,
    c2: ConnectionView,
    out: Option<(u32, RequestView)>,
)
    requires
        c.preface_received,
        frame_starts(buf, 0) == seq![0nat, at],
        frames_end(buf, 0) == buf.len(),
        frame_acceptable(c, header_at(buf, 0), payload_at(buf, 0)),
        frame_acceptable(c1, header_at(buf, at), payload_at(buf, at)),
        frame_step(c, header_at(buf, 0), payload_at(buf, 0)) == (c1, None::<(u32, RequestView)>),
        frame_step(c1, header_at(buf, at), payload_at(buf, at)) == (c2, out),
    ensures
        input_step(c, buf) == (c2, InputOutcome::Processed(buf.len(), opt_seq(out))),
{
    assert((ConnectionView { preface_received: true, ..c }) == c);
    assert(seq![0nat, at].drop_last() =~= seq![0nat]);
    let one = seq![0nat];
    assert(one.drop_last() =~= Seq::<nat>::empty());
    assert(one.last() == 0);
    assert(one.len() == 1);
    assert(run_frames(c, buf, Seq::<nat>::empty()) == (c, Seq::<(u32, RequestView)>::empty(), true));
    assert(Seq::<(u32, RequestView)>::empty() + opt_seq(None::<(u32, RequestView)>)
        =~= Seq::<(u32, RequestView)>::empty());
    assert(run_frames(c, buf, one) == (c1, Seq::<(u32, RequestView)>::empty(), true));
    assert(seq![0nat, at].last() == at);
    assert(Seq::<(u32, RequestView)>::empty() + opt_seq(out) =~= opt_seq(out));
}

/// The connection once a HEADERS frame with `block`, not ending the stream,
/// has opened stream `id`.
pub open spec fn opened(c: ConnectionView, id: u32, block: Seq<u8>) -> ConnectionView {
    let (f, t, _) = header_decode(c.hpack, block);
    let s1 = match f {
        Some(fs) => apply_fields(fresh_stream(), fs),
        None => fresh_stream(),
    };
    ConnectionView {
        hpack: t,
        streams: c.streams.insert(id, StreamView { end_stream: false, ..s1 }),
        ..c
    }
}

proof fn lemma_open_step(c: ConnectionView, id: u32, block: Seq<u8>)
    requires
        !c.streams.contains_key(id),
    ensures
        frame_step(
            c,
            FrameHeader {
                length: block.len() as u32,
                frame_type: FrameType::Headers,
                flags: 4,
                stream_id: id,
            },
            block,
        ) == (opened(c, id, block), None::<(u32, RequestView)>),
{
    assert(stream_or_fresh(c, id) == fresh_stream());
}

proof fn lemma_close_step(c: ConnectionView, id: u32, block: Seq<u8>, body: Seq<u8>)
    requires
        !c.streams.contains_key(id),
    ensures
        frame_step(
            opened(c, id, block),
            FrameHeader {
                length: body.len() as u32,
                frame_type: FrameType::Data,
                flags: 1,
                stream_id: id,
            },
            body,
        ) == (
            ConnectionView { hpack: header_decode(c.hpack, block).1, ..c },
            match request_from(c.hpack, block, body) {
                Some(r) => Some((id, r)),
                None => None,
            },
        ),
{
    let f = header_decode(c.hpack, block).0;
    let c1 = opened(c, id, block);
    lemma_fields_keep_body(fresh_stream(), f);
    let s2 = c1.streams[id];
    assert(s2.body == Seq::<u8>::empty());
    assert(s2.body + body =~= body);
    assert(c1.streams.remove(id) =~= c.streams);
}

/// Header fields never touch a stream's body.
proof fn lemma_fields_keep_body(s: StreamView, f: Option<Seq<(Seq<u8>, Seq<u8>)>>)
    ensures
        f matches Some(fs) ==> apply_fields(s, fs).body == s.body,
{
    if let Some(fs) = f {
        lemma_apply_fields_body(s, fs);
    }
}

proof fn lemma_apply_fields_body(s: StreamView, fs: Seq<(Seq<u8>, Seq<u8>)>)
    ensures
        apply_fields(s, fs).body == s.body,
    decreases fs.len(),
{
    if fs.len() > 0 {
        lemma_apply_fields_body(s, fs.drop_last());
    }
}

/// The payloads `ds` one after another.
pub open spec fn flat(ds: Seq<Seq<u8>>) -> Seq<u8>
    decreases ds.len(),
{
    if ds.len() == 0 {
        Seq::empty()
    } else {
        flat(ds.drop_last()) + ds.last()
    }
}

/// The connection once a HEADERS frame with `block`, not ending the stream,
/// and DATA frames with `body` in all, not ending it either, have arrived on
/// stream `id`.
pub open spec fn stream_with(c: ConnectionView, id: u32, block: Seq<u8>, body: Seq<u8>) -> ConnectionView {
    let s = opened(c, id, block).streams[id];
    ConnectionView {
        streams: c.streams.insert(id, StreamView { body: body, ..s }),
        ..opened(c, id, block)
    }
}

/// The frames at `starts`: a HEADERS frame on stream `id` with `block`, not
/// ending the stream, then one DATA frame per payload of `ds` on the same
/// stream, only the last ending it.
pub open spec fn request_frames_at(
    buf: Seq<u8>,
    starts: Seq<nat>,
    id: u32,
    block: Seq<u8>,
    ds: Seq<Seq<u8>>,
) -> bool {
    &&& starts.len() == ds.len() + 1
    &&& header_at(buf, starts[0]).frame_type == FrameType::Headers
    &&& header_at(buf, starts[0]).stream_id == id
    &&& header_at(buf, starts[0]).flags % 2 == 0
    &&& payload_at(buf, starts[0]) == block
    &&& forall|j: int|
        1 <= j < starts.len() ==> {
            &&& (#[trigger] header_at(buf, starts[j])).frame_type == FrameType::Data
            &&& header_at(buf, starts[j]).stream_id == id
            &&& header_at(buf, starts[j]).flags % 2 == (if j == ds.len() {
                1nat
            } else {
                0nat
            })
            &&& payload_at(buf, starts[j]) == ds[j - 1]
        }
}

proof fn lemma_request_frames_prefix(
    c: ConnectionView,
    buf: Seq<u8>,
    starts: Seq<nat>,
    id: u32,
    block: Seq<u8>,
    ds: Seq<Seq<u8>>,
    j: int,
)
    requires
        !c.streams.contains_key(id),
        header_decode(c.hpack, block).2,
        request_frames_at(buf, starts, id, block, ds),
        ds.len() >= 1,
        0 <= j <= ds.len(),
    ensures
        j < ds.len() ==> run_frames(c, buf, starts.take(j + 1)) == (
            stream_with(c, id, block, flat(ds.take(j))),
            Seq::<(u32, RequestView)>::empty(),
            true,
        ),
        j == ds.len() ==> run_frames(c, buf, starts.take(j + 1)) == (
            ConnectionView { hpack: header_decode(c.hpack, block).1, ..c },
            opt_seq(
                match request_from(c.hpack, block, flat(ds)) {
                    Some(r) => Some((id, r)),
                    None => None,
                },
            ),
            true,
        ),
    decreases j,
{
    let pre = starts.take(j + 1);
    assert(pre.drop_last() =~= starts.take(j));
    assert(pre.last() == starts[j]);
    assert(pre.len() == j + 1);
    let f = header_decode(c.hpack, block).0;
    lemma_fields_keep_body(fresh_stream(), f);
    let empty_reqs = Seq::<(u32, RequestView)>::empty();
    assert(empty_reqs + opt_seq(None::<(u32, RequestView)>) =~= empty_reqs);
    let h = header_at(buf, starts[j]);
    let p = payload_at(buf, starts[j]);
    if j == 0 {
        assert(starts.take(0) =~= Seq::<nat>::empty());
        assert(run_frames(c, buf, starts.take(0)) == (c, empty_reqs, true));
        assert(ds.take(0) =~= Seq::<Seq<u8>>::empty());
        assert(flat(ds.take(0)) == Seq::<u8>::empty());
        assert(frame_acceptable(c, h, p));
        assert(stream_or_fresh(c, id) == fresh_stream());
        let c1 = opened(c, id, block);
        assert(frame_step(c, h, p) == (c1, None::<(u32, RequestView)>));
        assert(c1.streams[id].body == Seq::<u8>::empty());
        assert(c.streams.insert(id, c1.streams[id]) =~= c1.streams);
        assert(StreamView { body: Seq::<u8>::empty(), ..c1.streams[id] } == c1.streams[id]);
        assert(stream_with(c, id, block, flat(ds.take(0))) == c1);
        assert(run_frames(c, buf, pre) == (c1, empty_reqs, true));
    } else {
        lemma_request_frames_prefix(c, buf, starts, id, block, ds, j - 1);
        let body0 = flat(ds.take(j - 1));
        let st = stream_with(c, id, block, body0);
        assert(run_frames(c, buf, starts.take(j)) == (st, empty_reqs, true));
        assert(h.frame_type == FrameType::Data);
        assert(frame_acceptable(st, h, p));
        let d = ds[j - 1];
        assert(p == d);
        assert(ds.take(j).drop_last() =~= ds.take(j - 1));
        assert(ds.take(j).last() == d);
        assert(flat(ds.take(j)) == body0 + d);
        let so = opened(c, id, block).streams[id];
        assert(st.streams[id] == StreamView { body: body0, ..so });
        assert(st.streams.contains_key(id));
        let fs = frame_step(st, h, p);
        if j < ds.len() {
            assert(h.flags % 2 == 0);
            assert(st.streams.insert(id, StreamView { body: body0 + d, ..st.streams[id] })
                =~= stream_with(c, id, block, body0 + d).streams);
            assert(fs == (stream_with(c, id, block, body0 + d), None::<(u32, RequestView)>));
            assert(run_frames(c, buf, pre) == (stream_with(c, id, block, flat(ds.take(j))), empty_reqs, true));
        } else {
            assert(h.flags % 2 == 1);
            assert(ds.take(j) =~= ds);
            assert(st.streams.remove(id) =~= c.streams);
            let out = match request_from(c.hpack, block, flat(ds)) {
                Some(r) => Some((id, r)),
                None => None,
            };
            assert(fs == (ConnectionView { hpack: header_decode(c.hpack, block).1, ..c }, out));
            assert(run_frames(c, buf, pre) == (
                ConnectionView { hpack: header_decode(c.hpack, block).1, ..c },
                empty_reqs + opt_seq(out),
                true,
            ));
            assert(empty_reqs + opt_seq(out) =~= opt_seq(out));
        }
    }
}

/// A request sent as a HEADERS frame on a stream that is not open, then DATA
/// frames on that stream of which only the last ends it, is received as the
/// request that the decoder reads from the header block, with the DATA
/// payloads one after another as its body: all the frames are consumed, the
/// stream is closed again, and the decoder holds what decoding left it.
pub proof fn law_request_over_data_frames(
    c: ConnectionView,
    buf: Seq<u8>,
    starts: Seq<nat>,
    id: u32,
    block: Seq<u8>,
    ds: Seq<Seq<u8>>,
)
    requires
        c.preface_received,
        !c.streams.contains_key(id),
        header_decode(c.hpack, block).2,
        ds.len() >= 1,
        frame_starts(buf, 0) == starts,
        frames_end(buf, 0) == buf.len(),
        request_frames_at(buf, starts, id, block, ds),
    ensures
        input_step(c, buf) == (
            ConnectionView { hpack: header_decode(c.hpack, block).1, ..c },
            InputOutcome::Processed(
                buf.len(),
                match request_from(c.hpack, block, flat(ds)) {
                    Some(r) => seq![(id, r)],
                    None => Seq::empty(),
                },
            ),
        ),
{
    lemma_request_frames_prefix(c, buf, starts, id, block, ds, ds.len() as int);
    assert(starts.take(ds.len() as int + 1) =~= starts);
    assert((ConnectionView { preface_received: true, ..c }) == c);
    assert(opt_seq(
        match request_from(c.hpack, block, flat(ds)) {
            Some(r) => Some((id, r)),
            None => None,
        },
    ) =~= match request_from(c.hpack, block, flat(ds)) {
        Some(r) => seq![(id, r)],
        None => Seq::empty(),
    });
}


/// What the decoder holds after decoding `blocks` one after another,
/// starting from `t`.
pub open spec fn table_after(t: HpackTable, blocks: Seq<Seq<u8>>) -> HpackTable
    decreases blocks.len(),
{
    if blocks.len() == 0 {
        t
    } else {
        header_decode(table_after(t, blocks.drop_last()), blocks.last()).1
    }
}

/// The frames at `starts` are HEADERS frames that end their streams: the
/// `i`-th on stream `ids[i]` with block `blocks[i]`.
pub open spec fn ending_headers_at(
    buf: Seq<u8>,
    starts: Seq<nat>,
    ids: Seq<u32>,
    blocks: Seq<Seq<u8>>,
) -> bool {
    &&& starts.len() == blocks.len()
    &&& ids.len() == blocks.len()
    &&& forall|i: int|
        0 <= i < starts.len() ==> {
            &&& (#[trigger] header_at(buf, starts[i])).frame_type == FrameType::Headers
            &&& header_at(buf, starts[i]).flags % 2 == 1
            &&& header_at(buf, starts[i]).stream_id == ids[i]
            &&& payload_at(buf, starts[i]) == blocks[i]
        }
}

proof fn lemma_ending_headers_prefix(
    c0: ConnectionView,
    buf: Seq<u8>,
    starts: Seq<nat>,
    ids: Seq<u32>,
    blocks: Seq<Seq<u8>>,
    j: int,
)
    requires
        ending_headers_at(buf, starts, ids, blocks),
        forall|i: int| 0 <= i < ids.len() ==> !c0.streams.contains_key(#[trigger] ids[i]),
        forall|i: int|
            0 <= i < blocks.len() ==> header_decode(
                table_after(c0.hpack, blocks.take(i)),
                #[trigger] blocks[i],
            ).2,
        0 <= j <= blocks.len(),
    ensures
        ({
            let (cj, reqs, ok) = run_frames(c0, buf, starts.take(j));
            &&& ok
            &&& cj == (ConnectionView { hpack: table_after(c0.hpack, blocks.take(j)), ..c0 })
            &&& reqs.len() <= j
            &&& (forall|i: int|
                0 <= i < j ==> (#[trigger] request_from(
                    table_after(c0.hpack, blocks.take(i)),
                    blocks[i],
                    Seq::empty(),
                )) is Some)
                ==> reqs.len() == j && forall|i: int|
                0 <= i < j ==> #[trigger] reqs[i] == (
                    ids[i],
                    request_from(table_after(c0.hpack, blocks.take(i)), blocks[i], Seq::empty())->0,
                )
        }),
    decreases j,
{
    if j == 0 {
        assert(starts.take(0) =~= Seq::<nat>::empty());
        assert(blocks.take(0) =~= Seq::<Seq<u8>>::empty());
        assert((ConnectionView { hpack: c0.hpack, ..c0 }) == c0);
    } else {
        let k = j - 1;
        lemma_ending_headers_prefix(c0, buf, starts, ids, blocks, k);
        let (ck, reqs, ok) = run_frames(c0, buf, starts.take(k));
        assert(starts.take(j) =~= starts.take(k).push(starts[k]));
        let off = starts[k];
        let h = header_at(buf, off);
        let p = payload_at(buf, off);
        assert(h.frame_type == FrameType::Headers && h.flags % 2 == 1 && h.stream_id == ids[k]
            && p == blocks[k]);
        let t = table_after(c0.hpack, blocks.take(k));
        assert(header_decode(t, blocks[k]).2);
        lemma_run_frames_push(c0, buf, starts.take(k), off, ck, reqs);
        let id = ids[k];
        assert(!c0.streams.contains_key(id));
        assert(stream_or_fresh(ck, id) == fresh_stream());
        let f = header_decode(t, blocks[k]).0;
        lemma_fields_keep_body(fresh_stream(), f);
        let s1 = match f {
            Some(fs) => apply_fields(fresh_stream(), fs),
            None => fresh_stream(),
        };
        assert(s1.body == Seq::<u8>::empty());
        assert((StreamView { body: Seq::<u8>::empty(), end_stream: true, ..s1 }) == (StreamView {
            end_stream: true,
            ..s1
        }));
        assert(blocks.take(j).drop_last() =~= blocks.take(k));
        assert(blocks.take(j).last() == blocks[k]);
        assert(table_after(c0.hpack, blocks.take(j)) == header_decode(t, blocks[k]).1);
        assert(ck.streams.remove(id) =~= c0.streams);
        let (c2, out) = frame_step(ck, h, p);
        assert(c2 == (ConnectionView { hpack: table_after(c0.hpack, blocks.take(j)), ..c0 }));
        let rq = request_from(t, blocks[k], Seq::empty());
        assert(out == match rq {
            Some(r) => Some((id, r)),
            None => None::<(u32, RequestView)>,
        });
        let reqs2 = reqs + opt_seq(out);
        if forall|i: int|
            0 <= i < j ==> (#[trigger] request_from(
                table_after(c0.hpack, blocks.take(i)),
                blocks[i],
                Seq::empty(),
            )) is Some {
            assert(forall|i: int|
                0 <= i < k ==> (#[trigger] request_from(
                    table_after(c0.hpack, blocks.take(i)),
                    blocks[i],
                    Seq::empty(),
                )) is Some);
            assert(rq is Some);
            assert(reqs2 =~= reqs.push((id, rq->0)));
        }
    }
}

/// Every stream that the input ends, with a method and a path, yields its
/// request: for input whose complete frames are HEADERS frames ending
/// streams that are not open (the `i`-th on stream `ids[i]` with header
/// block `blocks[i]`, which the decoder takes from what the earlier blocks
/// left it, and from which it reads a method and a path), all the bytes are
/// consumed and exactly one request per frame comes back, in frame order,
/// each on its frame's stream and read from its frame's block.
pub proof fn law_every_ended_stream_yields_its_request(
    c: ConnectionView,
    buf: Seq<u8>,
    starts: Seq<nat>,
    ids: Seq<u32>,
    blocks: Seq<Seq<u8>>,
)
    requires
        c.preface_received || (buf.len() >= 24 && starts_with(buf, HTTP2_PREFACE@)),
        frame_starts(buf, frames_begin(c)) == starts,
        frames_end(buf, frames_begin(c)) == buf.len(),
        ending_headers_at(buf, starts, ids, blocks),
        forall|i: int| 0 <= i < ids.len() ==> !c.streams.contains_key(#[trigger] ids[i]),
        forall|i: int|
            0 <= i < blocks.len() ==> header_decode(
                table_after(c.hpack, blocks.take(i)),
                #[trigger] blocks[i],
            ).2,
        forall|i: int|
            0 <= i < blocks.len() ==> (#[trigger] request_from(
                table_after(c.hpack, blocks.take(i)),
                blocks[i],
                Seq::empty(),
            )) is Some,
    ensures
        ({
            let (c2, outcome) = input_step(c, buf);
            &&& c2 == (ConnectionView {
                preface_received: true,
                hpack: table_after(c.hpack, blocks),
                ..c
            })
            &&& outcome matches InputOutcome::Processed(n, reqs) && n == buf.len() && reqs.len()
                == blocks.len() && forall|i: int|
                0 <= i < blocks.len() ==> #[trigger] reqs[i] == (
                    ids[i],
                    request_from(table_after(c.hpack, blocks.take(i)), blocks[i], Seq::empty())->0,
                )
        }),
{
    let c0 = ConnectionView { preface_received: true, ..c };
    lemma_ending_headers_prefix(c0, buf, starts, ids, blocks, blocks.len() as int);
    assert(starts.take(blocks.len() as int) =~= starts);
    assert(blocks.take(blocks.len() as int) =~= blocks);
}

} // verus!
