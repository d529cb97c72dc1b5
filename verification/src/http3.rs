//! The experimental HTTP/3-style path over UDP: QUIC packet headers, a
//! one-datagram request framing with QPACK-style literal fields, and response
//! encoding.
use std::collections::HashMap;

use vstd::prelude::*;
use vstd::utf8::*;

use crate::request::{method_from_token, Method, MethodView, Request, RequestView};
use crate::response::{Response, ResponseView};
use crate::string_map::StringMap;
use crate::text::{
    append_bytes, chars_of, decimal, decimal_chars, lemma_decimal_encoded_len, lemma_encode_len_bound, str_eq, string_of,
    lossy_text, ten_to,
    utf8_lossy_string,
};

verus! {

/// Header flags for QUIC Packets (RFC 9000)
pub const QUIC_HEADER_FORM_MASK: u8 = 0x80;

pub const QUIC_FIXED_BIT: u8 = 0x40;

#[derive(Debug, Clone, Copy, PartialEq, Eq, Structural)]
pub enum QuicPacketType {
    Initial,
    Handshake,
    Short,
    Unknown,
}

#[derive(Debug, Clone)]
pub struct QuicPacketHeader {
    pub packet_type: QuicPacketType,
    pub dcid: Vec<u8>,
    pub scid: Vec<u8>,
    pub payload_offset: usize,
}

pub ghost struct QuicHeaderView {
    pub packet_type: QuicPacketType,
    pub dcid: Seq<u8>,
    pub scid: Seq<u8>,
    pub payload_offset: nat,
}

impl View for QuicPacketHeader {
    type V = QuicHeaderView;

    open spec fn view(&self) -> QuicHeaderView {
        QuicHeaderView {
            packet_type: self.packet_type,
            dcid: self.dcid@,
            scid: self.scid@,
            payload_offset: self.payload_offset as nat,
        }
    }
}

/// The packet type in bits 4 and 5 of a long header's first byte.
pub open spec fn long_packet_type(first: u8) -> QuicPacketType {
    let bits = (first / 16) % 4;
    if bits == 0 {
        QuicPacketType::Initial
    } else if bits == 2 {
        QuicPacketType::Handshake
    } else {
        QuicPacketType::Unknown
    }
}

/// The header of a datagram.  A long header (high bit set) needs twelve
/// bytes; its destination connection id has the length in byte 5 and
/// follows it, and the source id follows with its own length byte.  A short
/// header takes up to eight bytes after the first as destination id.
pub open spec fn quic_header(buf: Seq<u8>) -> Option<QuicHeaderView> {
    if buf.len() == 0 {
        None
    } else if buf[0] >= 0x80 {
        let dcid_len = buf[5] as int;
        let scid_len_offset = 6 + dcid_len;
        if buf.len() < 12 {
            None
        } else if buf.len() < scid_len_offset + 1 {
            None
        } else {
            let scid_len = buf[scid_len_offset] as int;
            if buf.len() < scid_len_offset + 1 + scid_len {
                None
            } else {
                Some(
                    QuicHeaderView {
                        packet_type: long_packet_type(buf[0]),
                        dcid: buf.subrange(6, scid_len_offset),
                        scid: buf.subrange(
                            scid_len_offset + 1,
                            scid_len_offset + 1 + scid_len,
                        ),
                        payload_offset: (scid_len_offset + 1 + scid_len) as nat,
                    },
                )
            }
        }
    } else {
        let end: int = if buf.len() < 9 {
            buf.len() as int
        } else {
            9
        };
        Some(
            QuicHeaderView {
                packet_type: QuicPacketType::Short,
                dcid: buf.subrange(1, end),
                scid: Seq::empty(),
                payload_offset: end as nat,
            },
        )
    }
}

/// A parsed header lies within the datagram: the payload starts no later
/// than the datagram's end, right after the connection ids, and a short
/// header's destination id has at most eight bytes.
pub proof fn law_quic_header_within_datagram(buf: Seq<u8>)
    ensures
        quic_header(buf) matches Some(h) ==> {
            &&& h.payload_offset <= buf.len()
            &&& h.packet_type is Short ==> h.dcid.len() <= 8 && h.payload_offset == 1
                + h.dcid.len()
            &&& !(h.packet_type is Short) ==> h.payload_offset == 7 + h.dcid.len() + h.scid.len()
        },
{
}

fn copy_range(buf: &[u8], from: usize, to: usize) -> (v: Vec<u8>)
    requires
        from <= to <= buf@.len(),
    ensures
        v@ == buf@.subrange(from as int, to as int),
{
    vstd::slice::slice_to_vec(vstd::slice::slice_subrange(buf, from, to))
}

impl QuicPacketHeader {
    pub fn parse(buf: &[u8]) -> (r: Option<Self>)
        ensures
            match quic_header(buf@) {
                Some(h) => r matches Some(x) && x@ == h,
                None => r is None,
            },
    {
        if buf.len() == 0 {
            return None;
        }
        let first_byte = buf[0];
        let is_long_header = (first_byte & QUIC_HEADER_FORM_MASK) != 0;
        assert((first_byte & 0x80) != 0 <==> first_byte >= 0x80) by (bit_vector);
        if is_long_header {
            if buf.len() < 12 {
                return None;
            }
            let bits = (first_byte >> 4) & 0x03;
            assert((first_byte >> 4) & 0x03 == (first_byte / 16) % 4) by (bit_vector);
            let packet_type = match bits {
                0x00 => QuicPacketType::Initial,
                0x02 => QuicPacketType::Handshake,
                _ => QuicPacketType::Unknown,
            };
            let dcid_len = buf[5] as usize;
            if buf.len() < 6 + dcid_len + 1 {
                return None;
            }
            let dcid = copy_range(buf, 6, 6 + dcid_len);
            let scid_len_offset = 6 + dcid_len;
            let scid_len = buf[scid_len_offset] as usize;
            if buf.len() < scid_len_offset + 1 + scid_len {
                return None;
            }
            let scid = copy_range(buf, scid_len_offset + 1, scid_len_offset + 1 + scid_len);
            let payload_offset = scid_len_offset + 1 + scid_len;
            Some(Self { packet_type, dcid, scid, payload_offset })
        } else {
            let end = if 9 < buf.len() {
                9
            } else {
                buf.len()
            };
            let dcid = copy_range(buf, 1, end);
            let dcid_len = dcid.len();
            Some(Self { packet_type: QuicPacketType::Short, dcid, scid: Vec::new(), payload_offset: 1 + dcid_len })
        }
    }
}

#[derive(Debug)]
pub struct Http3StreamBuilder {
    pub headers: StringMap,
    pub method: Option<Method>,
    pub path: Option<String>,
    pub body: Vec<u8>,
}

/// What a stream has received so far.
pub ghost struct StreamView {
    pub headers: Map<Seq<char>, Seq<char>>,
    pub method: Option<MethodView>,
    pub path: Option<Seq<char>>,
    pub body: Seq<u8>,
}

impl View for Http3StreamBuilder {
    type V = StreamView;

    open spec fn view(&self) -> StreamView {
        StreamView {
            headers: self.headers@,
            method: match self.method {
                Some(m) => Some(m@),
                None => None,
            },
            path: match self.path {
                Some(p) => Some(p@),
                None => None,
            },
            body: self.body@,
        }
    }
}

pub open spec fn empty_stream() -> StreamView {
    StreamView { headers: Map::empty(), method: None, path: None, body: Seq::empty() }
}

impl Default for Http3StreamBuilder {
    fn default() -> (b: Self)
        ensures
            b@ == empty_stream(),
    {
        Http3StreamBuilder {
            headers: StringMap::new(),
            method: None,
            path: None,
            body: Vec::new(),
        }
    }
}

/// The effect of one decoded field: `:method` and `:path` set the method and
/// path, other pseudo-headers are ignored, regular headers are recorded.
pub open spec fn apply_field(s: StreamView, name: Seq<char>, value: Seq<char>) -> StreamView {
    if name == ":method"@ {
        StreamView { method: Some(method_from_token(value)), ..s }
    } else if name == ":path"@ {
        StreamView { path: Some(value), ..s }
    } else if !(name.len() > 0 && name[0] == ':') {
        StreamView { headers: s.headers.insert(name, value), ..s }
    } else {
        s
    }
}

/// Reading literal fields from position `i` of a HEADERS payload: at a zero
/// byte, a name and a value each follow after a one-byte length (read as
/// lossy UTF-8); any other byte is skipped.  Reading stops at a field that
/// is cut short.
pub open spec fn qpack_fields(s: StreamView, p: Seq<u8>, i: int) -> StreamView
    decreases p.len() - i,
{
    if i < 0 || i >= p.len() {
        s
    } else if p[i] != 0 {
        qpack_fields(s, p, i + 1)
    } else if i + 1 >= p.len() {
        s
    } else {
        let name_len = p[i + 1] as int;
        let name_start = i + 2;
        if name_start + name_len > p.len() {
            s
        } else if name_start + name_len >= p.len() {
            s
        } else {
            let value_len = p[name_start + name_len] as int;
            let value_start = name_start + name_len + 1;
            if value_start + value_len > p.len() {
                s
            } else {
                let name = lossy_text(p.subrange(name_start, name_start + name_len));
                let value = lossy_text(p.subrange(value_start, value_start + value_len));
                qpack_fields(apply_field(s, name, value), p, value_start + value_len)
            }
        }
    }
}

fn apply_one_field(builder: &mut Http3StreamBuilder, name: String, value: String)
    ensures
        final(builder)@ == apply_field(old(builder)@, name@, value@),
{
    if str_eq(name.as_str(), ":method") {
        builder.method = Some(Method::from_str(value.as_str()));
    } else if str_eq(name.as_str(), ":path") {
        builder.path = Some(value);
    } else {
        let nc = chars_of(name.as_str());
        let pseudo = nc.len() > 0 && nc[0] == ':';
        if !pseudo {
            builder.headers.insert(name, value);
        }
    }
}

/// Reads the literal fields of a HEADERS payload into `builder`.
pub fn parse_qpack_headers(payload: &[u8], builder: &mut Http3StreamBuilder)
    ensures
        final(builder)@ == qpack_fields(old(builder)@, payload@, 0),
{
    let ghost target = qpack_fields(builder@, payload@, 0);
    let mut i: usize = 0;
    while i < payload.len()
        invariant_except_break
            i <= payload@.len(),
            qpack_fields(builder@, payload@, i as int) == target,
        ensures
            builder@ == target,
        decreases payload@.len() - i,
    {
        if payload[i] == 0x00 {
            i += 1;
            if i >= payload.len() {
                break;
            }
            let name_len = payload[i] as usize;
            i += 1;
            if name_len > payload.len() - i {
                break;
            }
            let name = utf8_lossy_string(vstd::slice::slice_subrange(payload, i, i + name_len));
            i += name_len;
            if i >= payload.len() {
                break;
            }
            let val_len = payload[i] as usize;
            i += 1;
            if val_len > payload.len() - i {
                break;
            }
            let val = utf8_lossy_string(vstd::slice::slice_subrange(payload, i, i + val_len));
            i += val_len;
            apply_one_field(builder, name, val);
        } else {
            i += 1;
        }
    }
}

/// Reading the frames of a datagram payload from position `off`: each is a
/// type byte, a one-byte length and that many bytes.  HEADERS (type 1) are
/// read as literal fields, DATA (type 0) appended to the body, others
/// skipped; reading stops at a frame that is cut short.
pub open spec fn datagram_frames(s: StreamView, p: Seq<u8>, off: int) -> StreamView
    decreases p.len() - off,
{
    if off < 0 || off >= p.len() || off + 1 >= p.len() {
        s
    } else {
        let len = p[off + 1] as int;
        let start = off + 2;
        if start + len > p.len() {
            s
        } else {
            let fp = p.subrange(start, start + len);
            let s2 = if p[off] == 0x01 {
                qpack_fields(s, fp, 0)
            } else if p[off] == 0x00 {
                StreamView { body: s.body + fp, ..s }
            } else {
                s
            };
            datagram_frames(s2, p, start + len)
        }
    }
}

/// The request a stream carries, if it named a method and a path.
pub open spec fn stream_request(s: StreamView) -> Option<RequestView> {
    match (s.method, s.path) {
        (Some(m), Some(p)) => Some(
            RequestView {
                method: m,
                path: p,
                version: "HTTP/3"@,
                headers: s.headers,
                body: if s.body.len() == 0 {
                    None
                } else {
                    Some(s.body)
                },
            },
        ),
        _ => None,
    }
}

pub struct Http3Connection<A> {
    pub peer_addr: A,
    pub active_streams: HashMap<u64, Http3StreamBuilder>,
}

pub open spec fn builders_view(m: Map<u64, Http3StreamBuilder>) -> Map<u64, StreamView> {
    m.map_values(|b: Http3StreamBuilder| b@)
}

/// What a datagram does to the open streams, and the requests it yields.
/// Everything arrives on stream 0: a datagram with a header and a non-empty
/// payload takes stream 0 out of the table, reads its frames into it, and
/// yields its request if complete.
pub open spec fn datagram_step(streams: Map<u64, StreamView>, datagram: Seq<u8>) -> (
    Map<u64, StreamView>,
    Seq<(u64, RequestView)>,
) {
    match quic_header(datagram) {
        None => (streams, Seq::empty()),
        Some(h) => {
            let payload = datagram.subrange(h.payload_offset as int, datagram.len() as int);
            if payload.len() == 0 {
                (streams, Seq::empty())
            } else {
                let s0 = if streams.contains_key(0) {
                    streams[0]
                } else {
                    empty_stream()
                };
                let s = datagram_frames(s0, payload, 0);
                (
                    streams.remove(0),
                    match stream_request(s) {
                        Some(r) => seq![(0u64, r)],
                        None => Seq::empty(),
                    },
                )
            }
        },
    }
}

impl<A> Http3Connection<A> {
    pub fn new(peer_addr: A) -> (c: Self)
        ensures
            c.peer_addr == peer_addr,
            c.active_streams@ == Map::<u64, Http3StreamBuilder>::empty(),
    {
        Self { peer_addr, active_streams: HashMap::new() }
    }

    fn finish(builder: Http3StreamBuilder) -> (r: Option<Request>)
        ensures
            match stream_request(builder@) {
                Some(req) => r matches Some(q) && q@ == req,
                None => r is None,
            },
    {
        let Http3StreamBuilder { headers, method, path, body } = builder;
        match (method, path) {
            (Some(method), Some(path)) => {
                let body = if body.len() == 0 {
                    None
                } else {
                    Some(body)
                };
                Some(Request { method, path, version: "HTTP/3".to_owned(), headers, body })
            },
            _ => None,
        }
    }

    /// Process incoming HTTP/3 datagram over UDP.
    /// Returns `Ok(Some(requests))` if valid HTTP/3 request frames are extracted.
    pub fn process_datagram(&mut self, datagram: &[u8]) -> (r: Result<Vec<(u64, Request)>, String>)
        ensures
            ({
                let (streams, reqs) = datagram_step(
                    builders_view(old(self).active_streams@),
                    datagram@,
                );
                &&& builders_view(final(self).active_streams@) == streams
                &&& final(self).peer_addr == old(self).peer_addr
                &&& r matches Ok(v) && v@.len() == reqs.len() && forall|i: int|
                    0 <= i < reqs.len() ==> (#[trigger] v@[i]).0 == reqs[i].0 && v@[i].1@
                        == reqs[i].1
            }),
    {
        let ghost old_streams = builders_view(self.active_streams@);
        let mut requests: Vec<(u64, Request)> = Vec::new();
        let header = match QuicPacketHeader::parse(datagram) {
            Some(h) => h,
            None => return Ok(requests),
        };
        let payload = vstd::slice::slice_subrange(datagram, header.payload_offset, datagram.len());
        if payload.len() == 0 {
            return Ok(requests);
        }
        let stream_id = 0u64;
        let mut builder = match self.active_streams.remove(&stream_id) {
            Some(b) => b,
            None => Http3StreamBuilder::default(),
        };
        proof {
            assert(builders_view(self.active_streams@) =~= old_streams.remove(0));
        }
        let ghost target = datagram_frames(builder@, payload@, 0);
        let mut offset: usize = 0;
        while offset < payload.len()
            invariant_except_break
                offset <= payload@.len(),
                datagram_frames(builder@, payload@, offset as int) == target,
            ensures
                builder@ == target,
            decreases payload@.len() - offset,
        {
            let frame_type = payload[offset];
            offset += 1;
            if offset >= payload.len() {
                break;
            }
            let len = payload[offset] as usize;
            offset += 1;
            if len > payload.len() - offset {
                break;
            }
            let frame_payload = vstd::slice::slice_subrange(payload, offset, offset + len);
            offset += len;
            if frame_type == 0x01 {
                parse_qpack_headers(frame_payload, &mut builder);
            } else if frame_type == 0x00 {
                append_bytes(&mut builder.body, frame_payload);
            }
        }
        if let Some(req) = Self::finish(builder) {
            requests.push((stream_id, req));
        }
        Ok(requests)
    }

    /// Encode an HTTP response as an HTTP/3 UDP Datagram payload
    pub fn encode_response(stream_id: u64, res: &Response) -> (out: Vec<u8>)
        ensures
            out@ == response_datagram(stream_id, res@),
    {
        let mut datagram = Vec::new();
        datagram.push(0x40);
        datagram.push((stream_id % 256) as u8);
        let mut header_block = Vec::new();
        let status_str = string_of(decimal_chars(res.status_code as u64).as_slice());
        encode_qpack_field(&mut header_block, ":status", status_str.as_str());
        if let Some(ct) = res.content_type {
            encode_qpack_field(&mut header_block, "content-type", ct);
        }
        if let Some(encoding) = &res.content_encoding {
            encode_qpack_field(&mut header_block, "content-encoding", encoding.as_str());
        }
        if let Some(body) = &res.body {
            let len_str = string_of(decimal_chars(body.len() as u64).as_slice());
            encode_qpack_field(&mut header_block, "content-length", len_str.as_str());
        }
        assert(header_block@ =~= qpack_header_block(res@));
        datagram.push(0x01);
        datagram.push((header_block.len() % 256) as u8);
        append_bytes(&mut datagram, header_block.as_slice());
        if let Some(body) = &res.body {
            if body.len() != 0 {
                datagram.push(0x00);
                datagram.push((body.len() % 256) as u8);
                append_bytes(&mut datagram, body.as_slice());
            }
        }
        assert(datagram@ =~= response_datagram(stream_id, res@));
        datagram
    }
}

/// One field as a literal: a zero byte, then name and value, each after a
/// one-byte length (the low eight bits of the byte length).
pub open spec fn qpack_field(name: Seq<char>, value: Seq<char>) -> Seq<u8> {
    let n = encode_utf8(name);
    let v = encode_utf8(value);
    seq![0u8, (n.len() % 256) as u8] + n + seq![(v.len() % 256) as u8] + v
}

pub fn encode_qpack_field(out: &mut Vec<u8>, name: &str, value: &str)
    ensures
        final(out)@ == old(out)@ + qpack_field(name@, value@),
{
    let ghost start = out@;
    let nb = name.as_bytes();
    let vb = value.as_bytes();
    out.push(0x00);
    out.push((nb.len() % 256) as u8);
    append_bytes(out, nb);
    out.push((vb.len() % 256) as u8);
    append_bytes(out, vb);
    assert(out@ =~= start + qpack_field(name@, value@));
}

/// The header block of a response: `:status`, then `content-type`,
/// `content-encoding` and `content-length` where the response has them.
pub open spec fn qpack_header_block(res: ResponseView) -> Seq<u8> {
    qpack_field(":status"@, decimal(res.status_code as nat)) + match res.content_type {
        Some(t) => qpack_field("content-type"@, t),
        None => Seq::empty(),
    } + match res.content_encoding {
        Some(e) => qpack_field("content-encoding"@, e),
        None => Seq::empty(),
    } + match res.body {
        Some(b) => qpack_field("content-length"@, decimal(b.len())),
        None => Seq::empty(),
    }
}

/// A response datagram: a short-header prefix with the low byte of the
/// stream id, a HEADERS frame, and a DATA frame when the body is not empty.
/// Frame lengths are the low eight bits of the lengths.
pub open spec fn response_datagram(stream_id: u64, res: ResponseView) -> Seq<u8> {
    let block = qpack_header_block(res);
    seq![0x40u8, (stream_id % 256) as u8, 0x01u8, (block.len() % 256) as u8] + block + match res.body {
        Some(b) => if b.len() > 0 {
            seq![0x00u8, (b.len() % 256) as u8] + b
        } else {
            Seq::empty()
        },
        None => Seq::empty(),
    }
}

/// Reading fields after a prefix is reading them in what follows it.
proof fn lemma_qpack_shift(s: StreamView, pre: Seq<u8>, rest: Seq<u8>, j: int)
    requires
        0 <= j,
    ensures
        qpack_fields(s, pre + rest, pre.len() + j) == qpack_fields(s, rest, j),
    decreases rest.len() - j,
{
    let p = pre + rest;
    let i = pre.len() + j;
    if j < rest.len() {
        assert(p[i] == rest[j]);
        if rest[j] != 0 {
            lemma_qpack_shift(s, pre, rest, j + 1);
        } else if j + 1 < rest.len() {
            assert(p[i + 1] == rest[j + 1]);
            let nl = rest[j + 1] as int;
            let ns = j + 2;
            if ns + nl < rest.len() {
                assert(p[i + 2 + nl] == rest[ns + nl]);
                let vl = rest[ns + nl] as int;
                let vs = ns + nl + 1;
                if vs + vl <= rest.len() {
                    assert(p.subrange(i + 2, i + 2 + nl) =~= rest.subrange(ns, ns + nl));
                    assert(p.subrange(pre.len() + vs, pre.len() + vs + vl) =~= rest.subrange(
                        vs,
                        vs + vl,
                    ));
                    let name = lossy_text(rest.subrange(ns, ns + nl));
                    let value = lossy_text(rest.subrange(vs, vs + vl));
                    lemma_qpack_shift(apply_field(s, name, value), pre, rest, vs + vl);
                }
            }
        }
    }
}

/// A field that the encoder writes is read as that field, whatever follows.
proof fn lemma_qpack_field_then(s: StreamView, name: Seq<char>, value: Seq<char>, rest: Seq<u8>)
    requires
        encode_utf8(name).len() < 256,
        encode_utf8(value).len() < 256,
    ensures
        qpack_fields(s, qpack_field(name, value) + rest, 0) == qpack_fields(
            apply_field(s, name, value),
            rest,
            0,
        ),
{
    let f = qpack_field(name, value);
    let p = f + rest;
    let n = encode_utf8(name);
    let v = encode_utf8(value);
    let nl = n.len() as int;
    let vl = v.len() as int;
    assert(p[0] == 0);
    assert(p[1] == nl);
    assert(p.subrange(2, 2 + nl) =~= n);
    assert(p[2 + nl] == vl);
    assert(p.subrange(2 + nl + 1, 2 + nl + 1 + vl) =~= v);
    vstd::utf8::encode_utf8_valid_utf8(name);
    vstd::utf8::encode_utf8_valid_utf8(value);
    vstd::utf8::encode_utf8_decode_utf8(name);
    vstd::utf8::encode_utf8_decode_utf8(value);
    assert(qpack_fields(s, p, 0) == qpack_fields(apply_field(s, name, value), p, f.len() as int));
    lemma_qpack_shift(apply_field(s, name, value), f, rest, 0);
}

/// A field that the encoder writes is read back as that header, for a
/// regular (non-pseudo) header whose name and value are shorter than 256
/// bytes.
pub proof fn law_qpack_field_round_trip(s: StreamView, name: Seq<char>, value: Seq<char>)
    requires
        encode_utf8(name).len() < 256,
        encode_utf8(value).len() < 256,
        name.len() > 0,
        name[0] != ':',
    ensures
        qpack_fields(s, qpack_field(name, value), 0) == (StreamView {
            headers: s.headers.insert(name, value),
            ..s
        }),
{
    lemma_qpack_field_then(s, name, value, Seq::empty());
    assert(qpack_field(name, value) + Seq::<u8>::empty() =~= qpack_field(name, value));
    assert(name != ":method"@ && name != ":path"@) by {
        reveal_strlit(":method");
        reveal_strlit(":path");
    }
}

/// The fields `fs`, in order, as the encoder writes them one after another.
pub open spec fn qpack_fields_block(fs: Seq<(Seq<char>, Seq<char>)>) -> Seq<u8>
    decreases fs.len(),
{
    if fs.len() == 0 {
        Seq::empty()
    } else {
        qpack_field(fs[0].0, fs[0].1) + qpack_fields_block(fs.drop_first())
    }
}

/// The fields `fs` applied to a stream in order (see `apply_field`).
pub open spec fn apply_all_fields(s: StreamView, fs: Seq<(Seq<char>, Seq<char>)>) -> StreamView
    decreases fs.len(),
{
    if fs.len() == 0 {
        s
    } else {
        apply_all_fields(apply_field(s, fs[0].0, fs[0].1), fs.drop_first())
    }
}

/// Fields that the encoder writes one after another are read back in order:
/// the last `:method` and `:path` set the method and path, other
/// pseudo-headers are passed over, and regular headers are recorded (a later
/// one replacing an earlier of the same name), for names and values shorter
/// than 256 bytes.
pub proof fn law_qpack_fields_round_trip(s: StreamView, fs: Seq<(Seq<char>, Seq<char>)>)
    requires
        forall|i: int|
            0 <= i < fs.len() ==> encode_utf8((#[trigger] fs[i]).0).len() < 256 && encode_utf8(
                fs[i].1,
            ).len() < 256,
    ensures
        qpack_fields(s, qpack_fields_block(fs), 0) == apply_all_fields(s, fs),
    decreases fs.len(),
{
    if fs.len() == 0 {
        assert(qpack_fields_block(fs) =~= Seq::<u8>::empty());
    } else {
        let rest = fs.drop_first();
        assert(encode_utf8(fs[0].0).len() < 256 && encode_utf8(fs[0].1).len() < 256);
        assert forall|i: int| 0 <= i < rest.len() implies encode_utf8((#[trigger] rest[i]).0).len()
            < 256 && encode_utf8(rest[i].1).len() < 256 by {
            assert(rest[i] == fs[i + 1]);
        }
        lemma_qpack_field_then(s, fs[0].0, fs[0].1, qpack_fields_block(rest));
        law_qpack_fields_round_trip(apply_field(s, fs[0].0, fs[0].1), rest);
    }
}

/// The headers that a response's header block reads back as, over `h`:
/// `content-type`, `content-encoding` and `content-length` where the response
/// has them.  `:status` is a pseudo-header, which a reader passes over.
pub open spec fn block_headers(h: Map<Seq<char>, Seq<char>>, res: ResponseView) -> Map<
    Seq<char>,
    Seq<char>,
> {
    let h1 = match res.content_type {
        Some(t) => h.insert("content-type"@, t),
        None => h,
    };
    let h2 = match res.content_encoding {
        Some(e) => h1.insert("content-encoding"@, e),
        None => h1,
    };
    match res.body {
        Some(b) => h2.insert("content-length"@, decimal(b.len())),
        None => h2,
    }
}

/// The optional part of a header block: a field, or nothing.
spec fn opt_field(name: Seq<char>, value: Option<Seq<char>>) -> Seq<u8> {
    match value {
        Some(v) => qpack_field(name, v),
        None => Seq::empty(),
    }
}

spec fn opt_insert(h: Map<Seq<char>, Seq<char>>, name: Seq<char>, value: Option<Seq<char>>) -> Map<
    Seq<char>,
    Seq<char>,
> {
    match value {
        Some(v) => h.insert(name, v),
        None => h,
    }
}

proof fn lemma_opt_field_then(
    s: StreamView,
    name: Seq<char>,
    value: Option<Seq<char>>,
    rest: Seq<u8>,
)
    requires
        encode_utf8(name).len() < 256,
        name.len() > 0,
        name[0] != ':',
        value matches Some(v) ==> encode_utf8(v).len() < 256,
    ensures
        qpack_fields(s, opt_field(name, value) + rest, 0) == qpack_fields(
            StreamView { headers: opt_insert(s.headers, name, value), ..s },
            rest,
            0,
        ),
{
    match value {
        Some(v) => {
            lemma_qpack_field_then(s, name, v, rest);
            assert(name != ":method"@ && name != ":path"@) by {
                reveal_strlit(":method");
                reveal_strlit(":path");
            }
        },
        None => {
            assert(opt_field(name, value) + rest =~= rest);
        },
    }
}

/// A response's header block, as the encoder writes it, reads back as its
/// regular headers, when the content type and encoding are shorter than 256
/// bytes.
pub proof fn law_qpack_header_block_read_back(s: StreamView, res: ResponseView)
    requires
        res.content_type matches Some(t) ==> encode_utf8(t).len() < 256,
        res.content_encoding matches Some(e) ==> encode_utf8(e).len() < 256,
        res.body matches Some(b) ==> b.len() <= usize::MAX,
    ensures
        qpack_fields(s, qpack_header_block(res), 0) == (StreamView {
            headers: block_headers(s.headers, res),
            ..s
        }),
{
    reveal_strlit(":status");
    reveal_strlit(":method");
    reveal_strlit(":path");
    reveal_strlit("content-type");
    reveal_strlit("content-encoding");
    reveal_strlit("content-length");
    lemma_encode_len_bound(":status"@);
    lemma_encode_len_bound("content-type"@);
    lemma_encode_len_bound("content-encoding"@);
    lemma_encode_len_bound("content-length"@);
    assert(":status"@[0] == ':' && ":status"@[1] != ":method"@[1] && ":status"@[1]
        != ":path"@[1]);
    let status = decimal(res.status_code as nat);
    assert(ten_to(5) == 100000) by {
        reveal_with_fuel(ten_to, 6);
    }
    lemma_decimal_encoded_len(res.status_code as nat, 5);
    let len_text: Option<Seq<char>> = match res.body {
        Some(b) => Some(decimal(b.len())),
        None => None,
    };
    if let Some(b) = res.body {
        assert(ten_to(20) == 100000000000000000000) by {
            reveal_with_fuel(ten_to, 21);
        }
        lemma_decimal_encoded_len(b.len(), 20);
    }
    let f0 = qpack_field(":status"@, status);
    let fa = opt_field("content-type"@, res.content_type);
    let fb = opt_field("content-encoding"@, res.content_encoding);
    let fc = opt_field("content-length"@, len_text);
    assert(qpack_header_block(res) =~= f0 + (fa + (fb + (fc + Seq::empty()))));
    lemma_qpack_field_then(s, ":status"@, status, fa + (fb + (fc + Seq::empty())));
    assert(apply_field(s, ":status"@, status) == s);
    lemma_opt_field_then(s, "content-type"@, res.content_type, fb + (fc + Seq::empty()));
    let s1 = StreamView { headers: opt_insert(s.headers, "content-type"@, res.content_type), ..s };
    lemma_opt_field_then(s1, "content-encoding"@, res.content_encoding, fc + Seq::empty());
    let s2 = StreamView {
        headers: opt_insert(s1.headers, "content-encoding"@, res.content_encoding),
        ..s1
    };
    lemma_opt_field_then(s2, "content-length"@, len_text, Seq::empty());
    let s3 = StreamView { headers: opt_insert(s2.headers, "content-length"@, len_text), ..s2 };
    assert(s3 == StreamView { headers: block_headers(s.headers, res), ..s });
}


/// A HEADERS frame holding `block`: type 1, the low byte of the length, the
/// block.
pub open spec fn headers_frame(block: Seq<u8>) -> Seq<u8> {
    seq![1u8, (block.len() % 256) as u8] + block
}

/// A DATA frame holding `d`: type 0, the low byte of the length, `d`.
pub open spec fn data_frame(d: Seq<u8>) -> Seq<u8> {
    seq![0u8, (d.len() % 256) as u8] + d
}

/// One DATA frame per payload of `ds`, in order.
pub open spec fn data_frames(ds: Seq<Seq<u8>>) -> Seq<u8>
    decreases ds.len(),
{
    if ds.len() == 0 {
        Seq::empty()
    } else {
        data_frame(ds[0]) + data_frames(ds.drop_first())
    }
}

/// The payloads of `ds` one after another.
pub open spec fn joined(ds: Seq<Seq<u8>>) -> Seq<u8>
    decreases ds.len(),
{
    if ds.len() == 0 {
        Seq::empty()
    } else {
        ds[0] + joined(ds.drop_first())
    }
}

/// Reading frames does not depend on what comes before them.
proof fn lemma_frames_shift(s: StreamView, pre: Seq<u8>, rest: Seq<u8>, j: int)
    requires
        0 <= j,
    ensures
        datagram_frames(s, pre + rest, pre.len() + j) == datagram_frames(s, rest, j),
    decreases rest.len() - j,
{
    let p = pre + rest;
    let off = pre.len() + j;
    if j + 1 < rest.len() {
        assert(p[off] == rest[j]);
        assert(p[off + 1] == rest[j + 1]);
        let len = rest[j + 1] as int;
        let start = j + 2;
        if start + len <= rest.len() {
            assert(p.subrange(off + 2, off + 2 + len) =~= rest.subrange(start, start + len));
            let fp = rest.subrange(start, start + len);
            let s2 = if rest[j] == 0x01 {
                qpack_fields(s, fp, 0)
            } else if rest[j] == 0x00 {
                StreamView { body: s.body + fp, ..s }
            } else {
                s
            };
            lemma_frames_shift(s2, pre, rest, start + len);
        }
    }
}

/// One whole frame of type `t` holding `fp`, then `rest`.
proof fn lemma_frame_then(s: StreamView, t: u8, fp: Seq<u8>, rest: Seq<u8>)
    requires
        fp.len() < 256,
    ensures
        datagram_frames(s, seq![t, fp.len() as u8] + fp + rest, 0) == datagram_frames(
            if t == 0x01 {
                qpack_fields(s, fp, 0)
            } else if t == 0x00 {
                StreamView { body: s.body + fp, ..s }
            } else {
                s
            },
            rest,
            0,
        ),
{
    let head = seq![t, fp.len() as u8] + fp;
    let p = head + rest;
    assert(p[0] == t);
    assert(p[1] == fp.len());
    assert(p.subrange(2, 2 + fp.len() as int) =~= fp);
    let s2 = if t == 0x01 {
        qpack_fields(s, fp, 0)
    } else if t == 0x00 {
        StreamView { body: s.body + fp, ..s }
    } else {
        s
    };
    assert(datagram_frames(s, p, 0) == datagram_frames(s2, p, head.len() as int));
    lemma_frames_shift(s2, head, rest, 0);
}

proof fn lemma_data_frames(s: StreamView, ds: Seq<Seq<u8>>)
    requires
        forall|i: int| 0 <= i < ds.len() ==> (#[trigger] ds[i]).len() < 256,
    ensures
        datagram_frames(s, data_frames(ds), 0) == (StreamView { body: s.body + joined(ds), ..s }),
    decreases ds.len(),
{
    if ds.len() == 0 {
        assert(s.body + joined(ds) =~= s.body);
    } else {
        let d = ds[0];
        let rest = ds.drop_first();
        assert(d.len() < 256);
        assert((d.len() % 256) as u8 == d.len() as u8);
        assert forall|i: int| 0 <= i < rest.len() implies (#[trigger] rest[i]).len() < 256 by {
            assert(rest[i] == ds[i + 1]);
        }
        lemma_frame_then(s, 0u8, d, data_frames(rest));
        assert(data_frames(ds) =~= seq![0u8, d.len() as u8] + d + data_frames(rest));
        let s1 = StreamView { body: s.body + d, ..s };
        lemma_data_frames(s1, rest);
        assert(s.body + d + joined(rest) =~= s.body + joined(ds));
    }
}

/// Reading header fields leaves a stream's body alone.
proof fn lemma_fields_keep_body(s: StreamView, p: Seq<u8>, i: int)
    ensures
        qpack_fields(s, p, i).body == s.body,
    decreases p.len() - i,
{
    if 0 <= i < p.len() {
        if p[i] != 0 {
            lemma_fields_keep_body(s, p, i + 1);
        } else if i + 1 < p.len() {
            let name_len = p[i + 1] as int;
            let name_start = i + 2;
            if name_start + name_len < p.len() {
                let value_len = p[name_start + name_len] as int;
                let value_start = name_start + name_len + 1;
                if value_start + value_len <= p.len() {
                    let name = lossy_text(p.subrange(name_start, name_start + name_len));
                    let value = lossy_text(p.subrange(value_start, value_start + value_len));
                    lemma_fields_keep_body(apply_field(s, name, value), p, value_start + value_len);
                }
            }
        }
    }
}

/// A request sent in one datagram as a HEADERS frame followed by DATA frames
/// (each payload under 256 bytes, so a longer body takes several) is
/// received with the DATA payloads one after another, in order, as its body:
/// its method, path and headers are what the HEADERS block reads as, and
/// stream 0 is closed again.
pub proof fn law_datagram_body_is_data_payloads(
    streams: Map<u64, StreamView>,
    dcid: Seq<u8>,
    block: Seq<u8>,
    ds: Seq<Seq<u8>>,
)
    requires
        !streams.contains_key(0),
        dcid.len() == 8,
        block.len() < 256,
        forall|i: int| 0 <= i < ds.len() ==> (#[trigger] ds[i]).len() < 256,
    ensures
        ({
            let dg = seq![0x40u8] + dcid + headers_frame(block) + data_frames(ds);
            let fields = qpack_fields(empty_stream(), block, 0);
            let (after, reqs) = datagram_step(streams, dg);
            &&& after == streams
            &&& reqs == match stream_request(StreamView { body: joined(ds), ..fields }) {
                Some(r) => seq![(0u64, r)],
                None => Seq::<(u64, RequestView)>::empty(),
            }
            &&& reqs.len() <= 1
            &&& reqs.len() == 1 ==> reqs[0].1.body == (if joined(ds).len() == 0 {
                None
            } else {
                Some(joined(ds))
            })
        }),
{
    let payload = headers_frame(block) + data_frames(ds);
    let dg = seq![0x40u8] + dcid + payload;
    assert(dg =~= seq![0x40u8] + dcid + headers_frame(block) + data_frames(ds));
    assert(dg.len() >= 11);
    assert(dg[0] == 0x40u8);
    assert(dg.subrange(9, dg.len() as int) =~= payload);
    let e = empty_stream();
    assert((block.len() % 256) as u8 == block.len() as u8);
    lemma_frame_then(e, 1u8, block, data_frames(ds));
    assert(payload =~= seq![1u8, block.len() as u8] + block + data_frames(ds));
    let fields = qpack_fields(e, block, 0);
    lemma_fields_keep_body(e, block, 0);
    lemma_data_frames(fields, ds);
    assert(fields.body + joined(ds) =~= joined(ds));
    assert(streams.remove(0) =~= streams);
}

} // verus!
