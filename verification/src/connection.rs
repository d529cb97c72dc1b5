//! Decisions of the connection handling loop: which protocol a new
//! connection speaks, what an HTTP/1.x reply looks like on the wire, and
//! which worker takes the next accepted connection.
use vstd::prelude::*;

use crate::buffer::{buffer_advance, buffer_bytes, buffer_extend, buffer_slice, new_buffer};
use crate::http2::{
    fresh_connection, frames_begin, input_step, law_frames_stay_within_buffer, response_frames,
    ConnectionView, Http2Connection, InputOutcome, HTTP2_PREFACE,
};
use crate::request::{
    httparse_request_head, law_parse_stays_within_buffer, reports, request_outcome,
    ParseOutcome, Request, RequestView, MAX_HEADERS,
};
use crate::response::{asks_close, wire_format, Response, ResponseView};
use crate::text::starts_with;

verus! {

/// The protocol state of a connection.
pub enum ProtocolState {
    /// Not enough bytes yet to tell.
    Unknown,
    Http1,
    Http2(Http2Connection),
}

pub ghost enum ProtocolKind {
    Unknown,
    Http1,
    Http2,
}

pub open spec fn kind_of(p: ProtocolState) -> ProtocolKind {
    match p {
        ProtocolState::Unknown => ProtocolKind::Unknown,
        ProtocolState::Http1 => ProtocolKind::Http1,
        ProtocolState::Http2(_) => ProtocolKind::Http2,
    }
}

/// `buf` holds the blank line that ends an HTTP/1.x head.
pub open spec fn has_blank_line(buf: Seq<u8>) -> bool {
    exists|i: int|
        0 <= i && i + 4 <= buf.len() && #[trigger] buf.subrange(i, i + 4) == seq![
            13u8,
            10u8,
            13u8,
            10u8,
        ]
}

/// What the first bytes of a connection say: the HTTP/2 preface, or HTTP/1.x
/// once the bytes are as long as the preface or hold a blank line; otherwise
/// it is too early to tell.
pub open spec fn detected_kind(buf: Seq<u8>) -> ProtocolKind {
    if starts_with(buf, HTTP2_PREFACE@) {
        ProtocolKind::Http2
    } else if buf.len() >= 24 || has_blank_line(buf) {
        ProtocolKind::Http1
    } else {
        ProtocolKind::Unknown
    }
}

fn contains_blank_line(buf: &[u8]) -> (r: bool)
    ensures
        r == has_blank_line(buf@),
{
    if buf.len() < 4 {
        return false;
    }
    let mut i: usize = 0;
    while i <= buf.len() - 4
        invariant
            buf@.len() >= 4,
            i <= buf@.len() - 3,
            forall|j: int|
                0 <= j < i ==> #[trigger] buf@.subrange(j, j + 4) != seq![13u8, 10u8, 13u8, 10u8],
        decreases buf@.len() - i,
    {
        if buf[i] == 13 && buf[i + 1] == 10 && buf[i + 2] == 13 && buf[i + 3] == 10 {
            assert(buf@.subrange(i as int, i + 4) =~= seq![13u8, 10u8, 13u8, 10u8]);
            return true;
        }
        assert(buf@.subrange(i as int, i + 4)[0] == buf@[i as int]);
        assert(buf@.subrange(i as int, i + 4)[1] == buf@[i + 1]);
        assert(buf@.subrange(i as int, i + 4)[2] == buf@[i + 2]);
        assert(buf@.subrange(i as int, i + 4)[3] == buf@[i + 3]);
        i = i + 1;
    }
    false
}

/// Decides the protocol of a connection from the bytes read so far.  Once
/// known, a connection's protocol never changes; a connection found to speak
/// HTTP/2 starts with fresh HTTP/2 state.
pub fn detect_protocol(state: ProtocolState, read_buf: &[u8]) -> (r: ProtocolState)
    ensures
        kind_of(state) != ProtocolKind::Unknown ==> r == state,
        kind_of(state) == ProtocolKind::Unknown ==> kind_of(r) == detected_kind(read_buf@),
        kind_of(state) == ProtocolKind::Unknown ==> (r matches ProtocolState::Http2(c) ==> c@
            == fresh_connection()),
{
    match state {
        ProtocolState::Unknown => {
            if Http2Connection::is_http2_preface(read_buf) {
                ProtocolState::Http2(Http2Connection::new())
            } else if read_buf.len() >= 24 || contains_blank_line(read_buf) {
                ProtocolState::Http1
            } else {
                ProtocolState::Unknown
            }
        },
        other => other,
    }
}

/// The bytes of an HTTP/1.x reply to `req`, and whether the connection is to
/// be closed after it: the response carries `Connection: close` exactly when
/// the request asked for it.
pub fn http1_reply(res: &mut Response, req: &Request) -> (r: (Vec<u8>, bool))
    ensures
        r.1 == asks_close(req@),
        final(res)@ == (if r.1 {
            ResponseView { connection: Some("close"@), ..old(res)@ }
        } else {
            old(res)@
        }),
        r.0@ == wire_format(final(res)@),
{
    let should_close = res.apply_connection_header(req);
    let bytes = res.to_bytes();
    (bytes, should_close)
}

/// The HTTP/2 state that a protocol state holds (a fresh one when it holds
/// none).
pub open spec fn http2_state(p: ProtocolState) -> ConnectionView {
    match p {
        ProtocolState::Http2(c) => c@,
        _ => fresh_connection(),
    }
}

/// Capacity that a connection's buffers start with.
pub const BUFFER_CAPACITY: usize = 4096;

/// A client connection between readiness events: the protocol it speaks, the
/// bytes read but not yet consumed, and the bytes waiting to be sent.
pub struct ClientState {
    protocol: ProtocolState,
    read_buf: bytes::BytesMut,
    write_buf: bytes::BytesMut,
}

pub ghost struct ClientView {
    pub kind: ProtocolKind,
    /// The HTTP/2 state; a fresh one unless the connection speaks HTTP/2.
    pub http2: ConnectionView,
    /// Bytes read and not yet consumed by a request.
    pub unread: Seq<u8>,
    /// Bytes of responses not yet written to the socket.
    pub unsent: Seq<u8>,
}

impl View for ClientState {
    type V = ClientView;

    closed spec fn view(&self) -> ClientView {
        ClientView {
            kind: kind_of(self.protocol),
            http2: http2_state(self.protocol),
            unread: buffer_bytes(self.read_buf),
            unsent: buffer_bytes(self.write_buf),
        }
    }
}

/// What newly read bytes call for.
pub enum Received {
    /// HTTP/2 requests that the bytes completed, with their stream ids (there
    /// may be none); reading goes on.
    Http2Requests(Vec<(u32, Request)>),
    /// An HTTP/1.x request, to be answered before more is read.
    Http1Request(Request),
    /// Nothing to do until more bytes arrive; reading stops for now.
    Wait,
    /// The bytes break the protocol: the connection is to be dropped.
    Close,
}

pub ghost enum ReceivedView {
    Http2Requests(Seq<(u32, RequestView)>),
    Http1Request(RequestView),
    Wait,
    Close,
}

impl View for Received {
    type V = ReceivedView;

    open spec fn view(&self) -> ReceivedView {
        match self {
            Received::Http2Requests(v) => ReceivedView::Http2Requests(
                v@.map_values(|p: (u32, Request)| (p.0, p.1@)),
            ),
            Received::Http1Request(q) => ReceivedView::Http1Request(q@),
            Received::Wait => ReceivedView::Wait,
            Received::Close => ReceivedView::Close,
        }
    }
}

/// What an HTTP/1.x connection does with the bytes `buf` it holds: one
/// complete request is taken off the front; an incomplete one waits; bytes
/// that are no request close the connection.
pub open spec fn http1_step(s: ClientView, buf: Seq<u8>) -> (ClientView, ReceivedView) {
    match request_outcome(buf, httparse_request_head(buf, MAX_HEADERS as nat)) {
        ParseOutcome::Complete(req, n) => (
            ClientView { kind: ProtocolKind::Http1, unread: buf.skip(n as int), ..s },
            ReceivedView::Http1Request(req),
        ),
        ParseOutcome::Incomplete => (
            ClientView { kind: ProtocolKind::Http1, unread: buf, ..s },
            ReceivedView::Wait,
        ),
        ParseOutcome::Malformed => (
            ClientView { kind: ProtocolKind::Http1, unread: buf, ..s },
            ReceivedView::Close,
        ),
    }
}

/// What an HTTP/2 connection in state `c` does with the bytes `buf` it holds:
/// the complete frames are taken off the front and the requests they complete
/// are handed on; a wrong preface, or a header block with a size update cut
/// short, closes the connection.
pub open spec fn http2_step(s: ClientView, c: ConnectionView, buf: Seq<u8>) -> (
    ClientView,
    ReceivedView,
) {
    let (c1, out) = input_step(c, buf);
    let s1 = ClientView { kind: ProtocolKind::Http2, http2: c1, ..s };
    match out {
        InputOutcome::Processed(n, reqs) => (
            ClientView { unread: buf.skip(n as int), ..s1 },
            ReceivedView::Http2Requests(reqs),
        ),
        InputOutcome::NeedMore => (
            ClientView { unread: buf, ..s1 },
            ReceivedView::Http2Requests(Seq::empty()),
        ),
        InputOutcome::BadPreface => (ClientView { unread: buf, ..s1 }, ReceivedView::Close),
        InputOutcome::BadHeaderBlock => (ClientView { unread: buf, ..s1 }, ReceivedView::Close),
    }
}

/// The HTTP/2 state that a connection's next bytes meet: a fresh one when
/// its protocol is not known yet.
pub open spec fn http2_start(s: ClientView) -> ConnectionView {
    if s.kind == ProtocolKind::Unknown {
        fresh_connection()
    } else {
        s.http2
    }
}

/// The effect of reading `data` on a connection: the bytes join the unread
/// ones, the protocol is decided if it was not yet, and the protocol takes
/// what it can from the front.
pub open spec fn receive_step(s: ClientView, data: Seq<u8>) -> (ClientView, ReceivedView) {
    let buf = s.unread + data;
    let kind = if s.kind == ProtocolKind::Unknown {
        detected_kind(buf)
    } else {
        s.kind
    };
    match kind {
        ProtocolKind::Unknown => (ClientView { unread: buf, ..s }, ReceivedView::Wait),
        ProtocolKind::Http1 => http1_step(s, buf),
        ProtocolKind::Http2 => http2_step(s, http2_start(s), buf),
    }
}

/// `s` after the first `n` unsent bytes were written to the socket.
pub open spec fn after_send(s: ClientView, n: nat) -> ClientView {
    ClientView { unsent: s.unsent.skip(n as int), ..s }
}

/// The connection waits for the socket to become writable exactly while
/// bytes remain unsent.
pub open spec fn wants_writable(s: ClientView) -> bool {
    s.unsent.len() > 0
}

/// Reading never touches the bytes waiting to be sent, and once a
/// connection's protocol is known it stays the same for the connection's
/// lifetime.
pub proof fn law_receive_keeps_protocol_and_output(s: ClientView, data: Seq<u8>)
    ensures
        receive_step(s, data).0.unsent == s.unsent,
        s.kind != ProtocolKind::Unknown ==> receive_step(s, data).0.kind == s.kind,
{
}

/// Bytes are consumed from the front only, and never more than are held:
/// after reading, the unread bytes are what was unread followed by the new
/// bytes, less a prefix.
pub proof fn law_unread_bytes_are_a_suffix(s: ClientView, data: Seq<u8>)
    ensures
        exists|n: int|
            0 <= n <= s.unread.len() + data.len() && receive_step(s, data).0.unread == (s.unread
                + data).skip(n),
{
    let buf = s.unread + data;
    let after = receive_step(s, data).0.unread;
    assert(buf.skip(0) =~= buf);
    let kind = if s.kind == ProtocolKind::Unknown {
        detected_kind(buf)
    } else {
        s.kind
    };
    if kind == ProtocolKind::Http1 {
        let head = httparse_request_head(buf, MAX_HEADERS as nat);
        law_parse_stays_within_buffer(buf, head);
        if let ParseOutcome::Complete(req, n) = request_outcome(buf, head) {
            assert(after == buf.skip(n as int));
        } else {
            assert(after == buf.skip(0));
        }
    } else if kind == ProtocolKind::Http2 {
        let c = if s.kind == ProtocolKind::Unknown {
            fresh_connection()
        } else {
            s.http2
        };
        let (c1, out) = input_step(c, buf);
        if let InputOutcome::Processed(n, reqs) = out {
            law_frames_stay_within_buffer(buf, frames_begin(c));
            assert(after == buf.skip(n as int));
        } else {
            assert(after == buf.skip(0));
        }
    } else {
        assert(after == buf.skip(0));
    }
}

/// A partial write keeps the bytes not yet written, in order, and the
/// connection stays registered for writable readiness; once everything has
/// been written, writable interest is dropped.
pub proof fn law_partial_write_keeps_the_rest(s: ClientView, n: nat)
    requires
        n <= s.unsent.len(),
    ensures
        s.unsent == s.unsent.take(n as int) + after_send(s, n).unsent,
        wants_writable(after_send(s, n)) <==> n < s.unsent.len(),
        after_send(s, n).unread == s.unread && after_send(s, n).kind == s.kind,
{
    assert(s.unsent =~= s.unsent.take(n as int) + s.unsent.skip(n as int));
}

impl ClientState {
    /// A connection that has received nothing yet.
    pub fn new() -> (c: Self)
        ensures
            c@ == (ClientView {
                kind: ProtocolKind::Unknown,
                http2: fresh_connection(),
                unread: Seq::empty(),
                unsent: Seq::empty(),
            }),
    {
        ClientState {
            protocol: ProtocolState::Unknown,
            read_buf: new_buffer(BUFFER_CAPACITY),
            write_buf: new_buffer(BUFFER_CAPACITY),
        }
    }

    /// Takes newly read bytes: see `receive_step`.  The unsent bytes are left
    /// as they are.
    pub fn receive(&mut self, data: &[u8]) -> (r: Received)
        ensures
            (final(self)@, r@) == receive_step(old(self)@, data@),
    {
        let ghost s = self@;
        buffer_extend(&mut self.read_buf, data);
        let ghost buf = s.unread + data@;
        let mut state = ProtocolState::Unknown;
        std::mem::swap(&mut state, &mut self.protocol);
        let state = detect_protocol(state, buffer_slice(&self.read_buf));
        match state {
            ProtocolState::Http2(mut c) => {
                let ghost c0 = c@;
                assert(c0 == (if s.kind == ProtocolKind::Unknown {
                    fresh_connection()
                } else {
                    s.http2
                }));
                let res = c.process_input(buffer_slice(&self.read_buf));
                self.protocol = ProtocolState::Http2(c);
                assert(receive_step(s, data@) == http2_step(s, c0, buf));
                match res {
                    Ok(Some((consumed, reqs))) => {
                        proof {
                            law_frames_stay_within_buffer(buf, frames_begin(c0));
                        }
                        buffer_advance(&mut self.read_buf, consumed);
                        proof {
                            let (c1, out) = input_step(c0, buf);
                            if let InputOutcome::Processed(n, rs) = out {
                                assert(reqs@.map_values(|p: (u32, Request)| (p.0, p.1@)) =~= rs);
                            }
                        }
                        Received::Http2Requests(reqs)
                    },
                    Ok(None) => {
                        let nothing: Vec<(u32, Request)> = Vec::new();
                        assert(nothing@.map_values(|p: (u32, Request)| (p.0, p.1@)) =~= Seq::empty());
                        Received::Http2Requests(nothing)
                    },
                    Err(_) => Received::Close,
                }
            },
            ProtocolState::Http1 => {
                self.protocol = ProtocolState::Http1;
                let res = Request::parse(buffer_slice(&self.read_buf));
                proof {
                    law_parse_stays_within_buffer(
                        buf,
                        httparse_request_head(buf, MAX_HEADERS as nat),
                    );
                }
                assert(receive_step(s, data@) == http1_step(s, buf));
                match res {
                    Ok(Some((req, n))) => {
                        buffer_advance(&mut self.read_buf, n);
                        Received::Http1Request(req)
                    },
                    Ok(None) => Received::Wait,
                    Err(_) => Received::Close,
                }
            },
            ProtocolState::Unknown => {
                assert(receive_step(s, data@).1 == ReceivedView::Wait);
                Received::Wait
            },
        }
    }

    /// Queues the HTTP/1.x reply to `req` after the unsent bytes; `true` when
    /// the connection is to be closed after it (see `http1_reply`).
    pub fn respond_http1(&mut self, res: &mut Response, req: &Request) -> (close: bool)
        ensures
            close == asks_close(req@),
            final(res)@ == (if close {
                ResponseView { connection: Some("close"@), ..old(res)@ }
            } else {
                old(res)@
            }),
            final(self)@ == (ClientView {
                unsent: old(self)@.unsent + wire_format(final(res)@),
                ..old(self)@
            }),
    {
        let (bytes, close) = http1_reply(res, req);
        buffer_extend(&mut self.write_buf, bytes.as_slice());
        close
    }

    /// Queues the HTTP/2 frames of the response on stream `stream_id` after
    /// the unsent bytes.
    pub fn respond_http2(&mut self, stream_id: u32, res: &Response)
        ensures
            final(self)@ == (ClientView {
                unsent: old(self)@.unsent + response_frames(stream_id, res@),
                ..old(self)@
            }),
    {
        let bytes = Http2Connection::encode_response(stream_id, res);
        buffer_extend(&mut self.write_buf, bytes.as_slice());
    }

    /// The bytes waiting to be written, oldest first.
    pub fn unsent(&self) -> (r: &[u8])
        ensures
            r@ == self@.unsent,
    {
        buffer_slice(&self.write_buf)
    }

    /// Records that the first `n` unsent bytes were written; the rest stay,
    /// in order, for the next writable event.
    pub fn sent(&mut self, n: usize)
        requires
            n <= old(self)@.unsent.len(),
        ensures
            final(self)@ == after_send(old(self)@, n as nat),
    {
        buffer_advance(&mut self.write_buf, n);
    }

    /// Whether the connection is to be registered for writable readiness.
    pub fn wants_write(&self) -> (r: bool)
        ensures
            r == wants_writable(self@),
    {
        buffer_slice(&self.write_buf).len() != 0
    }
}

/// What happened on a connection while it was being served.
#[derive(Debug, Clone, Copy, PartialEq, Eq, Structural)]
pub enum ConnectionEvent {
    /// A read returned no bytes: the peer has closed its side.
    PeerClosed,
    /// A read or a write failed with an error other than "would block".
    IoFailed,
    /// A read would block: nothing more to read for now.
    WouldBlock,
    /// HTTP/2 bytes were taken and their requests answered.
    Http2Handled,
    /// An HTTP/1.x request was answered; `true` when the reply closes the
    /// connection (the request asked for `Connection: close`).
    Http1Answered(bool),
    /// The bytes read do not yet make a request.
    NeedMore,
    /// The bytes broke the protocol (`Received::Close`).
    ProtocolError,
}

/// What the serving loop does next.
#[derive(Debug, Clone, Copy, PartialEq, Eq, Structural)]
pub enum NextStep {
    /// Go on reading.
    KeepReading,
    /// Stop reading until the socket is readable again.
    StopReading,
    /// Drop the connection at once.
    Drop,
    /// Send what a closing reply queued, then drop the connection.
    FlushThenDrop,
}

/// Whether a step ends with the connection dropped.
pub open spec fn drops(s: NextStep) -> bool {
    s is Drop || s is FlushThenDrop
}

/// The step after an event: a connection is dropped when the peer closed,
/// on an I/O error or on a protocol error, and dropped once its queued bytes
/// are sent after a reply that closes it; reading stops when it would block
/// or more bytes are needed.
pub open spec fn step_after(e: ConnectionEvent) -> NextStep {
    match e {
        ConnectionEvent::PeerClosed => NextStep::Drop,
        ConnectionEvent::IoFailed => NextStep::Drop,
        ConnectionEvent::ProtocolError => NextStep::Drop,
        ConnectionEvent::Http1Answered(closes) => if closes {
            NextStep::FlushThenDrop
        } else {
            NextStep::KeepReading
        },
        ConnectionEvent::WouldBlock => NextStep::StopReading,
        ConnectionEvent::NeedMore => NextStep::StopReading,
        ConnectionEvent::Http2Handled => NextStep::KeepReading,
    }
}

/// Decides what the serving loop does after an event.
pub fn next_step(e: ConnectionEvent) -> (r: NextStep)
    ensures
        r == step_after(e),
{
    match e {
        ConnectionEvent::PeerClosed => NextStep::Drop,
        ConnectionEvent::IoFailed => NextStep::Drop,
        ConnectionEvent::ProtocolError => NextStep::Drop,
        ConnectionEvent::Http1Answered(closes) => if closes {
            NextStep::FlushThenDrop
        } else {
            NextStep::KeepReading
        },
        ConnectionEvent::WouldBlock => NextStep::StopReading,
        ConnectionEvent::NeedMore => NextStep::StopReading,
        ConnectionEvent::Http2Handled => NextStep::KeepReading,
    }
}

/// The event that newly read bytes make, given whether the HTTP/1.x reply
/// (if any) closes the connection.
pub open spec fn received_event(r: ReceivedView, reply_closes: bool) -> ConnectionEvent {
    match r {
        ReceivedView::Http2Requests(_) => ConnectionEvent::Http2Handled,
        ReceivedView::Http1Request(_) => ConnectionEvent::Http1Answered(reply_closes),
        ReceivedView::Wait => ConnectionEvent::NeedMore,
        ReceivedView::Close => ConnectionEvent::ProtocolError,
    }
}

/// A connection is dropped after reading exactly when the peer closed, the
/// read failed, the bytes broke the protocol, or an HTTP/1.x request asked
/// for `Connection: close`; a request that did not ask keeps it open.  Only
/// the closing reply is sent out before the connection goes.
pub proof fn law_connection_dropped_exactly_when(r: ReceivedView, req_asks_close: bool)
    ensures
        step_after(ConnectionEvent::PeerClosed) == NextStep::Drop,
        step_after(ConnectionEvent::IoFailed) == NextStep::Drop,
        drops(step_after(received_event(r, req_asks_close))) <==> (r is Close || (r is Http1Request
            && req_asks_close)),
        (step_after(received_event(r, req_asks_close)) == NextStep::FlushThenDrop) <==> (
        r is Http1Request && req_asks_close),
{
}

/// How often idle connections are swept, in milliseconds.
pub const CLEANUP_INTERVAL_MS: u64 = 2000;

/// How long a connection may stay idle before it is dropped, in milliseconds.
pub const IDLE_TIMEOUT_MS: u64 = 10000;

/// Whether a sweep for idle connections is due: at least the sweep interval
/// has passed since the last one (times in milliseconds on one clock).
pub fn cleanup_due(now_ms: u64, last_cleanup_ms: u64) -> (r: bool)
    ensures
        r == (now_ms >= last_cleanup_ms + CLEANUP_INTERVAL_MS),
{
    now_ms >= last_cleanup_ms && now_ms - last_cleanup_ms >= CLEANUP_INTERVAL_MS
}

/// A connection last active at `last_ms` has been idle for the timeout.
pub open spec fn is_expired(now_ms: u64, last_ms: u64) -> bool {
    now_ms >= last_ms + IDLE_TIMEOUT_MS
}

/// The ids of the connections, given with the time each was last active,
/// that have been idle for the timeout, in the order given.
pub open spec fn expired_ids(now_ms: u64, clients: Seq<(usize, u64)>) -> Seq<usize>
    decreases clients.len(),
{
    if clients.len() == 0 {
        Seq::empty()
    } else {
        let rest = expired_ids(now_ms, clients.drop_last());
        if is_expired(now_ms, clients.last().1) {
            rest.push(clients.last().0)
        } else {
            rest
        }
    }
}

/// The connections to drop at a sweep: those idle for the timeout.
pub fn expired_connections(now_ms: u64, clients: &Vec<(usize, u64)>) -> (r: Vec<usize>)
    ensures
        r@ == expired_ids(now_ms, clients@),
{
    let mut out: Vec<usize> = Vec::new();
    let mut i: usize = 0;
    while i < clients.len()
        invariant
            i <= clients@.len(),
            out@ == expired_ids(now_ms, clients@.take(i as int)),
        decreases clients@.len() - i,
    {
        assert(clients@.take(i + 1).drop_last() =~= clients@.take(i as int));
        let (id, last) = clients[i];
        if now_ms >= last && now_ms - last >= IDLE_TIMEOUT_MS {
            out.push(id);
        }
        i = i + 1;
    }
    assert(clients@.take(clients@.len() as int) =~= clients@);
    out
}

/// A sweep drops exactly the connections idle for the timeout: every id it
/// returns is of such a connection, and every such connection's id is
/// returned.
pub proof fn law_sweep_drops_exactly_the_idle(now_ms: u64, clients: Seq<(usize, u64)>)
    ensures
        forall|k: int|
            0 <= k < clients.len() && is_expired(now_ms, #[trigger] clients[k].1) ==> expired_ids(
                now_ms,
                clients,
            ).contains(clients[k].0),
        forall|id: usize|
            #[trigger] expired_ids(now_ms, clients).contains(id) ==> exists|k: int|
                0 <= k < clients.len() && clients[k].0 == id && is_expired(now_ms, clients[k].1),
    decreases clients.len(),
{
    if clients.len() > 0 {
        let prev = clients.drop_last();
        law_sweep_drops_exactly_the_idle(now_ms, prev);
        let rest = expired_ids(now_ms, prev);
        let n = clients.len() - 1;
        assert forall|k: int|
            0 <= k < clients.len() && is_expired(now_ms, #[trigger] clients[k].1) implies expired_ids(
            now_ms,
            clients,
        ).contains(clients[k].0) by {
            if k < n {
                assert(prev[k] == clients[k]);
                assert(is_expired(now_ms, prev[k].1));
                let j = choose|j: int| 0 <= j < rest.len() && rest[j] == clients[k].0;
                if is_expired(now_ms, clients.last().1) {
                    assert(rest.push(clients.last().0)[j] == clients[k].0);
                }
            } else {
                assert(expired_ids(now_ms, clients).last() == clients[k].0);
            }
        }
        assert forall|id: usize| #[trigger] expired_ids(now_ms, clients).contains(id) implies exists|
            k: int,
        | 0 <= k < clients.len() && clients[k].0 == id && is_expired(now_ms, clients[k].1) by {
            let all = expired_ids(now_ms, clients);
            let j = choose|j: int| 0 <= j < all.len() && all[j] == id;
            if j < rest.len() {
                assert(all[j] == rest[j]);
                assert(rest.contains(id));
                let k = choose|k: int|
                    0 <= k < prev.len() && prev[k].0 == id && is_expired(now_ms, prev[k].1);
                assert(clients[k] == prev[k]);
            } else {
                assert(clients[n].0 == id && is_expired(now_ms, clients[n].1));
            }
        }
    }
}

/// The worker after `current` in round-robin order.
pub open spec fn next_worker_index(current: nat, workers: nat) -> nat {
    (current + 1) % workers
}

/// The worker that takes the next connection after `current` of `workers`.
pub fn next_worker(current: usize, workers: usize) -> (r: usize)
    requires
        current < workers,
    ensures
        r == next_worker_index(current as nat, workers as nat),
        r < workers,
{
    (current + 1) % workers
}

/// The worker index after `k` connections, starting from worker 0.
pub open spec fn worker_after(k: nat, workers: nat) -> nat
    decreases k,
{
    if k == 0 {
        0
    } else {
        next_worker_index(worker_after((k - 1) as nat, workers), workers)
    }
}

/// Round-robin distribution: the `k`-th accepted connection (counting from
/// zero) goes to worker `k mod n`.
pub proof fn law_round_robin(k: nat, workers: nat)
    requires
        workers > 0,
    ensures
        worker_after(k, workers) == k % workers,
    decreases k,
{
    if k > 0 {
        law_round_robin((k - 1) as nat, workers);
        let p = (k - 1) as int;
        let n = workers as int;
        assert(((p % n) + 1) % n == (p + 1) % n) by {
            if n == 1 {
                assert(((p % n) + 1) % n == 0);
                assert((p + 1) % n == 0);
            } else {
                vstd::arithmetic::div_mod::lemma_add_mod_noop(p, 1, n);
                vstd::arithmetic::div_mod::lemma_small_mod(1nat, workers);
            }
        }
        assert(worker_after((k - 1) as nat, workers) == p % n);
        assert(worker_after(k, workers) == ((p % n) + 1) % n);
        assert(p + 1 == k);
        assert(k % workers == (p + 1) % n);
        assert(worker_after(k, workers) == k % workers);
    } else {
        assert(worker_after(k, workers) == 0);
        assert(0nat % workers == 0);
    }
}

} // verus!
