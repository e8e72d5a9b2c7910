//! One session: the state of a single logical connection and what it does on
//! each event.
//!
//! A session owns no socket, channel or timer. It is told what happened and
//! what time it is, and answers with the datagrams to send, the bytes to hand
//! to the application, and whether it has destroyed itself.
//!
//! Time is a number of milliseconds on whatever clock the caller reads; all
//! that counts is the difference between two readings. A clock that runs
//! backwards does no harm: it only makes the session more patient.

use crate::error::Error;
use crate::lrcp::codec_laws::{
    is_wire_packet, lemma_escape_ascii, lemma_escape_len, lemma_escaped_is_one_field,
    lemma_parse_encode, lemma_text_len, lemma_unescape_escape,
};
use crate::lrcp::chunks::{
    chunks_spec, escaped_total, fitting, lemma_escaped_total, lemma_fitting, lemma_payload_room,
    payload_room, produce_chunks,
};
use crate::lrcp::protocol::{
    encode_ack, encode_close, encode_data, escape_data, escape_spec, packet_text, unescape_data,
    unescape_spec, Packet, MAX_INT, MAX_PACKET_LENGTH,
};
use crate::lrcp::stream::{bytes_contents, bytes_from_vec};
use crate::lrcp::text::{
    all_ascii, ascii_bytes, ascii_chars, ascii_to_string, is_ascii_bytes,
    lemma_ascii_bytes_is_ascii, lemma_ascii_chars_is_ascii, lemma_decimal_len,
};
use bytes::Bytes;
use vstd::prelude::*;
use vstd::slice::slice_to_vec;
use vstd::string::StrSliceExecFns;
use vstd::utf8::{encode_utf8, is_ascii_chars};

verus! {

/// Unacknowledged data is sent again after this many milliseconds.
pub const RETRANSMIT_MILLIS: usize = 3000;

/// A session that has heard nothing for more than this many seconds is destroyed.
pub const IDLE_TIMEOUT_SECOND: usize = 60;

/// The address of a peer: an IP address as a number (an IPv4 address in its
/// IPv6-mapped form) and a UDP port.
#[derive(Debug, Clone, Copy, PartialEq, Eq, Hash, Structural)]
pub struct PeerAddr {
    pub ip: u128,
    pub port: u16,
}

/// What the application asks of a session.
#[derive(Debug)]
pub enum SessionCommand {
    /// Send these bytes to the peer.
    Write { data: Vec<u8> },
    /// The application is done with the stream.
    Shutdown,
}

/// What can happen to a session: a message from the peer that the listener
/// routed here, or a timer.
#[derive(Debug)]
pub enum SessionEvent {
    /// The peer offers bytes that start at offset `pos` of its stream.
    Data { pos: u64, escaped_data: String },
    /// The peer has received the first `length` bytes of our stream.
    Ack { length: u64 },
    /// The peer has sent Connect again.
    RepeatedConnect,
    /// The peer has closed the session.
    Close { reason: String },
    /// The retransmit timer has fired.
    RetransmitPendingData,
    /// It is time to look whether the peer has gone silent.
    CheckSessionExpiry,
}

/// A command without its storage.
pub enum CommandView {
    Write { data: Seq<u8> },
    Shutdown,
}

/// An event without its storage; the reason of a close plays no part.
pub enum EventView {
    Data { pos: u64, escaped: Seq<char> },
    Ack { length: u64 },
    RepeatedConnect,
    Close,
    RetransmitPendingData,
    CheckSessionExpiry,
}

impl View for SessionCommand {
    type V = CommandView;

    open spec fn view(&self) -> CommandView {
        match self {
            SessionCommand::Write { data } => CommandView::Write { data: data@ },
            SessionCommand::Shutdown => CommandView::Shutdown,
        }
    }
}

impl View for SessionEvent {
    type V = EventView;

    open spec fn view(&self) -> EventView {
        match self {
            SessionEvent::Data { pos, escaped_data } => EventView::Data {
                pos: *pos,
                escaped: escaped_data@,
            },
            SessionEvent::Ack { length } => EventView::Ack { length: *length },
            SessionEvent::RepeatedConnect => EventView::RepeatedConnect,
            SessionEvent::Close { .. } => EventView::Close,
            SessionEvent::RetransmitPendingData => EventView::RetransmitPendingData,
            SessionEvent::CheckSessionExpiry => EventView::CheckSessionExpiry,
        }
    }
}

/// One datagram on its way out.
#[derive(Debug)]
pub struct UdpMessage {
    pub target: PeerAddr,
    pub payload: Vec<u8>,
}

/// A datagram without its storage.
pub struct Datagram {
    pub target: PeerAddr,
    pub payload: Seq<u8>,
}

impl View for UdpMessage {
    type V = Datagram;

    open spec fn view(&self) -> Datagram {
        Datagram { target: self.target, payload: self.payload@ }
    }
}

impl UdpMessage {
    /// A datagram for `target` that carries the text `s` in UTF-8.
    pub fn new(target: PeerAddr, s: String) -> (m: Self)
        ensures
            m@ == (Datagram { target, payload: encode_utf8(s@) }),
    {
        UdpMessage { target, payload: s.as_str().as_bytes_vec() }
    }
}

/// The datagrams of a list, each without its storage.
pub open spec fn datagrams(v: Seq<UdpMessage>) -> Seq<Datagram> {
    Seq::new(v.len(), |i: int| v[i]@)
}

/// The datagram that carries `p` to `target`. Meant for messages that travel.
pub open spec fn datagram_of(target: PeerAddr, p: Packet) -> Datagram {
    Datagram { target, payload: ascii_bytes(packet_text(p).unwrap()) }
}

/// The datagrams that carry `packets` to `target`, in order.
pub open spec fn datagrams_to(target: PeerAddr, packets: Seq<Packet>) -> Seq<Datagram> {
    Seq::new(packets.len(), |i: int| datagram_of(target, packets[i]))
}

proof fn lemma_datagrams_push(
    v: Seq<UdpMessage>,
    m: UdpMessage,
    target: PeerAddr,
    packets: Seq<Packet>,
    p: Packet,
)
    requires
        datagrams(v) == datagrams_to(target, packets),
        m@ == datagram_of(target, p),
    ensures
        datagrams(v.push(m)) == datagrams_to(target, packets.push(p)),
{
    let a = datagrams(v.push(m));
    let b = datagrams_to(target, packets.push(p));
    assert(v.len() == datagrams(v).len());
    assert(packets.len() == datagrams_to(target, packets).len());
    assert forall|i: int| 0 <= i < a.len() implies a[i] == b[i] by {
        if i < v.len() {
            assert(a[i] == datagrams(v)[i]);
            assert(b[i] == datagrams_to(target, packets)[i]);
        }
    }
    assert(a =~= b);
}

// ---------------------------------------------------------------------------
// Data messages
// ---------------------------------------------------------------------------

/// The data messages that carry `chunks` one after the other, the first one
/// at stream offset `pos`.
pub open spec fn data_packets(session_id: u64, pos: nat, chunks: Seq<Seq<u8>>) -> Seq<Packet>
    decreases chunks.len(),
{
    if chunks.len() == 0 {
        Seq::empty()
    } else {
        seq![
            Packet::Data {
                session_id,
                pos: pos as u64,
                escaped: escape_spec(ascii_chars(chunks[0])),
            },
        ] + data_packets(session_id, pos + chunks[0].len(), chunks.drop_first())
    }
}

/// The data messages that carry `data` from stream offset `pos` on, each
/// with as many bytes as a datagram allows.
pub open spec fn data_stream(session_id: u64, pos: nat, data: Seq<u8>) -> Seq<Packet> {
    data_packets(session_id, pos, chunks_spec(session_id, pos, data))
}

// ---------------------------------------------------------------------------
// The state and its steps
// ---------------------------------------------------------------------------

/// The state of a session.
pub struct SessionView {
    pub session_id: u64,
    pub peer: PeerAddr,
    /// The next offset expected from the peer.
    pub recv_pos: u64,
    /// The number of bytes that the application has handed over.
    pub send_pos: u64,
    /// The highest length that the peer has acknowledged.
    pub acked_pos: u64,
    /// The bytes handed over and not acknowledged, from offset `acked_pos` on.
    pub pending_out: Seq<u8>,
    /// When the peer was last heard, in milliseconds.
    pub last_activity: u64,
    /// When the retransmit timer fires, if it is armed.
    pub retransmit_at: Option<u64>,
    pub closed: bool,
}

/// What a session does in one step.
pub struct SessionStep {
    pub next: SessionView,
    /// The messages for the peer, in the order in which they leave.
    pub packets: Seq<Packet>,
    /// The bytes for the application, next in stream order.
    pub delivered: Option<Seq<u8>>,
    /// The session has destroyed itself in this step.
    pub terminated: bool,
}

/// The application bytes that a payload field carries.
pub open spec fn payload_bytes(escaped: Seq<char>) -> Seq<u8> {
    encode_utf8(unescape_spec(escaped))
}

/// The time at which a timer armed at `now` fires.
pub open spec fn retransmit_deadline(now: u64) -> u64 {
    if now + RETRANSMIT_MILLIS > u64::MAX {
        u64::MAX
    } else {
        (now + RETRANSMIT_MILLIS) as u64
    }
}

/// Whether a peer last heard at `last_activity` counts as gone at `now`.
pub open spec fn is_expired(last_activity: u64, now: u64) -> bool {
    now - last_activity > IDLE_TIMEOUT_SECOND * 1000
}

impl SessionView {
    /// A session that has just been opened.
    pub open spec fn fresh(session_id: u64, peer: PeerAddr, now: u64) -> SessionView {
        SessionView {
            session_id,
            peer,
            recv_pos: 0,
            send_pos: 0,
            acked_pos: 0,
            pending_out: Seq::empty(),
            last_activity: now,
            retransmit_at: None,
            closed: false,
        }
    }

    /// What holds of every session at all times.
    pub open spec fn wf(self) -> bool {
        &&& self.session_id < MAX_INT
        &&& self.recv_pos < MAX_INT
        &&& self.send_pos < MAX_INT
        &&& self.acked_pos <= self.send_pos
        &&& self.pending_out.len() == self.send_pos - self.acked_pos
        &&& is_ascii_bytes(self.pending_out)
        &&& (self.retransmit_at is Some <==> !self.closed && self.pending_out.len() > 0)
    }

    /// Nothing happens.
    pub open spec fn stay(self) -> SessionStep {
        SessionStep { next: self, packets: Seq::empty(), delivered: None, terminated: false }
    }

    /// The session destroys itself: one Close leaves, the timer is cancelled.
    pub open spec fn destroy(self) -> SessionStep {
        SessionStep {
            next: SessionView { closed: true, retransmit_at: None, ..self },
            packets: seq![Packet::Close { session_id: self.session_id }],
            delivered: None,
            terminated: true,
        }
    }

    /// The peer has been heard at `now`.
    pub open spec fn heard(self, now: u64) -> SessionView {
        SessionView { last_activity: now, ..self }
    }

    /// Whether data at `pos` is the next in line and still fits in the stream.
    pub open spec fn accepts(self, pos: u64, escaped: Seq<char>) -> bool {
        pos == self.recv_pos && self.recv_pos + payload_bytes(escaped).len() < MAX_INT
    }

    /// Data from the peer: what is next in line is delivered, and in every
    /// case the answer is an Ack of what has been received without a gap.
    pub open spec fn on_data(self, pos: u64, escaped: Seq<char>, now: u64) -> SessionStep {
        let bytes = payload_bytes(escaped);
        let recv_pos = if self.accepts(pos, escaped) {
            (self.recv_pos + bytes.len()) as u64
        } else {
            self.recv_pos
        };
        SessionStep {
            next: SessionView { recv_pos, ..self.heard(now) },
            packets: seq![Packet::Ack { session_id: self.session_id, length: recv_pos }],
            delivered: if self.accepts(pos, escaped) && bytes.len() > 0 {
                Some(bytes)
            } else {
                None
            },
            terminated: false,
        }
    }

    /// An Ack from the peer. An old one changes nothing; one for bytes never
    /// sent destroys the session; any other moves `acked_pos` up, drops the
    /// confirmed bytes, and sends what is still pending again at once.
    pub open spec fn on_ack(self, length: u64, now: u64) -> SessionStep {
        if length <= self.acked_pos {
            self.heard(now).stay()
        } else if length > self.send_pos {
            self.heard(now).destroy()
        } else {
            let pending_out = self.pending_out.skip(length - self.acked_pos);
            SessionStep {
                next: SessionView {
                    acked_pos: length,
                    pending_out,
                    retransmit_at: if pending_out.len() == 0 {
                        None
                    } else {
                        Some(retransmit_deadline(now))
                    },
                    ..self.heard(now)
                },
                packets: data_stream(self.session_id, length as nat, pending_out),
                delivered: None,
                terminated: false,
            }
        }
    }

    /// The retransmit timer: everything pending leaves again, from
    /// `acked_pos` on, and the timer is armed anew.
    pub open spec fn on_retransmit(self, now: u64) -> SessionStep {
        if self.pending_out.len() == 0 {
            self.stay()
        } else {
            SessionStep {
                next: SessionView { retransmit_at: Some(retransmit_deadline(now)), ..self },
                packets: data_stream(self.session_id, self.acked_pos as nat, self.pending_out),
                delivered: None,
                terminated: false,
            }
        }
    }

    /// The idle check: a session whose peer has gone silent destroys itself.
    pub open spec fn on_check_expiry(self, now: u64) -> SessionStep {
        if is_expired(self.last_activity, now) {
            self.destroy()
        } else {
            self.stay()
        }
    }

    /// What the session does on an event. A closed session does nothing.
    pub open spec fn on_event(self, event: EventView, now: u64) -> SessionStep {
        if self.closed {
            self.stay()
        } else {
            match event {
                EventView::Data { pos, escaped } => self.on_data(pos, escaped, now),
                EventView::Ack { length } => self.on_ack(length, now),
                EventView::RepeatedConnect => self.heard(now).stay(),
                EventView::Close => self.heard(now).destroy(),
                EventView::RetransmitPendingData => self.on_retransmit(now),
                EventView::CheckSessionExpiry => self.on_check_expiry(now),
            }
        }
    }

    /// Why a write is refused, if it is.
    pub open spec fn write_error(self, data: Seq<u8>) -> Option<Error> {
        if self.closed {
            Some(Error::SessionClosed)
        } else if self.send_pos + data.len() >= MAX_INT {
            Some(Error::StreamTooLong)
        } else if !is_ascii_bytes(data) {
            Some(Error::NonAsciiPayload)
        } else {
            None
        }
    }

    /// A write that is not refused: the bytes join what is pending, leave at
    /// once from the old `send_pos` on, and the timer is armed unless it is.
    pub open spec fn on_write(self, data: Seq<u8>, now: u64) -> SessionStep {
        let pending_out = self.pending_out + data;
        SessionStep {
            next: SessionView {
                send_pos: (self.send_pos + data.len()) as u64,
                pending_out,
                retransmit_at: if self.retransmit_at is None && pending_out.len() > 0 {
                    Some(retransmit_deadline(now))
                } else {
                    self.retransmit_at
                },
                ..self
            },
            packets: data_stream(self.session_id, self.send_pos as nat, data),
            delivered: None,
            terminated: false,
        }
    }

    /// What the session does on a command, or why it refuses.
    pub open spec fn on_command(self, command: CommandView, now: u64) -> Result<SessionStep, Error> {
        match command {
            CommandView::Write { data } => match self.write_error(data) {
                Some(e) => Err(e),
                None => Ok(self.on_write(data, now)),
            },
            CommandView::Shutdown => if self.closed {
                Err(Error::SessionClosed)
            } else {
                Ok(self.destroy())
            },
        }
    }
}

// ---------------------------------------------------------------------------
// What holds of the data messages
// ---------------------------------------------------------------------------

/// The data messages of a stream, named one chunk at a time.
pub proof fn lemma_data_stream_unfold(session_id: u64, pos: nat, data: Seq<u8>)
    ensures
        data.len() == 0 ==> data_stream(session_id, pos, data) == Seq::<Packet>::empty(),
        ({
            let n = fitting(data, payload_room(session_id, pos));
            data.len() > 0 && 1 <= n <= data.len() ==> data_stream(session_id, pos, data) == seq![
                Packet::Data {
                    session_id,
                    pos: pos as u64,
                    escaped: escape_spec(ascii_chars(data.take(n as int))),
                },
            ] + data_stream(session_id, pos + n, data.skip(n as int))
        }),
{
    let n = fitting(data, payload_room(session_id, pos));
    let chunks = chunks_spec(session_id, pos, data);
    if data.len() > 0 && 1 <= n <= data.len() {
        let head = data.take(n as int);
        let tail = chunks_spec(session_id, pos + n, data.skip(n as int));
        assert(chunks == seq![head] + tail);
        assert(chunks[0] == head);
        assert(chunks.drop_first() =~= tail);
    }
}

/// One chunk of ASCII bytes that fits in the room of its message, at a
/// position on the wire, makes a message that travels, in fewer than 1000
/// bytes, and that unescapes to the chunk.
pub proof fn lemma_data_packet(session_id: u64, pos: u64, chunk: Seq<u8>)
    requires
        session_id < MAX_INT,
        pos < MAX_INT,
        escaped_total(chunk) <= payload_room(session_id, pos as nat),
        is_ascii_bytes(chunk),
    ensures
        ({
            let p = Packet::Data { session_id, pos, escaped: escape_spec(ascii_chars(chunk)) };
            &&& is_wire_packet(p)
            &&& is_ascii_chars(packet_text(p).unwrap())
            &&& packet_text(p).unwrap().len() < MAX_PACKET_LENGTH
            &&& unescape_spec(escape_spec(ascii_chars(chunk))) == ascii_chars(chunk)
            &&& payload_bytes(escape_spec(ascii_chars(chunk))) == chunk
        }),
{
    let plain = ascii_chars(chunk);
    let escaped = escape_spec(plain);
    let p = Packet::Data { session_id, pos, escaped };
    lemma_ascii_chars_is_ascii(chunk);
    lemma_escape_ascii(plain);
    lemma_escaped_total(chunk);
    lemma_payload_room(session_id, pos as nat);
    lemma_unescape_escape(plain);
    lemma_escaped_is_one_field(escaped);
    lemma_parse_encode(p);
    lemma_text_len(p);
    lemma_ascii_bytes_is_ascii(plain);
}

/// A message without payload travels in fewer than 1000 bytes.
pub proof fn lemma_plain_packet(p: Packet)
    requires
        is_wire_packet(p),
        !(p is Data),
    ensures
        is_ascii_chars(packet_text(p).unwrap()),
        packet_text(p).unwrap().len() < MAX_PACKET_LENGTH,
{
    lemma_parse_encode(p);
    lemma_text_len(p);
    match p {
        Packet::Connect { session_id } => {
            lemma_decimal_len(session_id as nat);
        },
        Packet::Close { session_id } => {
            lemma_decimal_len(session_id as nat);
        },
        Packet::Ack { session_id, length } => {
            lemma_decimal_len(session_id as nat);
            lemma_decimal_len(length as nat);
        },
        _ => {},
    }
}

/// What holds of each data message of a stream: it is a message that travels
/// in fewer than 1000 bytes, its position lies in the stream at or after
/// `pos`, its payload unescapes to the bytes of `data` at that position, and
/// it is full: unless it carries the last byte of `data`, one byte more
/// would not fit in its room.
pub open spec fn is_chunk_of(p: Packet, session_id: u64, pos: nat, data: Seq<u8>) -> bool {
    &&& p is Data
    &&& p->Data_session_id == session_id
    &&& is_wire_packet(p)
    &&& packet_text(p).unwrap().len() < MAX_PACKET_LENGTH
    &&& pos <= p->pos
    &&& p->pos + payload_bytes(p->escaped).len() <= pos + data.len()
    &&& payload_bytes(p->escaped).len() > 0
    &&& payload_bytes(p->escaped) == data.subrange(
        p->pos - pos,
        p->pos - pos + payload_bytes(p->escaped).len(),
    )
    &&& p->pos + payload_bytes(p->escaped).len() < pos + data.len() ==> escaped_total(
        data.subrange(p->pos - pos, p->pos - pos + payload_bytes(p->escaped).len() + 1),
    ) > payload_room(session_id, p->pos as nat)
}

/// Every data message of a stream of ASCII bytes that ends below 2^31 is a
/// chunk of it, and a stream of no bytes has no messages.
pub proof fn lemma_data_stream(session_id: u64, pos: nat, data: Seq<u8>)
    requires
        session_id < MAX_INT,
        pos + data.len() < MAX_INT,
        is_ascii_bytes(data),
    ensures
        forall|i: int|
            0 <= i < data_stream(session_id, pos, data).len() ==> is_chunk_of(
                #[trigger] data_stream(session_id, pos, data)[i],
                session_id,
                pos,
                data,
            ),
        data.len() == 0 ==> data_stream(session_id, pos, data).len() == 0,
        data.len() > 0 ==> data_stream(session_id, pos, data).len() > 0,
    decreases data.len(),
{
    let room = payload_room(session_id, pos);
    let n = fitting(data, room) as int;
    let ps = data_stream(session_id, pos, data);
    lemma_data_stream_unfold(session_id, pos, data);
    lemma_payload_room(session_id, pos);
    lemma_fitting(data, room);
    if data.len() > 0 {
        let head = data.take(n);
        let tail = data.skip(n);
        assert forall|k: int| 0 <= k < head.len() implies #[trigger] head[k] < 128 by {
            assert(head[k] == data[k]);
        }
        assert forall|k: int| 0 <= k < tail.len() implies #[trigger] tail[k] < 128 by {
            assert(tail[k] == data[k + n]);
        }
        lemma_data_packet(session_id, pos as u64, head);
        lemma_data_stream(session_id, (pos + n) as nat, tail);
        let rest = data_stream(session_id, (pos + n) as nat, tail);
        assert forall|i: int| 0 <= i < ps.len() implies is_chunk_of(
            #[trigger] ps[i],
            session_id,
            pos,
            data,
        ) by {
            if i == 0 {
                assert(head =~= data.subrange(0, n));
                if n < data.len() {
                    assert(data.take(n + 1) =~= data.subrange(0, n + 1));
                }
            } else {
                let p = rest[i - 1];
                assert(ps[i] == p);
                assert(is_chunk_of(p, session_id, (pos + n) as nat, tail));
                let k = payload_bytes(p->escaped).len() as int;
                let at = p->pos - (pos + n);
                assert(tail.subrange(at, at + k) =~= data.subrange(at + n, at + n + k));
                if p->pos + k < pos + data.len() {
                    assert(tail.subrange(at, at + k + 1) =~= data.subrange(
                        at + n,
                        at + n + k + 1,
                    ));
                }
            }
        }
    }
}

// ---------------------------------------------------------------------------
// The session itself
// ---------------------------------------------------------------------------

/// The state of one logical connection.
pub struct Session {
    session_id: u64,
    peer: PeerAddr,
    in_position: u64,
    out_position: u64,
    acked_out_position: u64,
    pending_out_payload: Vec<u8>,
    last_activity: u64,
    retransmit_at: Option<u64>,
    closed: bool,
}

impl View for Session {
    type V = SessionView;

    closed spec fn view(&self) -> SessionView {
        SessionView {
            session_id: self.session_id,
            peer: self.peer,
            recv_pos: self.in_position,
            send_pos: self.out_position,
            acked_pos: self.acked_out_position,
            pending_out: self.pending_out_payload@,
            last_activity: self.last_activity,
            retransmit_at: self.retransmit_at,
            closed: self.closed,
        }
    }
}

/// What a session hands back after a step.
#[derive(Debug)]
pub struct SessionOutput {
    /// Datagrams for the peer, in the order in which they are to be sent.
    pub packets: Vec<UdpMessage>,
    /// Bytes for the application, next in stream order.
    pub delivered: Option<Bytes>,
    /// The session has destroyed itself; the listener is to forget it.
    pub terminated: bool,
}

impl SessionOutput {
    /// The output is what the step says, with every message written out for `peer`.
    pub open spec fn carries(&self, peer: PeerAddr, step: SessionStep) -> bool {
        &&& self.packets@.len() == step.packets.len()
        &&& datagrams(self.packets@) == datagrams_to(peer, step.packets)
        &&& match self.delivered {
            Some(b) => step.delivered == Some(bytes_contents(b)),
            None => step.delivered is None,
        }
        &&& self.terminated == step.terminated
    }

    /// Every datagram is shorter than 1000 bytes.
    pub open spec fn fits(&self) -> bool {
        forall|i: int|
            0 <= i < self.packets@.len() ==> (#[trigger] self.packets@[i]).payload@.len()
                < MAX_PACKET_LENGTH
    }
}

fn deadline_after(now: u64) -> (at: u64)
    ensures
        at == retransmit_deadline(now),
{
    if now > u64::MAX - RETRANSMIT_MILLIS as u64 {
        u64::MAX
    } else {
        now + RETRANSMIT_MILLIS as u64
    }
}

fn expired(last_activity: u64, now: u64) -> (r: bool)
    ensures
        r == is_expired(last_activity, now),
{
    now > last_activity && now - last_activity > (IDLE_TIMEOUT_SECOND as u64) * 1000
}

impl Session {
    /// What holds of every session at all times.
    pub open spec fn wf(&self) -> bool {
        self@.wf()
    }

    /// A session that has just been opened by `peer`.
    pub fn new(session_id: u64, peer: PeerAddr, now: u64) -> (s: Session)
        requires
            session_id < MAX_INT,
        ensures
            s.wf(),
            s@ == SessionView::fresh(session_id, peer, now),
    {
        Session {
            session_id,
            peer,
            in_position: 0,
            out_position: 0,
            acked_out_position: 0,
            pending_out_payload: Vec::new(),
            last_activity: now,
            retransmit_at: None,
            closed: false,
        }
    }

    /// Destroys the session: cancels the timer and writes the one Close.
    fn handle_close(&mut self) -> (out: SessionOutput)
        requires
            old(self)@.session_id < MAX_INT,
        ensures
            final(self)@ == old(self)@.destroy().next,
            out.carries(old(self)@.peer, old(self)@.destroy()),
            out.fits(),
    {
        self.retransmit_at = None;
        self.closed = true;
        let ghost p = Packet::Close { session_id: self.session_id };
        let text = encode_close(self.session_id);
        proof {
            lemma_plain_packet(p);
            lemma_ascii_bytes_is_ascii(text@);
        }
        let mut packets: Vec<UdpMessage> = Vec::new();
        packets.push(UdpMessage::new(self.peer, text));
        proof {
            assert(datagrams(packets@) =~= datagrams_to(self.peer, seq![p]));
        }
        SessionOutput { packets, delivered: None, terminated: true }
    }

    /// The peer has been heard: the idle clock starts anew.
    fn reset_session_expiry_timer(&mut self, now: u64)
        ensures
            final(self)@ == old(self)@.heard(now),
    {
        self.last_activity = now;
    }

    /// Arms the retransmit timer, whether or not it was armed.
    fn schedule_retransmit(&mut self, now: u64)
        ensures
            final(self)@ == (SessionView {
                retransmit_at: Some(retransmit_deadline(now)),
                ..old(self)@
            }),
    {
        self.retransmit_at = Some(deadline_after(now));
    }

    /// Writes the Ack of the first `pos` bytes.
    fn send_ack(&self, pos: u64) -> (packets: Vec<UdpMessage>)
        requires
            self@.session_id < MAX_INT,
            pos < MAX_INT,
        ensures
            datagrams(packets@) == datagrams_to(
                self@.peer,
                seq![Packet::Ack { session_id: self@.session_id, length: pos }],
            ),
            packets@.len() == 1,
            packets@[0].payload@.len() < MAX_PACKET_LENGTH,
    {
        let ghost p = Packet::Ack { session_id: self.session_id, length: pos };
        let text = encode_ack(self.session_id, pos);
        proof {
            lemma_plain_packet(p);
            lemma_ascii_bytes_is_ascii(text@);
        }
        let mut packets: Vec<UdpMessage> = Vec::new();
        packets.push(UdpMessage::new(self.peer, text));
        proof {
            assert(datagrams(packets@) =~= datagrams_to(self.peer, seq![p]));
        }
        packets
    }

    /// Writes `data` as data messages from `out_position` on, and moves
    /// `out_position` past it.
    fn send_data(&mut self, data: Vec<u8>) -> (packets: Vec<UdpMessage>)
        requires
            old(self)@.session_id < MAX_INT,
            old(self)@.send_pos + data@.len() < MAX_INT,
            is_ascii_bytes(data@),
        ensures
            final(self)@ == (SessionView {
                send_pos: (old(self)@.send_pos + data@.len()) as u64,
                ..old(self)@
            }),
            packets@.len() == data_stream(
                old(self)@.session_id,
                old(self)@.send_pos as nat,
                data@,
            ).len(),
            datagrams(packets@) == datagrams_to(
                old(self)@.peer,
                data_stream(old(self)@.session_id, old(self)@.send_pos as nat, data@),
            ),
            forall|i: int|
                0 <= i < packets@.len() ==> (#[trigger] packets@[i]).payload@.len()
                    < MAX_PACKET_LENGTH,
    {
        let ghost all = data@;
        let ghost start = self.out_position as nat;
        let chunks = produce_chunks(self.session_id, self.out_position, data);
        let ghost cs = chunks.deep_view();
        let ghost mut sent: Seq<Packet> = Seq::empty();
        let ghost mut offset: nat = 0;
        let mut packets: Vec<UdpMessage> = Vec::new();
        let mut i: usize = 0;
        proof {
            assert(cs.skip(0) =~= cs);
            assert(all.skip(0) =~= all);
            assert(datagrams(packets@) =~= datagrams_to(self.peer, sent));
        }
        while i < chunks.len()
            invariant
                i <= chunks.len(),
                cs == chunks.deep_view(),
                cs.len() == chunks.len(),
                self.session_id < MAX_INT,
                is_ascii_bytes(all),
                offset <= all.len(),
                start + all.len() < MAX_INT,
                self.out_position == start + offset,
                cs.skip(i as int) =~= chunks_spec(
                    self.session_id,
                    start + offset,
                    all.skip(offset as int),
                ),
                sent + data_packets(self.session_id, start + offset, cs.skip(i as int))
                    =~= data_packets(self.session_id, start, cs),
                datagrams(packets@) =~= datagrams_to(self.peer, sent),
                packets@.len() == sent.len(),
                forall|k: int|
                    0 <= k < packets@.len() ==> (#[trigger] packets@[k]).payload@.len()
                        < MAX_PACKET_LENGTH,
                self@ == (SessionView { send_pos: self.out_position, ..old(self)@ }),
            decreases chunks.len() - i,
        {
            let each = &chunks[i];
            let ghost rest = all.skip(offset as int);
            let ghost tail = cs.skip(i as int);
            let ghost room = payload_room(self.session_id, start + offset);
            proof {
                assert(tail.len() > 0);
                assert(tail[0] == cs[i as int]);
                assert(cs[i as int] == each.deep_view());
                assert(each.deep_view() =~= each@);
                lemma_fitting(rest, room);
                assert(each@ == rest.take(fitting(rest, room) as int));
                assert(rest.skip(each@.len() as int) =~= all.skip((offset + each@.len()) as int));
                assert(tail.drop_first() =~= chunks_spec(
                    self.session_id,
                    start + offset + each@.len(),
                    all.skip((offset + each@.len()) as int),
                ));
                assert(tail.drop_first() =~= cs.skip(i + 1));
                assert forall|k: int| 0 <= k < each@.len() implies #[trigger] each@[k] < 128 by {
                    assert(each@[k] == all[offset + k]);
                }
                lemma_data_packet(self.session_id, self.out_position, each@);
            }
            let plain = ascii_to_string(each.as_slice(), 0, each.len());
            proof {
                assert(each@.subrange(0, each@.len() as int) =~= each@);
            }
            let escaped = escape_data(plain.as_str());
            let text = encode_data(self.session_id, self.out_position, escaped.as_str());
            let ghost p = Packet::Data {
                session_id: self.session_id,
                pos: self.out_position,
                escaped: escaped@,
            };
            proof {
                lemma_ascii_bytes_is_ascii(text@);
            }
            let ghost before = packets@;
            let message = UdpMessage::new(self.peer, text);
            proof {
                assert(message@ == datagram_of(self.peer, p));
            }
            packets.push(message);
            proof {
                lemma_datagrams_push(before, message, self.peer, sent, p);
                assert(sent.push(p) + data_packets(
                    self.session_id,
                    start + offset + each@.len(),
                    cs.skip(i + 1),
                ) =~= sent + data_packets(self.session_id, start + offset, tail));
                sent = sent.push(p);
                offset = offset + each@.len();
            }
            self.out_position = self.out_position + each.len() as u64;
            i += 1;
        }
        proof {
            assert(cs.skip(i as int) =~= Seq::<Seq<u8>>::empty());
            assert(sent =~= data_packets(self.session_id, start, cs));
            assert(offset == all.len()) by {
                if offset < all.len() {
                    let rest = all.skip(offset as int);
                    let room = payload_room(self.session_id, start + offset);
                    lemma_payload_room(self.session_id, start + offset);
                    lemma_fitting(rest, room);
                }
            }
        }
        packets
    }

    /// An output with nothing in it.
    fn quiet() -> (out: SessionOutput)
        ensures
            out.packets@.len() == 0,
            out.delivered is None,
            !out.terminated,
            out.fits(),
            forall|peer: PeerAddr|
                datagrams(out.packets@) == #[trigger] datagrams_to(peer, Seq::<Packet>::empty()),
    {
        let out = SessionOutput { packets: Vec::new(), delivered: None, terminated: false };
        proof {
            assert forall|peer: PeerAddr|
                datagrams(out.packets@) == #[trigger] datagrams_to(
                    peer,
                    Seq::<Packet>::empty(),
                ) by {
                assert(datagrams(out.packets@) =~= datagrams_to(peer, Seq::<Packet>::empty()));
            }
        }
        out
    }

    /// Takes a command from the application.
    ///
    /// A write is refused, and changes nothing, when the session is closed,
    /// when the bytes would carry the stream past the last position that the
    /// wire can name, or when they are not all ASCII. Otherwise the bytes are
    /// queued and sent at once. A shutdown destroys the session.
    pub fn handle_command(&mut self, cmd: SessionCommand, now: u64) -> (r: Result<
        SessionOutput,
        Error,
    >)
        requires
            old(self).wf(),
        ensures
            final(self).wf(),
            match r {
                Ok(out) => {
                    &&& old(self)@.on_command(cmd@, now) is Ok
                    &&& final(self)@ == old(self)@.on_command(cmd@, now).unwrap().next
                    &&& out.carries(old(self)@.peer, old(self)@.on_command(cmd@, now).unwrap())
                    &&& out.fits()
                },
                Err(e) => {
                    &&& old(self)@.on_command(cmd@, now) == Err::<SessionStep, Error>(e)
                    &&& final(self)@ == old(self)@
                },
            },
    {
        match cmd {
            SessionCommand::Write { data } => {
                if self.closed {
                    return Err(Error::SessionClosed);
                }
                if data.len() as u64 >= MAX_INT - self.out_position {
                    return Err(Error::StreamTooLong);
                }
                if !all_ascii(data.as_slice()) {
                    return Err(Error::NonAsciiPayload);
                }
                let mut copy = slice_to_vec(data.as_slice());
                self.pending_out_payload.append(&mut copy);
                let packets = self.send_data(data);
                if self.retransmit_at.is_none() && self.pending_out_payload.len() > 0 {
                    self.schedule_retransmit(now);
                }
                proof {
                    let joined = old(self)@.pending_out + data@;
                    assert forall|i: int| 0 <= i < joined.len() implies #[trigger] joined[i]
                        < 128 by {
                        if i < old(self)@.pending_out.len() {
                            assert(joined[i] == old(self)@.pending_out[i]);
                        } else {
                            assert(joined[i] == data@[i - old(self)@.pending_out.len()]);
                        }
                    }
                }
                Ok(SessionOutput { packets, delivered: None, terminated: false })
            },
            SessionCommand::Shutdown => {
                if self.closed {
                    Err(Error::SessionClosed)
                } else {
                    Ok(self.handle_close())
                }
            },
        }
    }

    /// Takes an event: a message from the peer, or a timer.
    ///
    /// What the session does is `on_event`, to the letter: the new state, the
    /// datagrams, the delivered bytes, and whether the session is gone.
    pub fn handle_event(&mut self, event: SessionEvent, now: u64) -> (out: SessionOutput)
        requires
            old(self).wf(),
        ensures
            final(self).wf(),
            final(self)@ == old(self)@.on_event(event@, now).next,
            out.carries(old(self)@.peer, old(self)@.on_event(event@, now)),
            out.fits(),
    {
        if self.closed {
            return Self::quiet();
        }
        match event {
            SessionEvent::Close { reason: _ } => {
                self.reset_session_expiry_timer(now);
                self.handle_close()
            },
            SessionEvent::CheckSessionExpiry => {
                if expired(self.last_activity, now) {
                    self.handle_close()
                } else {
                    Self::quiet()
                }
            },
            SessionEvent::RepeatedConnect => {
                self.reset_session_expiry_timer(now);
                Self::quiet()
            },
            SessionEvent::Data { pos, escaped_data } => {
                self.reset_session_expiry_timer(now);
                let unescaped = unescape_data(escaped_data.as_str());
                let bytes = unescaped.as_str().as_bytes_vec();
                let byte_len = bytes.len();
                if pos == self.in_position && (byte_len as u64) < MAX_INT - self.in_position {
                    self.in_position = self.in_position + byte_len as u64;
                    let packets = self.send_ack(self.in_position);
                    let delivered = if byte_len > 0 {
                        Some(bytes_from_vec(bytes))
                    } else {
                        None
                    };
                    SessionOutput { packets, delivered, terminated: false }
                } else {
                    let packets = self.send_ack(self.in_position);
                    SessionOutput { packets, delivered: None, terminated: false }
                }
            },
            SessionEvent::Ack { length } => {
                self.reset_session_expiry_timer(now);
                if length <= self.acked_out_position {
                    return Self::quiet();
                }
                if length > self.out_position {
                    return self.handle_close();
                }
                let confirmed = (length - self.acked_out_position) as usize;
                let rest = self.pending_out_payload.split_off(confirmed);
                self.pending_out_payload = rest;
                self.acked_out_position = length;
                proof {
                    let kept = old(self)@.pending_out.skip(confirmed as int);
                    assert(self.pending_out_payload@ =~= kept);
                    assert forall|i: int| 0 <= i < kept.len() implies #[trigger] kept[i] < 128 by {
                        assert(kept[i] == old(self)@.pending_out[i + confirmed]);
                    }
                }
                if self.pending_out_payload.len() == 0 {
                    self.retransmit_at = None;
                    proof {
                        lemma_data_stream_unfold(
                            self.session_id,
                            length as nat,
                            self.pending_out_payload@,
                        );
                    }
                    Self::quiet()
                } else {
                    self.out_position = length;
                    let copy = slice_to_vec(self.pending_out_payload.as_slice());
                    let packets = self.send_data(copy);
                    self.schedule_retransmit(now);
                    SessionOutput { packets, delivered: None, terminated: false }
                }
            },
            SessionEvent::RetransmitPendingData => {
                if self.pending_out_payload.len() == 0 {
                    Self::quiet()
                } else {
                    self.out_position = self.acked_out_position;
                    let copy = slice_to_vec(self.pending_out_payload.as_slice());
                    let packets = self.send_data(copy);
                    self.schedule_retransmit(now);
                    SessionOutput { packets, delivered: None, terminated: false }
                }
            },
        }
    }

    /// The session's id.
    pub fn session_id(&self) -> (id: u64)
        ensures
            id == self@.session_id,
    {
        self.session_id
    }

    /// The peer's address.
    pub fn peer(&self) -> (peer: PeerAddr)
        ensures
            peer == self@.peer,
    {
        self.peer
    }

    /// The next offset expected from the peer.
    pub fn recv_pos(&self) -> (pos: u64)
        ensures
            pos == self@.recv_pos,
    {
        self.in_position
    }

    /// The number of bytes that the application has handed over.
    pub fn send_pos(&self) -> (pos: u64)
        ensures
            pos == self@.send_pos,
    {
        self.out_position
    }

    /// The highest length that the peer has acknowledged.
    pub fn acked_pos(&self) -> (pos: u64)
        ensures
            pos == self@.acked_pos,
    {
        self.acked_out_position
    }

    /// The bytes handed over and not yet acknowledged.
    pub fn pending_out(&self) -> (bytes: &[u8])
        ensures
            bytes@ == self@.pending_out,
    {
        self.pending_out_payload.as_slice()
    }

    /// When the peer was last heard.
    pub fn last_activity(&self) -> (at: u64)
        ensures
            at == self@.last_activity,
    {
        self.last_activity
    }

    /// When the retransmit timer fires, if it is armed.
    pub fn retransmit_at(&self) -> (at: Option<u64>)
        ensures
            at == self@.retransmit_at,
    {
        self.retransmit_at
    }

    /// Whether the session has destroyed itself.
    pub fn is_closed(&self) -> (closed: bool)
        ensures
            closed == self@.closed,
    {
        self.closed
    }
}

} // verus!
