//! The listener: one table of open sessions behind one endpoint. It takes
//! every datagram that arrives, answers for sessions it does not know, and
//! hands the rest to the session that the datagram names.

use crate::error::Error;
use crate::lrcp::protocol::{
    encode_ack, encode_close, parse_packet, parse_spec, LrcpMessage, Packet, MAX_INT,
    MAX_PACKET_LENGTH,
};
use crate::lrcp::session::{
    datagram_of, datagrams, datagrams_to, lemma_plain_packet, CommandView, Datagram, EventView,
    PeerAddr, Session, SessionCommand, SessionEvent, SessionOutput, SessionStep, SessionView,
    UdpMessage,
};
use crate::lrcp::stream::{bytes_contents, LrcpStream};
use crate::lrcp::session_laws::{lemma_command_keeps_wf, lemma_event_keeps_wf};
use crate::lrcp::text::lemma_ascii_bytes_is_ascii;
use bytes::Bytes;
use std::collections::HashMap;
use vstd::prelude::*;
use vstd::string::StringExecFns;

verus! {

broadcast use vstd::std_specs::hash::group_hash_axioms;

/// A stream that has just been accepted, and the peer that opened it.
pub struct LrcpStreamPair {
    pub stream: LrcpStream,
    pub addr: PeerAddr,
}

impl LrcpStreamPair {
    /// The stream of a session together with the address of its peer.
    pub fn new(stream: LrcpStream, addr: PeerAddr) -> (pair: Self)
        ensures
            pair.stream == stream,
            pair.addr == addr,
    {
        LrcpStreamPair { stream, addr }
    }
}

/// The open sessions, by id.
pub type Sessions = Map<u64, SessionView>;

/// What the listener does in one step.
pub struct RouteStep {
    pub next: Sessions,
    /// The messages of this step, each with the address it goes to: the
    /// sender of the datagram when the listener answers itself, the session's
    /// peer when a session does.
    pub outgoing: Seq<(PeerAddr, Packet)>,
    /// The peer whose session has been opened in this step.
    pub accepted: Option<PeerAddr>,
    /// The bytes for the application of the session that the step names.
    pub delivered: Option<Seq<u8>>,
    /// The session that the step names was open and is gone now.
    pub terminated: bool,
}

/// Every number in the message is below 2^31.
pub open spec fn in_range(p: Packet) -> bool {
    match p {
        Packet::Connect { session_id } => session_id < MAX_INT,
        Packet::Close { session_id } => session_id < MAX_INT,
        Packet::Terminate { session_id } => session_id < MAX_INT,
        Packet::Data { session_id, pos, .. } => session_id < MAX_INT && pos < MAX_INT,
        Packet::Ack { session_id, length } => session_id < MAX_INT && length < MAX_INT,
    }
}

/// What holds of the table at all times: every session is sound, sits under
/// its own id, and is open.
pub open spec fn sessions_wf(m: Sessions) -> bool {
    forall|id: u64| #[trigger]
        m.contains_key(id) ==> m[id].wf() && m[id].session_id == id && !m[id].closed
}

/// The messages `packets`, all for `target`.
pub open spec fn addressed(target: PeerAddr, packets: Seq<Packet>) -> Seq<(PeerAddr, Packet)> {
    Seq::new(packets.len(), |i: int| (target, packets[i]))
}

/// The datagrams that carry the messages, each to its address.
pub open spec fn datagrams_of(outgoing: Seq<(PeerAddr, Packet)>) -> Seq<Datagram> {
    Seq::new(outgoing.len(), |i: int| datagram_of(outgoing[i].0, outgoing[i].1))
}

/// Nothing happens.
pub open spec fn ignore(m: Sessions) -> RouteStep {
    RouteStep {
        next: m,
        outgoing: Seq::empty(),
        accepted: None,
        delivered: None,
        terminated: false,
    }
}

/// The listener answers the sender itself, with one message.
pub open spec fn reply(m: Sessions, addr: PeerAddr, p: Packet) -> RouteStep {
    RouteStep { outgoing: seq![(addr, p)], ..ignore(m) }
}

/// The session `id`, which is open, takes a step; if it destroys itself it
/// leaves the table.
pub open spec fn session_step(m: Sessions, id: u64, step: SessionStep) -> RouteStep {
    RouteStep {
        next: if step.terminated {
            m.remove(id)
        } else {
            m.insert(id, step.next)
        },
        outgoing: addressed(m[id].peer, step.packets),
        accepted: None,
        delivered: step.delivered,
        terminated: step.terminated,
    }
}

/// The event goes to the session `id` if it is open; nothing happens if not.
pub open spec fn dispatch(m: Sessions, id: u64, event: EventView, now: u64) -> RouteStep {
    if m.contains_key(id) {
        session_step(m, id, m[id].on_event(event, now))
    } else {
        ignore(m)
    }
}

/// A message for a session goes to it if it is open; if not, the sender is
/// told so with a Close.
pub open spec fn forward(m: Sessions, addr: PeerAddr, id: u64, event: EventView, now: u64)
    -> RouteStep {
    if m.contains_key(id) {
        session_step(m, id, m[id].on_event(event, now))
    } else {
        reply(m, addr, Packet::Close { session_id: id })
    }
}

/// What the listener does with a message that came from `addr`.
///
/// Connect is always answered with an Ack of nothing; it opens the session
/// unless that is open, and then only tells the session that the peer is
/// alive. A message with a number out of range is dropped.
pub open spec fn route(m: Sessions, addr: PeerAddr, p: Packet, now: u64) -> RouteStep {
    if !in_range(p) {
        ignore(m)
    } else {
        match p {
            Packet::Connect { session_id } => {
                let ack = Packet::Ack { session_id, length: 0 };
                if m.contains_key(session_id) {
                    RouteStep {
                        next: m.insert(
                            session_id,
                            m[session_id].on_event(EventView::RepeatedConnect, now).next,
                        ),
                        ..reply(m, addr, ack)
                    }
                } else {
                    RouteStep {
                        next: m.insert(session_id, SessionView::fresh(session_id, addr, now)),
                        accepted: Some(addr),
                        ..reply(m, addr, ack)
                    }
                }
            },
            Packet::Data { session_id, pos, escaped } => forward(
                m,
                addr,
                session_id,
                EventView::Data { pos, escaped },
                now,
            ),
            Packet::Ack { session_id, length } => forward(
                m,
                addr,
                session_id,
                EventView::Ack { length },
                now,
            ),
            Packet::Close { session_id } => forward(m, addr, session_id, EventView::Close, now),
            Packet::Terminate { session_id } => RouteStep {
                next: m.remove(session_id),
                terminated: m.contains_key(session_id),
                ..ignore(m)
            },
        }
    }
}

/// What the listener does with a datagram that came from `addr`: what cannot
/// be parsed is dropped without a word.
pub open spec fn receive(m: Sessions, addr: PeerAddr, datagram: Seq<u8>, now: u64) -> RouteStep {
    match parse_spec(datagram) {
        Ok(p) => route(m, addr, p, now),
        Err(_) => ignore(m),
    }
}

/// What the listener does with a command for the session `id`.
pub open spec fn command(m: Sessions, id: u64, c: CommandView, now: u64) -> Result<RouteStep, Error> {
    if m.contains_key(id) {
        match m[id].on_command(c, now) {
            Ok(step) => Ok(session_step(m, id, step)),
            Err(e) => Err(e),
        }
    } else {
        Err(Error::SessionClosed)
    }
}

/// What the listener hands back after a step.
pub struct RouteOutput {
    /// Datagrams to send, in order.
    pub packets: Vec<UdpMessage>,
    /// The stream of a session that has just been opened.
    pub accepted: Option<LrcpStreamPair>,
    /// Bytes for the application of the session that the step names.
    pub delivered: Option<Bytes>,
    /// The session that the step names was open and is gone now.
    pub terminated: bool,
}

impl RouteOutput {
    /// The output is what the step says, with every message written out.
    pub open spec fn carries(&self, step: RouteStep) -> bool {
        &&& self.packets@.len() == step.outgoing.len()
        &&& datagrams(self.packets@) == datagrams_of(step.outgoing)
        &&& match self.accepted {
            Some(pair) => step.accepted == Some(pair.addr) && pair.stream@ == Seq::<u8>::empty(),
            None => step.accepted is None,
        }
        &&& match self.delivered {
            Some(b) => step.delivered == Some(bytes_contents(b)),
            None => step.delivered is None,
        }
        &&& self.terminated == step.terminated
    }

    /// Every datagram is shorter than 1000 bytes.
    pub open spec fn fits(&self) -> bool {
        forall|i: int|
            0 <= i < self.packets@.len() ==> (#[trigger] self.packets@[i]).payload@.len()
                < MAX_PACKET_LENGTH
    }
}

/// The table of open sessions behind one endpoint.
pub struct LrcpListener {
    sessions: HashMap<u64, Session>,
}

impl View for LrcpListener {
    type V = Sessions;

    closed spec fn view(&self) -> Sessions {
        Map::new(|id: u64| self.sessions@.contains_key(id), |id: u64| self.sessions@[id]@)
    }
}

fn in_range_message(msg: &LrcpMessage) -> (r: bool)
    ensures
        r == in_range(msg@),
{
    match msg {
        LrcpMessage::Connect { session_id } => *session_id < MAX_INT,
        LrcpMessage::ClientClose { session_id } => *session_id < MAX_INT,
        LrcpMessage::SessionTerminate { session_id } => *session_id < MAX_INT,
        LrcpMessage::Data { session_id, pos, .. } => *session_id < MAX_INT && *pos < MAX_INT,
        LrcpMessage::Ack { session_id, length } => *session_id < MAX_INT && *length < MAX_INT,
    }
}

impl LrcpListener {
    /// What holds of the listener at all times.
    pub open spec fn wf(&self) -> bool {
        sessions_wf(self@)
    }

    /// A listener with no session.
    pub fn new() -> (listener: Self)
        ensures
            listener.wf(),
            listener@ == Map::<u64, SessionView>::empty(),
    {
        let listener = LrcpListener { sessions: HashMap::new() };
        proof {
            assert(listener@ =~= Map::<u64, SessionView>::empty());
        }
        listener
    }

    /// Whether the session `session_id` is open.
    pub fn is_open(&self, session_id: u64) -> (r: bool)
        ensures
            r == self@.contains_key(session_id),
    {
        self.sessions.contains_key(&session_id)
    }

    /// When the retransmit timer of the session `session_id` fires, if the
    /// session is open and the timer armed.
    pub fn retransmit_at(&self, session_id: u64) -> (at: Option<u64>)
        ensures
            at == if self@.contains_key(session_id) {
                self@[session_id].retransmit_at
            } else {
                None
            },
    {
        match self.sessions.get(&session_id) {
            Some(session) => session.retransmit_at(),
            None => None,
        }
    }

    fn ignored() -> (out: RouteOutput)
        ensures
            out.packets@.len() == 0,
            out.accepted is None,
            out.delivered is None,
            !out.terminated,
            out.fits(),
    {
        RouteOutput { packets: Vec::new(), accepted: None, delivered: None, terminated: false }
    }

    /// The listener's own answer to `addr`: one Ack of nothing, or one Close.
    fn answer(addr: PeerAddr, session_id: u64, close: bool) -> (packets: Vec<UdpMessage>)
        requires
            session_id < MAX_INT,
        ensures
            datagrams(packets@) == datagrams_of(
                seq![
                    (
                        addr,
                        if close {
                            Packet::Close { session_id }
                        } else {
                            Packet::Ack { session_id, length: 0 }
                        },
                    ),
                ],
            ),
            packets@.len() == 1,
            packets@[0].payload@.len() < MAX_PACKET_LENGTH,
    {
        let ghost p = if close {
            Packet::Close { session_id }
        } else {
            Packet::Ack { session_id, length: 0 }
        };
        let text = if close {
            encode_close(session_id)
        } else {
            encode_ack(session_id, 0)
        };
        proof {
            lemma_plain_packet(p);
            lemma_ascii_bytes_is_ascii(text@);
        }
        let mut packets: Vec<UdpMessage> = Vec::new();
        packets.push(UdpMessage::new(addr, text));
        proof {
            assert(datagrams(packets@) =~= datagrams_of(seq![(addr, p)]));
        }
        packets
    }

    /// Puts a session back after its step, unless it has destroyed itself.
    fn settle(&mut self, session: Session, out: SessionOutput) -> (r: RouteOutput)
        requires
            old(self).wf(),
            !old(self)@.contains_key(session@.session_id),
            session.wf(),
            out.terminated == session@.closed,
        ensures
            final(self).wf(),
            final(self)@ == if out.terminated {
                old(self)@
            } else {
                old(self)@.insert(session@.session_id, session@)
            },
            r.packets == out.packets,
            r.delivered == out.delivered,
            r.accepted is None,
            r.terminated == out.terminated,
    {
        let ghost before = self@;
        let ghost id = session@.session_id;
        let ghost view = session@;
        if !out.terminated {
            let key = session.session_id();
            self.sessions.insert(key, session);
            proof {
                assert(self@ =~= before.insert(id, view));
            }
        }
        RouteOutput {
            packets: out.packets,
            accepted: None,
            delivered: out.delivered,
            terminated: out.terminated,
        }
    }

    /// Hands an event to the session `session_id`. If the session is not
    /// open, the address in `answer` is told so with a Close, and nothing
    /// happens if there is no such address.
    fn deliver(
        &mut self,
        session_id: u64,
        event: SessionEvent,
        now: u64,
        answer: Option<PeerAddr>,
    ) -> (out: RouteOutput)
        requires
            old(self).wf(),
            answer is Some ==> session_id < MAX_INT,
        ensures
            final(self).wf(),
            match answer {
                Some(addr) => final(self)@ == forward(old(self)@, addr, session_id, event@, now).next
                    && out.carries(forward(old(self)@, addr, session_id, event@, now)),
                None => final(self)@ == dispatch(old(self)@, session_id, event@, now).next
                    && out.carries(dispatch(old(self)@, session_id, event@, now)),
            },
            out.fits(),
    {
        let ghost before = self@;
        match self.sessions.remove(&session_id) {
            Some(session) => {
                let mut session = session;
                proof {
                    assert(before.contains_key(session_id));
                    assert(session@ == before[session_id]);
                    assert(self@ =~= before.remove(session_id));
                    lemma_event_keeps_wf(session@, event@, now);
                }
                let ghost step = before[session_id].on_event(event@, now);
                let result = session.handle_event(event, now);
                let out = self.settle(session, result);
                proof {
                    assert(before.remove(session_id).insert(session_id, session@)
                        =~= before.insert(session_id, session@));
                    assert(datagrams_to(before[session_id].peer, step.packets) =~= datagrams_of(
                        addressed(before[session_id].peer, step.packets),
                    ));
                }
                out
            },
            None => {
                proof {
                    assert(!before.contains_key(session_id));
                    assert(self@ =~= before);
                }
                match answer {
                    Some(addr) => {
                        let packets = Self::answer(addr, session_id, true);
                        RouteOutput { packets, accepted: None, delivered: None, terminated: false }
                    },
                    None => {
                        let out = Self::ignored();
                        proof {
                            assert(datagrams(out.packets@) =~= datagrams_of(
                                Seq::<(PeerAddr, Packet)>::empty(),
                            ));
                        }
                        out
                    },
                }
            },
        }
    }

    /// Takes a message that came from `addr`, and does with it what `route`
    /// says: answers, opens a session, or hands it to the session it names.
    pub fn route_lrcp_message(&mut self, addr: PeerAddr, lrcp_message: LrcpMessage, now: u64) -> (out:
        RouteOutput)
        requires
            old(self).wf(),
        ensures
            final(self).wf(),
            final(self)@ == route(old(self)@, addr, lrcp_message@, now).next,
            out.carries(route(old(self)@, addr, lrcp_message@, now)),
            out.fits(),
    {
        let ghost before = self@;
        if !in_range_message(&lrcp_message) {
            let out = Self::ignored();
            proof {
                assert(datagrams(out.packets@) =~= datagrams_of(Seq::<(PeerAddr, Packet)>::empty()));
            }
            return out;
        }
        match lrcp_message {
            LrcpMessage::Connect { session_id } => {
                let packets = Self::answer(addr, session_id, false);
                match self.sessions.remove(&session_id) {
                    Some(session) => {
                        let mut session = session;
                        proof {
                            assert(session@ == before[session_id]);
                            assert(self@ =~= before.remove(session_id));
                            lemma_event_keeps_wf(session@, EventView::RepeatedConnect, now);
                        }
                        let _ = session.handle_event(SessionEvent::RepeatedConnect, now);
                        let ghost view = session@;
                        self.sessions.insert(session_id, session);
                        proof {
                            assert(self@ =~= before.insert(session_id, view));
                        }
                        RouteOutput { packets, accepted: None, delivered: None, terminated: false }
                    },
                    None => {
                        let session = Session::new(session_id, addr, now);
                        let ghost view = session@;
                        self.sessions.insert(session_id, session);
                        proof {
                            assert(self@ =~= before.insert(session_id, view));
                        }
                        let pair = LrcpStreamPair::new(LrcpStream::new(), addr);
                        RouteOutput {
                            packets,
                            accepted: Some(pair),
                            delivered: None,
                            terminated: false,
                        }
                    },
                }
            },
            LrcpMessage::Data { session_id, pos, escaped_data } => self.deliver(
                session_id,
                SessionEvent::Data { pos, escaped_data },
                now,
                Some(addr),
            ),
            LrcpMessage::Ack { session_id, length } => self.deliver(
                session_id,
                SessionEvent::Ack { length },
                now,
                Some(addr),
            ),
            LrcpMessage::ClientClose { session_id } => self.deliver(
                session_id,
                SessionEvent::Close { reason: String::from_str("client close connection") },
                now,
                Some(addr),
            ),
            LrcpMessage::SessionTerminate { session_id } => {
                let gone = self.sessions.remove(&session_id);
                proof {
                    assert(self@ =~= before.remove(session_id));
                }
                let out = RouteOutput {
                    packets: Vec::new(),
                    accepted: None,
                    delivered: None,
                    terminated: gone.is_some(),
                };
                proof {
                    assert(datagrams(out.packets@) =~= datagrams_of(Seq::<(PeerAddr, Packet)>::empty()));
                }
                out
            },
        }
    }

    /// Takes a datagram that came from `addr`. What cannot be parsed is
    /// dropped without a word; the rest is routed.
    pub fn handle_datagram(&mut self, addr: PeerAddr, datagram: &[u8], now: u64) -> (out:
        RouteOutput)
        requires
            old(self).wf(),
        ensures
            final(self).wf(),
            final(self)@ == receive(old(self)@, addr, datagram@, now).next,
            out.carries(receive(old(self)@, addr, datagram@, now)),
            out.fits(),
    {
        match parse_packet(datagram) {
            Ok(message) => self.route_lrcp_message(addr, message, now),
            Err(_) => {
                let out = Self::ignored();
                proof {
                    assert(datagrams(out.packets@) =~= datagrams_of(Seq::<(PeerAddr, Packet)>::empty()));
                }
                out
            },
        }
    }

    /// Hands a timer event, or any other, to the session `session_id`.
    /// Nothing happens if the session is not open.
    pub fn handle_event(&mut self, session_id: u64, event: SessionEvent, now: u64) -> (out:
        RouteOutput)
        requires
            old(self).wf(),
        ensures
            final(self).wf(),
            final(self)@ == dispatch(old(self)@, session_id, event@, now).next,
            out.carries(dispatch(old(self)@, session_id, event@, now)),
            out.fits(),
    {
        self.deliver(session_id, event, now, None)
    }

    /// Hands a command of the application to the session `session_id`.
    ///
    /// The command is refused when the session refuses it, and with
    /// `SessionClosed` when the session is not open; then nothing changes.
    pub fn handle_command(&mut self, session_id: u64, cmd: SessionCommand, now: u64) -> (r: Result<
        RouteOutput,
        Error,
    >)
        requires
            old(self).wf(),
        ensures
            final(self).wf(),
            match r {
                Ok(out) => {
                    &&& command(old(self)@, session_id, cmd@, now) is Ok
                    &&& final(self)@ == command(old(self)@, session_id, cmd@, now).unwrap().next
                    &&& out.carries(command(old(self)@, session_id, cmd@, now).unwrap())
                    &&& out.fits()
                },
                Err(e) => {
                    &&& command(old(self)@, session_id, cmd@, now) == Err::<RouteStep, Error>(e)
                    &&& final(self)@ == old(self)@
                },
            },
    {
        let ghost before = self@;
        match self.sessions.remove(&session_id) {
            Some(session) => {
                let mut session = session;
                proof {
                    assert(session@ == before[session_id]);
                    assert(self@ =~= before.remove(session_id));
                    lemma_command_keeps_wf(session@, cmd@, now);
                }
                let ghost tried = before[session_id].on_command(cmd@, now);
                match session.handle_command(cmd, now) {
                    Ok(result) => {
                        let out = self.settle(session, result);
                        proof {
                            assert(before.remove(session_id).insert(session_id, session@)
                                =~= before.insert(session_id, session@));
                            let step = tried.unwrap();
                            assert(datagrams_to(before[session_id].peer, step.packets)
                                =~= datagrams_of(addressed(before[session_id].peer, step.packets)));
                        }
                        Ok(out)
                    },
                    Err(e) => {
                        let ghost view = session@;
                        self.sessions.insert(session_id, session);
                        proof {
                            assert(self@ =~= before);
                        }
                        Err(e)
                    },
                }
            },
            None => {
                proof {
                    assert(self@ =~= before);
                }
                Err(Error::SessionClosed)
            },
        }
    }
}

} // verus!
