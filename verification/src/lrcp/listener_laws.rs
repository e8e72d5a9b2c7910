//! What holds of the listener and its sessions together.

use crate::lrcp::codec_laws::is_wire_packet;
use crate::lrcp::listener::{
    addressed, command, dispatch, ignore, in_range, receive, reply, route, sessions_wf,
    RouteStep, Sessions,
};
use crate::lrcp::protocol::{packet_text, parse_spec, Packet, MAX_INT, MAX_PACKET_LENGTH};
use crate::lrcp::session::{
    lemma_plain_packet, CommandView, EventView, PeerAddr, SessionView,
};
use crate::lrcp::session_laws::{
    lemma_command_keeps_wf, lemma_command_packets, lemma_event_keeps_wf, lemma_event_packets,
    sent_by,
};
use vstd::prelude::*;

verus! {

/// Routing keeps the table sound.
pub proof fn lemma_route_keeps_wf(m: Sessions, addr: PeerAddr, p: Packet, now: u64)
    requires
        sessions_wf(m),
    ensures
        sessions_wf(route(m, addr, p, now).next),
{
    let id = p.session_id();
    let next = route(m, addr, p, now).next;
    if in_range(p) {
        if m.contains_key(id) {
            match p {
                Packet::Connect { .. } => {
                    lemma_event_keeps_wf(m[id], EventView::RepeatedConnect, now);
                },
                Packet::Data { pos, escaped, .. } => {
                    lemma_event_keeps_wf(m[id], EventView::Data { pos, escaped }, now);
                },
                Packet::Ack { length, .. } => {
                    lemma_event_keeps_wf(m[id], EventView::Ack { length }, now);
                },
                Packet::Close { .. } => {
                    lemma_event_keeps_wf(m[id], EventView::Close, now);
                },
                Packet::Terminate { .. } => {},
            }
        }
    }
    assert forall|k: u64| #[trigger] next.contains_key(k) implies next[k].wf() && next[k].session_id
        == k && !next[k].closed by {
        if k != id {
            assert(m.contains_key(k));
        }
    }
}

/// Timers keep the table sound.
pub proof fn lemma_dispatch_keeps_wf(m: Sessions, id: u64, event: EventView, now: u64)
    requires
        sessions_wf(m),
    ensures
        sessions_wf(dispatch(m, id, event, now).next),
{
    let next = dispatch(m, id, event, now).next;
    if m.contains_key(id) {
        lemma_event_keeps_wf(m[id], event, now);
    }
    assert forall|k: u64| #[trigger] next.contains_key(k) implies next[k].wf() && next[k].session_id
        == k && !next[k].closed by {
        if k != id {
            assert(m.contains_key(k));
        }
    }
}

/// Every message that leaves on a routed message travels in fewer than 1000
/// bytes and names the session that the routed message named.
pub proof fn lemma_route_packets(m: Sessions, addr: PeerAddr, p: Packet, now: u64)
    requires
        sessions_wf(m),
    ensures
        forall|i: int|
            0 <= i < route(m, addr, p, now).outgoing.len() ==> {
                let q = (#[trigger] route(m, addr, p, now).outgoing[i]).1;
                &&& is_wire_packet(q)
                &&& packet_text(q).unwrap().len() < MAX_PACKET_LENGTH
                &&& q.session_id() == p.session_id()
            },
{
    let id = p.session_id();
    let step = route(m, addr, p, now);
    if in_range(p) {
        match p {
            Packet::Connect { .. } => {
                lemma_plain_packet(step.outgoing[0].1);
            },
            Packet::Terminate { .. } => {},
            _ => {
                if m.contains_key(id) {
                    let event = match p {
                        Packet::Data { pos, escaped, .. } => EventView::Data { pos, escaped },
                        Packet::Ack { length, .. } => EventView::Ack { length },
                        _ => EventView::Close,
                    };
                    lemma_event_packets(m[id], event, now);
                    let inner = m[id].on_event(event, now);
                    assert(step.outgoing == addressed(m[id].peer, inner.packets));
                    assert forall|i: int| 0 <= i < step.outgoing.len() implies {
                        let q = (#[trigger] step.outgoing[i]).1;
                        &&& is_wire_packet(q)
                        &&& packet_text(q).unwrap().len() < MAX_PACKET_LENGTH
                        &&& q.session_id() == id
                    } by {
                        assert(sent_by(inner.packets[i], inner.next));
                        lemma_event_keeps_wf(m[id], event, now);
                    }
                } else {
                    lemma_plain_packet(step.outgoing[0].1);
                }
            },
        }
    }
}

/// The first Connect opens the session, fresh, and is answered with an Ack
/// of nothing.
pub proof fn lemma_first_connect(m: Sessions, addr: PeerAddr, session_id: u64, now: u64)
    requires
        session_id < MAX_INT,
        !m.contains_key(session_id),
    ensures
        ({
            let step = route(m, addr, Packet::Connect { session_id }, now);
            &&& step.outgoing == seq![(addr, Packet::Ack { session_id, length: 0 })]
            &&& step.accepted == Some(addr)
            &&& step.next == m.insert(session_id, SessionView::fresh(session_id, addr, now))
        }),
{
}

/// A Connect for an open session is answered with an Ack of nothing all the
/// same, and leaves the session as it is: only the time at which the peer
/// was last heard moves.
pub proof fn lemma_duplicate_connect(m: Sessions, addr: PeerAddr, session_id: u64, now: u64)
    requires
        sessions_wf(m),
        session_id < MAX_INT,
        m.contains_key(session_id),
    ensures
        ({
            let step = route(m, addr, Packet::Connect { session_id }, now);
            &&& step.outgoing == seq![(addr, Packet::Ack { session_id, length: 0 })]
            &&& step.accepted is None
            &&& !step.terminated
            &&& step.delivered is None
            &&& step.next == m.insert(
                session_id,
                SessionView { last_activity: now, ..m[session_id] },
            )
        }),
{
}

/// Anything but a Connect for a session that is not open is answered with
/// one Close to the sender, and nothing else happens: no state is made.
pub proof fn lemma_unknown_session(m: Sessions, addr: PeerAddr, p: Packet, now: u64)
    requires
        in_range(p),
        p is Data || p is Ack || p is Close,
        !m.contains_key(p.session_id()),
    ensures
        route(m, addr, p, now) == reply(m, addr, Packet::Close { session_id: p.session_id() }),
        route(m, addr, p, now).next == m,
        route(m, addr, p, now).outgoing == seq![
            (addr, Packet::Close { session_id: p.session_id() }),
        ],
{
}

/// An Ack for bytes that were never sent ends the session: one Close goes to
/// the peer and the session leaves the table. From then on the session is
/// unknown, so whatever comes for it but a Connect meets a Close.
pub proof fn lemma_ack_out_of_range(
    m: Sessions,
    addr: PeerAddr,
    session_id: u64,
    length: u64,
    now: u64,
)
    requires
        sessions_wf(m),
        m.contains_key(session_id),
        session_id < MAX_INT,
        m[session_id].send_pos < length < MAX_INT,
    ensures
        ({
            let step = route(m, addr, Packet::Ack { session_id, length }, now);
            &&& step.outgoing == seq![(m[session_id].peer, Packet::Close { session_id })]
            &&& step.terminated
            &&& step.next == m.remove(session_id)
            &&& !step.next.contains_key(session_id)
        }),
{
    let peer = m[session_id].peer;
    assert(addressed(peer, seq![Packet::Close { session_id }]) =~= seq![
        (peer, Packet::Close { session_id }),
    ]);
}

/// A Close from the peer ends the session in the same way.
pub proof fn lemma_peer_close(m: Sessions, addr: PeerAddr, session_id: u64, now: u64)
    requires
        sessions_wf(m),
        m.contains_key(session_id),
        session_id < MAX_INT,
    ensures
        ({
            let step = route(m, addr, Packet::Close { session_id }, now);
            &&& step.outgoing == seq![(m[session_id].peer, Packet::Close { session_id })]
            &&& step.terminated
            &&& step.next == m.remove(session_id)
        }),
{
    let peer = m[session_id].peer;
    assert(addressed(peer, seq![Packet::Close { session_id }]) =~= seq![
        (peer, Packet::Close { session_id }),
    ]);
}

/// A session whose peer has been silent for more than the idle time is ended
/// by the idle check: one Close goes to the peer and the session leaves the
/// table, so that whatever comes for it later but a Connect meets a Close.
pub proof fn lemma_idle_expiry(m: Sessions, session_id: u64, now: u64)
    requires
        sessions_wf(m),
        m.contains_key(session_id),
        now - m[session_id].last_activity > 60_000,
    ensures
        ({
            let step = dispatch(m, session_id, EventView::CheckSessionExpiry, now);
            &&& step.outgoing == seq![(m[session_id].peer, Packet::Close { session_id })]
            &&& step.terminated
            &&& step.next == m.remove(session_id)
            &&& !step.next.contains_key(session_id)
        }),
{
    let peer = m[session_id].peer;
    assert(addressed(peer, seq![Packet::Close { session_id }]) =~= seq![
        (peer, Packet::Close { session_id }),
    ]);
}

/// Whatever message arrives for an open session, and leaves it open, counts
/// as a sign of life.
pub proof fn lemma_inbound_refreshes(m: Sessions, addr: PeerAddr, p: Packet, now: u64)
    requires
        sessions_wf(m),
        in_range(p),
        !(p is Terminate),
        m.contains_key(p.session_id()),
        route(m, addr, p, now).next.contains_key(p.session_id()),
    ensures
        route(m, addr, p, now).next[p.session_id()].last_activity == now,
{
}

/// A datagram that does not parse changes nothing and is answered with
/// nothing.
pub proof fn lemma_garbage_is_dropped(m: Sessions, addr: PeerAddr, datagram: Seq<u8>, now: u64)
    requires
        parse_spec(datagram) is Err,
    ensures
        receive(m, addr, datagram, now) == ignore(m),
        receive(m, addr, datagram, now).next == m,
        receive(m, addr, datagram, now).outgoing.len() == 0,
{
}

/// Sessions do not touch each other: a routed message leaves every session
/// but the one it names as it was.
pub proof fn lemma_sessions_are_independent(
    m: Sessions,
    addr: PeerAddr,
    p: Packet,
    now: u64,
    other: u64,
)
    requires
        other != p.session_id(),
    ensures
        route(m, addr, p, now).next.contains_key(other) == m.contains_key(other),
        m.contains_key(other) ==> route(m, addr, p, now).next[other] == m[other],
{
}

/// A session that is not open does nothing on a timer: once it has sent its
/// Close and left the table, no timer makes it speak again.
pub proof fn lemma_gone_session_is_silent(m: Sessions, session_id: u64, event: EventView, now: u64)
    requires
        !m.contains_key(session_id),
    ensures
        dispatch(m, session_id, event, now) == ignore(m),
        ignore(m).outgoing.len() == 0,
        ignore(m).next == m,
{
}

// ---------------------------------------------------------------------------
// Whole lives
// ---------------------------------------------------------------------------

/// Anything that a listener can be asked to take.
pub enum Arrival {
    /// A message that came from an address.
    Message(PeerAddr, Packet),
    /// An event for a session, such as a timer.
    Timer(u64, EventView),
    /// A command of the application for a session.
    Order(u64, CommandView),
}

impl Arrival {
    /// The session that the arrival names.
    pub open spec fn session_id(self) -> u64 {
        match self {
            Arrival::Message(_, p) => p.session_id(),
            Arrival::Timer(id, _) => id,
            Arrival::Order(id, _) => id,
        }
    }

    /// Where the arrival came from, if it came over the network.
    pub open spec fn sender(self) -> Option<PeerAddr> {
        match self {
            Arrival::Message(addr, _) => Some(addr),
            _ => None,
        }
    }

    /// Whether the arrival is a Connect.
    pub open spec fn is_connect(self) -> bool {
        self matches Arrival::Message(_, p) && p is Connect
    }
}

/// A step of the listener on any arrival. A command that is refused changes
/// nothing.
pub open spec fn on_arrival(m: Sessions, arrival: Arrival, now: u64) -> RouteStep {
    match arrival {
        Arrival::Message(addr, p) => route(m, addr, p, now),
        Arrival::Timer(id, event) => dispatch(m, id, event, now),
        Arrival::Order(id, c) => match command(m, id, c, now) {
            Ok(step) => step,
            Err(_) => ignore(m),
        },
    }
}

/// The table after a history of arrivals, each with its time.
pub open spec fn table_after(m: Sessions, history: Seq<(Arrival, u64)>) -> Sessions
    decreases history.len(),
{
    if history.len() == 0 {
        m
    } else {
        on_arrival(table_after(m, history.drop_last()), history.last().0, history.last().1).next
    }
}

/// What holds of one step of a sound listener, whatever arrives: the table
/// stays sound; every message that leaves travels in fewer than 1000 bytes
/// and names the session that the arrival named; no other session is
/// touched; and a session that is not open stays so unless the arrival is a
/// Connect, in which case all that can leave for it is one Close to the
/// sender of a message.
pub proof fn lemma_arrival_step(m: Sessions, arrival: Arrival, now: u64)
    requires
        sessions_wf(m),
    ensures
        sessions_wf(on_arrival(m, arrival, now).next),
        forall|i: int|
            0 <= i < on_arrival(m, arrival, now).outgoing.len() ==> {
                let q = (#[trigger] on_arrival(m, arrival, now).outgoing[i]).1;
                &&& is_wire_packet(q)
                &&& packet_text(q).unwrap().len() < MAX_PACKET_LENGTH
                &&& q.session_id() == arrival.session_id()
            },
        forall|other: u64|
            other != arrival.session_id() ==> (#[trigger] on_arrival(
                m,
                arrival,
                now,
            ).next.contains_key(other) == m.contains_key(other)) && (m.contains_key(other)
                ==> on_arrival(m, arrival, now).next[other] == m[other]),
        !m.contains_key(arrival.session_id()) && !arrival.is_connect() ==> {
            let step = on_arrival(m, arrival, now);
            &&& step.next == m
            &&& step.accepted is None
            &&& step.delivered is None
            &&& step.outgoing.len() <= 1
            &&& forall|i: int|
                0 <= i < step.outgoing.len() ==> arrival.sender() is Some
                    && #[trigger] step.outgoing[i] == (
                    arrival.sender().unwrap(),
                    Packet::Close { session_id: arrival.session_id() },
                )
        },
{
    let id = arrival.session_id();
    let step = on_arrival(m, arrival, now);
    match arrival {
        Arrival::Message(addr, p) => {
            lemma_route_keeps_wf(m, addr, p, now);
            lemma_route_packets(m, addr, p, now);
            if !m.contains_key(id) && !(p is Connect) {
                assert(step.next =~= m);
            }
        },
        Arrival::Timer(_, event) => {
            lemma_dispatch_keeps_wf(m, id, event, now);
            if m.contains_key(id) {
                lemma_event_packets(m[id], event, now);
                lemma_event_keeps_wf(m[id], event, now);
                let inner = m[id].on_event(event, now);
                assert forall|i: int| 0 <= i < step.outgoing.len() implies {
                    let q = (#[trigger] step.outgoing[i]).1;
                    &&& is_wire_packet(q)
                    &&& packet_text(q).unwrap().len() < MAX_PACKET_LENGTH
                    &&& q.session_id() == id
                } by {
                    assert(sent_by(inner.packets[i], inner.next));
                }
            }
        },
        Arrival::Order(_, c) => {
            if m.contains_key(id) && m[id].on_command(c, now) is Ok {
                let inner = m[id].on_command(c, now).unwrap();
                lemma_command_keeps_wf(m[id], c, now);
                lemma_command_packets(m[id], c, now);
                assert forall|i: int| 0 <= i < step.outgoing.len() implies {
                    let q = (#[trigger] step.outgoing[i]).1;
                    &&& is_wire_packet(q)
                    &&& packet_text(q).unwrap().len() < MAX_PACKET_LENGTH
                    &&& q.session_id() == id
                } by {
                    assert(sent_by(inner.packets[i], inner.next));
                }
                let next = step.next;
                assert forall|k: u64| #[trigger] next.contains_key(k) implies next[k].wf()
                    && next[k].session_id == k && !next[k].closed by {
                    if k != id {
                        assert(m.contains_key(k));
                    }
                }
            }
        },
    }
}

/// Over any history whatever, a sound listener stays sound: every session
/// in the table is sound, open, and under its own id.
pub proof fn lemma_table_always_sound(m: Sessions, history: Seq<(Arrival, u64)>)
    requires
        sessions_wf(m),
    ensures
        sessions_wf(table_after(m, history)),
    decreases history.len(),
{
    if history.len() > 0 {
        lemma_table_always_sound(m, history.drop_last());
        lemma_arrival_step(table_after(m, history.drop_last()), history.last().0, history.last().1);
    }
}

/// A session that is gone stays gone: over any history in which no Connect
/// for it arrives, it never comes back into the table.
pub proof fn lemma_gone_stays_gone(m: Sessions, session_id: u64, history: Seq<(Arrival, u64)>)
    requires
        sessions_wf(m),
        !m.contains_key(session_id),
        forall|i: int|
            0 <= i < history.len() ==> !((#[trigger] history[i]).0.is_connect()
                && history[i].0.session_id() == session_id),
    ensures
        !table_after(m, history).contains_key(session_id),
    decreases history.len(),
{
    if history.len() > 0 {
        let before = history.drop_last();
        assert forall|i: int| 0 <= i < before.len() implies !((#[trigger] before[i]).0.is_connect()
            && before[i].0.session_id() == session_id) by {
            assert(before[i] == history[i]);
        }
        lemma_gone_stays_gone(m, session_id, before);
        lemma_table_always_sound(m, before);
        let last = history[history.len() - 1];
        assert(last == history.last());
        lemma_arrival_step(table_after(m, before), last.0, last.1);
    }
}

} // verus!
