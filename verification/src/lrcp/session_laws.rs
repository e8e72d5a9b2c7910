//! What holds of a session over its whole life, whatever the peer, the
//! application and the clock do.

use crate::error::Error;
use crate::lrcp::chunks::{escaped_total, payload_room};
use crate::lrcp::codec_laws::is_wire_packet;
use crate::lrcp::protocol::{packet_text, Packet, MAX_INT, MAX_PACKET_LENGTH};
use crate::lrcp::session::{
    data_stream, is_chunk_of, lemma_data_stream, lemma_plain_packet, payload_bytes, CommandView,
    EventView, SessionStep, SessionView,
};
use crate::lrcp::text::is_ascii_bytes;
use vstd::prelude::*;

verus! {

/// What holds of a message that a session in state `v` has just sent: it
/// names the session, it is a message that travels in fewer than 1000 bytes,
/// and if it carries data, the data are the session's own unacknowledged
/// bytes at the position that the message names, none of them below
/// `acked_pos`, and as many of them as a datagram allows: unless the message
/// carries the last byte that is pending, one byte more would not fit.
pub open spec fn sent_by(p: Packet, v: SessionView) -> bool {
    &&& p.session_id() == v.session_id
    &&& is_wire_packet(p)
    &&& packet_text(p).unwrap().len() < MAX_PACKET_LENGTH
    &&& p is Data ==> {
        &&& v.acked_pos <= p->pos
        &&& p->pos + payload_bytes(p->escaped).len() <= v.send_pos
        &&& payload_bytes(p->escaped) == v.pending_out.subrange(
            p->pos - v.acked_pos,
            p->pos - v.acked_pos + payload_bytes(p->escaped).len(),
        )
        &&& p->pos + payload_bytes(p->escaped).len() < v.send_pos ==> escaped_total(
            v.pending_out.subrange(
                p->pos - v.acked_pos,
                p->pos - v.acked_pos + payload_bytes(p->escaped).len() + 1,
            ),
        ) > payload_room(v.session_id, p->pos as nat)
    }
}

/// Every message of the step is `sent_by` the state after the step.
pub open spec fn all_sent_by(step: SessionStep) -> bool {
    forall|i: int| 0 <= i < step.packets.len() ==> sent_by(#[trigger] step.packets[i], step.next)
}

proof fn lemma_stream_sent_by(v: SessionView, from: nat, data: Seq<u8>)
    requires
        v.wf(),
        v.acked_pos <= from,
        from + data.len() == v.send_pos,
        data == v.pending_out.skip(from - v.acked_pos),
    ensures
        forall|i: int|
            0 <= i < data_stream(v.session_id, from, data).len() ==> sent_by(
                #[trigger] data_stream(v.session_id, from, data)[i],
                v,
            ),
{
    let ps = data_stream(v.session_id, from, data);
    assert forall|j: int| 0 <= j < data.len() implies #[trigger] data[j] < 128 by {
        assert(data[j] == v.pending_out[j + (from - v.acked_pos)]);
    }
    lemma_data_stream(v.session_id, from, data);
    assert forall|i: int| 0 <= i < ps.len() implies sent_by(#[trigger] ps[i], v) by {
        let p = ps[i];
        assert(is_chunk_of(p, v.session_id, from, data));
        let n = payload_bytes(p->escaped).len() as int;
        let at = p->pos - from;
        let shift = from - v.acked_pos;
        assert(data.subrange(at, at + n) =~= v.pending_out.subrange(at + shift, at + shift + n));
        if p->pos + n < v.send_pos {
            assert(data.subrange(at, at + n + 1) =~= v.pending_out.subrange(
                at + shift,
                at + shift + n + 1,
            ));
        }
    }
}

/// A step on an event keeps the session sound. In particular `acked_pos`
/// never passes `send_pos`; `acked_pos` and `recv_pos` never go back; the
/// session keeps its id and its peer; and it reports its end exactly when it
/// ends.
pub proof fn lemma_event_keeps_wf(v: SessionView, event: EventView, now: u64)
    requires
        v.wf(),
    ensures
        ({
            let step = v.on_event(event, now);
            &&& step.next.wf()
            &&& step.next.acked_pos <= step.next.send_pos
            &&& v.acked_pos <= step.next.acked_pos
            &&& v.recv_pos <= step.next.recv_pos
            &&& v.send_pos == step.next.send_pos
            &&& step.next.session_id == v.session_id
            &&& step.next.peer == v.peer
            &&& step.terminated == (step.next.closed && !v.closed)
            &&& v.closed ==> step == v.stay()
        }),
{
    let step = v.on_event(event, now);
    if !v.closed {
        match event {
            EventView::Ack { length } => {
                if v.acked_pos < length <= v.send_pos {
                    let kept = v.pending_out.skip(length - v.acked_pos);
                    assert forall|j: int| 0 <= j < kept.len() implies #[trigger] kept[j] < 128 by {
                        assert(kept[j] == v.pending_out[j + (length - v.acked_pos)]);
                    }
                }
            },
            _ => {},
        }
    }
}

/// A step on a command that is not refused keeps the session sound, and
/// `send_pos` never goes back.
pub proof fn lemma_command_keeps_wf(v: SessionView, command: CommandView, now: u64)
    requires
        v.wf(),
    ensures
        match v.on_command(command, now) {
            Ok(step) => {
                &&& step.next.wf()
                &&& step.next.acked_pos <= step.next.send_pos
                &&& v.acked_pos == step.next.acked_pos
                &&& v.recv_pos == step.next.recv_pos
                &&& v.send_pos <= step.next.send_pos
                &&& step.next.session_id == v.session_id
                &&& step.next.peer == v.peer
                &&& step.terminated == step.next.closed
                &&& !v.closed
            },
            Err(e) => e == Error::SessionClosed <==> v.closed,
        },
{
    match command {
        CommandView::Write { data } => {
            if v.write_error(data) is None {
                let joined = v.pending_out + data;
                assert forall|j: int| 0 <= j < joined.len() implies #[trigger] joined[j]
                    < 128 by {
                    if j < v.pending_out.len() {
                        assert(joined[j] == v.pending_out[j]);
                    } else {
                        assert(joined[j] == data[j - v.pending_out.len()]);
                    }
                }
            }
        },
        CommandView::Shutdown => {},
    }
}

/// Whatever a session sends on an event names the session, fits in a
/// datagram, and, if it carries data, carries the bytes that the application
/// wrote at that position, none of them acknowledged.
pub proof fn lemma_event_packets(v: SessionView, event: EventView, now: u64)
    requires
        v.wf(),
    ensures
        all_sent_by(v.on_event(event, now)),
{
    let step = v.on_event(event, now);
    lemma_event_keeps_wf(v, event, now);
    if !v.closed {
        match event {
            EventView::Data { pos, escaped } => {
                lemma_plain_packet(step.packets[0]);
            },
            EventView::Ack { length } => {
                if length <= v.acked_pos {
                } else if length > v.send_pos {
                    lemma_plain_packet(step.packets[0]);
                } else {
                    assert(step.next.pending_out.skip(0) =~= step.next.pending_out);
                    lemma_stream_sent_by(step.next, length as nat, step.next.pending_out);
                }
            },
            EventView::RepeatedConnect => {},
            EventView::Close => {
                lemma_plain_packet(step.packets[0]);
            },
            EventView::RetransmitPendingData => {
                if v.pending_out.len() > 0 {
                    assert(step.next.pending_out.skip(0) =~= step.next.pending_out);
                    lemma_stream_sent_by(step.next, v.acked_pos as nat, v.pending_out);
                }
            },
            EventView::CheckSessionExpiry => {
                if step.terminated {
                    lemma_plain_packet(step.packets[0]);
                }
            },
        }
    }
}

/// The same for what a session sends on a command.
pub proof fn lemma_command_packets(v: SessionView, command: CommandView, now: u64)
    requires
        v.wf(),
        v.on_command(command, now) is Ok,
    ensures
        all_sent_by(v.on_command(command, now).unwrap()),
{
    let step = v.on_command(command, now).unwrap();
    lemma_command_keeps_wf(v, command, now);
    match command {
        CommandView::Write { data } => {
            assert(step.next.pending_out.skip(v.pending_out.len() as int) =~= data);
            lemma_stream_sent_by(step.next, v.send_pos as nat, data);
        },
        CommandView::Shutdown => {
            lemma_plain_packet(step.packets[0]);
        },
    }
}

/// After an Ack of `length` bytes that were sent, `acked_pos` is at least
/// `length` — and since it never goes back and no data message starts below
/// it, no byte below `length` is ever sent again.
pub proof fn lemma_ack_is_final(v: SessionView, length: u64, now: u64)
    requires
        v.wf(),
        !v.closed,
        length <= v.send_pos,
    ensures
        v.on_event(EventView::Ack { length }, now).next.acked_pos >= length,
        !v.on_event(EventView::Ack { length }, now).terminated,
{
}

/// An Ack that acknowledges nothing new has no effect but to show that the
/// peer is alive.
pub proof fn lemma_stale_ack(v: SessionView, length: u64, now: u64)
    requires
        v.wf(),
        !v.closed,
        length <= v.acked_pos,
    ensures
        v.on_event(EventView::Ack { length }, now) == v.heard(now).stay(),
        v.heard(now) == (SessionView { last_activity: now, ..v }),
{
}

/// An Ack for bytes that were never sent destroys the session with one Close.
pub proof fn lemma_ack_out_of_range(v: SessionView, length: u64, now: u64)
    requires
        v.wf(),
        !v.closed,
        length > v.send_pos,
    ensures
        ({
            let step = v.on_event(EventView::Ack { length }, now);
            &&& step.packets == seq![Packet::Close { session_id: v.session_id }]
            &&& step.terminated
            &&& step.next.closed
            &&& step.delivered is None
        }),
{
}

/// Data that is not next in line is answered with an Ack of what has been
/// received, and nothing is delivered; the session only notes that the peer
/// is alive.
pub proof fn lemma_misaligned_data(v: SessionView, pos: u64, escaped: Seq<char>, now: u64)
    requires
        v.wf(),
        !v.closed,
        pos != v.recv_pos,
    ensures
        ({
            let step = v.on_event(EventView::Data { pos, escaped }, now);
            &&& step.packets == seq![Packet::Ack { session_id: v.session_id, length: v.recv_pos }]
            &&& step.delivered is None
            &&& step.next == v.heard(now)
            &&& !step.terminated
        }),
{
}

/// Data that is next in line is delivered whole and acknowledged.
pub proof fn lemma_aligned_data(v: SessionView, escaped: Seq<char>, now: u64)
    requires
        v.wf(),
        !v.closed,
        v.recv_pos + payload_bytes(escaped).len() < MAX_INT,
    ensures
        ({
            let step = v.on_event(EventView::Data { pos: v.recv_pos, escaped }, now);
            let n = payload_bytes(escaped).len();
            &&& step.next.recv_pos == v.recv_pos + n
            &&& step.packets == seq![
                Packet::Ack { session_id: v.session_id, length: (v.recv_pos + n) as u64 },
            ]
            &&& n > 0 ==> step.delivered == Some(payload_bytes(escaped))
            &&& n == 0 ==> step.delivered is None
        }),
{
}

/// A sending peer keeps to its stream when each data message that it sends
/// carries the bytes of the stream at the position that the message names.
pub open spec fn follows_stream(event: EventView, stream: Seq<u8>) -> bool {
    event matches EventView::Data { pos, escaped } ==> {
        &&& pos + payload_bytes(escaped).len() <= stream.len()
        &&& payload_bytes(escaped) == stream.subrange(
            pos as int,
            pos + payload_bytes(escaped).len(),
        )
    }
}

/// The bytes of a step for the application, none if there are none.
pub open spec fn delivered_bytes(step: SessionStep) -> Seq<u8> {
    match step.delivered {
        Some(bytes) => bytes,
        None => Seq::empty(),
    }
}

/// Delivery is in order and without gaps: if what the application has been
/// given so far is the first `recv_pos` bytes of the peer's stream, and the
/// peer keeps to its stream, then that is so after the step as well.
pub proof fn lemma_delivery_in_order(
    v: SessionView,
    event: EventView,
    now: u64,
    stream: Seq<u8>,
    received: Seq<u8>,
)
    requires
        v.wf(),
        v.recv_pos <= stream.len(),
        received == stream.take(v.recv_pos as int),
        follows_stream(event, stream),
    ensures
        ({
            let step = v.on_event(event, now);
            &&& step.next.recv_pos <= stream.len()
            &&& received + delivered_bytes(step) == stream.take(step.next.recv_pos as int)
        }),
{
    let step = v.on_event(event, now);
    lemma_event_keeps_wf(v, event, now);
    assert(received + delivered_bytes(step) =~= stream.take(step.next.recv_pos as int));
}

/// A closed session does nothing at all.
pub proof fn lemma_closed_is_silent(v: SessionView, event: EventView, now: u64)
    requires
        v.closed,
    ensures
        v.on_event(event, now) == v.stay(),
        v.stay().packets.len() == 0,
        v.stay().next == v,
{
}

/// A silent peer is given up: once more than the idle time has passed since
/// it was last heard, the idle check destroys the session with one Close.
pub proof fn lemma_idle_expiry(v: SessionView, now: u64)
    requires
        v.wf(),
        !v.closed,
        now - v.last_activity > 60_000,
    ensures
        ({
            let step = v.on_event(EventView::CheckSessionExpiry, now);
            &&& step.packets == seq![Packet::Close { session_id: v.session_id }]
            &&& step.terminated
            &&& step.next.closed
        }),
{
}

/// Whether the bytes are all ASCII is all that decides, together with the
/// room left in the stream, whether an open session takes a write.
pub proof fn lemma_write_accepted(v: SessionView, data: Seq<u8>, now: u64)
    requires
        v.wf(),
        !v.closed,
        is_ascii_bytes(data),
        v.send_pos + data.len() < MAX_INT,
    ensures
        v.on_command(CommandView::Write { data }, now) is Ok,
        v.on_command(CommandView::Write { data }, now).unwrap().next.pending_out == v.pending_out
            + data,
        v.on_command(CommandView::Write { data }, now).unwrap().next.send_pos == v.send_pos
            + data.len(),
{
}

// ---------------------------------------------------------------------------
// Whole lives
// ---------------------------------------------------------------------------

/// Anything that a session can be asked to take.
pub enum Input {
    Event(EventView),
    Command(CommandView),
}

/// A step on any input. A command that is refused changes nothing.
pub open spec fn on_input(v: SessionView, input: Input, now: u64) -> SessionStep {
    match input {
        Input::Event(event) => v.on_event(event, now),
        Input::Command(command) => match v.on_command(command, now) {
            Ok(step) => step,
            Err(_) => v.stay(),
        },
    }
}

/// The bytes that the session takes from the application in the step.
pub open spec fn accepted(v: SessionView, input: Input) -> Seq<u8> {
    match input {
        Input::Command(CommandView::Write { data }) => if v.write_error(data) is None {
            data
        } else {
            Seq::empty()
        },
        _ => Seq::empty(),
    }
}

/// The state after a history of inputs, each with its time.
pub open spec fn state_after(v: SessionView, history: Seq<(Input, u64)>) -> SessionView
    decreases history.len(),
{
    if history.len() == 0 {
        v
    } else {
        on_input(state_after(v, history.drop_last()), history.last().0, history.last().1).next
    }
}

/// Every message sent during a history, in order.
pub open spec fn sent_during(v: SessionView, history: Seq<(Input, u64)>) -> Seq<Packet>
    decreases history.len(),
{
    if history.len() == 0 {
        Seq::empty()
    } else {
        sent_during(v, history.drop_last()) + on_input(
            state_after(v, history.drop_last()),
            history.last().0,
            history.last().1,
        ).packets
    }
}

/// Every byte handed to the application during a history, in order.
pub open spec fn delivered_during(v: SessionView, history: Seq<(Input, u64)>) -> Seq<u8>
    decreases history.len(),
{
    if history.len() == 0 {
        Seq::empty()
    } else {
        delivered_during(v, history.drop_last()) + delivered_bytes(
            on_input(state_after(v, history.drop_last()), history.last().0, history.last().1),
        )
    }
}

/// Every byte taken from the application during a history, in order.
pub open spec fn accepted_during(v: SessionView, history: Seq<(Input, u64)>) -> Seq<u8>
    decreases history.len(),
{
    if history.len() == 0 {
        Seq::empty()
    } else {
        accepted_during(v, history.drop_last()) + accepted(
            state_after(v, history.drop_last()),
            history.last().0,
        )
    }
}

/// `written` is what the application has written into the session so far.
pub open spec fn is_written(v: SessionView, written: Seq<u8>) -> bool {
    &&& written.len() == v.send_pos
    &&& written.skip(v.acked_pos as int) == v.pending_out
}

/// A data message carries the bytes of the application's stream at the
/// position that it names.
pub open spec fn carries_stream(p: Packet, written: Seq<u8>) -> bool {
    p is Data ==> {
        &&& p->pos + payload_bytes(p->escaped).len() <= written.len()
        &&& payload_bytes(p->escaped) == written.subrange(
            p->pos as int,
            p->pos + payload_bytes(p->escaped).len(),
        )
    }
}

/// One step of a sound session, on whatever input: the session stays sound,
/// its positions do not go back, and what it sends is `sent_by` it.
pub proof fn lemma_input_step(v: SessionView, input: Input, now: u64)
    requires
        v.wf(),
    ensures
        ({
            let step = on_input(v, input, now);
            &&& step.next.wf()
            &&& step.next.session_id == v.session_id
            &&& step.next.peer == v.peer
            &&& v.acked_pos <= step.next.acked_pos <= step.next.send_pos
            &&& v.recv_pos <= step.next.recv_pos
            &&& v.send_pos <= step.next.send_pos
            &&& step.next.send_pos == v.send_pos + accepted(v, input).len()
            &&& all_sent_by(step)
        }),
{
    match input {
        Input::Event(event) => {
            lemma_event_keeps_wf(v, event, now);
            lemma_event_packets(v, event, now);
        },
        Input::Command(command) => {
            lemma_command_keeps_wf(v, command, now);
            if v.on_command(command, now) is Ok {
                lemma_command_packets(v, command, now);
            }
        },
    }
}

proof fn lemma_written_step(v: SessionView, written: Seq<u8>, input: Input, now: u64)
    requires
        v.wf(),
        is_written(v, written),
    ensures
        is_written(on_input(v, input, now).next, written + accepted(v, input)),
        forall|i: int|
            0 <= i < on_input(v, input, now).packets.len() ==> carries_stream(
                #[trigger] on_input(v, input, now).packets[i],
                written + accepted(v, input),
            ),
{
    let step = on_input(v, input, now);
    let next = step.next;
    let after = written + accepted(v, input);
    lemma_input_step(v, input, now);
    assert(after.skip(next.acked_pos as int) =~= next.pending_out) by {
        assert(written.skip(v.acked_pos as int) == v.pending_out);
        assert forall|j: int| 0 <= j < next.pending_out.len() implies after[j + next.acked_pos]
            == next.pending_out[j] by {
            let k = j + next.acked_pos;
            if k < written.len() {
                assert(written.skip(v.acked_pos as int)[k - v.acked_pos] == written[k]);
            }
        }
    }
    assert forall|i: int| 0 <= i < step.packets.len() implies carries_stream(
        #[trigger] step.packets[i],
        after,
    ) by {
        let p = step.packets[i];
        assert(sent_by(p, next));
        if p is Data {
            let n = payload_bytes(p->escaped).len() as int;
            let at = p->pos - next.acked_pos;
            assert(next.pending_out.subrange(at, at + n) =~= after.subrange(
                p->pos as int,
                p->pos + n,
            ));
        }
    }
}

/// Over any history whatever, a sound session stays sound: in particular
/// `acked_pos` never passes `send_pos`, and no position ever goes back.
pub proof fn lemma_always_sound(v: SessionView, history: Seq<(Input, u64)>)
    requires
        v.wf(),
    ensures
        state_after(v, history).wf(),
        state_after(v, history).acked_pos <= state_after(v, history).send_pos,
        v.acked_pos <= state_after(v, history).acked_pos,
        v.recv_pos <= state_after(v, history).recv_pos,
        v.send_pos <= state_after(v, history).send_pos,
        state_after(v, history).session_id == v.session_id,
    decreases history.len(),
{
    if history.len() > 0 {
        lemma_always_sound(v, history.drop_last());
        lemma_input_step(state_after(v, history.drop_last()), history.last().0, history.last().1);
    }
}

/// Over any history whatever, every message that a sound session sends
/// names the session and fits in a datagram of fewer than 1000 bytes; and
/// every data message carries bytes at or after the `acked_pos` from which
/// the history started. So once a length has been acknowledged, no byte
/// below it is ever sent again.
pub proof fn lemma_never_resent(v: SessionView, history: Seq<(Input, u64)>)
    requires
        v.wf(),
    ensures
        forall|i: int|
            0 <= i < sent_during(v, history).len() ==> {
                let p = #[trigger] sent_during(v, history)[i];
                &&& p.session_id() == v.session_id
                &&& is_wire_packet(p)
                &&& packet_text(p).unwrap().len() < MAX_PACKET_LENGTH
                &&& p is Data ==> v.acked_pos <= p->pos
            },
    decreases history.len(),
{
    if history.len() > 0 {
        let before = history.drop_last();
        let state = state_after(v, before);
        let step = on_input(state, history.last().0, history.last().1);
        lemma_never_resent(v, before);
        lemma_always_sound(v, before);
        lemma_input_step(state, history.last().0, history.last().1);
        let earlier = sent_during(v, before);
        let all = sent_during(v, history);
        assert forall|i: int| 0 <= i < all.len() implies {
            let p = #[trigger] all[i];
            &&& p.session_id() == v.session_id
            &&& is_wire_packet(p)
            &&& packet_text(p).unwrap().len() < MAX_PACKET_LENGTH
            &&& p is Data ==> v.acked_pos <= p->pos
        } by {
            if i < earlier.len() {
                assert(all[i] == earlier[i]);
            } else {
                assert(all[i] == step.packets[i - earlier.len()]);
                assert(sent_by(step.packets[i - earlier.len()], step.next));
            }
        }
    }
}

/// Over any history whatever, every data message that a sound session
/// sends carries exactly the bytes that the application wrote at the
/// position that the message names.
pub proof fn lemma_sends_what_was_written(
    v: SessionView,
    written: Seq<u8>,
    history: Seq<(Input, u64)>,
)
    requires
        v.wf(),
        is_written(v, written),
    ensures
        is_written(state_after(v, history), written + accepted_during(v, history)),
        forall|i: int|
            0 <= i < sent_during(v, history).len() ==> carries_stream(
                #[trigger] sent_during(v, history)[i],
                written + accepted_during(v, history),
            ),
    decreases history.len(),
{
    if history.len() == 0 {
        assert(written + accepted_during(v, history) =~= written);
    } else {
        let before = history.drop_last();
        let state = state_after(v, before);
        let input = history.last().0;
        let step = on_input(state, input, history.last().1);
        let mid = written + accepted_during(v, before);
        let end = written + accepted_during(v, history);
        lemma_sends_what_was_written(v, written, before);
        lemma_always_sound(v, before);
        lemma_written_step(state, mid, input, history.last().1);
        assert(end =~= mid + accepted(state, input));
        let earlier = sent_during(v, before);
        let all = sent_during(v, history);
        assert forall|i: int| 0 <= i < all.len() implies carries_stream(#[trigger] all[i], end) by {
            if i < earlier.len() {
                let p = earlier[i];
                assert(all[i] == p);
                assert(carries_stream(p, mid));
                if p is Data {
                    let n = payload_bytes(p->escaped).len() as int;
                    assert(mid.subrange(p->pos as int, p->pos + n) =~= end.subrange(
                        p->pos as int,
                        p->pos + n,
                    ));
                }
            } else {
                assert(all[i] == step.packets[i - earlier.len()]);
            }
        }
    }
}

/// Every data event of the history carries the bytes of `stream` at the
/// position that it names.
pub open spec fn history_follows_stream(history: Seq<(Input, u64)>, stream: Seq<u8>) -> bool {
    forall|i: int|
        0 <= i < history.len() ==> match (#[trigger] history[i]).0 {
            Input::Event(event) => follows_stream(event, stream),
            Input::Command(_) => true,
        }
}

/// Over any history in which the peer keeps to its stream, whatever else
/// happens, lost, repeated and reordered datagrams included: the bytes handed
/// to the application are the bytes of the peer's stream from the position
/// at which the history started up to `recv_pos`, each once and in order.
pub proof fn lemma_delivers_the_stream(
    v: SessionView,
    stream: Seq<u8>,
    history: Seq<(Input, u64)>,
)
    requires
        v.wf(),
        v.recv_pos <= stream.len(),
        history_follows_stream(history, stream),
    ensures
        state_after(v, history).recv_pos <= stream.len(),
        delivered_during(v, history) == stream.subrange(
            v.recv_pos as int,
            state_after(v, history).recv_pos as int,
        ),
    decreases history.len(),
{
    if history.len() == 0 {
        assert(delivered_during(v, history) =~= stream.subrange(
            v.recv_pos as int,
            v.recv_pos as int,
        ));
    } else {
        let before = history.drop_last();
        let state = state_after(v, before);
        let input = history.last().0;
        let now = history.last().1;
        assert forall|i: int| 0 <= i < before.len() implies match (#[trigger] before[i]).0 {
            Input::Event(event) => follows_stream(event, stream),
            Input::Command(_) => true,
        } by {
            assert(before[i] == history[i]);
        }
        lemma_delivers_the_stream(v, stream, before);
        lemma_always_sound(v, before);
        lemma_input_step(state, input, now);
        let step = on_input(state, input, now);
        assert(history[history.len() - 1] == history.last());
        match input {
            Input::Event(event) => {
                lemma_delivery_in_order(
                    state,
                    event,
                    now,
                    stream,
                    stream.take(state.recv_pos as int),
                );
                assert(stream.take(state.recv_pos as int) + delivered_bytes(step) == stream.take(
                    step.next.recv_pos as int,
                ));
                assert(delivered_bytes(step) =~= stream.subrange(
                    state.recv_pos as int,
                    step.next.recv_pos as int,
                )) by {
                    let a = stream.take(state.recv_pos as int);
                    let b = stream.take(step.next.recv_pos as int);
                    assert((a + delivered_bytes(step)).len() == b.len());
                    assert forall|j: int| 0 <= j < delivered_bytes(step).len() implies
                        delivered_bytes(step)[j] == stream[state.recv_pos + j] by {
                        assert((a + delivered_bytes(step))[a.len() + j] == b[a.len() + j]);
                    }
                }
            },
            Input::Command(command) => {
                lemma_command_keeps_wf(state, command, now);
                assert(delivered_bytes(step) =~= Seq::<u8>::empty());
            },
        }
        assert(delivered_during(v, history) =~= stream.subrange(
            v.recv_pos as int,
            step.next.recv_pos as int,
        ));
    }
}

} // verus!
