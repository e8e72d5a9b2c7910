//! Cutting a run of application bytes into the payloads of data messages,
//! each as long as a datagram allows.

use crate::lrcp::protocol::{escape_spec, BACKSLASH, MAX_PACKET_LENGTH, SLASH};
use crate::lrcp::text::{ascii_chars, decimal_digits, decimal_len, lemma_decimal_len};
use vstd::prelude::*;
use vstd::slice::{slice_subrange, slice_to_vec};

verus! {

/// The characters that a byte takes in a payload field: two for `/` and `\`,
/// one for any other.
pub open spec fn escaped_len(b: u8) -> nat {
    if b == SLASH || b == BACKSLASH {
        2
    } else {
        1
    }
}

/// The characters that the bytes take in a payload field.
pub open spec fn escaped_total(data: Seq<u8>) -> nat
    decreases data.len(),
{
    if data.len() == 0 {
        0
    } else {
        escaped_len(data[0]) + escaped_total(data.drop_first())
    }
}

/// The characters left for the payload of the data message of a session at a
/// position, if the whole message is to stay below 1000 characters: the rest
/// of the message is `/data/`, the two numbers, and three more slashes.
pub open spec fn payload_room(session_id: u64, pos: nat) -> nat {
    let envelope = 9 + decimal_digits(session_id as nat).len() + decimal_digits(pos).len();
    if envelope >= MAX_PACKET_LENGTH - 1 {
        0
    } else {
        (MAX_PACKET_LENGTH - 1 - envelope) as nat
    }
}

/// The number of leading bytes of `data` that fit in `room` characters.
pub open spec fn fitting(data: Seq<u8>, room: nat) -> nat
    decreases data.len(),
{
    if data.len() == 0 || escaped_len(data[0]) > room {
        0
    } else {
        1 + fitting(data.drop_first(), (room - escaped_len(data[0])) as nat)
    }
}

/// `data`, which starts at the position `pos` of the stream of the session
/// `session_id`, cut into the payloads of data messages: each piece is as
/// long as its message allows.
pub open spec fn chunks_spec(session_id: u64, pos: nat, data: Seq<u8>) -> Seq<Seq<u8>>
    decreases data.len(),
{
    let n = fitting(data, payload_room(session_id, pos));
    if data.len() == 0 || n == 0 || n > data.len() {
        Seq::empty()
    } else {
        seq![data.take(n as int)] + chunks_spec(session_id, pos + n, data.skip(n as int))
    }
}

/// What fits, fits; and one byte more would not.
pub proof fn lemma_fitting(data: Seq<u8>, room: nat)
    ensures
        fitting(data, room) <= data.len(),
        escaped_total(data.take(fitting(data, room) as int)) <= room,
        fitting(data, room) < data.len() ==> escaped_total(
            data.take((fitting(data, room) + 1) as int),
        ) > room,
        room >= 2 && data.len() > 0 ==> fitting(data, room) >= 1,
    decreases data.len(),
{
    let n = fitting(data, room);
    let none = Seq::<u8>::empty();
    if data.len() == 0 {
        assert(data.take(0) =~= none);
    } else if escaped_len(data[0]) > room {
        assert(data.take(0) =~= none);
        let one = data.take(1);
        assert(one.drop_first() =~= none);
        assert(escaped_total(none) == 0);
        assert(escaped_total(one) == escaped_len(one[0]) + escaped_total(one.drop_first()));
    } else {
        let rest = data.drop_first();
        let left = (room - escaped_len(data[0])) as nat;
        let m = fitting(rest, left);
        lemma_fitting(rest, left);
        let head = data.take(n as int);
        assert(head.drop_first() =~= rest.take(m as int));
        assert(head[0] == data[0]);
        if n < data.len() {
            let more = data.take((n + 1) as int);
            assert(more.drop_first() =~= rest.take((m + 1) as int));
            assert(more[0] == data[0]);
        }
    }
}

/// The escaped form of bytes is as long as the characters that they take.
pub proof fn lemma_escaped_total(data: Seq<u8>)
    ensures
        escape_spec(ascii_chars(data)).len() == escaped_total(data),
    decreases data.len(),
{
    let text = ascii_chars(data);
    if data.len() > 0 {
        lemma_escaped_total(data.drop_first());
        assert(text.drop_first() =~= ascii_chars(data.drop_first()));
        assert(text[0] == data[0] as char);
        assert((text[0] == '/') == (data[0] == SLASH));
        assert((text[0] == '\\') == (data[0] == BACKSLASH));
    }
}

/// There is always room for hundreds of bytes: at least 950 characters, and
/// at least 970 with numbers below 2^31.
pub proof fn lemma_payload_room(session_id: u64, pos: nat)
    ensures
        pos <= u64::MAX ==> payload_room(session_id, pos) >= 950,
        session_id < 0x8000_0000 && pos < 0x8000_0000 ==> payload_room(session_id, pos) >= 970,
        pos <= u64::MAX ==> payload_room(session_id, pos) + 9 + decimal_digits(
            session_id as nat,
        ).len() + decimal_digits(pos).len() < MAX_PACKET_LENGTH,
{
    lemma_decimal_len(session_id as nat);
    lemma_decimal_len(pos);
}

fn room_for(session_id: u64, pos: u64) -> (room: usize)
    ensures
        room == payload_room(session_id, pos as nat),
        room >= 950,
{
    proof {
        lemma_payload_room(session_id, pos as nat);
    }
    MAX_PACKET_LENGTH - 1 - 9 - decimal_len(session_id) - decimal_len(pos)
}

fn fit(data: &[u8], start: usize, room: usize) -> (n: usize)
    requires
        start <= data@.len(),
    ensures
        n == fitting(data@.skip(start as int), room as nat),
        start + n <= data@.len(),
{
    let ghost all = data@.skip(start as int);
    let mut n: usize = 0;
    let mut left: usize = room;
    proof {
        assert(all.skip(0) =~= all);
    }
    while n < data.len() - start
        invariant
            all == data@.skip(start as int),
            start + n <= data@.len(),
            data@.len() == data.len(),
            n + fitting(all.skip(n as int), left as nat) == fitting(all, room as nat),
        decreases data@.len() - n,
    {
        let ghost rest = all.skip(n as int);
        proof {
            assert(rest[0] == data@[start + n]);
            assert(rest.drop_first() =~= all.skip(n + 1));
        }
        let b = data[start + n];
        let cost: usize = if b == SLASH || b == BACKSLASH { 2 } else { 1 };
        if cost > left {
            return n;
        }
        left = left - cost;
        n = n + 1;
    }
    n
}

/// Cuts `data`, which starts at the position `pos` of the stream of the
/// session `session_id`, into the payloads of data messages, each as long as
/// its message allows.
pub fn produce_chunks(session_id: u64, pos: u64, data: Vec<u8>) -> (chunks: Vec<Vec<u8>>)
    requires
        pos + data@.len() <= u64::MAX,
    ensures
        chunks.deep_view() == chunks_spec(session_id, pos as nat, data@),
{
    let mut chunks: Vec<Vec<u8>> = Vec::new();
    let n = data.len();
    let mut start: usize = 0;
    proof {
        assert(chunks.deep_view() =~= Seq::<Seq<u8>>::empty());
        assert(data@.skip(0) =~= data@);
    }
    while start < n
        invariant
            n == data@.len(),
            start <= n,
            pos + n <= u64::MAX,
            chunks.deep_view() + chunks_spec(
                session_id,
                (pos + start) as nat,
                data@.skip(start as int),
            ) =~= chunks_spec(session_id, pos as nat, data@),
        decreases n - start,
    {
        let ghost rest = data@.skip(start as int);
        let room = room_for(session_id, pos + start as u64);
        let take = fit(data.as_slice(), start, room);
        proof {
            lemma_fitting(rest, room as nat);
        }
        let chunk = slice_to_vec(slice_subrange(data.as_slice(), start, start + take));
        let ghost done = chunks.deep_view();
        let ghost piece = chunk@;
        proof {
            assert(chunk.deep_view() =~= piece);
            assert(piece =~= rest.take(take as int));
            assert(rest.skip(take as int) =~= data@.skip(start + take));
        }
        chunks.push(chunk);
        proof {
            assert(chunks.deep_view() =~= done.push(piece));
        }
        start = start + take;
    }
    proof {
        assert(data@.skip(n as int) =~= Seq::<u8>::empty());
    }
    chunks
}

/// The pieces, one after the other, are the data: nothing is lost, repeated
/// or reordered by the cut.
pub proof fn lemma_chunks_cover(session_id: u64, pos: nat, data: Seq<u8>)
    requires
        pos + data.len() <= u64::MAX,
    ensures
        chunks_spec(session_id, pos, data).flatten() == data,
        forall|i: int|
            0 <= i < chunks_spec(session_id, pos, data).len() ==> (#[trigger] chunks_spec(
                session_id,
                pos,
                data,
            )[i]).len() > 0,
    decreases data.len(),
{
    let chunks = chunks_spec(session_id, pos, data);
    let n = fitting(data, payload_room(session_id, pos));
    lemma_payload_room(session_id, pos);
    lemma_fitting(data, payload_room(session_id, pos));
    if data.len() == 0 {
        assert(chunks.flatten() =~= data);
    } else {
        let head = data.take(n as int);
        let tail = chunks_spec(session_id, pos + n, data.skip(n as int));
        lemma_chunks_cover(session_id, pos + n, data.skip(n as int));
        assert(chunks == seq![head] + tail);
        assert(chunks.drop_first() =~= tail);
        assert(chunks.flatten() == chunks.first() + chunks.drop_first().flatten());
        assert(head + data.skip(n as int) =~= data);
        assert forall|i: int| 0 <= i < chunks.len() implies (#[trigger] chunks[i]).len() > 0 by {
            if i > 0 {
                assert(chunks[i] == tail[i - 1]);
            }
        }
    }
}

} // verus!
