use protohacker_in_rust::error::Error;
use protohacker_in_rust::lrcp::chunks::produce_chunks;
use protohacker_in_rust::lrcp::protocol::MAX_PACKET_LENGTH;
use protohacker_in_rust::lrcp::session::{
    PeerAddr, Session, SessionCommand, SessionEvent, SessionOutput, UdpMessage,
    IDLE_TIMEOUT_SECOND, RETRANSMIT_MILLIS,
};

const PEER: PeerAddr = PeerAddr {
    ip: 0x7f00_0001,
    port: 4000,
};

fn texts(out: &SessionOutput) -> Vec<String> {
    out.packets
        .iter()
        .map(|m| {
            assert_eq!(m.target, PEER);
            String::from_utf8(m.payload.clone()).unwrap()
        })
        .collect()
}

fn data(pos: u64, escaped: &str) -> SessionEvent {
    SessionEvent::Data {
        pos,
        escaped_data: escaped.to_string(),
    }
}

fn write(session: &mut Session, bytes: &[u8], now: u64) -> SessionOutput {
    session
        .handle_command(
            SessionCommand::Write {
                data: bytes.to_vec(),
            },
            now,
        )
        .unwrap()
}

#[test]
fn a_fresh_session_has_sent_and_received_nothing() {
    let session = Session::new(12345, PEER, 17);
    assert_eq!(session.session_id(), 12345);
    assert_eq!(session.peer(), PEER);
    assert_eq!(session.recv_pos(), 0);
    assert_eq!(session.send_pos(), 0);
    assert_eq!(session.acked_pos(), 0);
    assert_eq!(session.pending_out(), b"");
    assert_eq!(session.last_activity(), 17);
    assert_eq!(session.retransmit_at(), None);
    assert!(!session.is_closed());
}

#[test]
fn udp_message_carries_the_text_as_bytes() {
    let m = UdpMessage::new(PEER, "/ack/1/2/".to_string());
    assert_eq!(m.target, PEER);
    assert_eq!(m.payload, b"/ack/1/2/");
}

#[test]
fn aligned_data_is_delivered_and_acked() {
    let mut session = Session::new(12345, PEER, 0);
    let out = session.handle_event(data(0, "hello\n"), 5);
    assert_eq!(texts(&out), vec!["/ack/12345/6/"]);
    assert_eq!(out.delivered.as_deref(), Some(&b"hello\n"[..]));
    assert!(!out.terminated);
    assert_eq!(session.recv_pos(), 6);
    assert_eq!(session.last_activity(), 5);

    let out = session.handle_event(data(6, "either\\/or\\\\\n"), 6);
    assert_eq!(texts(&out), vec!["/ack/12345/17/"]);
    assert_eq!(out.delivered.as_deref(), Some(&b"either/or\\\n"[..]));
    assert_eq!(session.recv_pos(), 17);
}

#[test]
fn misaligned_data_is_acked_at_the_old_position_and_dropped() {
    let mut session = Session::new(12345, PEER, 0);
    session.handle_event(data(0, "hello"), 1);

    // a gap
    let out = session.handle_event(data(9, "late"), 2);
    assert_eq!(texts(&out), vec!["/ack/12345/5/"]);
    assert!(out.delivered.is_none());
    assert_eq!(session.recv_pos(), 5);

    // a duplicate
    let out = session.handle_event(data(0, "hello"), 3);
    assert_eq!(texts(&out), vec!["/ack/12345/5/"]);
    assert!(out.delivered.is_none());
    assert_eq!(session.recv_pos(), 5);

    // an overlap
    let out = session.handle_event(data(3, "loworld"), 4);
    assert_eq!(texts(&out), vec!["/ack/12345/5/"]);
    assert!(out.delivered.is_none());
    assert_eq!(session.recv_pos(), 5);
    assert_eq!(session.last_activity(), 4);
}

#[test]
fn empty_data_is_acked_and_delivers_nothing() {
    let mut session = Session::new(7, PEER, 0);
    let out = session.handle_event(data(0, ""), 1);
    assert_eq!(texts(&out), vec!["/ack/7/0/"]);
    assert!(out.delivered.is_none());
    assert_eq!(session.recv_pos(), 0);
}

#[test]
fn a_write_is_sent_at_once_and_arms_the_timer() {
    let mut session = Session::new(12345, PEER, 0);
    let out = write(&mut session, b"olleh\n", 100);
    assert_eq!(texts(&out), vec!["/data/12345/0/olleh\n/"]);
    assert!(out.delivered.is_none());
    assert_eq!(session.send_pos(), 6);
    assert_eq!(session.acked_pos(), 0);
    assert_eq!(session.pending_out(), b"olleh\n");
    assert_eq!(session.retransmit_at(), Some(100 + RETRANSMIT_MILLIS as u64));

    // the timer that is armed stays as it is
    let out = write(&mut session, b"a/b\\c\n", 200);
    assert_eq!(texts(&out), vec!["/data/12345/6/a\\/b\\\\c\n/"]);
    assert_eq!(session.send_pos(), 12);
    assert_eq!(session.retransmit_at(), Some(3100));
}

#[test]
fn an_empty_write_sends_nothing_and_arms_nothing() {
    let mut session = Session::new(1, PEER, 0);
    let out = write(&mut session, b"", 10);
    assert!(texts(&out).is_empty());
    assert_eq!(session.send_pos(), 0);
    assert_eq!(session.retransmit_at(), None);
}

#[test]
fn a_write_is_refused_for_non_ascii_bytes() {
    let mut session = Session::new(1, PEER, 0);
    let r = session.handle_command(
        SessionCommand::Write {
            data: vec![b'a', 0x80],
        },
        1,
    );
    assert_eq!(r.err(), Some(Error::NonAsciiPayload));
    assert_eq!(session.send_pos(), 0);
    assert_eq!(session.pending_out(), b"");
}

#[test]
fn a_write_is_refused_on_a_closed_session() {
    let mut session = Session::new(1, PEER, 0);
    let out = session
        .handle_command(SessionCommand::Shutdown, 1)
        .unwrap();
    assert_eq!(texts(&out), vec!["/close/1/"]);
    assert!(out.terminated);
    assert!(session.is_closed());

    let r = session.handle_command(
        SessionCommand::Write {
            data: b"x".to_vec(),
        },
        2,
    );
    assert_eq!(r.err(), Some(Error::SessionClosed));
    let r = session.handle_command(SessionCommand::Shutdown, 2);
    assert_eq!(r.err(), Some(Error::SessionClosed));
}

#[test]
fn long_writes_leave_in_chunks_that_fit() {
    let mut session = Session::new(2147483647, PEER, 0);
    // the worst case: every byte doubles
    let bytes = vec![b'/'; 1000];
    let out = write(&mut session, &bytes, 0);
    let sent = texts(&out);
    assert_eq!(sent.len(), 3);
    // 999 - 9 - 10 digits - 1 digit leaves 979 characters: 489 escaped slashes
    assert_eq!(
        sent[0],
        format!("/data/2147483647/0/{}/", "\\/".repeat(489))
    );
    // 999 - 9 - 10 digits - 3 digits leaves 977 characters: 488 escaped slashes
    assert_eq!(
        sent[1],
        format!("/data/2147483647/489/{}/", "\\/".repeat(488))
    );
    assert_eq!(
        sent[2],
        format!("/data/2147483647/977/{}/", "\\/".repeat(23))
    );
    assert_eq!(sent[0].len(), 998);
    assert_eq!(sent[1].len(), 998);
    for text in &sent {
        assert!(text.len() < MAX_PACKET_LENGTH);
    }
    assert_eq!(session.send_pos(), 1000);
}

#[test]
fn a_datagram_is_filled_to_the_last_byte() {
    // 999 - 9 - 1 digit - 1 digit leaves 988 characters
    let mut session = Session::new(1, PEER, 0);
    let out = write(&mut session, &vec![b'a'; 988], 0);
    let sent = texts(&out);
    assert_eq!(sent, vec![format!("/data/1/0/{}/", "a".repeat(988))]);
    assert_eq!(sent[0].len(), 999);

    let mut session = Session::new(1, PEER, 0);
    let out = write(&mut session, &vec![b'a'; 989], 0);
    assert_eq!(
        texts(&out),
        vec![
            format!("/data/1/0/{}/", "a".repeat(988)),
            "/data/1/988/a/".to_string()
        ]
    );

    // a byte that needs two characters does not go where one is left
    let mut session = Session::new(1, PEER, 0);
    let mut bytes = vec![b'a'; 987];
    bytes.push(b'/');
    bytes.push(b'b');
    let out = write(&mut session, &bytes, 0);
    assert_eq!(
        texts(&out),
        vec![
            format!("/data/1/0/{}/", "a".repeat(987)),
            "/data/1/987/\\/b/".to_string()
        ]
    );
}

#[test]
fn acks_trim_what_is_pending_and_resend_the_rest() {
    let mut session = Session::new(12345, PEER, 0);
    write(&mut session, b"olleh\n", 0);

    let out = session.handle_event(SessionEvent::Ack { length: 3 }, 10);
    assert_eq!(texts(&out), vec!["/data/12345/3/eh\n/"]);
    assert_eq!(session.acked_pos(), 3);
    assert_eq!(session.send_pos(), 6);
    assert_eq!(session.pending_out(), b"eh\n");
    assert_eq!(session.retransmit_at(), Some(3010));

    // a stale ack changes nothing but the time of the last sign of life
    let out = session.handle_event(SessionEvent::Ack { length: 3 }, 20);
    assert!(texts(&out).is_empty());
    let out = session.handle_event(SessionEvent::Ack { length: 1 }, 30);
    assert!(texts(&out).is_empty());
    assert!(!out.terminated);
    assert_eq!(session.acked_pos(), 3);
    assert_eq!(session.pending_out(), b"eh\n");
    assert_eq!(session.retransmit_at(), Some(3010));
    assert_eq!(session.last_activity(), 30);

    // the last ack empties the buffer and disarms the timer
    let out = session.handle_event(SessionEvent::Ack { length: 6 }, 40);
    assert!(texts(&out).is_empty());
    assert_eq!(session.acked_pos(), 6);
    assert_eq!(session.pending_out(), b"");
    assert_eq!(session.retransmit_at(), None);
}

#[test]
fn an_ack_past_what_was_sent_destroys_the_session() {
    let mut session = Session::new(12345, PEER, 0);
    write(&mut session, b"abc", 0);
    let out = session.handle_event(SessionEvent::Ack { length: 4 }, 1);
    assert_eq!(texts(&out), vec!["/close/12345/"]);
    assert!(out.terminated);
    assert!(session.is_closed());
    assert_eq!(session.retransmit_at(), None);

    // a destroyed session is silent
    let out = session.handle_event(SessionEvent::Ack { length: 1 }, 2);
    assert!(texts(&out).is_empty());
    assert!(!out.terminated);
    let out = session.handle_event(data(0, "x"), 3);
    assert!(texts(&out).is_empty());
    assert!(out.delivered.is_none());
    let out = session.handle_event(SessionEvent::RetransmitPendingData, 4);
    assert!(texts(&out).is_empty());
}

#[test]
fn the_retransmit_timer_sends_everything_pending_again() {
    let mut session = Session::new(12345, PEER, 0);
    write(&mut session, b"olleh\n", 0);
    for round in 1..=2u64 {
        let now = round * 3000;
        let out = session.handle_event(SessionEvent::RetransmitPendingData, now);
        assert_eq!(texts(&out), vec!["/data/12345/0/olleh\n/"]);
        assert_eq!(session.retransmit_at(), Some(now + 3000));
        assert_eq!(session.send_pos(), 6);
        // a timer is no sign of life
        assert_eq!(session.last_activity(), 0);
    }
    session.handle_event(SessionEvent::Ack { length: 3 }, 7000);
    let out = session.handle_event(SessionEvent::RetransmitPendingData, 10000);
    assert_eq!(texts(&out), vec!["/data/12345/3/eh\n/"]);

    session.handle_event(SessionEvent::Ack { length: 6 }, 10001);
    let out = session.handle_event(SessionEvent::RetransmitPendingData, 13000);
    assert!(texts(&out).is_empty());
    assert_eq!(session.retransmit_at(), None);
}

#[test]
fn the_retransmit_deadline_does_not_overflow() {
    let mut session = Session::new(1, PEER, 0);
    write(&mut session, b"x", u64::MAX - 1);
    assert_eq!(session.retransmit_at(), Some(u64::MAX));
}

#[test]
fn a_repeated_connect_only_counts_as_a_sign_of_life() {
    let mut session = Session::new(12345, PEER, 0);
    session.handle_event(data(0, "abc"), 1);
    write(&mut session, b"xyz", 2);
    let out = session.handle_event(SessionEvent::RepeatedConnect, 50);
    assert!(texts(&out).is_empty());
    assert!(out.delivered.is_none());
    assert!(!out.terminated);
    assert_eq!(session.recv_pos(), 3);
    assert_eq!(session.send_pos(), 3);
    assert_eq!(session.acked_pos(), 0);
    assert_eq!(session.pending_out(), b"xyz");
    assert_eq!(session.last_activity(), 50);
}

#[test]
fn a_close_from_the_peer_is_echoed() {
    let mut session = Session::new(12345, PEER, 0);
    let out = session.handle_event(
        SessionEvent::Close {
            reason: "client close connection".to_string(),
        },
        1,
    );
    assert_eq!(texts(&out), vec!["/close/12345/"]);
    assert!(out.terminated);
    assert!(session.is_closed());
}

#[test]
fn a_silent_peer_is_given_up_after_the_idle_time() {
    let idle = IDLE_TIMEOUT_SECOND as u64 * 1000;
    let mut session = Session::new(12345, PEER, 1000);
    let out = session.handle_event(SessionEvent::CheckSessionExpiry, 1000 + idle);
    assert!(texts(&out).is_empty());
    assert!(!session.is_closed());

    // a clock that runs backwards gives nobody up
    let out = session.handle_event(SessionEvent::CheckSessionExpiry, 0);
    assert!(texts(&out).is_empty());

    let out = session.handle_event(SessionEvent::CheckSessionExpiry, 1001 + idle);
    assert_eq!(texts(&out), vec!["/close/12345/"]);
    assert!(out.terminated);
    assert!(session.is_closed());
}

#[test]
fn any_message_from_the_peer_puts_the_idle_time_off() {
    let idle = IDLE_TIMEOUT_SECOND as u64 * 1000;
    let mut session = Session::new(12345, PEER, 0);
    session.handle_event(SessionEvent::Ack { length: 0 }, idle);
    let out = session.handle_event(SessionEvent::CheckSessionExpiry, idle + 1);
    assert!(texts(&out).is_empty());
    assert!(!session.is_closed());
}

#[test]
fn the_stream_ends_at_the_last_position() {
    let mut session = Session::new(1, PEER, 0);
    write(&mut session, b"abc", 0);
    // three bytes are in: 2^31 - 4 more would reach the last position
    let too_many = vec![0u8; (1usize << 31) - 3];
    let r = session.handle_command(SessionCommand::Write { data: too_many }, 0);
    assert_eq!(r.err(), Some(Error::StreamTooLong));
    assert_eq!(session.send_pos(), 3);
    assert_eq!(session.pending_out(), b"abc");
    // the length is looked at before the bytes
    let mut too_many = vec![0u8; 1usize << 31];
    too_many[0] = 0xff;
    let r = session.handle_command(SessionCommand::Write { data: too_many }, 0);
    assert_eq!(r.err(), Some(Error::StreamTooLong));
}

#[test]
fn a_megabyte_leaves_in_full_datagrams() {
    let mut session = Session::new(1, PEER, 0);
    let big = vec![b'a'; 1 << 20];
    let out = write(&mut session, &big, 0);
    let sent = texts(&out);
    assert_eq!(sent[0], format!("/data/1/0/{}/", "a".repeat(988)));
    assert_eq!(sent[1], format!("/data/1/988/{}/", "a".repeat(986)));
    assert_eq!(sent[2], format!("/data/1/1974/{}/", "a".repeat(985)));
    let (last, full) = sent.split_last().unwrap();
    for text in full {
        assert_eq!(text.len(), 999);
    }
    assert!(last.len() < MAX_PACKET_LENGTH);
    assert_eq!(session.send_pos(), 1 << 20);
}

#[test]
fn produce_chunks_fills_each_message() {
    let lens = |chunks: Vec<Vec<u8>>| chunks.iter().map(|c| c.len()).collect::<Vec<usize>>();
    assert_eq!(
        lens(produce_chunks(1, 0, vec![b'a'; 2000])),
        vec![988, 986, 26]
    );
    assert_eq!(
        lens(produce_chunks(12345, 999_999, vec![b'a'; 2000])),
        vec![979, 978, 43]
    );
    assert_eq!(
        lens(produce_chunks(1, 0, vec![b'\\'; 1000])),
        vec![494, 493, 13]
    );
    assert_eq!(lens(produce_chunks(1, 0, b"hello".to_vec())), vec![5]);
    assert_eq!(produce_chunks(1, 0, Vec::new()), Vec::<Vec<u8>>::new());
    let text = b"one/two\\three\n".repeat(500);
    let joined: Vec<u8> = produce_chunks(7, 3, text.clone()).concat();
    assert_eq!(joined, text);
}
