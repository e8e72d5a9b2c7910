use protohacker_in_rust::lrcp::protocol::{
    parse_packet, unescape_data, LrcpMessage, MAX_PACKET_LENGTH,
};
use protohacker_in_rust::lrcp::session::{
    PeerAddr, Session, SessionCommand, SessionEvent, SessionOutput,
};
use protohacker_in_rust::lrcp::{LrcpListener, RETRANSMIT_MILLIS};

const PEER: PeerAddr = PeerAddr { ip: 1, port: 9 };

/// A small generator of numbers that looks random and is the same each run.
struct Dice(u64);

impl Dice {
    fn roll(&mut self, sides: u64) -> u64 {
        self.0 = self
            .0
            .wrapping_mul(6364136223846793005)
            .wrapping_add(1442695040888963407);
        (self.0 >> 33) % sides
    }
}

/// What the data messages of an output carry: (position, bytes).
fn data_of(out: &SessionOutput) -> Vec<(u64, Vec<u8>)> {
    let mut all = Vec::new();
    for (i, m) in out.packets.iter().enumerate() {
        assert!(m.payload.len() < MAX_PACKET_LENGTH);
        if i + 1 < out.packets.len() {
            // all but the last are full: at most one character is left
            assert!(m.payload.len() >= MAX_PACKET_LENGTH - 2);
        }
        assert_eq!(m.target, PEER);
        match parse_packet(&m.payload).unwrap() {
            LrcpMessage::Data {
                session_id,
                pos,
                escaped_data,
            } => {
                assert_eq!(session_id, 77);
                all.push((pos, unescape_data(&escaped_data).into_bytes()));
            }
            LrcpMessage::Ack { session_id, .. } => assert_eq!(session_id, 77),
            LrcpMessage::ClientClose { session_id } => assert_eq!(session_id, 77),
            other => panic!("a session never sends {:?}", other),
        }
    }
    all
}

#[test]
fn the_application_reads_the_peers_stream_whatever_the_network_does() {
    let stream: Vec<u8> = (0..5000u32)
        .map(|i| b"abc/def\\ghi\n"[(i % 12) as usize])
        .collect();
    // the peer's data messages, cut at odd places
    let mut cuts = vec![0usize];
    let mut dice = Dice(7);
    while *cuts.last().unwrap() < stream.len() {
        let next = (*cuts.last().unwrap() + 1 + dice.roll(200) as usize).min(stream.len());
        cuts.push(next);
    }
    let escape = |bytes: &[u8]| {
        protohacker_in_rust::lrcp::protocol::escape_data(std::str::from_utf8(bytes).unwrap())
    };

    let mut session = Session::new(77, PEER, 0);
    let mut read = Vec::new();
    let mut now = 0;
    while (session.recv_pos() as usize) < stream.len() {
        now += 1;
        // any message at all: lost ones never come, others come again
        let i = dice.roll(cuts.len() as u64 - 1) as usize;
        let event = SessionEvent::Data {
            pos: cuts[i] as u64,
            escaped_data: escape(&stream[cuts[i]..cuts[i + 1]]),
        };
        let before = session.recv_pos();
        let out = session.handle_event(event, now);
        if let Some(bytes) = &out.delivered {
            assert_eq!(cuts[i] as u64, before);
            read.extend_from_slice(bytes);
        }
        assert!(session.recv_pos() >= before);
        assert_eq!(read.len() as u64, session.recv_pos());
        assert_eq!(read, stream[..read.len()]);
    }
    assert_eq!(read, stream);
}

#[test]
fn what_is_sent_is_what_was_written_and_never_below_an_ack() {
    let mut dice = Dice(42);
    let mut session = Session::new(77, PEER, 0);
    let mut written: Vec<u8> = Vec::new();
    let mut now = 0;
    for _ in 0..3000 {
        now += dice.roll(2000);
        let out = match dice.roll(4) {
            0 => {
                let len = dice.roll(1500) as usize;
                let data: Vec<u8> = (0..len).map(|_| b"ab/\\\n"[dice.roll(5) as usize]).collect();
                written.extend_from_slice(&data);
                session
                    .handle_command(SessionCommand::Write { data }, now)
                    .unwrap()
            }
            1 => session.handle_event(SessionEvent::RetransmitPendingData, now),
            2 => {
                // sometimes new, sometimes stale, never past what was sent
                let length = dice.roll(session.send_pos() + 1);
                session.handle_event(SessionEvent::Ack { length }, now)
            }
            _ => session.handle_event(SessionEvent::RepeatedConnect, now),
        };
        assert!(session.acked_pos() <= session.send_pos());
        assert_eq!(session.send_pos(), written.len() as u64);
        assert_eq!(
            session.pending_out(),
            &written[session.acked_pos() as usize..]
        );
        assert_eq!(
            session.retransmit_at().is_some(),
            session.acked_pos() < session.send_pos()
        );
        for (pos, bytes) in data_of(&out) {
            assert!(pos >= session.acked_pos());
            let pos = pos as usize;
            assert_eq!(bytes, written[pos..pos + bytes.len()]);
        }
        assert!(!out.terminated);
    }
    assert!(written.len() > 100_000);
}

#[test]
fn the_timer_is_armed_three_seconds_ahead() {
    let mut listener = LrcpListener::new();
    listener.handle_datagram(PEER, b"/connect/1/", 500);
    assert_eq!(listener.retransmit_at(1), None);
    listener
        .handle_command(
            1,
            SessionCommand::Write {
                data: b"x".to_vec(),
            },
            1000,
        )
        .unwrap();
    assert_eq!(listener.retransmit_at(1), Some(1000 + RETRANSMIT_MILLIS as u64));
    assert_eq!(listener.retransmit_at(2), None);
}
