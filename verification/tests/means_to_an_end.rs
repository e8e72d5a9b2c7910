use protohacker_in_rust::error::Error;
use protohacker_in_rust::protohackers::problem2::{Db, Message};

fn create_message(op: u8, first: i32, second: i32) -> [u8; 9] {
    let mut buffer = [0u8; 9];
    buffer[0] = op;
    buffer[1..5].copy_from_slice(&first.to_be_bytes());
    buffer[5..9].copy_from_slice(&second.to_be_bytes());
    buffer
}

#[test]
fn message_encode() {
    let buffer = create_message(b'I', 12345, 101);
    assert_eq!(buffer, [0x49, 0, 0, 0x30, 0x39, 0, 0, 0, 0x65]);
    assert_eq!(
        Message::parse(&buffer),
        Ok(Message::Insert {
            timestamp: 12345,
            price: 101
        })
    );
}

#[test]
fn message_parse_test_insert_ok() {
    let buffer = create_message(b'I', 10, 100);

    let message = Message::parse(&buffer).unwrap();

    assert_eq!(
        Message::Insert {
            timestamp: 10,
            price: 100
        },
        message
    )
}

#[test]
fn message_parse_test_query_ok() {
    let buffer = create_message(b'Q', 10, 100);

    let message = Message::parse(&buffer).unwrap();

    assert_eq!(
        Message::Query {
            mintime: 10,
            maxtime: 100,
        },
        message
    )
}

#[test]
fn message_parse_reads_negative_numbers() {
    for (first, second) in [
        (-1, i32::MIN),
        (i32::MAX, -2),
        (0, 0),
        (-123456, 654321),
        (0x0102_0304, -0x0102_0304),
    ] {
        assert_eq!(
            Message::parse(&create_message(b'Q', first, second)),
            Ok(Message::Query {
                mintime: first,
                maxtime: second
            })
        );
    }
}

#[test]
fn message_parse_refuses_other_letters() {
    assert_eq!(
        Message::parse(&create_message(b'X', 1, 2)),
        Err(Error::InvalidProtocol)
    );
    assert_eq!(
        Message::parse(&create_message(b'i', 1, 2)),
        Err(Error::InvalidProtocol)
    );
}

#[test]
fn the_mean_of_the_example_session() {
    let mut db = Db::new();
    db.insert(12345, 101);
    db.insert(123456, 102);
    db.insert(123456, 100);
    db.insert(40960, 5);
    assert_eq!(db.mean(12288..=16384), 101);
    assert_eq!(db.mean(12288..=40960), 53);
    assert_eq!(db.mean(0..=200000), 68);
    assert_eq!(db.mean(123456..=123456), 100);
}

#[test]
fn the_mean_of_nothing_is_zero() {
    let mut db = Db::new();
    assert_eq!(db.mean(0..=100), 0);
    db.insert(50, 7);
    assert_eq!(db.mean(100..=0), 0);
    assert_eq!(db.mean(51..=100), 0);
    assert_eq!(db.mean(50..=50), 7);
}

#[test]
fn the_mean_rounds_towards_zero() {
    let mut db = Db::new();
    db.insert(1, -3);
    db.insert(2, -4);
    assert_eq!(db.mean(1..=2), -3);
    db.insert(3, 8);
    db.insert(4, 2);
    assert_eq!(db.mean(1..=4), 0);
    assert_eq!(db.mean(3..=4), 5);
    db.insert(5, 3);
    assert_eq!(db.mean(3..=5), 4);
}

#[test]
fn the_mean_of_extremes_fits() {
    let mut db = Db::new();
    db.insert(i32::MIN, i32::MIN);
    db.insert(-1, i32::MIN);
    assert_eq!(db.mean(i32::MIN..=0), i32::MIN);
    db.insert(i32::MAX, i32::MAX);
    db.insert(1, i32::MAX);
    assert_eq!(db.mean(1..=i32::MAX), i32::MAX);
    assert_eq!(db.mean(i32::MIN..=i32::MAX), 0);
}

/// Serves a client's bytes as the server does: nine bytes a message, an
/// answer of four bytes to each query.
fn serve(input: &[u8]) -> Vec<u8> {
    let mut db = Db::new();
    let mut output = Vec::new();
    for chunk in input.chunks_exact(9) {
        let buffer: [u8; 9] = chunk.try_into().unwrap();
        match Message::parse(&buffer).unwrap() {
            Message::Insert { timestamp, price } => db.insert(timestamp, price),
            Message::Query { mintime, maxtime } => {
                output.extend_from_slice(&db.mean(mintime..=maxtime).to_be_bytes())
            }
        }
    }
    output
}

#[test]
fn problem2_example_session_test() {
    let messages = vec![
        create_message(b'I', 12345, 101),
        create_message(b'I', 123456, 102),
        create_message(b'I', 123456, 100),
        create_message(b'I', 40960, 5),
        create_message(b'Q', 12288, 16384),
    ]
    .into_iter()
    .flatten()
    .collect::<Vec<u8>>();

    let output = serve(messages.as_slice());

    assert_eq!(4, output.len());
    assert_eq!(101, i32::from_be_bytes(output[..4].try_into().unwrap()));
}
