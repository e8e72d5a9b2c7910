use protohacker_in_rust::line_reversal::{reverse_line, LineReverser};

#[test]
fn reverse_line_reverses_the_characters() {
    assert_eq!(reverse_line("hello"), "olleh");
    assert_eq!(reverse_line("Hello, world!"), "!dlrow ,olleH");
    assert_eq!(reverse_line(""), "");
    assert_eq!(reverse_line("a"), "a");
    assert_eq!(reverse_line(" padded"), "deddap ");
    assert_eq!(reverse_line("either/or"), "ro/rehtie");
    assert_eq!(reverse_line("h\u{e9}llo \u{1f980}"), "\u{1f980} oll\u{e9}h");
}

#[test]
fn each_line_is_answered_reversed() {
    let mut service = LineReverser::new();
    assert_eq!(service.feed(b"hello\n"), b"olleh\n");
    assert_eq!(service.feed(b"Hello, world!\n"), b"!dlrow ,olleH\n");
    assert_eq!(service.feed(b"\n"), b"\n");
    assert_eq!(service.feed(b"one\ntwo\nthree\n"), b"eno\nowt\neerht\n");
}

#[test]
fn a_line_may_arrive_in_pieces() {
    let mut service = LineReverser::new();
    assert_eq!(service.feed(b"hello "), b"");
    assert_eq!(service.feed(b""), b"");
    assert_eq!(service.feed(b"world!"), b"");
    assert_eq!(service.feed(b"\nnext"), b"!dlrow olleh\n");
    assert_eq!(service.feed(b" line\nrest"), b"enil txen\n");
}

#[test]
fn an_unfinished_line_is_never_answered() {
    let mut service = LineReverser::new();
    assert_eq!(service.feed(b"no end"), b"");
}

#[test]
fn spaces_at_the_ends_of_a_line_are_kept() {
    let mut service = LineReverser::new();
    assert_eq!(service.feed(b"  two spaces\n"), b"secaps owt  \n");
    assert_eq!(service.feed(b"tab\t\n"), b"\tbat\n");
}

#[test]
fn pieces_and_whole_give_the_same_answers() {
    let text = b"alpha\nbeta gamma\n\ndelta";
    let mut whole = LineReverser::new();
    let expected = whole.feed(text);
    for cut in 0..=text.len() {
        let mut service = LineReverser::new();
        let mut answer = service.feed(&text[..cut]);
        answer.extend(service.feed(&text[cut..]));
        assert_eq!(answer, expected);
    }
}
