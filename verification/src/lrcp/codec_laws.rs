//! What holds of the codec as a whole: escaping and unescaping undo each
//! other, and every message reads back from its own text.

use crate::error::Error;
use crate::lrcp::protocol::{
    ack_text, close_text, connect_text, data_text, escape_char, escape_spec, fields_from, framed,
    is_escaped, packet_text, parse_fields, parse_int_spec, parse_spec, parse_text, split_fields,
    unescape_spec, Packet, MAX_INT,
};
use crate::lrcp::text::{
    all_digits, ascii_bytes, decimal_digits, is_digit, lemma_ascii_bytes_is_ascii,
    lemma_decimal_len, lemma_decimal_roundtrip,
};
use vstd::prelude::*;
use vstd::utf8::is_ascii_chars;

verus! {

/// Unescaping undoes escaping, for any data whatever, and what escaping
/// produces is a well-formed payload.
pub proof fn lemma_unescape_escape(b: Seq<char>)
    ensures
        unescape_spec(escape_spec(b)) == b,
        is_escaped(escape_spec(b)),
    decreases b.len(),
{
    if b.len() > 0 {
        let c = b[0];
        let rest = b.drop_first();
        let e = escape_spec(b);
        lemma_unescape_escape(rest);
        assert(e == escape_char(c) + escape_spec(rest));
        if c == '/' || c == '\\' {
            assert(e[0] == '\\' && e[1] == c);
            assert(e.skip(2) =~= escape_spec(rest));
        } else {
            assert(e[0] == c);
            assert(e.drop_first() =~= escape_spec(rest));
        }
        assert(unescape_spec(e) =~= seq![c] + rest);
        assert(seq![c] + rest =~= b);
    }
}

/// Escaping undoes unescaping on every well-formed payload.
pub proof fn lemma_escape_unescape(e: Seq<char>)
    requires
        is_escaped(e),
    ensures
        escape_spec(unescape_spec(e)) == e,
    decreases e.len(),
{
    if e.len() > 0 {
        if e[0] == '\\' {
            let rest = e.skip(2);
            lemma_escape_unescape(rest);
            let u = unescape_spec(e);
            assert(u == seq![e[1]] + unescape_spec(rest));
            assert(u.drop_first() =~= unescape_spec(rest));
            assert(escape_spec(u) == escape_char(e[1]) + escape_spec(u.drop_first()));
            assert(escape_spec(u) =~= e);
        } else {
            let rest = e.drop_first();
            lemma_escape_unescape(rest);
            let u = unescape_spec(e);
            assert(u == seq![e[0]] + unescape_spec(rest));
            assert(u.drop_first() =~= unescape_spec(rest));
            assert(escape_spec(u) == escape_char(e[0]) + escape_spec(u.drop_first()));
            assert(escape_spec(u) =~= e);
        }
    }
}

/// Escaping works character by character.
pub proof fn lemma_escape_concat(a: Seq<char>, b: Seq<char>)
    ensures
        escape_spec(a + b) == escape_spec(a) + escape_spec(b),
    decreases a.len(),
{
    if a.len() == 0 {
        assert(a + b =~= b);
        assert(escape_spec(a) + escape_spec(b) =~= escape_spec(b));
    } else {
        lemma_escape_concat(a.drop_first(), b);
        assert((a + b).drop_first() =~= a.drop_first() + b);
        assert(escape_spec(a + b) =~= escape_spec(a) + escape_spec(b));
    }
}

/// Escaping at most doubles the length, and never shortens.
pub proof fn lemma_escape_len(b: Seq<char>)
    ensures
        b.len() <= escape_spec(b).len() <= 2 * b.len(),
    decreases b.len(),
{
    if b.len() > 0 {
        lemma_escape_len(b.drop_first());
    }
}

/// Escaped ASCII is ASCII.
pub proof fn lemma_escape_ascii(b: Seq<char>)
    requires
        is_ascii_chars(b),
    ensures
        is_ascii_chars(escape_spec(b)),
    decreases b.len(),
{
    if b.len() > 0 {
        let rest = b.drop_first();
        assert forall|i: int| 0 <= i < rest.len() implies '\0' <= #[trigger] rest[i]
            <= '\u{7f}' by {
            assert(rest[i] == b[i + 1]);
        }
        lemma_escape_ascii(rest);
        let head = escape_char(b[0]);
        let e = escape_spec(b);
        assert(e == head + escape_spec(rest));
        assert forall|i: int| 0 <= i < e.len() implies '\0' <= #[trigger] e[i] <= '\u{7f}' by {
            if i < head.len() {
                assert(e[i] == head[i]);
            } else {
                assert(e[i] == escape_spec(rest)[i - head.len()]);
            }
        }
    }
}

/// A well-formed payload in front of more text stays in the field that is
/// being read.
pub proof fn lemma_fields_prefix(a: Seq<char>, s: Seq<char>, acc: Seq<char>)
    requires
        is_escaped(a),
    ensures
        fields_from(a + s, acc, false) == fields_from(s, acc + a, false),
    decreases a.len(),
{
    if a.len() == 0 {
        assert(a + s =~= s);
        assert(acc + a =~= acc);
    } else if a[0] == '\\' {
        let t = a + s;
        let rest = a.skip(2);
        assert(t.drop_first().drop_first() =~= rest + s);
        assert(t.drop_first()[0] == a[1]);
        lemma_fields_prefix(rest, s, acc.push(a[0]).push(a[1]));
        assert(acc.push(a[0]).push(a[1]) + rest =~= acc + a);
        assert(fields_from(t, acc, false) == fields_from(t.drop_first(), acc.push(a[0]), true));
        assert(fields_from(t.drop_first(), acc.push(a[0]), true) == fields_from(
            t.drop_first().drop_first(),
            acc.push(a[0]).push(a[1]),
            false,
        ));
    } else {
        let t = a + s;
        let rest = a.drop_first();
        assert(t.drop_first() =~= rest + s);
        lemma_fields_prefix(rest, s, acc.push(a[0]));
        assert(acc.push(a[0]) + rest =~= acc + a);
    }
}

/// A well-formed payload is one field.
pub proof fn lemma_escaped_is_one_field(e: Seq<char>)
    requires
        is_escaped(e),
    ensures
        split_fields(e) == seq![e],
{
    lemma_fields_prefix(e, Seq::empty(), Seq::empty());
    assert(e + Seq::<char>::empty() =~= e);
    assert(Seq::<char>::empty() + e =~= e);
}

/// Text without `/` and `\` is a well-formed payload.
pub proof fn lemma_plain_is_escaped(s: Seq<char>)
    requires
        forall|i: int| 0 <= i < s.len() ==> #[trigger] s[i] != '/' && s[i] != '\\',
    ensures
        is_escaped(s),
    decreases s.len(),
{
    if s.len() > 0 {
        let rest = s.drop_first();
        assert forall|i: int| 0 <= i < rest.len() implies #[trigger] rest[i] != '/' && rest[i]
            != '\\' by {
            assert(rest[i] == s[i + 1]);
        }
        lemma_plain_is_escaped(rest);
    }
}

proof fn lemma_number_field(n: u64)
    requires
        n < MAX_INT,
    ensures
        is_escaped(decimal_digits(n as nat)),
        is_ascii_chars(decimal_digits(n as nat)),
        parse_int_spec(decimal_digits(n as nat)) == Ok::<u64, Error>(n),
        1 <= decimal_digits(n as nat).len() <= 10,
{
    let d = decimal_digits(n as nat);
    lemma_decimal_roundtrip(n as nat);
    lemma_decimal_len(n as nat);
    assert forall|i: int| 0 <= i < d.len() implies #[trigger] d[i] != '/' && d[i] != '\\' by {
        assert(is_digit(d[i]));
    }
    lemma_plain_is_escaped(d);
    assert forall|i: int| 0 <= i < d.len() implies '\0' <= #[trigger] d[i] <= '\u{7f}' by {
        assert(is_digit(d[i]));
    }
}

proof fn lemma_keywords()
    ensures
        "connect"@ == seq!['c', 'o', 'n', 'n', 'e', 'c', 't'],
        "close"@ == seq!['c', 'l', 'o', 's', 'e'],
        "ack"@ == seq!['a', 'c', 'k'],
        "data"@ == seq!['d', 'a', 't', 'a'],
        is_escaped("connect"@),
        is_escaped("close"@),
        is_escaped("ack"@),
        is_escaped("data"@),
        is_ascii_chars("connect"@),
        is_ascii_chars("close"@),
        is_ascii_chars("ack"@),
        is_ascii_chars("data"@),
{
    reveal_strlit("connect");
    reveal_strlit("close");
    reveal_strlit("ack");
    reveal_strlit("data");
    assert("connect"@ =~= seq!['c', 'o', 'n', 'n', 'e', 'c', 't']);
    assert("close"@ =~= seq!['c', 'l', 'o', 's', 'e']);
    assert("ack"@ =~= seq!['a', 'c', 'k']);
    assert("data"@ =~= seq!['d', 'a', 't', 'a']);
    lemma_plain_is_escaped("connect"@);
    lemma_plain_is_escaped("close"@);
    lemma_plain_is_escaped("ack"@);
    lemma_plain_is_escaped("data"@);
}

/// The fields of `a/rest` are `a`, then the fields of `rest`, when `a` is a
/// well-formed payload.
proof fn lemma_fields_cons(a: Seq<char>, rest: Seq<char>)
    requires
        is_escaped(a),
    ensures
        split_fields(a + seq!['/'] + rest) == seq![a] + split_fields(rest),
{
    let tail = seq!['/'] + rest;
    lemma_fields_prefix(a, tail, Seq::empty());
    assert(a + seq!['/'] + rest =~= a + tail);
    assert(Seq::<char>::empty() + a =~= a);
    assert(tail.drop_first() =~= rest);
    assert(fields_from(tail, a, false) == seq![a] + fields_from(
        tail.drop_first(),
        Seq::empty(),
        false,
    ));
}

/// What lies between the two outer slashes of framed text is the body.
proof fn lemma_framed(body: Seq<char>)
    ensures
        parse_text(framed(body)) == parse_fields(split_fields(body)),
        framed(body).len() == body.len() + 2,
        is_ascii_chars(body) ==> is_ascii_chars(framed(body)),
{
    let t = framed(body);
    assert(t.subrange(1, t.len() - 1) =~= body);
    if is_ascii_chars(body) {
        assert forall|i: int| 0 <= i < t.len() implies '\0' <= #[trigger] t[i] <= '\u{7f}' by {
            if 1 <= i < t.len() - 1 {
                assert(t[i] == body[i - 1]);
            }
        }
    }
}

/// A message whose numbers are below 2^31, and whose payload, if it has one,
/// is ASCII without an unprotected `/`.
pub open spec fn is_wire_packet(p: Packet) -> bool {
    match p {
        Packet::Connect { session_id } => session_id < MAX_INT,
        Packet::Close { session_id } => session_id < MAX_INT,
        Packet::Terminate { .. } => false,
        Packet::Data { session_id, pos, escaped } => session_id < MAX_INT && pos < MAX_INT
            && is_ascii_chars(escaped) && split_fields(escaped) == seq![escaped],
        Packet::Ack { session_id, length } => session_id < MAX_INT && length < MAX_INT,
    }
}

proof fn lemma_ascii_concat(a: Seq<char>, b: Seq<char>)
    requires
        is_ascii_chars(a),
        is_ascii_chars(b),
    ensures
        is_ascii_chars(a + b),
{
    assert forall|i: int| 0 <= i < (a + b).len() implies '\0' <= #[trigger] (a + b)[i]
        <= '\u{7f}' by {
        if i < a.len() {
            assert((a + b)[i] == a[i]);
        } else {
            assert((a + b)[i] == b[i - a.len()]);
        }
    }
}

/// Every such message has a text, that text is ASCII, and parsing its bytes
/// gives the message back.
pub proof fn lemma_parse_encode(p: Packet)
    requires
        is_wire_packet(p),
    ensures
        packet_text(p) is Some,
        is_ascii_chars(packet_text(p).unwrap()),
        parse_spec(ascii_bytes(packet_text(p).unwrap())) == Ok::<Packet, Error>(p),
{
    lemma_keywords();
    let slash = seq!['/'];
    assert(is_ascii_chars(slash));
    let text = packet_text(p).unwrap();
    match p {
        Packet::Connect { session_id } => {
            let d = decimal_digits(session_id as nat);
            lemma_number_field(session_id);
            let body = "connect"@ + slash + d;
            lemma_fields_cons("connect"@, d);
            lemma_escaped_is_one_field(d);
            assert(split_fields(body) =~= seq!["connect"@, d]);
            lemma_ascii_concat("connect"@, slash);
            lemma_ascii_concat("connect"@ + slash, d);
            lemma_framed(body);
        },
        Packet::Close { session_id } => {
            let d = decimal_digits(session_id as nat);
            lemma_number_field(session_id);
            let body = "close"@ + slash + d;
            lemma_fields_cons("close"@, d);
            lemma_escaped_is_one_field(d);
            assert(split_fields(body) =~= seq!["close"@, d]);
            lemma_ascii_concat("close"@, slash);
            lemma_ascii_concat("close"@ + slash, d);
            lemma_framed(body);
        },
        Packet::Terminate { .. } => {},
        Packet::Ack { session_id, length } => {
            let d = decimal_digits(session_id as nat);
            let l = decimal_digits(length as nat);
            lemma_number_field(session_id);
            lemma_number_field(length);
            let body = "ack"@ + slash + d + slash + l;
            lemma_fields_cons(d, l);
            lemma_fields_cons("ack"@, d + slash + l);
            lemma_escaped_is_one_field(l);
            assert(body =~= "ack"@ + slash + (d + slash + l));
            assert(split_fields(body) =~= seq!["ack"@, d, l]);
            lemma_ascii_concat("ack"@, slash);
            lemma_ascii_concat("ack"@ + slash, d);
            lemma_ascii_concat("ack"@ + slash + d, slash);
            lemma_ascii_concat("ack"@ + slash + d + slash, l);
            lemma_framed(body);
        },
        Packet::Data { session_id, pos, escaped } => {
            let d = decimal_digits(session_id as nat);
            let l = decimal_digits(pos as nat);
            lemma_number_field(session_id);
            lemma_number_field(pos);
            let body = "data"@ + slash + d + slash + l + slash + escaped;
            lemma_fields_cons(l, escaped);
            lemma_fields_cons(d, l + slash + escaped);
            lemma_fields_cons("data"@, d + slash + (l + slash + escaped));
            assert(body =~= "data"@ + slash + (d + slash + (l + slash + escaped)));
            assert(split_fields(body) =~= seq!["data"@, d, l, escaped]);
            lemma_ascii_concat("data"@, slash);
            lemma_ascii_concat("data"@ + slash, d);
            lemma_ascii_concat("data"@ + slash + d, slash);
            lemma_ascii_concat("data"@ + slash + d + slash, l);
            lemma_ascii_concat("data"@ + slash + d + slash + l, slash);
            lemma_ascii_concat("data"@ + slash + d + slash + l + slash, escaped);
            lemma_framed(body);
        },
    }
    lemma_ascii_bytes_is_ascii(text);
}

/// How long the text of a message is.
pub proof fn lemma_text_len(p: Packet)
    ensures
        match p {
            Packet::Connect { session_id } => connect_text(session_id).len() == 10
                + decimal_digits(session_id as nat).len(),
            Packet::Close { session_id } => close_text(session_id).len() == 8 + decimal_digits(
                session_id as nat,
            ).len(),
            Packet::Terminate { .. } => true,
            Packet::Data { session_id, pos, escaped } => data_text(session_id, pos, escaped).len()
                == 9 + decimal_digits(session_id as nat).len() + decimal_digits(pos as nat).len()
                + escaped.len(),
            Packet::Ack { session_id, length } => ack_text(session_id, length).len() == 7
                + decimal_digits(session_id as nat).len() + decimal_digits(length as nat).len(),
        },
{
    lemma_keywords();
}

// ---------------------------------------------------------------------------
// What parses
// ---------------------------------------------------------------------------

/// Whether the splitter, after reading `s` from the start of a field, is
/// still in that field, and then whether it has just read a protecting
/// backslash. `None` says that `s` holds a `/` that ends the field.
pub open spec fn field_state(s: Seq<char>, escaped: bool) -> Option<bool>
    decreases s.len(),
{
    if s.len() == 0 {
        Some(escaped)
    } else if escaped {
        field_state(s.drop_first(), false)
    } else if s[0] == '\\' {
        field_state(s.drop_first(), true)
    } else if s[0] == '/' {
        None
    } else {
        field_state(s.drop_first(), false)
    }
}

/// Text that the splitter reads as one field stays one field whatever was
/// read before it.
pub proof fn lemma_one_field(s: Seq<char>, acc: Seq<char>, escaped: bool)
    requires
        field_state(s, escaped) is Some,
    ensures
        fields_from(s, acc, escaped) == seq![acc + s],
    decreases s.len(),
{
    if s.len() == 0 {
        assert(acc + s =~= acc);
    } else {
        let next = escaped == false && s[0] == '\\';
        lemma_one_field(s.drop_first(), acc.push(s[0]), next);
        assert(acc.push(s[0]) + s.drop_first() =~= acc + s);
    }
}

proof fn lemma_field_state_push(s: Seq<char>, escaped: bool, c: char)
    requires
        field_state(s, escaped) is Some,
    ensures
        field_state(s.push(c), escaped) == if field_state(s, escaped).unwrap() {
            Some(false)
        } else if c == '\\' {
            Some(true)
        } else if c == '/' {
            None
        } else {
            Some(false)
        },
    decreases s.len(),
{
    let t = s.push(c);
    if s.len() == 0 {
        assert(t.drop_first() =~= Seq::<char>::empty());
        assert(field_state(Seq::<char>::empty(), false) == Some(false));
        assert(field_state(Seq::<char>::empty(), true) == Some(true));
    } else {
        let next = escaped == false && s[0] == '\\';
        assert(t.drop_first() =~= s.drop_first().push(c));
        assert(t[0] == s[0]);
        lemma_field_state_push(s.drop_first(), next, c);
    }
}

/// Every field that the splitter hands out is one field when split again,
/// and is ASCII if the text was.
pub proof fn lemma_fields_are_fields(s: Seq<char>, acc: Seq<char>, escaped: bool)
    requires
        field_state(acc, false) == Some(escaped),
    ensures
        forall|i: int|
            0 <= i < fields_from(s, acc, escaped).len() ==> {
                let f = #[trigger] fields_from(s, acc, escaped)[i];
                &&& split_fields(f) == seq![f]
                &&& is_ascii_chars(s) && is_ascii_chars(acc) ==> is_ascii_chars(f)
            },
    decreases s.len(),
{
    let fields = fields_from(s, acc, escaped);
    let none = Seq::<char>::empty();
    if s.len() == 0 {
        lemma_one_field(acc, none, false);
        assert(none + acc =~= acc);
    } else {
        let c = s[0];
        let rest = s.drop_first();
        if is_ascii_chars(s) {
            assert forall|j: int| 0 <= j < rest.len() implies '\0' <= #[trigger] rest[j]
                <= '\u{7f}' by {
                assert(rest[j] == s[j + 1]);
            }
            assert('\0' <= s[0] <= '\u{7f}');
        }
        if !escaped && c == '/' {
            lemma_one_field(acc, none, false);
            assert(none + acc =~= acc);
            assert(field_state(none, false) == Some(false));
            lemma_fields_are_fields(rest, none, false);
            let tail = fields_from(rest, none, false);
            assert forall|i: int| 0 <= i < fields.len() implies {
                let f = #[trigger] fields[i];
                &&& split_fields(f) == seq![f]
                &&& is_ascii_chars(s) && is_ascii_chars(acc) ==> is_ascii_chars(f)
            } by {
                if i > 0 {
                    assert(fields[i] == tail[i - 1]);
                }
            }
        } else {
            let grown = acc.push(c);
            let next = !escaped && c == '\\';
            lemma_field_state_push(acc, false, c);
            if is_ascii_chars(s) && is_ascii_chars(acc) {
                assert forall|j: int| 0 <= j < grown.len() implies '\0' <= #[trigger] grown[j]
                    <= '\u{7f}' by {
                    if j < acc.len() {
                        assert(grown[j] == acc[j]);
                    }
                }
            }
            lemma_fields_are_fields(rest, grown, next);
            assert(fields == fields_from(rest, grown, next));
        }
    }
}

/// Whatever parses is a message that travels: its numbers are below 2^31,
/// and its payload, if it has one, is ASCII without an unprotected `/`.
/// So parsing and writing agree on what a message is.
pub proof fn lemma_parse_sound(datagram: Seq<u8>)
    requires
        parse_spec(datagram) is Ok,
    ensures
        is_wire_packet(parse_spec(datagram).unwrap()),
{
    let text = crate::lrcp::text::ascii_chars(datagram);
    crate::lrcp::text::lemma_ascii_chars_is_ascii(datagram);
    let inner = text.subrange(1, text.len() - 1);
    assert forall|j: int| 0 <= j < inner.len() implies '\0' <= #[trigger] inner[j]
        <= '\u{7f}' by {
        assert(inner[j] == text[j + 1]);
    }
    let none = Seq::<char>::empty();
    assert(field_state(none, false) == Some(false));
    lemma_fields_are_fields(inner, none, false);
    let fields = split_fields(inner);
    if fields.len() == 4 {
        assert(split_fields(fields[3]) == seq![fields[3]]);
    }
}

} // verus!
