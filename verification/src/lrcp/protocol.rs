//! The datagram codec: `/TYPE/FIELD/.../` text in, messages out, and back.

use crate::error::Error;
use crate::lrcp::text::{
    all_ascii, all_digits, ascii_chars, ascii_to_string, decimal_digits, decimal_value,
    digit_value, is_ascii_bytes, is_digit, push_decimal,
};
use vstd::prelude::*;
use vstd::string::StringExecFns;

verus! {

/// Session ids, positions and lengths on the wire are below this (2^31).
pub const MAX_INT: u64 = 2_147_483_648;

/// Every datagram is shorter than this.
pub const MAX_PACKET_LENGTH: usize = 1000;

/// The byte `/`.
pub const SLASH: u8 = 47;

/// The byte `\`.
pub const BACKSLASH: u8 = 92;

/// A datagram as the server sees it.
///
/// `SessionTerminate` never travels: a session that has destroyed itself hands
/// it to the listener so that the listener forgets the session.
#[derive(Debug, Clone, PartialEq)]
pub enum LrcpMessage {
    Connect { session_id: u64 },
    ClientClose { session_id: u64 },
    SessionTerminate { session_id: u64 },
    Data {
        session_id: u64,
        /// Offset in the stream of unescaped application bytes.
        pos: u64,
        escaped_data: String,
    },
    Ack { session_id: u64, length: u64 },
}

/// What a message is, with its payload as a sequence of characters.
pub enum Packet {
    Connect { session_id: u64 },
    Close { session_id: u64 },
    Terminate { session_id: u64 },
    Data { session_id: u64, pos: u64, escaped: Seq<char> },
    Ack { session_id: u64, length: u64 },
}

impl View for LrcpMessage {
    type V = Packet;

    open spec fn view(&self) -> Packet {
        match self {
            LrcpMessage::Connect { session_id } => Packet::Connect { session_id: *session_id },
            LrcpMessage::ClientClose { session_id } => Packet::Close { session_id: *session_id },
            LrcpMessage::SessionTerminate { session_id } => Packet::Terminate {
                session_id: *session_id,
            },
            LrcpMessage::Data { session_id, pos, escaped_data } => Packet::Data {
                session_id: *session_id,
                pos: *pos,
                escaped: escaped_data@,
            },
            LrcpMessage::Ack { session_id, length } => Packet::Ack {
                session_id: *session_id,
                length: *length,
            },
        }
    }
}

impl LrcpMessage {
    /// The session that the message names.
    pub fn session_id(&self) -> (id: u64)
        ensures
            id == self@.session_id(),
    {
        match self {
            LrcpMessage::Connect { session_id } => *session_id,
            LrcpMessage::ClientClose { session_id } => *session_id,
            LrcpMessage::SessionTerminate { session_id } => *session_id,
            LrcpMessage::Data { session_id, .. } => *session_id,
            LrcpMessage::Ack { session_id, .. } => *session_id,
        }
    }
}

impl Packet {
    /// The session that the message names.
    pub open spec fn session_id(self) -> u64 {
        match self {
            Packet::Connect { session_id } => session_id,
            Packet::Close { session_id } => session_id,
            Packet::Terminate { session_id } => session_id,
            Packet::Data { session_id, .. } => session_id,
            Packet::Ack { session_id, .. } => session_id,
        }
    }
}

// ---------------------------------------------------------------------------
// Numbers
// ---------------------------------------------------------------------------

/// A numeric field: one or more decimal digits, no sign, value below 2^31.
pub open spec fn parse_int_spec(s: Seq<char>) -> Result<u64, Error> {
    if s.len() == 0 || !all_digits(s) {
        Err(Error::InvalidInteger)
    } else if decimal_value(s) >= MAX_INT {
        Err(Error::IntegerTooLarge)
    } else {
        Ok(decimal_value(s) as u64)
    }
}

/// One more digit at the end: ten times the number so far, plus the digit.
pub proof fn lemma_decimal_value_push(s: Seq<char>, c: char)
    ensures
        decimal_value(s.push(c)) == decimal_value(s) * 10 + digit_value(c),
        decimal_value(s.push(c)) >= decimal_value(s),
{
    assert(s.push(c).drop_last() =~= s);
}

/// Reads a numeric field.
pub fn parse_int(s: &str) -> (r: Result<u64, Error>)
    ensures
        r == parse_int_spec(s@),
{
    let mut value: u64 = 0;
    let mut digits = true;
    let mut empty = true;
    for c in it: s.chars()
        invariant
            it.seq() == s@,
            empty == (it.index() == 0),
            digits == all_digits(s@.take(it.index() as int)),
            value <= MAX_INT,
            digits ==> (value as nat == if decimal_value(s@.take(it.index() as int)) >= MAX_INT {
                MAX_INT as nat
            } else {
                decimal_value(s@.take(it.index() as int))
            }),
    {
        let ghost before = s@.take(it.index() as int);
        let ghost after = s@.take(it.index() + 1);
        proof {
            assert(after =~= before.push(c));
            lemma_decimal_value_push(before, c);
            if is_digit(c) && all_digits(before) {
                assert forall|j: int| 0 <= j < after.len() implies is_digit(#[trigger] after[j]) by {
                    if j < before.len() {
                        assert(after[j] == before[j]);
                    }
                }
            } else if !is_digit(c) {
                assert(after[after.len() - 1] == c);
            } else {
                let j = choose|j: int| 0 <= j < before.len() && !is_digit(#[trigger] before[j]);
                assert(after[j] == before[j]);
            }
        }
        empty = false;
        if c >= '0' && c <= '9' {
            if digits && value < MAX_INT {
                let d: u64 = (c as u8 - 48u8) as u64;
                assert(d as nat == digit_value(c));
                let next: u64 = value * 10 + d;
                value = if next >= MAX_INT { MAX_INT } else { next };
            }
        } else {
            digits = false;
        }
    }
    assert(s@.take(s@.len() as int) =~= s@);
    if empty || !digits {
        Err(Error::InvalidInteger)
    } else if value >= MAX_INT {
        Err(Error::IntegerTooLarge)
    } else {
        Ok(value)
    }
}

// ---------------------------------------------------------------------------
// Fields
// ---------------------------------------------------------------------------

/// Splits text at every `/` that no backslash protects.
///
/// A backslash keeps itself and the character after it in the current field,
/// whatever that character is; a backslash at the very end is kept alone.
/// `acc` is the field read so far, `escaped` says that the last character
/// read was a protecting backslash.
pub open spec fn fields_from(s: Seq<char>, acc: Seq<char>, escaped: bool) -> Seq<Seq<char>>
    decreases s.len(),
{
    if s.len() == 0 {
        seq![acc]
    } else if escaped {
        fields_from(s.drop_first(), acc.push(s[0]), false)
    } else if s[0] == '\\' {
        fields_from(s.drop_first(), acc.push(s[0]), true)
    } else if s[0] == '/' {
        seq![acc] + fields_from(s.drop_first(), Seq::empty(), false)
    } else {
        fields_from(s.drop_first(), acc.push(s[0]), false)
    }
}

/// The fields of `s`: always at least one, possibly empty ones among them.
pub open spec fn split_fields(s: Seq<char>) -> Seq<Seq<char>> {
    fields_from(s, Seq::empty(), false)
}

/// Splits text into its `/`-separated fields, honouring backslash escapes.
pub fn tokenize(s: &str) -> (tokens: Vec<String>)
    ensures
        tokens.deep_view() == split_fields(s@),
{
    let mut tokens: Vec<String> = Vec::new();
    let mut acc = String::new();
    let mut escaped = false;
    proof {
        assert(tokens.deep_view() =~= Seq::<Seq<char>>::empty());
        assert(s@.skip(0) =~= s@);
    }
    for c in it: s.chars()
        invariant
            it.seq() == s@,
            tokens.deep_view() + fields_from(s@.skip(it.index() as int), acc@, escaped)
                =~= split_fields(s@),
    {
        let ghost rest = s@.skip(it.index() as int);
        let ghost done = tokens.deep_view();
        proof {
            assert(rest.len() > 0 && rest[0] == c);
            assert(rest.drop_first() =~= s@.skip(it.index() + 1));
        }
        if escaped {
            acc.push(c);
            escaped = false;
        } else if c == '\\' {
            acc.push(c);
            escaped = true;
        } else if c == '/' {
            let ghost field = acc@;
            tokens.push(acc);
            acc = String::new();
            proof {
                assert(tokens.deep_view() =~= done.push(field));
                assert(done + (seq![field] + fields_from(rest.drop_first(), Seq::empty(), false))
                    =~= done.push(field) + fields_from(rest.drop_first(), Seq::empty(), false));
            }
        } else {
            acc.push(c);
        }
    }
    let ghost done = tokens.deep_view();
    let ghost field = acc@;
    proof {
        assert(s@.skip(s@.len() as int) =~= Seq::<char>::empty());
    }
    tokens.push(acc);
    proof {
        assert(tokens.deep_view() =~= done.push(field));
        assert(done + seq![field] =~= done.push(field));
    }
    tokens
}

// ---------------------------------------------------------------------------
// Escaping
// ---------------------------------------------------------------------------

/// One character of application data as it travels: `/` and `\` get a
/// backslash in front, everything else goes as it is.
pub open spec fn escape_char(c: char) -> Seq<char> {
    if c == '/' || c == '\\' {
        seq!['\\', c]
    } else {
        seq![c]
    }
}

/// Application data as it travels in a data message.
pub open spec fn escape_spec(s: Seq<char>) -> Seq<char>
    decreases s.len(),
{
    if s.len() == 0 {
        Seq::empty()
    } else {
        escape_char(s[0]) + escape_spec(s.drop_first())
    }
}

/// The application data that a payload field stands for: read from the left,
/// `\/` is `/` and `\\` is `\`; any other character, a lone backslash too,
/// stands for itself.
pub open spec fn unescape_spec(s: Seq<char>) -> Seq<char>
    decreases s.len(),
{
    if s.len() == 0 {
        Seq::empty()
    } else if s[0] == '\\' && s.len() >= 2 && (s[1] == '/' || s[1] == '\\') {
        seq![s[1]] + unescape_spec(s.skip(2))
    } else {
        seq![s[0]] + unescape_spec(s.drop_first())
    }
}

/// A well-formed payload field: every `/` and every `\` in it is one half of
/// a `\/` or `\\` pair.
pub open spec fn is_escaped(s: Seq<char>) -> bool
    decreases s.len(),
{
    if s.len() == 0 {
        true
    } else if s[0] == '\\' {
        s.len() >= 2 && (s[1] == '/' || s[1] == '\\') && is_escaped(s.skip(2))
    } else {
        s[0] != '/' && is_escaped(s.drop_first())
    }
}

/// Escapes application data for a data message.
pub fn escape_data(s: &str) -> (r: String)
    ensures
        r@ == escape_spec(s@),
{
    let mut out = String::new();
    proof {
        assert(s@.skip(0) =~= s@);
    }
    for c in it: s.chars()
        invariant
            it.seq() == s@,
            out@ + escape_spec(s@.skip(it.index() as int)) =~= escape_spec(s@),
    {
        let ghost rest = s@.skip(it.index() as int);
        let ghost before = out@;
        proof {
            assert(rest.len() > 0 && rest[0] == c);
            assert(rest.drop_first() =~= s@.skip(it.index() + 1));
        }
        if c == '/' || c == '\\' {
            out.push('\\');
        }
        out.push(c);
        proof {
            assert(out@ =~= before + escape_char(c));
        }
    }
    proof {
        assert(s@.skip(s@.len() as int) =~= Seq::<char>::empty());
    }
    out
}

/// Recovers the application data from the payload field of a data message.
pub fn unescape_data(s: &str) -> (r: String)
    ensures
        r@ == unescape_spec(s@),
{
    let mut out = String::new();
    let mut pending = false;
    proof {
        assert(s@.skip(0) =~= s@);
        assert(Seq::<char>::empty() + s@ =~= s@);
    }
    for c in it: s.chars()
        invariant
            it.seq() == s@,
            out@ + unescape_spec(held(pending) + s@.skip(it.index() as int)) =~= unescape_spec(
                s@,
            ),
    {
        let ghost rest = s@.skip(it.index() as int);
        let ghost next = s@.skip(it.index() + 1);
        let ghost before = out@;
        let ghost cur = held(pending) + rest;
        proof {
            assert(rest.len() > 0 && rest[0] == c);
            assert(rest.drop_first() =~= next);
            assert(Seq::<char>::empty() + rest =~= rest);
            assert(Seq::<char>::empty() + next =~= next);
        }
        if pending {
            proof {
                assert(cur[0] == '\\' && cur.len() >= 2 && cur[1] == c);
            }
            if c == '/' || c == '\\' {
                out.push(c);
                proof {
                    assert(cur.skip(2) =~= next);
                    assert(unescape_spec(cur) == seq![c] + unescape_spec(next));
                    assert(out@ =~= before + seq![c]);
                }
            } else {
                out.push('\\');
                out.push(c);
                proof {
                    assert(cur.drop_first() =~= rest);
                    assert(unescape_spec(cur) == seq!['\\'] + unescape_spec(rest));
                    assert(unescape_spec(rest) == seq![c] + unescape_spec(next));
                    assert(out@ =~= before + seq!['\\'] + seq![c]);
                }
            }
            pending = false;
        } else if c == '\\' {
            pending = true;
            proof {
                assert(seq!['\\'] + next =~= rest);
            }
        } else {
            out.push(c);
            proof {
                assert(unescape_spec(rest) == seq![c] + unescape_spec(next));
                assert(out@ =~= before + seq![c]);
            }
        }
    }
    proof {
        assert(s@.skip(s@.len() as int) =~= Seq::<char>::empty());
    }
    if pending {
        let ghost before = out@;
        out.push('\\');
        proof {
            let cur = seq!['\\'] + Seq::<char>::empty();
            assert(cur =~= seq!['\\']);
            assert(cur.drop_first() =~= Seq::<char>::empty());
            assert(unescape_spec(Seq::<char>::empty()) =~= Seq::<char>::empty());
            assert(unescape_spec(cur) == seq!['\\'] + unescape_spec(cur.drop_first()));
            assert(out@ =~= before + seq!['\\']);
        }
    } else {
        proof {
            assert(Seq::<char>::empty() + Seq::<char>::empty() =~= Seq::<char>::empty());
        }
    }
    out
}

/// The backslash that the decoder holds back until it has seen the next
/// character, if it holds one.
pub open spec fn held(pending: bool) -> Seq<char> {
    if pending {
        seq!['\\']
    } else {
        Seq::empty()
    }
}

// ---------------------------------------------------------------------------
// Parsing
// ---------------------------------------------------------------------------

/// The message that a list of fields spells, or why it spells none. The type
/// and the number of fields are looked at first, then the numbers from left
/// to right.
pub open spec fn parse_fields(f: Seq<Seq<char>>) -> Result<Packet, Error> {
    if f.len() == 2 && f[0] == "connect"@ {
        match parse_int_spec(f[1]) {
            Ok(session_id) => Ok(Packet::Connect { session_id }),
            Err(e) => Err(e),
        }
    } else if f.len() == 2 && f[0] == "close"@ {
        match parse_int_spec(f[1]) {
            Ok(session_id) => Ok(Packet::Close { session_id }),
            Err(e) => Err(e),
        }
    } else if f.len() == 3 && f[0] == "ack"@ {
        match parse_int_spec(f[1]) {
            Ok(session_id) => match parse_int_spec(f[2]) {
                Ok(length) => Ok(Packet::Ack { session_id, length }),
                Err(e) => Err(e),
            },
            Err(e) => Err(e),
        }
    } else if f.len() == 4 && f[0] == "data"@ {
        match parse_int_spec(f[1]) {
            Ok(session_id) => match parse_int_spec(f[2]) {
                Ok(pos) => Ok(Packet::Data { session_id, pos, escaped: f[3] }),
                Err(e) => Err(e),
            },
            Err(e) => Err(e),
        }
    } else {
        Err(Error::InvalidFormat)
    }
}

/// The message that a datagram's text spells. The text must start and end
/// with `/`; what lies between the two is split into fields.
pub open spec fn parse_text(s: Seq<char>) -> Result<Packet, Error> {
    if s.len() < 2 || s[0] != '/' || s.last() != '/' {
        Err(Error::MissingSlash)
    } else {
        parse_fields(split_fields(s.subrange(1, s.len() - 1)))
    }
}

/// The message that a datagram spells. Only ASCII datagrams spell one.
pub open spec fn parse_spec(b: Seq<u8>) -> Result<Packet, Error> {
    if !is_ascii_bytes(b) {
        Err(Error::NotAscii)
    } else {
        parse_text(ascii_chars(b))
    }
}

fn same_text(a: &String, b: &str) -> (r: bool)
    ensures
        r == (a@ == b@),
{
    let t = String::from_str(b);
    a.eq(&t)
}

/// Parses one datagram.
pub fn parse_packet(buf: &[u8]) -> (r: Result<LrcpMessage, Error>)
    ensures
        match r {
            Ok(m) => parse_spec(buf@) == Ok::<Packet, Error>(m@),
            Err(e) => parse_spec(buf@) == Err::<Packet, Error>(e),
        },
{
    if !all_ascii(buf) {
        return Err(Error::NotAscii);
    }
    let n = buf.len();
    if n < 2 || buf[0] != SLASH || buf[n - 1] != SLASH {
        return Err(Error::MissingSlash);
    }
    let inner = ascii_to_string(buf, 1, n - 1);
    proof {
        assert(ascii_chars(buf@).subrange(1, n - 1) =~= ascii_chars(buf@.subrange(1, n - 1)));
    }
    let parts = tokenize(inner.as_str());
    let count = parts.len();
    proof {
        assert(parts.deep_view().len() == count);
        assert(forall|i: int| 0 <= i < count ==> parts.deep_view()[i] == (#[trigger] parts[i])@);
    }
    if count == 2 && same_text(&parts[0], "connect") {
        let session_id = parse_int(parts[1].as_str())?;
        Ok(LrcpMessage::Connect { session_id })
    } else if count == 2 && same_text(&parts[0], "close") {
        let session_id = parse_int(parts[1].as_str())?;
        Ok(LrcpMessage::ClientClose { session_id })
    } else if count == 3 && same_text(&parts[0], "ack") {
        let session_id = parse_int(parts[1].as_str())?;
        let length = parse_int(parts[2].as_str())?;
        Ok(LrcpMessage::Ack { session_id, length })
    } else if count == 4 && same_text(&parts[0], "data") {
        let session_id = parse_int(parts[1].as_str())?;
        let pos = parse_int(parts[2].as_str())?;
        Ok(LrcpMessage::Data { session_id, pos, escaped_data: parts[3].clone() })
    } else {
        Err(Error::InvalidFormat)
    }
}

// ---------------------------------------------------------------------------
// Serialising
// ---------------------------------------------------------------------------

/// `/` + body + `/`.
pub open spec fn framed(body: Seq<char>) -> Seq<char> {
    seq!['/'] + body + seq!['/']
}

/// `/connect/SID/`.
pub open spec fn connect_text(session_id: u64) -> Seq<char> {
    framed("connect"@ + seq!['/'] + decimal_digits(session_id as nat))
}

/// `/close/SID/`.
pub open spec fn close_text(session_id: u64) -> Seq<char> {
    framed("close"@ + seq!['/'] + decimal_digits(session_id as nat))
}

/// `/ack/SID/LEN/`.
pub open spec fn ack_text(session_id: u64, length: u64) -> Seq<char> {
    framed(
        "ack"@ + seq!['/'] + decimal_digits(session_id as nat) + seq!['/'] + decimal_digits(
            length as nat,
        ),
    )
}

/// `/data/SID/POS/ESCAPED/`.
pub open spec fn data_text(session_id: u64, pos: u64, escaped: Seq<char>) -> Seq<char> {
    framed(
        "data"@ + seq!['/'] + decimal_digits(session_id as nat) + seq!['/'] + decimal_digits(
            pos as nat,
        ) + seq!['/'] + escaped,
    )
}

/// The text of a message on the wire; `Terminate` has none.
pub open spec fn packet_text(p: Packet) -> Option<Seq<char>> {
    match p {
        Packet::Connect { session_id } => Some(connect_text(session_id)),
        Packet::Close { session_id } => Some(close_text(session_id)),
        Packet::Terminate { .. } => None,
        Packet::Data { session_id, pos, escaped } => Some(data_text(session_id, pos, escaped)),
        Packet::Ack { session_id, length } => Some(ack_text(session_id, length)),
    }
}

fn encode_head(kind: &str, session_id: u64) -> (out: String)
    ensures
        out@ == seq!['/'] + kind@ + seq!['/'] + decimal_digits(session_id as nat),
{
    let mut out = String::new();
    out.push('/');
    out.append(kind);
    out.push('/');
    push_decimal(&mut out, session_id);
    proof {
        assert(out@ =~= seq!['/'] + kind@ + seq!['/'] + decimal_digits(session_id as nat));
    }
    out
}

/// Writes `/connect/SID/`.
pub fn encode_connect(session_id: u64) -> (out: String)
    ensures
        out@ == connect_text(session_id),
{
    let mut out = encode_head("connect", session_id);
    out.push('/');
    proof {
        assert(out@ =~= connect_text(session_id));
    }
    out
}

/// Writes `/close/SID/`.
pub fn encode_close(session_id: u64) -> (out: String)
    ensures
        out@ == close_text(session_id),
{
    let mut out = encode_head("close", session_id);
    out.push('/');
    proof {
        assert(out@ =~= close_text(session_id));
    }
    out
}

/// Writes `/ack/SID/LEN/`.
pub fn encode_ack(session_id: u64, length: u64) -> (out: String)
    ensures
        out@ == ack_text(session_id, length),
{
    let mut out = encode_head("ack", session_id);
    out.push('/');
    push_decimal(&mut out, length);
    out.push('/');
    proof {
        assert(out@ =~= ack_text(session_id, length));
    }
    out
}

/// Writes `/data/SID/POS/ESCAPED/`; the payload is taken as it is.
pub fn encode_data(session_id: u64, pos: u64, escaped: &str) -> (out: String)
    ensures
        out@ == data_text(session_id, pos, escaped@),
{
    let mut out = encode_head("data", session_id);
    out.push('/');
    push_decimal(&mut out, pos);
    out.push('/');
    out.append(escaped);
    out.push('/');
    proof {
        assert(out@ =~= data_text(session_id, pos, escaped@));
    }
    out
}

/// Writes a message as it travels. `SessionTerminate` never travels.
pub fn encode_packet(msg: &LrcpMessage) -> (out: Option<String>)
    ensures
        match out {
            Some(text) => packet_text(msg@) == Some(text@),
            None => packet_text(msg@) is None,
        },
{
    match msg {
        LrcpMessage::Connect { session_id } => Some(encode_connect(*session_id)),
        LrcpMessage::ClientClose { session_id } => Some(encode_close(*session_id)),
        LrcpMessage::SessionTerminate { .. } => None,
        LrcpMessage::Data { session_id, pos, escaped_data } => Some(
            encode_data(*session_id, *pos, escaped_data.as_str()),
        ),
        LrcpMessage::Ack { session_id, length } => Some(encode_ack(*session_id, *length)),
    }
}

} // verus!
