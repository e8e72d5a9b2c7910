//! Names and announcements of a chat room.

use crate::error::Error;
use vstd::prelude::*;
use vstd::string::StringExecFns;
use vstd::utf8::encode_utf8;

verus! {

/// The name of somebody in the room: one to sixteen bytes of printable ASCII.
#[derive(Clone, Debug, PartialEq, Eq, Hash)]
pub struct Username(String);

impl View for Username {
    type V = Seq<char>;

    closed spec fn view(&self) -> Seq<char> {
        self.0@
    }
}

/// `' '..='~'`.
pub open spec fn is_printable(c: char) -> bool {
    ' ' <= c <= '~'
}

/// Every character is printable ASCII.
pub open spec fn all_printable(name: Seq<char>) -> bool {
    forall|i: int| 0 <= i < name.len() ==> is_printable(#[trigger] name[i])
}

/// Why a text is no name, if it is none.
pub open spec fn username_error(name: Seq<char>) -> Option<Error> {
    if name.len() == 0 {
        Some(Error::EmptyUsername)
    } else if encode_utf8(name).len() > 16 {
        Some(Error::UsernameTooLong)
    } else if !all_printable(name) {
        Some(Error::UsernameNotPrintable)
    } else {
        None
    }
}

impl Username {
    /// Takes `name` as a name, or says why it is none.
    pub fn parse(name: &str) -> (r: Result<Username, Error>)
        ensures
            match r {
                Ok(username) => username_error(name@) is None && username@ == name@,
                Err(e) => username_error(name@) == Some(e),
            },
    {
        if name.is_empty() {
            return Err(Error::EmptyUsername);
        }
        if name.as_bytes().len() > 16 {
            return Err(Error::UsernameTooLong);
        }
        for c in it: name.chars()
            invariant
                it.seq() == name@,
                name@.len() > 0,
                encode_utf8(name@).len() <= 16,
                all_printable(name@.take(it.index() as int)),
        {
            if !(c >= ' ' && c <= '~') {
                proof {
                    assert(!is_printable(name@[it.index() as int]));
                }
                return Err(Error::UsernameNotPrintable);
            }
            proof {
                let before = name@.take(it.index() as int);
                let after = name@.take(it.index() + 1);
                assert forall|i: int| 0 <= i < after.len() implies is_printable(
                    #[trigger] after[i],
                ) by {
                    if i < before.len() {
                        assert(after[i] == before[i]);
                    }
                }
            }
        }
        proof {
            assert(name@.take(name@.len() as int) =~= name@);
        }
        Ok(Username(String::from_str(name)))
    }

    /// The name as text.
    pub fn as_str(&self) -> (s: &str)
        ensures
            s@ == self@,
    {
        self.0.as_str()
    }
}

/// What the room tells somebody.
#[derive(Clone, Debug, PartialEq)]
pub enum OutgoingMessage {
    Chat { from: Username, text: String },
    UserJoin(Username),
    UserLeave(Username),
    Welcome,
    Participants(Vec<Username>),
    InvalidUsername(String),
}

/// The names, with `, ` between each two.
pub open spec fn joined_names(names: Seq<Username>) -> Seq<char>
    decreases names.len(),
{
    if names.len() == 0 {
        Seq::empty()
    } else if names.len() == 1 {
        names[0]@
    } else {
        joined_names(names.drop_last()) + ", "@ + names.last()@
    }
}

impl OutgoingMessage {
    /// The line that the message is sent as.
    pub open spec fn text_spec(&self) -> Seq<char> {
        match self {
            OutgoingMessage::Chat { from, text } => "["@ + from@ + "] "@ + text@,
            OutgoingMessage::UserJoin(name) => "* "@ + name@ + " has entered the room"@,
            OutgoingMessage::UserLeave(name) => "* "@ + name@ + " has left the room"@,
            OutgoingMessage::Welcome => "Welcome to budgetchat! What shall I call you?"@,
            OutgoingMessage::Participants(names) => "* The room contains: "@ + joined_names(
                names@,
            ),
            OutgoingMessage::InvalidUsername(name) => "Invalid username "@ + name@,
        }
    }

    /// The names of those in the room, with `, ` between each two.
    pub fn participants(&self, participants: &[Username]) -> (names: String)
        ensures
            names@ == joined_names(participants@),
    {
        let mut names = String::new();
        let mut i: usize = 0;
        proof {
            assert(participants@.take(0) =~= Seq::<Username>::empty());
        }
        while i < participants.len()
            invariant
                i <= participants.len(),
                names@ == joined_names(participants@.take(i as int)),
            decreases participants.len() - i,
        {
            let ghost before = participants@.take(i as int);
            let ghost after = participants@.take(i + 1);
            proof {
                assert(after.drop_last() =~= before);
                assert(after.last() == participants@[i as int]);
            }
            if i > 0 {
                names.append(", ");
            } else {
                proof {
                    assert(names@ + participants@[0]@ =~= participants@[0]@);
                }
            }
            names.append(participants[i].as_str());
            i += 1;
        }
        proof {
            assert(participants@.take(i as int) =~= participants@);
        }
        names
    }

    /// Writes the message as the line that is sent.
    pub fn to_text(&self) -> (line: String)
        ensures
            line@ == self.text_spec(),
    {
        match self {
            OutgoingMessage::Chat { from, text } => {
                let mut line = String::from_str("[");
                line.append(from.as_str());
                line.append("] ");
                line.append(text.as_str());
                line
            },
            OutgoingMessage::UserJoin(name) => {
                let mut line = String::from_str("* ");
                line.append(name.as_str());
                line.append(" has entered the room");
                line
            },
            OutgoingMessage::UserLeave(name) => {
                let mut line = String::from_str("* ");
                line.append(name.as_str());
                line.append(" has left the room");
                line
            },
            OutgoingMessage::Welcome => String::from_str(
                "Welcome to budgetchat! What shall I call you?",
            ),
            OutgoingMessage::Participants(names) => {
                let mut line = String::from_str("* The room contains: ");
                let list = self.participants(names.as_slice());
                line.append(list.as_str());
                line
            },
            OutgoingMessage::InvalidUsername(name) => {
                let mut line = String::from_str("Invalid username ");
                line.append(name.as_str());
                line
            },
        }
    }
}

} // verus!
