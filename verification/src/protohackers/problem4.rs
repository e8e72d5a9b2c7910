//! A key-value store spoken to in single datagrams: `key=value` stores,
//! `key` asks.

use vstd::prelude::*;
use vstd::string::{StrSliceExecFns, StringExecFns};
use vstd::utf8::{decode_utf8, encode_utf8, encode_utf8_decode_utf8, valid_utf8};

verus! {

/// What a datagram asks for.
#[derive(Debug, PartialEq)]
pub enum Request {
    Insert { key: String, value: String },
    Retrieve { key: String },
}

/// A request without its storage.
pub enum RequestView {
    Insert { key: Seq<char>, value: Seq<char> },
    Retrieve { key: Seq<char> },
}

impl View for Request {
    type V = RequestView;

    open spec fn view(&self) -> RequestView {
        match self {
            Request::Insert { key, value } => RequestView::Insert { key: key@, value: value@ },
            Request::Retrieve { key } => RequestView::Retrieve { key: key@ },
        }
    }
}

/// `String::from_utf8` accepts exactly the byte strings that are valid UTF-8,
/// and the string it returns is made of those bytes.
#[verifier::external_body]
fn string_from_utf8(bytes: Vec<u8>) -> (r: Option<String>)
    ensures
        match r {
            Some(s) => valid_utf8(bytes@) && encode_utf8(s@) == bytes@,
            None => !valid_utf8(bytes@),
        },
{
    String::from_utf8(bytes).ok()
}

/// Where the first `=` of `s` stands, or the length of `s` if it has none.
pub open spec fn first_equals(s: Seq<char>) -> int
    decreases s.len(),
{
    if s.len() == 0 || s[0] == '=' {
        0
    } else {
        1 + first_equals(s.drop_first())
    }
}

/// The request that a datagram spells, if it spells one. Bytes that are not
/// UTF-8 spell none.
pub open spec fn request_spec(payload: Seq<u8>) -> Option<RequestView> {
    if valid_utf8(payload) {
        request_of(decode_utf8(payload))
    } else {
        None
    }
}

/// The request that a text spells, if it spells one: with a `=` in it, an
/// insert of what follows the first `=` under what precedes it; without, a
/// retrieve. An insert under `version` is no request.
pub open spec fn request_of(s: Seq<char>) -> Option<RequestView> {
    let at = first_equals(s);
    if at < s.len() {
        if s.take(at) == "version"@ {
            None
        } else {
            Some(RequestView::Insert { key: s.take(at), value: s.skip(at + 1) })
        }
    } else {
        Some(RequestView::Retrieve { key: s })
    }
}

proof fn lemma_first_equals_is(s: Seq<char>, at: int)
    requires
        0 <= at <= s.len(),
        forall|i: int| 0 <= i < at ==> s[i] != '=',
        at < s.len() ==> s[at] == '=',
    ensures
        first_equals(s) == at,
    decreases s.len(),
{
    if s.len() > 0 && at > 0 {
        let rest = s.drop_first();
        assert forall|i: int| 0 <= i < at - 1 implies rest[i] != '=' by {
            assert(rest[i] == s[i + 1]);
        }
        lemma_first_equals_is(rest, at - 1);
        assert(s[0] != '=');
    }
}

impl Request {
    /// Reads a datagram. Bytes that are not UTF-8 are no request.
    pub fn parse(payload: &[u8]) -> (r: Option<Request>)
        ensures
            match r {
                Some(request) => request_spec(payload@) == Some(request@),
                None => request_spec(payload@) is None,
            },
    {
        let text = match string_from_utf8(vstd::slice::slice_to_vec(payload)) {
            Some(text) => text,
            None => {
                return None;
            },
        };
        proof {
            encode_utf8_decode_utf8(text@);
        }
        let mut key = String::new();
        let mut value = String::new();
        let mut found = false;
        for c in it: text.as_str().chars()
            invariant
                it.seq() == text@,
                !found ==> key@ == text@.take(it.index() as int) && value@.len() == 0 && forall|
                    i: int,
                | 0 <= i < it.index() ==> text@[i] != '=',
                found ==> key@.len() < it.index() && (forall|i: int|
                    0 <= i < key@.len() ==> text@[i] != '=') && text@[key@.len() as int] == '='
                    && key@ == text@.take(key@.len() as int) && value@ == text@.subrange(
                    (key@.len() + 1) as int,
                    it.index() as int,
                ),
        {
            if found {
                value.push(c);
                proof {
                    assert(value@ =~= text@.subrange((key@.len() + 1) as int, it.index() + 1));
                }
            } else if c == '=' {
                found = true;
                proof {
                    assert(value@ =~= text@.subrange((key@.len() + 1) as int, it.index() + 1));
                }
            } else {
                key.push(c);
                proof {
                    assert(key@ =~= text@.take(it.index() + 1));
                }
            }
        }
        proof {
            if found {
                lemma_first_equals_is(text@, key@.len() as int);
                assert(text@.subrange((key@.len() + 1) as int, text@.len() as int) =~= text@.skip(
                    (key@.len() + 1) as int,
                ));
            } else {
                lemma_first_equals_is(text@, text@.len() as int);
                assert(text@.take(text@.len() as int) =~= text@);
            }
        }
        if found {
            let version = String::from_str("version");
            if key.eq(&version) {
                None
            } else {
                Some(Request::Insert { key, value })
            }
        } else {
            Some(Request::Retrieve { key })
        }
    }
}

/// The answer to a retrieve: key, `=`, value.
pub open spec fn response_text(key: Seq<char>, value: Seq<char>) -> Seq<char> {
    key + seq!['='] + value
}

/// Writes the answer to a retrieve.
pub fn format_response(key: &str, value: &str) -> (r: Vec<u8>)
    ensures
        r@ == encode_utf8(response_text(key@, value@)),
{
    let mut text = String::from_str(key);
    text.push('=');
    text.append(value);
    proof {
        assert(text@ =~= response_text(key@, value@));
    }
    text.as_str().as_bytes_vec()
}

/// The value stored under `key`, if there is one.
pub open spec fn lookup(store: Seq<(Seq<char>, Seq<char>)>, key: Seq<char>) -> Option<Seq<char>>
    decreases store.len(),
{
    if store.len() == 0 {
        None
    } else if store[0].0 == key {
        Some(store[0].1)
    } else {
        lookup(store.drop_first(), key)
    }
}

/// The store with `value` under `key`, in the place of what was there, or
/// at the end if nothing was.
pub open spec fn stored(store: Seq<(Seq<char>, Seq<char>)>, key: Seq<char>, value: Seq<char>)
    -> Seq<(Seq<char>, Seq<char>)>
    decreases store.len(),
{
    if store.len() == 0 {
        seq![(key, value)]
    } else if store[0].0 == key {
        seq![(key, value)] + store.drop_first()
    } else {
        seq![store[0]] + stored(store.drop_first(), key, value)
    }
}

/// What is stored is found again, and nothing else is touched.
pub proof fn lemma_stored(
    store: Seq<(Seq<char>, Seq<char>)>,
    key: Seq<char>,
    value: Seq<char>,
    other: Seq<char>,
)
    ensures
        lookup(stored(store, key, value), key) == Some(value),
        other != key ==> lookup(stored(store, key, value), other) == lookup(store, other),
    decreases store.len(),
{
    let after = stored(store, key, value);
    if store.len() == 0 {
        assert(after.drop_first() =~= store);
    } else if store[0].0 == key {
        assert(after.drop_first() =~= store.drop_first());
    } else {
        lemma_stored(store.drop_first(), key, value, other);
        assert(after.drop_first() =~= stored(store.drop_first(), key, value));
    }
}

/// The store: keys with their values, each key once.
pub struct Db {
    store: Vec<(String, String)>,
}

impl View for Db {
    type V = Seq<(Seq<char>, Seq<char>)>;

    closed spec fn view(&self) -> Seq<(Seq<char>, Seq<char>)> {
        Seq::new(self.store@.len(), |i: int| (self.store@[i].0@, self.store@[i].1@))
    }
}

impl Db {
    /// An empty store.
    pub fn new() -> (db: Self)
        ensures
            db@ == Seq::<(Seq<char>, Seq<char>)>::empty(),
    {
        let db = Db { store: Vec::new() };
        proof {
            assert(db@ =~= Seq::<(Seq<char>, Seq<char>)>::empty());
        }
        db
    }

    /// Stores `v` under `k`, and returns what was there.
    pub fn insert(&mut self, k: String, v: String) -> (previous: Option<String>)
        ensures
            final(self)@ == stored(old(self)@, k@, v@),
            match previous {
                Some(p) => lookup(old(self)@, k@) == Some(p@),
                None => lookup(old(self)@, k@) is None,
            },
    {
        let ghost before = self@;
        let mut i: usize = 0;
        proof {
            assert(before.skip(0) =~= before);
            assert(before.take(0) + stored(before, k@, v@) =~= stored(before, k@, v@));
        }
        while i < self.store.len()
            invariant
                i <= self.store@.len(),
                self@ == before,
                before == old(self)@,
                lookup(before.skip(i as int), k@) == lookup(before, k@),
                before.take(i as int) + stored(before.skip(i as int), k@, v@) == stored(
                    before,
                    k@,
                    v@,
                ),
            decreases self.store@.len() - i,
        {
            let ghost rest = before.skip(i as int);
            proof {
                assert(rest[0] == before[i as int]);
                assert(rest.drop_first() =~= before.skip(i + 1));
                assert(before[i as int].0 == self.store@[i as int].0@);
            }
            if self.store[i].0.eq(&k) {
                let ghost pairs = self.store@;
                let old_pair = self.store.remove(i);
                self.store.insert(i, (k, v));
                proof {
                    assert(rest.len() > 0 && rest[0].0 == k@);
                    assert(stored(rest, k@, v@) == seq![(k@, v@)] + rest.drop_first());
                    assert(lookup(rest, k@) == Some(rest[0].1));
                    assert(old_pair == pairs[i as int]);
                    assert(self.store@ =~= pairs.update(i as int, (k, v)));
                    assert(self@ =~= before.update(i as int, (k@, v@)));
                    assert(before.update(i as int, (k@, v@)) =~= before.take(i as int) + (seq![
                        (k@, v@),
                    ] + rest.drop_first()));
                    assert(old_pair.1@ == before[i as int].1);
                }
                return Some(old_pair.1);
            }
            proof {
                assert(before.take(i + 1) + stored(before.skip(i + 1), k@, v@) =~= before.take(
                    i as int,
                ) + (seq![rest[0]] + stored(rest.drop_first(), k@, v@)));
            }
            i += 1;
        }
        proof {
            assert(before.skip(i as int) =~= Seq::<(Seq<char>, Seq<char>)>::empty());
            assert(before.take(i as int) =~= before);
        }
        self.store.push((k, v));
        proof {
            assert(self@ =~= before + seq![(k@, v@)]);
        }
        None
    }

    /// The value stored under `k`, if there is one.
    pub fn retrieve(&self, k: &str) -> (found: Option<String>)
        ensures
            match found {
                Some(value) => lookup(self@, k@) == Some(value@),
                None => lookup(self@, k@) is None,
            },
    {
        let key = String::from_str(k);
        let mut i: usize = 0;
        proof {
            assert(self@.skip(0) =~= self@);
        }
        while i < self.store.len()
            invariant
                i <= self.store@.len(),
                key@ == k@,
                lookup(self@.skip(i as int), k@) == lookup(self@, k@),
            decreases self.store@.len() - i,
        {
            let ghost rest = self@.skip(i as int);
            proof {
                assert(rest[0] == self@[i as int]);
                assert(rest.drop_first() =~= self@.skip(i + 1));
            }
            if self.store[i].0.eq(&key) {
                return Some(self.store[i].1.clone());
            }
            i += 1;
        }
        proof {
            assert(self@.skip(i as int) =~= Seq::<(Seq<char>, Seq<char>)>::empty());
        }
        None
    }
}

/// What the store answers to a request, if it answers.
pub open spec fn answer(store: Seq<(Seq<char>, Seq<char>)>, request: RequestView) -> Option<
    Seq<u8>,
> {
    match request {
        RequestView::Insert { .. } => None,
        RequestView::Retrieve { key } => match lookup(store, key) {
            Some(value) => Some(encode_utf8(response_text(key, value))),
            None => Some(encode_utf8(response_text(key, Seq::empty()))),
        },
    }
}

/// The store after a request.
pub open spec fn after(store: Seq<(Seq<char>, Seq<char>)>, request: RequestView) -> Seq<
    (Seq<char>, Seq<char>),
> {
    match request {
        RequestView::Insert { key, value } => stored(store, key, value),
        RequestView::Retrieve { .. } => store,
    }
}

/// Serves one datagram: an insert is stored and not answered, a retrieve is
/// answered with what is stored, or with nothing behind the `=` when the key
/// is unknown. A datagram that is no request changes nothing and is not
/// answered.
pub fn handle_message(db: &mut Db, payload: &[u8]) -> (response: Option<Vec<u8>>)
    ensures
        match request_spec(payload@) {
            Some(request) => final(db)@ == after(old(db)@, request) && match response {
                Some(bytes) => answer(old(db)@, request) == Some(bytes@),
                None => answer(old(db)@, request) is None,
            },
            None => response is None && final(db)@ == old(db)@,
        },
{
    match Request::parse(payload) {
        Some(Request::Insert { key, value }) => {
            let _ = db.insert(key, value);
            None
        },
        Some(Request::Retrieve { key }) => {
            match db.retrieve(key.as_str()) {
                Some(value) => Some(format_response(key.as_str(), value.as_str())),
                None => {
                    proof {
                        reveal_strlit("");
                        assert(""@ =~= Seq::<char>::empty());
                    }
                    Some(format_response(key.as_str(), ""))
                },
            }
        },
        None => None,
    }
}

} // verus!
