//! Ids for the messages of a node.

use crate::lrcp::text::{
    decimal_digits, decimal_value, lemma_decimal_roundtrip, push_decimal,
};
use vstd::prelude::*;
use vstd::string::StringExecFns;

verus! {

/// Hands out ids that a node has not used before: the node's name, a hyphen
/// and a running number.
#[derive(Debug)]
pub struct IdGenerator {
    counter: u64,
}

impl View for IdGenerator {
    type V = u64;

    /// The number of ids handed out.
    closed spec fn view(&self) -> u64 {
        self.counter
    }
}

/// The id with the number `n` of the node `node_id`.
pub open spec fn id_text(node_id: Seq<char>, n: u64) -> Seq<char> {
    node_id + seq!['-'] + decimal_digits(n as nat)
}

impl IdGenerator {
    /// A generator that has handed out nothing.
    pub fn new() -> (g: Self)
        ensures
            g@ == 0,
    {
        Self { counter: 0 }
    }

    /// The number of ids handed out.
    pub fn issued(&self) -> (n: u64)
        ensures
            n == self@,
    {
        self.counter
    }

    /// The next id of the node `node_id`; the first one carries the number 1.
    pub fn next_id(&mut self, node_id: &str) -> (id: String)
        requires
            old(self)@ < u64::MAX,
        ensures
            final(self)@ == old(self)@ + 1,
            id@ == id_text(node_id@, final(self)@),
    {
        self.counter += 1;
        let mut id = String::from_str(node_id);
        id.push('-');
        push_decimal(&mut id, self.counter);
        id
    }
}

/// Two ids of one node with different numbers differ.
pub proof fn lemma_ids_differ(node_id: Seq<char>, a: u64, b: u64)
    requires
        a != b,
    ensures
        id_text(node_id, a) != id_text(node_id, b),
{
    lemma_decimal_roundtrip(a as nat);
    lemma_decimal_roundtrip(b as nat);
    let head = node_id + seq!['-'];
    let x = id_text(node_id, a);
    let y = id_text(node_id, b);
    if x == y {
        assert(x.skip(head.len() as int) =~= decimal_digits(a as nat));
        assert(y.skip(head.len() as int) =~= decimal_digits(b as nat));
        assert(decimal_value(decimal_digits(a as nat)) == decimal_value(
            decimal_digits(b as nat),
        ));
    }
}

} // verus!
