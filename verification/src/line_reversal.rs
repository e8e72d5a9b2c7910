//! The line-reversal service: every line that arrives on a stream goes back
//! reversed.

use crate::lrcp::text::ascii_chars;
use vstd::prelude::*;

verus! {

/// The byte that ends a line.
pub const NEWLINE: u8 = 10;

/// What the service answers to `input` when `line` is the unfinished line it
/// holds: for each newline in `input`, the line that the newline ends,
/// reversed, and a newline.
pub open spec fn reversed_lines(input: Seq<u8>, line: Seq<u8>) -> Seq<u8>
    decreases input.len(),
{
    if input.len() == 0 {
        Seq::empty()
    } else if input[0] == NEWLINE {
        line.reverse() + seq![NEWLINE] + reversed_lines(input.drop_first(), Seq::empty())
    } else {
        reversed_lines(input.drop_first(), line.push(input[0]))
    }
}

/// The unfinished line that the service holds after `input`, when `line` is
/// the one it held before: what came after the last newline.
pub open spec fn unfinished_line(input: Seq<u8>, line: Seq<u8>) -> Seq<u8>
    decreases input.len(),
{
    if input.len() == 0 {
        line
    } else if input[0] == NEWLINE {
        unfinished_line(input.drop_first(), Seq::empty())
    } else {
        unfinished_line(input.drop_first(), line.push(input[0]))
    }
}

/// Reverses a line, character by character.
pub fn reverse_line(line: &str) -> (reversed: String)
    ensures
        reversed@ == line@.reverse(),
{
    let mut chars: Vec<char> = Vec::new();
    for c in it: line.chars()
        invariant
            it.seq() == line@,
            chars@ == line@.take(it.index() as int),
    {
        chars.push(c);
        proof {
            assert(chars@ =~= line@.take(it.index() + 1));
        }
    }
    proof {
        assert(line@.take(line@.len() as int) =~= line@);
    }
    let mut reversed = String::new();
    let n = chars.len();
    let mut i: usize = n;
    while i > 0
        invariant
            i <= n,
            n == chars@.len(),
            chars@ == line@,
            reversed@ == line@.reverse().take(n - i),
        decreases i,
    {
        i -= 1;
        reversed.push(chars[i]);
        proof {
            assert(reversed@ =~= line@.reverse().take(n - i));
        }
    }
    proof {
        assert(line@.reverse().take(n as int) =~= line@.reverse());
    }
    reversed
}

/// The service's side of one stream: the line that has not ended yet.
pub struct LineReverser {
    line: Vec<u8>,
}

impl View for LineReverser {
    type V = Seq<u8>;

    /// The bytes of the unfinished line.
    closed spec fn view(&self) -> Seq<u8> {
        self.line@
    }
}

impl LineReverser {
    /// A service that has read nothing.
    pub fn new() -> (r: Self)
        ensures
            r@ == Seq::<u8>::empty(),
    {
        LineReverser { line: Vec::new() }
    }

    /// Takes the next bytes of the stream, and returns what to write back:
    /// each line that these bytes finish, reversed, with its newline.
    ///
    /// A line that never ends is never answered.
    pub fn feed(&mut self, input: &[u8]) -> (output: Vec<u8>)
        ensures
            output@ == reversed_lines(input@, old(self)@),
            final(self)@ == unfinished_line(input@, old(self)@),
    {
        let mut output: Vec<u8> = Vec::new();
        let mut i: usize = 0;
        proof {
            assert(input@.skip(0) =~= input@);
        }
        while i < input.len()
            invariant
                i <= input.len(),
                output@ + reversed_lines(input@.skip(i as int), self@) =~= reversed_lines(
                    input@,
                    old(self)@,
                ),
                unfinished_line(input@.skip(i as int), self@) == unfinished_line(
                    input@,
                    old(self)@,
                ),
            decreases input.len() - i,
        {
            let ghost rest = input@.skip(i as int);
            let ghost before = output@;
            let ghost line = self@;
            proof {
                assert(rest[0] == input@[i as int]);
                assert(rest.drop_first() =~= input@.skip(i + 1));
            }
            if input[i] == NEWLINE {
                let n = self.line.len();
                let mut k: usize = n;
                while k > 0
                    invariant
                        k <= n,
                        n == self.line@.len(),
                        self@ == line,
                        output@ == before + line.reverse().take(n - k),
                    decreases k,
                {
                    k -= 1;
                    output.push(self.line[k]);
                    proof {
                        assert(output@ =~= before + line.reverse().take(n - k));
                    }
                }
                output.push(NEWLINE);
                self.line = Vec::new();
                proof {
                    assert(line.reverse().take(n as int) =~= line.reverse());
                    assert(output@ =~= before + (line.reverse() + seq![NEWLINE]));
                }
            } else {
                self.line.push(input[i]);
            }
            i += 1;
        }
        proof {
            assert(input@.skip(input@.len() as int) =~= Seq::<u8>::empty());
        }
        output
    }
}

/// Bytes without a newline are only kept; with a newline behind them they are
/// answered at once, by the whole line reversed and a newline, and nothing
/// is kept.
pub proof fn lemma_one_line(line: Seq<u8>, held: Seq<u8>)
    requires
        forall|i: int| 0 <= i < line.len() ==> line[i] != NEWLINE,
    ensures
        reversed_lines(line.push(NEWLINE), held) == (held + line).reverse() + seq![NEWLINE],
        unfinished_line(line.push(NEWLINE), held) == Seq::<u8>::empty(),
        reversed_lines(line, held) == Seq::<u8>::empty(),
        unfinished_line(line, held) == held + line,
    decreases line.len(),
{
    let input = line.push(NEWLINE);
    if line.len() == 0 {
        let none = Seq::<u8>::empty();
        assert(held + line =~= held);
        assert(line =~= none);
        assert(input[0] == NEWLINE);
        assert(input.drop_first() =~= none);
        assert(reversed_lines(none, none) =~= none);
        assert(unfinished_line(none, none) =~= none);
        assert(reversed_lines(none, held) =~= none);
        assert(unfinished_line(none, held) =~= held);
        assert(reversed_lines(input, held) == held.reverse() + seq![NEWLINE] + reversed_lines(
            input.drop_first(),
            none,
        ));
        assert(reversed_lines(input, held) =~= held.reverse() + seq![NEWLINE]);
    } else {
        let rest = line.drop_first();
        assert forall|i: int| 0 <= i < rest.len() implies rest[i] != NEWLINE by {
            assert(rest[i] == line[i + 1]);
        }
        lemma_one_line(rest, held.push(line[0]));
        assert(input.drop_first() =~= rest.push(NEWLINE));
        assert(held.push(line[0]) + rest =~= held + line);
        assert(line[0] != NEWLINE);
        assert(input[0] == line[0]);
        assert(line.drop_first() == rest);
    }
}

/// Reversing the bytes of an ASCII line and reversing its characters come to
/// the same.
pub proof fn lemma_reversals_agree(line: Seq<u8>)
    ensures
        ascii_chars(line.reverse()) == ascii_chars(line).reverse(),
{
    assert(ascii_chars(line.reverse()) =~= ascii_chars(line).reverse());
}

/// Feeding the stream in pieces gives the same answers as feeding it whole.
pub proof fn lemma_feed_in_pieces(a: Seq<u8>, b: Seq<u8>, held: Seq<u8>)
    ensures
        reversed_lines(a + b, held) == reversed_lines(a, held) + reversed_lines(
            b,
            unfinished_line(a, held),
        ),
        unfinished_line(a + b, held) == unfinished_line(b, unfinished_line(a, held)),
    decreases a.len(),
{
    if a.len() == 0 {
        assert(a + b =~= b);
        assert(reversed_lines(a, held) + reversed_lines(b, held) =~= reversed_lines(b, held));
    } else {
        assert((a + b).drop_first() =~= a.drop_first() + b);
        if a[0] == NEWLINE {
            lemma_feed_in_pieces(a.drop_first(), b, Seq::empty());
            assert(reversed_lines(a + b, held) =~= reversed_lines(a, held) + reversed_lines(
                b,
                unfinished_line(a, held),
            ));
        } else {
            lemma_feed_in_pieces(a.drop_first(), b, held.push(a[0]));
        }
    }
}

} // verus!
