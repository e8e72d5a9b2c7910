//! Prices over time: inserts, and the mean price of a period.

use crate::error::Error;
use std::ops::RangeInclusive;
use vstd::prelude::*;
use vstd::std_specs::range::RangeInclusiveView;

verus! {

/// One nine-byte message: a letter and two numbers.
#[derive(Debug, PartialEq)]
pub enum Message {
    Insert { price: i32, timestamp: i32 },
    Query { mintime: i32, maxtime: i32 },
}

/// The signed number that four bytes spell, most significant byte first.
pub open spec fn be_i32(b: Seq<u8>) -> int {
    let v = b[0] * 0x100_0000 + b[1] * 0x1_0000 + b[2] * 0x100 + b[3];
    if v < 0x8000_0000 {
        v
    } else {
        v - 0x1_0000_0000
    }
}

fn read_be_i32(b: &[u8; 9], at: usize) -> (n: i32)
    requires
        at + 4 <= 9,
    ensures
        n == be_i32(b@.subrange(at as int, at + 4)),
{
    let v: i64 = (b[at] as i64) * 0x100_0000 + (b[at + 1] as i64) * 0x1_0000 + (b[at + 2] as i64)
        * 0x100 + (b[at + 3] as i64);
    if v < 0x8000_0000 {
        v as i32
    } else {
        (v - 0x1_0000_0000) as i32
    }
}

/// The message that nine bytes spell, if they spell one.
pub open spec fn message_of(buffer: Seq<u8>) -> Result<Message, Error> {
    let first = be_i32(buffer.subrange(1, 5)) as i32;
    let second = be_i32(buffer.subrange(5, 9)) as i32;
    if buffer[0] == 73 {
        Ok(Message::Insert { price: second, timestamp: first })
    } else if buffer[0] == 81 {
        Ok(Message::Query { mintime: first, maxtime: second })
    } else {
        Err(Error::InvalidProtocol)
    }
}

impl Message {
    /// Reads one message: `I`, a timestamp and a price, or `Q` and a period.
    pub fn parse(buffer: &[u8; 9]) -> (r: Result<Message, Error>)
        ensures
            r == message_of(buffer@),
    {
        let op = buffer[0];
        let first = read_be_i32(buffer, 1);
        let second = read_be_i32(buffer, 5);
        if op == 73 {
            Ok(Message::Insert { price: second, timestamp: first })
        } else if op == 81 {
            Ok(Message::Query { mintime: first, maxtime: second })
        } else {
            Err(Error::InvalidProtocol)
        }
    }
}

/// Whether the period holds the time `t`.
pub open spec fn holds(period: RangeInclusiveView<i32>, t: i32) -> bool {
    period.start <= t && if period.exhausted {
        t < period.end
    } else {
        t <= period.end
    }
}

/// The number of prices in the period.
pub open spec fn count_in(prices: Seq<(i32, i32)>, period: RangeInclusiveView<i32>) -> int
    decreases prices.len(),
{
    if prices.len() == 0 {
        0
    } else {
        count_in(prices.drop_last(), period) + if holds(period, prices.last().0) {
            1int
        } else {
            0int
        }
    }
}

/// The sum of the prices in the period.
pub open spec fn sum_in(prices: Seq<(i32, i32)>, period: RangeInclusiveView<i32>) -> int
    decreases prices.len(),
{
    if prices.len() == 0 {
        0
    } else {
        sum_in(prices.drop_last(), period) + if holds(period, prices.last().0) {
            prices.last().1 as int
        } else {
            0int
        }
    }
}

/// `a / b` rounded towards zero, for positive `b`.
pub open spec fn div_towards_zero(a: int, b: int) -> int {
    if a >= 0 {
        a / b
    } else {
        -((-a) / b)
    }
}

/// The mean price of the period, rounded towards zero; 0 for a period without
/// prices.
pub open spec fn mean_spec(prices: Seq<(i32, i32)>, period: RangeInclusiveView<i32>) -> int {
    if count_in(prices, period) == 0 {
        0
    } else {
        div_towards_zero(sum_in(prices, period), count_in(prices, period))
    }
}

/// The price at the time `t`, if there is one.
pub open spec fn price_at(prices: Seq<(i32, i32)>, t: i32) -> Option<i32>
    decreases prices.len(),
{
    if prices.len() == 0 {
        None
    } else if prices[0].0 == t {
        Some(prices[0].1)
    } else {
        price_at(prices.drop_first(), t)
    }
}

/// The prices with `price` at the time `t`, in the place of what was there,
/// or at the end if nothing was.
pub open spec fn with_price(prices: Seq<(i32, i32)>, t: i32, price: i32) -> Seq<(i32, i32)>
    decreases prices.len(),
{
    if prices.len() == 0 {
        seq![(t, price)]
    } else if prices[0].0 == t {
        seq![(t, price)] + prices.drop_first()
    } else {
        seq![prices[0]] + with_price(prices.drop_first(), t, price)
    }
}

/// The prices of one client, each time once.
pub struct Db {
    prices: Vec<(i32, i32)>,
}

impl View for Db {
    type V = Seq<(i32, i32)>;

    closed spec fn view(&self) -> Seq<(i32, i32)> {
        self.prices@
    }
}

proof fn lemma_mean_fits(sum: int, count: int)
    requires
        count > 0,
        -0x8000_0000 * count <= sum <= 0x7fff_ffff * count,
    ensures
        -0x8000_0000 <= div_towards_zero(sum, count) <= 0x7fff_ffff,
        sum >= 0 ==> div_towards_zero(sum, count) == sum / count,
        sum < 0 ==> div_towards_zero(sum, count) == -((-sum) / count),
{
    if sum >= 0 {
        assert(sum / count <= 0x7fff_ffff) by (nonlinear_arith)
            requires
                count > 0,
                0 <= sum <= 0x7fff_ffff * count,
        ;
        assert(sum / count >= 0) by (nonlinear_arith)
            requires
                count > 0,
                0 <= sum,
        ;
    } else {
        let a = -sum;
        assert(a / count <= 0x8000_0000) by (nonlinear_arith)
            requires
                count > 0,
                0 <= a <= 0x8000_0000 * count,
        ;
        assert(a / count >= 0) by (nonlinear_arith)
            requires
                count > 0,
                0 <= a,
        ;
    }
}

impl Db {
    /// No prices.
    pub fn new() -> (db: Db)
        ensures
            db@ == Seq::<(i32, i32)>::empty(),
    {
        Db { prices: Vec::new() }
    }

    /// Notes the price at a time; a second price for the same time takes
    /// the place of the first.
    pub fn insert(&mut self, timestamp: i32, price: i32)
        ensures
            final(self)@ == with_price(old(self)@, timestamp, price),
    {
        let ghost before = self@;
        let mut i: usize = 0;
        proof {
            assert(before.skip(0) =~= before);
            assert(before.take(0) + with_price(before, timestamp, price) =~= with_price(
                before,
                timestamp,
                price,
            ));
        }
        while i < self.prices.len()
            invariant
                i <= self.prices@.len(),
                self@ == before,
                before == old(self)@,
                before.take(i as int) + with_price(before.skip(i as int), timestamp, price)
                    == with_price(before, timestamp, price),
            decreases self.prices@.len() - i,
        {
            let ghost rest = before.skip(i as int);
            proof {
                assert(rest[0] == before[i as int]);
                assert(rest.drop_first() =~= before.skip(i + 1));
            }
            if self.prices[i].0 == timestamp {
                self.prices.set(i, (timestamp, price));
                proof {
                    assert(with_price(rest, timestamp, price) == seq![(timestamp, price)]
                        + rest.drop_first());
                    assert(self@ =~= before.take(i as int) + (seq![(timestamp, price)]
                        + rest.drop_first()));
                }
                return ;
            }
            proof {
                assert(before.take(i + 1) + with_price(before.skip(i + 1), timestamp, price)
                    =~= before.take(i as int) + (seq![rest[0]] + with_price(
                    rest.drop_first(),
                    timestamp,
                    price,
                )));
            }
            i += 1;
        }
        proof {
            assert(before.skip(i as int) =~= Seq::<(i32, i32)>::empty());
            assert(before.take(i as int) =~= before);
        }
        self.prices.push((timestamp, price));
        proof {
            assert(self@ =~= before + seq![(timestamp, price)]);
        }
    }

    /// The mean of the prices whose time lies in the period, rounded towards
    /// zero; 0 if there is none, as in a period that ends before it starts.
    pub fn mean(&self, range: RangeInclusive<i32>) -> (mean: i32)
        ensures
            mean == mean_spec(self@, range@),
    {
        let mut count: u64 = 0;
        let mut sum: i128 = 0;
        let mut i: usize = 0;
        proof {
            assert(self@.take(0) =~= Seq::<(i32, i32)>::empty());
        }
        while i < self.prices.len()
            invariant
                i <= self.prices@.len(),
                count == count_in(self@.take(i as int), range@),
                sum == sum_in(self@.take(i as int), range@),
                0 <= count <= i,
                -0x8000_0000 * count <= sum <= 0x7fff_ffff * count,
            decreases self.prices@.len() - i,
        {
            proof {
                assert(self@.take(i + 1).drop_last() =~= self@.take(i as int));
                assert(self@.take(i + 1).last() == self@[i as int]);
            }
            let entry = self.prices[i];
            if range.contains(&entry.0) {
                count = count + 1;
                sum = sum + entry.1 as i128;
            }
            i += 1;
        }
        proof {
            assert(self@.take(i as int) =~= self@);
        }
        if count == 0 {
            return 0;
        }
        proof {
            lemma_mean_fits(sum as int, count as int);
        }
        if sum >= 0 {
            ((sum as u128) / (count as u128)) as i32
        } else {
            let magnitude: u128 = (-sum) as u128;
            let quotient: u128 = magnitude / (count as u128);
            (-(quotient as i64)) as i32
        }
    }
}

/// A price that has been inserted is the price at its time, and the prices
/// at other times stay.
pub proof fn lemma_with_price(prices: Seq<(i32, i32)>, t: i32, price: i32, other: i32)
    ensures
        price_at(with_price(prices, t, price), t) == Some(price),
        other != t ==> price_at(with_price(prices, t, price), other) == price_at(prices, other),
    decreases prices.len(),
{
    let after = with_price(prices, t, price);
    if prices.len() == 0 {
        assert(after.drop_first() =~= prices);
    } else if prices[0].0 == t {
        assert(after.drop_first() =~= prices.drop_first());
    } else {
        lemma_with_price(prices.drop_first(), t, price, other);
        assert(after.drop_first() =~= with_price(prices.drop_first(), t, price));
    }
}

} // verus!
