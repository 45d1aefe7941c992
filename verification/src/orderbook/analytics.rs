//! Read-only views of an orderbook's best prices.

use crate::orderbook::{is_highest, is_lowest, Orderbook, Price};
use vstd::prelude::*;

verus! {

/// One price level: its price and total resting quantity.
#[derive(Debug, Clone, Copy, PartialEq, Eq, Structural)]
pub struct Level {
    pub price: Price,
    pub qty: u64,
}

/// The best bid and best ask of a book.
#[derive(Debug, Clone, Copy, PartialEq, Eq, Structural)]
pub struct TopOfBook {
    pub bid: Option<Level>,
    pub ask: Option<Level>,
}

/// Best bid and best ask of `book`.
pub fn top_of_book(book: &Orderbook) -> (t: TopOfBook)
    ensures
        t.bid is None <==> book@.bids == Map::<i64, u64>::empty(),
        t.bid matches Some(l) ==> is_highest(book@.bids, l.price.0) && l.qty == book@.bids[l.price.0],
        t.ask is None <==> book@.asks == Map::<i64, u64>::empty(),
        t.ask matches Some(l) ==> is_lowest(book@.asks, l.price.0) && l.qty == book@.asks[l.price.0],
{
    let bid = match book.best_bid() {
        Some((p, q)) => Some(Level { price: p, qty: q.0 }),
        None => None,
    };
    let ask = match book.best_ask() {
        Some((p, q)) => Some(Level { price: p, qty: q.0 }),
        None => None,
    };
    TopOfBook { bid, ask }
}

} // verus!
