//! A price-level orderbook.
//!
//! Prices are fixed-point integers (e.g. cents) so levels are exact keys and
//! ordering is total: no floating-point comparison issues.

pub mod analytics;

use self::analytics::Level;

use std::collections::{BTreeMap, HashMap};
use vstd::std_specs::btree::increasing_seq;
use vstd::std_specs::cmp::OrdSpec;
use vstd::std_specs::iter::IteratorSpec;
use crate::text::{decimal, digit, digit_char, push_char, push_decimal};
use vstd::prelude::*;

verus! {

/// Price in minor units (e.g. cents).
#[derive(Debug, Clone, Copy, PartialEq, Eq, PartialOrd, Ord, Hash, Structural)]
pub struct Price(pub i64);

/// Quantity in whole units.
#[derive(Debug, Clone, Copy, PartialEq, Eq, PartialOrd, Ord, Structural)]
pub struct Quantity(pub u64);

/// `price` in major units with two decimals, e.g. `-123.45` for `Price(-12_345)`.
pub open spec fn price_text(p: i64) -> Seq<char> {
    let a = (if p < 0 {
        -p
    } else {
        p as int
    }) as nat;
    (if p < 0 {
        seq!['-']
    } else {
        Seq::empty()
    }) + decimal(a / 100) + seq!['.', digit_char((a % 100) / 10), digit_char(a % 10)]
}

impl Price {
    /// The price in major units with two decimals (cents shown as `123.45`).
    pub fn to_string(&self) -> (s: String)
        ensures
            s@ == price_text(self.0),
    {
        let mut s = String::new();
        let a: u64 = if self.0 < 0 {
            push_char(&mut s, '-');
            (-(self.0 + 1)) as u64 + 1
        } else {
            self.0 as u64
        };
        push_decimal(&mut s, a / 100);
        push_char(&mut s, '.');
        push_char(&mut s, digit((a % 100) / 10));
        push_char(&mut s, digit(a % 10));
        proof {
            assert(s@ =~= price_text(self.0));
        }
        s
    }
}

impl Quantity {
    /// The quantity followed by `x`, e.g. `7x`.
    pub fn to_string(&self) -> (s: String)
        ensures
            s@ == decimal(self.0 as nat).push('x'),
    {
        let mut s = String::new();
        push_decimal(&mut s, self.0);
        push_char(&mut s, 'x');
        proof {
            assert(s@ =~= decimal(self.0 as nat).push('x'));
        }
        s
    }
}

#[derive(Debug, Clone, Copy, PartialEq, Eq, Structural)]
pub enum Side {
    Bid,
    Ask,
}

// ---------------------------------------------------------------------------
// Specifications over level maps
// ---------------------------------------------------------------------------

/// Resting quantity at `price`, zero where there is no level.
pub open spec fn level_qty(m: Map<i64, u64>, price: i64) -> nat {
    if m.contains_key(price) {
        m[price] as nat
    } else {
        0
    }
}

/// The level map with `qty` more at `price`.
pub open spec fn raised(m: Map<i64, u64>, price: i64, qty: u64) -> Map<i64, u64> {
    m.insert(price, (level_qty(m, price) + qty) as u64)
}

pub open spec fn min_qty(a: u64, b: nat) -> u64 {
    if a <= b {
        a
    } else {
        b as u64
    }
}

/// The level map after taking up to `qty` from `price`: the level disappears
/// once nothing is left at it.
pub open spec fn take_from_level(m: Map<i64, u64>, price: i64, qty: u64) -> Map<i64, u64> {
    if !m.contains_key(price) {
        m
    } else if m[price] <= qty {
        m.remove(price)
    } else {
        m.insert(price, (m[price] - qty) as u64)
    }
}


pub open spec fn is_highest(m: Map<i64, u64>, p: i64) -> bool {
    &&& m.contains_key(p)
    &&& forall|k: i64| #[trigger] m.contains_key(k) ==> k <= p
}

pub open spec fn is_lowest(m: Map<i64, u64>, p: i64) -> bool {
    &&& m.contains_key(p)
    &&& forall|k: i64| #[trigger] m.contains_key(k) ==> p <= k
}

/// Highest price of a non-empty level map.
pub open spec fn highest(m: Map<i64, u64>) -> i64 {
    choose|p: i64| is_highest(m, p)
}

/// Lowest price of a non-empty level map.
pub open spec fn lowest(m: Map<i64, u64>) -> i64 {
    choose|p: i64| is_lowest(m, p)
}

// ---------------------------------------------------------------------------
// The orderbook
// ---------------------------------------------------------------------------

/// An order resting in the book, tracked by its id.
#[derive(Debug, Clone, Copy, PartialEq, Eq, Structural)]
pub struct RestingOrder {
    pub side: Side,
    pub price: Price,
    pub qty: u64,
}

/// Why an order operation was refused; a refused operation changes nothing.
#[derive(Debug, Clone, Copy, PartialEq, Eq, Structural)]
pub enum BookError {
    /// An order with this id is already resting.
    DuplicateOrder,
    /// No order with this id is resting.
    UnknownOrder,
    /// Orders must be for a positive quantity.
    ZeroQuantity,
    /// The level's total quantity would not fit in a `u64`.
    QuantityOverflow,
}

/// The mathematical state of an orderbook.
pub struct BookView {
    /// Bid levels: price -> total resting quantity.
    pub bids: Map<i64, u64>,
    /// Ask levels: price -> total resting quantity.
    pub asks: Map<i64, u64>,
    /// Orders tracked by id.
    pub orders: Map<u64, RestingOrder>,
    /// Quantity executed against resting orders so far, modulo 2^64.
    pub traded_volume: u64,
}

impl BookView {
    pub open spec fn side(self, side: Side) -> Map<i64, u64> {
        match side {
            Side::Bid => self.bids,
            Side::Ask => self.asks,
        }
    }

    pub open spec fn with_side(self, side: Side, m: Map<i64, u64>) -> BookView {
        match side {
            Side::Bid => BookView {
                bids: m,
                asks: self.asks,
                orders: self.orders,
                traded_volume: self.traded_volume,
            },
            Side::Ask => BookView {
                bids: self.bids,
                asks: m,
                orders: self.orders,
                traded_volume: self.traded_volume,
            },
        }
    }

    pub open spec fn with_orders(self, orders: Map<u64, RestingOrder>) -> BookView {
        BookView {
            bids: self.bids,
            asks: self.asks,
            orders,
            traded_volume: self.traded_volume,
        }
    }

    pub open spec fn order(self, id: u64) -> Option<RestingOrder> {
        if self.orders.contains_key(id) {
            Some(self.orders[id])
        } else {
            None
        }
    }

    /// `qty` more at `price` on `side`.
    pub open spec fn added(self, side: Side, price: i64, qty: u64) -> BookView {
        self.with_side(
            side,
            raised(self.side(side), price, qty),
        )
    }

    /// Resting a new order: refused for a known id, a zero quantity, or a
    /// level that would overflow.
    pub open spec fn spec_insert(self, id: u64, side: Side, price: Price, qty: u64) -> Result<
        BookView,
        BookError,
    > {
        if self.orders.contains_key(id) {
            Err(BookError::DuplicateOrder)
        } else if qty == 0 {
            Err(BookError::ZeroQuantity)
        } else if level_qty(self.side(side), price.0) + qty > u64::MAX {
            Err(BookError::QuantityOverflow)
        } else {
            Ok(
                self.added(side, price.0, qty).with_orders(
                    self.orders.insert(id, RestingOrder { side, price, qty }),
                ),
            )
        }
    }

    /// Taking up to `qty` from a resting order and from its level; the order
    /// leaves the book once nothing is left of it. The second component is
    /// the quantity taken.
    pub open spec fn spec_take(self, id: u64, qty: u64) -> Result<(BookView, u64), BookError> {
        if !self.orders.contains_key(id) {
            Err(BookError::UnknownOrder)
        } else {
            let o = self.orders[id];
            let fill = min_qty(qty, o.qty as nat);
            let orders = if o.qty - fill == 0 {
                self.orders.remove(id)
            } else {
                self.orders.insert(id, RestingOrder { qty: (o.qty - fill) as u64, ..o })
            };
            Ok(
                (
                    self.with_side(o.side, take_from_level(self.side(o.side), o.price.0, fill))
                        .with_orders(orders),
                    fill,
                ),
            )
        }
    }

    /// An execution: a take whose quantity also counts as traded volume.
    pub open spec fn spec_execute(self, id: u64, qty: u64) -> Result<(BookView, u64), BookError> {
        match self.spec_take(id, qty) {
            Ok((v, fill)) => Ok(
                (
                    BookView {
                        bids: v.bids,
                        asks: v.asks,
                        orders: v.orders,
                        traded_volume: v.traded_volume.wrapping_add(fill),
                    },
                    fill,
                ),
            ),
            Err(e) => Err(e),
        }
    }

    /// Removing a whole order.
    pub open spec fn spec_cancel(self, id: u64) -> Result<(BookView, u64), BookError> {
        if !self.orders.contains_key(id) {
            Err(BookError::UnknownOrder)
        } else {
            self.spec_take(id, self.orders[id].qty)
        }
    }

    /// Replacing an order by a new one on the same side: the old order is
    /// cancelled and the new one rests at `price` for `qty`.
    pub open spec fn spec_replace(self, old_id: u64, new_id: u64, price: Price, qty: u64) -> Result<
        BookView,
        BookError,
    > {
        if !self.orders.contains_key(old_id) {
            Err(BookError::UnknownOrder)
        } else {
            let side = self.orders[old_id].side;
            let cancelled = self.spec_cancel(old_id).unwrap().0;
            cancelled.spec_insert(new_id, side, price, qty)
        }
    }
}

/// What order `o` contributes to the level at `price` on `side`.
pub open spec fn share(o: RestingOrder, side: Side, price: i64) -> nat {
    if o.side == side && o.price.0 == price {
        o.qty as nat
    } else {
        0
    }
}

/// Total quantity of the orders in `orders` that rest at `price` on `side`.
pub open spec fn resting_at(orders: Map<u64, RestingOrder>, side: Side, price: i64) -> nat
    decreases orders.dom().len(),
{
    if orders.dom().finite() && orders.dom().len() > 0 {
        let id = orders.dom().choose();
        share(orders[id], side, price) + resting_at(orders.remove(id), side, price)
    } else {
        0
    }
}

/// Every price level holds exactly the quantity of the orders resting at it.
pub open spec fn levels_hold_orders(v: BookView) -> bool {
    &&& v.orders.dom().finite()
    &&& forall|side: Side, price: i64|
        level_qty(v.side(side), price) == #[trigger] resting_at(v.orders, side, price)
}

/// Aggregated price-level book (price -> total resting quantity) that also
/// tracks resting orders by id.
#[derive(Debug)]
pub struct Orderbook {
    bids: BTreeMap<i64, u64>,
    asks: BTreeMap<i64, u64>,
    orders: HashMap<u64, RestingOrder>,
    traded_volume: u64,
}

impl View for Orderbook {
    type V = BookView;

    closed spec fn view(&self) -> BookView {
        BookView {
            bids: self.bids@,
            asks: self.asks@,
            orders: self.orders@,
            traded_volume: self.traded_volume,
        }
    }
}

/// Resting quantity at `price` in one side's levels.
fn level_of(levels: &BTreeMap<i64, u64>, price: i64) -> (q: u64)
    ensures
        q == level_qty(levels@, price),
{
    broadcast use vstd::std_specs::btree::group_btree_axioms;
    broadcast use vstd::laws_cmp::group_laws_cmp;

    match levels.get(&price) {
        Some(q) => *q,
        None => 0,
    }
}

/// Adds `qty` at `price` in one side's levels.
fn add_to_level(levels: &mut BTreeMap<i64, u64>, price: i64, qty: u64)
    requires
        level_qty(old(levels)@, price) + qty <= u64::MAX,
    ensures
        final(levels)@ == raised(old(levels)@, price, qty),
{
    broadcast use vstd::std_specs::btree::group_btree_axioms;
    broadcast use vstd::laws_cmp::group_laws_cmp;

    let cur = level_of(levels, price);
    levels.insert(price, cur + qty);
}

/// Takes up to `qty` from the level at `price` in one side's levels; the
/// level goes once it is empty. Returns the quantity taken.
fn take_from(levels: &mut BTreeMap<i64, u64>, price: i64, qty: u64) -> (removed: u64)
    ensures
        removed == min_qty(qty, level_qty(old(levels)@, price)),
        final(levels)@ == take_from_level(old(levels)@, price, qty),
{
    broadcast use vstd::std_specs::btree::group_btree_axioms;
    broadcast use vstd::laws_cmp::group_laws_cmp;

    let level = match levels.get(&price) {
        Some(l) => *l,
        None => return 0,
    };
    let removed = if qty < level {
        qty
    } else {
        level
    };
    if level - removed == 0 {
        levels.remove(&price);
    } else {
        levels.insert(price, level - removed);
    }
    removed
}

/// The highest price level of one side, with its quantity.
///
/// Trusted: calls std's `BTreeMap::last_key_value`, whose documentation
/// says that it returns the last key-value pair, the key being the maximum
/// key in the map, and `None` for an empty map.
#[verifier::external_body]
fn last_level(levels: &BTreeMap<i64, u64>) -> (r: Option<Level>)
    ensures
        match r {
            Some(l) => is_highest(levels@, l.price.0) && levels@[l.price.0] == l.qty,
            None => levels@ == Map::<i64, u64>::empty(),
        },
{
    match levels.last_key_value() {
        Some((p, q)) => Some(Level { price: Price(*p), qty: *q }),
        None => None,
    }
}

/// The lowest price level of one side, with its quantity.
///
/// Trusted: calls std's `BTreeMap::first_key_value`, whose documentation
/// says that it returns the first key-value pair, the key being the minimum
/// key in the map, and `None` for an empty map.
#[verifier::external_body]
fn first_level(levels: &BTreeMap<i64, u64>) -> (r: Option<Level>)
    ensures
        match r {
            Some(l) => is_lowest(levels@, l.price.0) && levels@[l.price.0] == l.qty,
            None => levels@ == Map::<i64, u64>::empty(),
        },
{
    match levels.first_key_value() {
        Some((p, q)) => Some(Level { price: Price(*p), qty: *q }),
        None => None,
    }
}

/// One side's levels, lowest price first.
fn levels_up(levels: &BTreeMap<i64, u64>) -> (r: Vec<(i64, u64)>)
    ensures
        r@.len() == levels@.dom().len(),
        forall|i: int, j: int| 0 <= i < j < r@.len() ==> r@[i].0 < r@[j].0,
        forall|i: int|
            0 <= i < r@.len() ==> levels@.contains_key(#[trigger] r@[i].0) && levels@[r@[i].0]
                == r@[i].1,
{
    broadcast use vstd::std_specs::btree::group_btree_axioms;
    broadcast use vstd::laws_cmp::group_laws_cmp;

    let mut out: Vec<(i64, u64)> = Vec::new();
    let iter = levels.iter();
    let ghost s = iter.remaining();
    assert(vstd::laws_cmp::obeys_cmp::<i64>());
    assert(increasing_seq(s.map_values(|kv: (&i64, &u64)| *kv.0)));
    assert forall|i: int, j: int| 0 <= i < j < s.len() implies *s[i].0 < *s[j].0 by {
        let ks = s.map_values(|kv: (&i64, &u64)| *kv.0);
        assert(ks[i] == *s[i].0);
        assert(ks[j] == *s[j].0);
        assert(ks[i].cmp_spec(&ks[j]) is Less);
    }
    for kv in it: iter
        invariant
            it.seq() == s,
            out@.len() == it.index(),
            forall|i: int|
                0 <= i < out@.len() ==> out@[i].0 == *it.seq()[i].0 && out@[i].1 == *it.seq()[i].1,
    {
        let (p, q) = kv;
        out.push((*p, *q));
    }
    out
}

/// Every level of a side is listed: a listing with as many distinct prices
/// as the side has levels, each a level, covers them all.
proof fn lemma_listing_covers(levels: Map<i64, u64>, r: Seq<(i64, u64)>, p: i64)
    requires
        levels.dom().finite(),
        r.len() == levels.dom().len(),
        forall|i: int, j: int| 0 <= i < j < r.len() ==> r[i].0 != r[j].0,
        forall|i: int| 0 <= i < r.len() ==> levels.contains_key(#[trigger] r[i].0),
        levels.contains_key(p),
    ensures
        exists|i: int| 0 <= i < r.len() && r[i].0 == p,
{
    let listed = r.map_values(|l: (i64, u64)| l.0);
    if forall|i: int| 0 <= i < r.len() ==> r[i].0 != p {
        assert(listed.no_duplicates()) by {
            assert forall|i: int, j: int| 0 <= i < listed.len() && 0 <= j < listed.len() && i
                != j implies listed[i] != listed[j] by {
                if i < j {
                    assert(r[i].0 != r[j].0);
                } else {
                    assert(r[j].0 != r[i].0);
                }
            }
        }
        listed.unique_seq_to_set();
        assert(listed.to_set().subset_of(levels.dom().remove(p))) by {
            assert forall|k: i64| listed.to_set().contains(k) implies levels.dom().remove(p).contains(
                k,
            ) by {
                let i = choose|i: int| 0 <= i < listed.len() && listed[i] == k;
                assert(levels.contains_key(r[i].0));
            }
        }
        vstd::set_lib::lemma_len_subset(listed.to_set(), levels.dom().remove(p));
    }
}

impl Orderbook {
    pub fn new() -> (ob: Self)
        ensures
            ob@.bids == Map::<i64, u64>::empty(),
            ob@.asks == Map::<i64, u64>::empty(),
            ob@.orders == Map::<u64, RestingOrder>::empty(),
            ob@.traded_volume == 0,
            no_empty_levels(ob@),
    {
        Orderbook {
            bids: BTreeMap::new(),
            asks: BTreeMap::new(),
            orders: HashMap::new(),
            traded_volume: 0,
        }
    }

    /// Add quantity at a price level.
    pub fn add(&mut self, side: Side, price: Price, qty: Quantity)
        requires
            level_qty(old(self)@.side(side), price.0) + qty.0 <= u64::MAX,
        ensures
            final(self)@ == old(self)@.added(side, price.0, qty.0),
            qty.0 > 0 && no_empty_levels(old(self)@) ==> no_empty_levels(final(self)@),
    {
        proof {
            if no_empty_levels(self@) {
                lemma_no_empty_levels_kept(self@, side, price.0, qty.0);
            }
        }
        self.side_add(side, price.0, qty.0)
    }

    /// Remove up to `qty` from a price level; clears the level if it empties.
    /// Returns the quantity actually removed.
    pub fn remove(&mut self, side: Side, price: Price, qty: Quantity) -> (removed: u64)
        ensures
            removed == min_qty(qty.0, level_qty(old(self)@.side(side), price.0)),
            final(self)@ == old(self)@.with_side(
                side,
                take_from_level(old(self)@.side(side), price.0, qty.0),
            ),
            no_empty_levels(old(self)@) ==> no_empty_levels(final(self)@),
    {
        proof {
            if no_empty_levels(self@) {
                lemma_no_empty_levels_kept(self@, side, price.0, qty.0);
            }
        }
        self.side_take(side, price.0, qty.0)
    }

    fn side_add(&mut self, side: Side, price: i64, qty: u64)
        requires
            level_qty(old(self)@.side(side), price) + qty <= u64::MAX,
        ensures
            final(self)@ == old(self)@.added(side, price, qty),
    {
        match side {
            Side::Bid => add_to_level(&mut self.bids, price, qty),
            Side::Ask => add_to_level(&mut self.asks, price, qty),
        }
    }

    fn side_take(&mut self, side: Side, price: i64, qty: u64) -> (removed: u64)
        ensures
            removed == min_qty(qty, level_qty(old(self)@.side(side), price)),
            final(self)@ == old(self)@.with_side(
                side,
                take_from_level(old(self)@.side(side), price, qty),
            ),
    {
        match side {
            Side::Bid => take_from(&mut self.bids, price, qty),
            Side::Ask => take_from(&mut self.asks, price, qty),
        }
    }

    /// Resting quantity at `price` on `side`.
    fn level(&self, side: Side, price: i64) -> (q: u64)
        ensures
            q == level_qty(self@.side(side), price),
    {
        match side {
            Side::Bid => level_of(&self.bids, price),
            Side::Ask => level_of(&self.asks, price),
        }
    }

    /// Highest bid, if any.
    pub fn best_bid(&self) -> (r: Option<(Price, Quantity)>)
        ensures
            r is None <==> self@.bids == Map::<i64, u64>::empty(),
            r matches Some((p, q)) ==> is_highest(self@.bids, p.0) && q.0 == self@.bids[p.0],
    {
        match last_level(&self.bids) {
            Some(l) => Some((l.price, Quantity(l.qty))),
            None => None,
        }
    }

    /// Lowest ask, if any.
    pub fn best_ask(&self) -> (r: Option<(Price, Quantity)>)
        ensures
            r is None <==> self@.asks == Map::<i64, u64>::empty(),
            r matches Some((p, q)) ==> is_lowest(self@.asks, p.0) && q.0 == self@.asks[p.0],
    {
        match first_level(&self.asks) {
            Some(l) => Some((l.price, Quantity(l.qty))),
            None => None,
        }
    }

    /// Best ask minus best bid, in minor units.
    pub fn spread(&self) -> (r: Option<i64>)
        requires
            spread_fits(self@),
        ensures
            r == spec_spread(self@),
    {
        match self.best_ask() {
            None => None,
            Some((ask, _)) => match self.best_bid() {
                None => None,
                Some((bid, _)) => {
                    proof {
                        lemma_highest(self@.bids, bid.0);
                        lemma_lowest(self@.asks, ask.0);
                    }
                    Some(ask.0 - bid.0)
                },
            },
        }
    }

    /// Bid levels, best (highest) first.
    pub fn bid_levels(&self) -> (r: Vec<(Price, Quantity)>)
        ensures
            r.len() == self@.bids.dom().len(),
            forall|i: int, j: int| 0 <= i < j < r.len() ==> r[i].0.0 > r[j].0.0,
            forall|i: int|
                0 <= i < r.len() ==> self@.bids.contains_key(#[trigger] r[i].0.0)
                    && self@.bids[r[i].0.0] == r[i].1.0,
            forall|p: i64|
                #[trigger] self@.bids.contains_key(p) ==> exists|i: int|
                    0 <= i < r.len() && r[i].0.0 == p,
            r.len() > 0 ==> is_highest(self@.bids, r[0].0.0),
    {
        let up = levels_up(&self.bids);
        let n = up.len();
        let mut out: Vec<(Price, Quantity)> = Vec::new();
        let mut k: usize = n;
        while k > 0
            invariant
                n == up@.len(),
                k <= n,
                out.len() == n - k,
                forall|i: int|
                    0 <= i < out.len() ==> out[i].0.0 == up@[n - 1 - i].0 && out[i].1.0 == up@[n
                        - 1 - i].1,
            decreases k,
        {
            k = k - 1;
            let (p, q) = up[k];
            out.push((Price(p), Quantity(q)));
        }
        proof {
            assert forall|i: int, j: int| 0 <= i < j < out.len() implies out[i].0.0 > out[j].0.0 by {
                assert(up@[n - 1 - j].0 < up@[n - 1 - i].0);
            }
            assert forall|i: int| 0 <= i < out.len() implies self@.bids.contains_key(
                #[trigger] out[i].0.0,
            ) && self@.bids[out[i].0.0] == out[i].1.0 by {
                assert(self@.bids.contains_key(up@[n - 1 - i].0));
            }
            let listed = out@.map_values(|l: (Price, Quantity)| (l.0.0, l.1.0));
            assert forall|p: i64| #[trigger] self@.bids.contains_key(p) implies exists|i: int|
                0 <= i < out.len() && out[i].0.0 == p by {
                assert forall|i: int| 0 <= i < listed.len() implies self@.bids.contains_key(
                    #[trigger] listed[i].0,
                ) by {
                    assert(self@.bids.contains_key(up@[n - 1 - i].0));
                }
                lemma_listing_covers(self@.bids, listed, p);
                let i = choose|i: int| 0 <= i < listed.len() && listed[i].0 == p;
                assert(out[i].0.0 == p);
            }
            if n > 0 {
                assert forall|k: i64| #[trigger] self@.bids.contains_key(k) implies k <= out[0].0.0 by {
                    let i = choose|i: int| 0 <= i < out.len() && out[i].0.0 == k;
                    if i > 0 {
                        assert(out[0].0.0 > out[i].0.0);
                    }
                }
            }
        }
        out
    }

    /// Ask levels, best (lowest) first.
    pub fn ask_levels(&self) -> (r: Vec<(Price, Quantity)>)
        ensures
            r.len() == self@.asks.dom().len(),
            forall|i: int, j: int| 0 <= i < j < r.len() ==> r[i].0.0 < r[j].0.0,
            forall|i: int|
                0 <= i < r.len() ==> self@.asks.contains_key(#[trigger] r[i].0.0)
                    && self@.asks[r[i].0.0] == r[i].1.0,
            forall|p: i64|
                #[trigger] self@.asks.contains_key(p) ==> exists|i: int|
                    0 <= i < r.len() && r[i].0.0 == p,
            r.len() > 0 ==> is_lowest(self@.asks, r[0].0.0),
    {
        let up = levels_up(&self.asks);
        let n = up.len();
        let mut out: Vec<(Price, Quantity)> = Vec::new();
        let mut k: usize = 0;
        while k < n
            invariant
                n == up@.len(),
                k <= n,
                out.len() == k,
                forall|i: int|
                    0 <= i < out.len() ==> out[i].0.0 == up@[i].0 && out[i].1.0 == up@[i].1,
            decreases n - k,
        {
            let (p, q) = up[k];
            out.push((Price(p), Quantity(q)));
            k = k + 1;
        }
        proof {
            assert forall|i: int, j: int| 0 <= i < j < out.len() implies out[i].0.0 < out[j].0.0 by {
                assert(up@[i].0 < up@[j].0);
            }
            assert forall|i: int| 0 <= i < out.len() implies self@.asks.contains_key(
                #[trigger] out[i].0.0,
            ) && self@.asks[out[i].0.0] == out[i].1.0 by {
                assert(self@.asks.contains_key(up@[i].0));
            }
            let listed = out@.map_values(|l: (Price, Quantity)| (l.0.0, l.1.0));
            assert forall|p: i64| #[trigger] self@.asks.contains_key(p) implies exists|i: int|
                0 <= i < out.len() && out[i].0.0 == p by {
                assert forall|i: int| 0 <= i < listed.len() implies self@.asks.contains_key(
                    #[trigger] listed[i].0,
                ) by {
                    assert(self@.asks.contains_key(up@[i].0));
                }
                lemma_listing_covers(self@.asks, listed, p);
                let i = choose|i: int| 0 <= i < listed.len() && listed[i].0 == p;
                assert(out[i].0.0 == p);
            }
            if n > 0 {
                assert forall|k: i64| #[trigger] self@.asks.contains_key(k) implies out[0].0.0 <= k by {
                    let i = choose|i: int| 0 <= i < out.len() && out[i].0.0 == k;
                    if i > 0 {
                        assert(out[0].0.0 < out[i].0.0);
                    }
                }
            }
        }
        out
    }

    /// Number of bid and ask price levels.
    pub fn depth(&self) -> (r: (usize, usize))
        ensures
            r.0 == self@.bids.dom().len(),
            r.1 == self@.asks.dom().len(),
    {
        broadcast use vstd::std_specs::btree::group_btree_axioms;
        broadcast use vstd::laws_cmp::group_laws_cmp;

        (self.bids.len(), self.asks.len())
    }

    /// Quantity executed against resting orders so far.
    pub fn traded_volume(&self) -> (v: u64)
        ensures
            v == self@.traded_volume,
    {
        self.traded_volume
    }

    /// The resting order with this id, if any.
    pub fn order(&self, id: u64) -> (r: Option<RestingOrder>)
        ensures
            r == self@.order(id),
    {
        broadcast use vstd::std_specs::hash::group_hash_axioms;

        match self.orders.get(&id) {
            Some(o) => Some(*o),
            None => None,
        }
    }

    /// Rest a new order at a price level.
    pub fn insert(&mut self, id: u64, side: Side, price: Price, qty: u64) -> (r: Result<
        (),
        BookError,
    >)
        ensures
            match old(self)@.spec_insert(id, side, price, qty) {
                Ok(v) => r is Ok && final(self)@ == v,
                Err(e) => r == Err::<(), BookError>(e) && final(self)@ == old(self)@,
            },
            no_empty_levels(old(self)@) ==> no_empty_levels(final(self)@),
    {
        broadcast use vstd::std_specs::hash::group_hash_axioms;

        proof {
            if no_empty_levels(self@) {
                lemma_order_ops_keep_levels_positive(self@, id, id, side, price, qty);
            }
        }
        if self.orders.contains_key(&id) {
            return Err(BookError::DuplicateOrder);
        }
        if qty == 0 {
            return Err(BookError::ZeroQuantity);
        }
        let cur = self.level(side, price.0);
        if cur > u64::MAX - qty {
            return Err(BookError::QuantityOverflow);
        }
        self.side_add(side, price.0, qty);
        self.orders.insert(id, RestingOrder { side, price, qty });
        proof {
            assert(self@.orders == old(self)@.orders.insert(id, RestingOrder { side, price, qty }));
        }
        Ok(())
    }

    /// Takes up to `qty` from a resting order and its level.
    fn take_order(&mut self, id: u64, qty: u64) -> (r: Result<u64, BookError>)
        ensures
            match old(self)@.spec_take(id, qty) {
                Ok((v, fill)) => r == Ok::<u64, BookError>(fill) && final(self)@ == v,
                Err(e) => r == Err::<u64, BookError>(e) && final(self)@ == old(self)@,
            },
    {
        broadcast use vstd::std_specs::hash::group_hash_axioms;

        let o = match self.orders.get(&id) {
            Some(o) => *o,
            None => return Err(BookError::UnknownOrder),
        };
        let fill = if qty < o.qty {
            qty
        } else {
            o.qty
        };
        if o.qty - fill == 0 {
            self.orders.remove(&id);
        } else {
            self.orders.insert(id, RestingOrder { side: o.side, price: o.price, qty: o.qty - fill });
        }
        self.side_take(o.side, o.price.0, fill);
        Ok(fill)
    }

    /// Execute up to `qty` of a resting order; the executed quantity counts
    /// as traded volume. Returns the executed quantity.
    pub fn execute(&mut self, id: u64, qty: u64) -> (r: Result<u64, BookError>)
        ensures
            match old(self)@.spec_execute(id, qty) {
                Ok((v, fill)) => r == Ok::<u64, BookError>(fill) && final(self)@ == v,
                Err(e) => r == Err::<u64, BookError>(e) && final(self)@ == old(self)@,
            },
            no_empty_levels(old(self)@) ==> no_empty_levels(final(self)@),
    {
        proof {
            if no_empty_levels(self@) {
                lemma_order_ops_keep_levels_positive(self@, id, id, Side::Bid, Price(0), qty);
            }
        }
        let fill = self.take_order(id, qty)?;
        self.traded_volume = self.traded_volume.wrapping_add(fill);
        Ok(fill)
    }

    /// Cancel up to `qty` of a resting order. Returns the cancelled quantity.
    pub fn reduce(&mut self, id: u64, qty: u64) -> (r: Result<u64, BookError>)
        ensures
            match old(self)@.spec_take(id, qty) {
                Ok((v, fill)) => r == Ok::<u64, BookError>(fill) && final(self)@ == v,
                Err(e) => r == Err::<u64, BookError>(e) && final(self)@ == old(self)@,
            },
            no_empty_levels(old(self)@) ==> no_empty_levels(final(self)@),
    {
        proof {
            if no_empty_levels(self@) {
                lemma_order_ops_keep_levels_positive(self@, id, id, Side::Bid, Price(0), qty);
            }
        }
        self.take_order(id, qty)
    }

    /// Remove a resting order entirely. Returns the quantity it still had.
    pub fn cancel(&mut self, id: u64) -> (r: Result<u64, BookError>)
        ensures
            match old(self)@.spec_cancel(id) {
                Ok((v, q)) => r == Ok::<u64, BookError>(q) && final(self)@ == v,
                Err(e) => r == Err::<u64, BookError>(e) && final(self)@ == old(self)@,
            },
            no_empty_levels(old(self)@) ==> no_empty_levels(final(self)@),
    {
        proof {
            if no_empty_levels(self@) {
                lemma_order_ops_keep_levels_positive(self@, id, id, Side::Bid, Price(0), 0);
            }
        }
        let q = match self.order(id) {
            Some(o) => o.qty,
            None => return Err(BookError::UnknownOrder),
        };
        self.take_order(id, q)
    }

    /// Replace a resting order by a new one on the same side.
    pub fn replace(&mut self, old_id: u64, new_id: u64, price: Price, qty: u64) -> (r: Result<
        (),
        BookError,
    >)
        ensures
            match old(self)@.spec_replace(old_id, new_id, price, qty) {
                Ok(v) => r is Ok && final(self)@ == v,
                Err(e) => r == Err::<(), BookError>(e) && final(self)@ == old(self)@,
            },
            no_empty_levels(old(self)@) ==> no_empty_levels(final(self)@),
    {
        broadcast use vstd::std_specs::hash::group_hash_axioms;

        proof {
            if no_empty_levels(self@) {
                lemma_order_ops_keep_levels_positive(self@, old_id, new_id, Side::Bid, price, qty);
            }
        }
        let o = match self.order(old_id) {
            Some(o) => o,
            None => return Err(BookError::UnknownOrder),
        };
        if new_id != old_id && self.orders.contains_key(&new_id) {
            return Err(BookError::DuplicateOrder);
        }
        if qty == 0 {
            return Err(BookError::ZeroQuantity);
        }
        let cur = self.level(o.side, price.0);
        let after = if price.0 == o.price.0 {
            if o.qty < cur {
                cur - o.qty
            } else {
                0
            }
        } else {
            cur
        };
        if after > u64::MAX - qty {
            return Err(BookError::QuantityOverflow);
        }
        let _ = self.take_order(old_id, o.qty);
        let r = self.insert(new_id, o.side, price, qty);
        assert(r is Ok);
        Ok(())
    }
}

/// Highest bid and lowest ask both exist and their difference fits in an `i64`.
pub open spec fn spread_fits(v: BookView) -> bool {
    v.bids != Map::<i64, u64>::empty() && v.asks != Map::<i64, u64>::empty() ==> i64::MIN
        <= lowest(v.asks) - highest(v.bids) <= i64::MAX
}

pub open spec fn spec_spread(v: BookView) -> Option<i64> {
    if v.bids == Map::<i64, u64>::empty() || v.asks == Map::<i64, u64>::empty() {
        None
    } else {
        Some((lowest(v.asks) - highest(v.bids)) as i64)
    }
}

proof fn lemma_highest(m: Map<i64, u64>, p: i64)
    requires
        is_highest(m, p),
    ensures
        highest(m) == p,
{
    let h = highest(m);
    assert(is_highest(m, h));
    assert(h <= p && p <= h);
}

proof fn lemma_lowest(m: Map<i64, u64>, p: i64)
    requires
        is_lowest(m, p),
    ensures
        lowest(m) == p,
{
    let h = lowest(m);
    assert(is_lowest(m, h));
    assert(h <= p && p <= h);
}

impl Default for Orderbook {
    fn default() -> (ob: Self)
        ensures
            ob@.bids == Map::<i64, u64>::empty(),
            ob@.asks == Map::<i64, u64>::empty(),
            ob@.orders == Map::<u64, RestingOrder>::empty(),
            ob@.traded_volume == 0,
    {
        Orderbook::new()
    }
}


// ---------------------------------------------------------------------------
// Laws
// ---------------------------------------------------------------------------

/// Adding `a` and then `b` at one level is adding `a + b` there.
pub proof fn lemma_add_accumulates(v: BookView, side: Side, price: i64, a: u64, b: u64)
    requires
        level_qty(v.side(side), price) + a + b <= u64::MAX,
    ensures
        v.added(side, price, a).added(side, price, b) == v.added(side, price, (a + b) as u64),
{
    let once = v.added(side, price, a);
    assert(once.side(side) == v.side(side).insert(
        price,
        (level_qty(v.side(side), price) + a) as u64,
    ));
    assert(once.added(side, price, b).side(side) =~= v.added(side, price, (a + b) as u64).side(
        side,
    ));
}

/// Removing what was just added at a level restores the book, unless that
/// level was present and empty before (it then disappears).
pub proof fn lemma_remove_undoes_add(v: BookView, side: Side, price: i64, qty: u64)
    requires
        level_qty(v.side(side), price) + qty <= u64::MAX,
        !(v.side(side).contains_key(price) && v.side(side)[price] == 0),
    ensures
        v.added(side, price, qty).with_side(
            side,
            take_from_level(v.added(side, price, qty).side(side), price, qty),
        ) == v,
{
    let m = v.side(side);
    let after = take_from_level(v.added(side, price, qty).side(side), price, qty);
    if m.contains_key(price) {
        assert(after =~= m);
    } else {
        assert(after =~= m);
    }
}

/// Resting an order and cancelling it restores the book, unless its level
/// was present and empty before.
pub proof fn lemma_cancel_undoes_insert(v: BookView, id: u64, side: Side, price: Price, qty: u64)
    requires
        v.spec_insert(id, side, price, qty) is Ok,
        !(v.side(side).contains_key(price.0) && v.side(side)[price.0] == 0),
    ensures
        v.spec_insert(id, side, price, qty).unwrap().spec_cancel(id) == Ok::<(BookView, u64), BookError>((v, qty)),
{
    let w = v.spec_insert(id, side, price, qty).unwrap();
    assert(w.orders[id] == RestingOrder { side, price, qty });
    let (x, fill) = w.spec_cancel(id).unwrap();
    assert(fill == qty);
    assert(x.orders =~= v.orders);
    assert(x.side(side) =~= v.side(side));
    assert(x.bids =~= v.bids);
    assert(x.asks =~= v.asks);
}

/// An execution takes what it can from the order: the filled quantity is at
/// most what was asked and what rested, the rest of the order stays (or the
/// order leaves when nothing is left), and the fill counts as traded volume.
pub proof fn lemma_execute_accounting(v: BookView, id: u64, qty: u64)
    requires
        v.orders.contains_key(id),
    ensures
        v.spec_execute(id, qty) matches Ok((w, fill)) && {
            let o = v.orders[id];
            &&& fill <= qty
            &&& fill <= o.qty
            &&& (fill == qty || fill == o.qty)
            &&& if fill == o.qty {
                !w.orders.contains_key(id)
            } else {
                w.orders.contains_key(id) && w.orders[id].qty + fill == o.qty
            }
            &&& w.traded_volume == v.traded_volume.wrapping_add(fill)
        },
{
}

/// Cancelling an order removes it and returns all it had left.
pub proof fn lemma_cancel_removes(v: BookView, id: u64)
    requires
        v.orders.contains_key(id),
    ensures
        v.spec_cancel(id) matches Ok((w, q)) && !w.orders.contains_key(id) && q == v.orders[id].qty,
{
}

/// A replaced order is gone and its replacement rests on the same side at
/// the new price for the new quantity.
pub proof fn lemma_replace_moves(v: BookView, old_id: u64, new_id: u64, price: Price, qty: u64)
    requires
        v.spec_replace(old_id, new_id, price, qty) is Ok,
    ensures
        ({
            let w = v.spec_replace(old_id, new_id, price, qty).unwrap();
            &&& w.orders.contains_key(new_id)
            &&& w.orders[new_id] == RestingOrder { side: v.orders[old_id].side, price, qty }
            &&& old_id != new_id ==> !w.orders.contains_key(old_id)
        }),
{
}


/// Taking one order out of a set of orders takes out exactly its share.
proof fn lemma_resting_remove(orders: Map<u64, RestingOrder>, id: u64, side: Side, price: i64)
    requires
        orders.dom().finite(),
        orders.contains_key(id),
    ensures
        resting_at(orders, side, price) == share(orders[id], side, price) + resting_at(
            orders.remove(id),
            side,
            price,
        ),
    decreases orders.dom().len(),
{
    assert(orders.dom().len() > 0);
    let c = orders.dom().choose();
    if c != id {
        lemma_resting_remove(orders.remove(c), id, side, price);
        lemma_resting_remove(orders.remove(id), c, side, price);
        assert(orders.remove(c).remove(id) =~= orders.remove(id).remove(c));
    }
}

/// Adding an order under a new id adds exactly its share.
proof fn lemma_resting_insert(
    orders: Map<u64, RestingOrder>,
    id: u64,
    o: RestingOrder,
    side: Side,
    price: i64,
)
    requires
        orders.dom().finite(),
        !orders.contains_key(id),
    ensures
        resting_at(orders.insert(id, o), side, price) == share(o, side, price) + resting_at(
            orders,
            side,
            price,
        ),
{
    lemma_resting_remove(orders.insert(id, o), id, side, price);
    assert(orders.insert(id, o).remove(id) =~= orders);
}

/// With no orders, nothing rests anywhere.
proof fn lemma_resting_empty(side: Side, price: i64)
    ensures
        resting_at(Map::<u64, RestingOrder>::empty(), side, price) == 0,
{
    assert(Map::<u64, RestingOrder>::empty().dom() =~= Set::<u64>::empty());
}

/// An empty book holds no orders and no levels.
pub proof fn lemma_empty_levels_hold_orders(v: BookView)
    requires
        v.bids == Map::<i64, u64>::empty(),
        v.asks == Map::<i64, u64>::empty(),
        v.orders == Map::<u64, RestingOrder>::empty(),
    ensures
        levels_hold_orders(v),
{
    assert forall|side: Side, price: i64|
        level_qty(v.side(side), price) == #[trigger] resting_at(v.orders, side, price) by {
        lemma_resting_empty(side, price);
    }
}

/// Resting a new order adds its quantity to its level and to no other, so
/// every level still holds exactly the orders resting at it.
pub proof fn lemma_insert_keeps_levels(v: BookView, id: u64, side: Side, price: Price, qty: u64)
    requires
        levels_hold_orders(v),
    ensures
        v.spec_insert(id, side, price, qty) matches Ok(w) ==> {
            &&& levels_hold_orders(w)
            &&& level_qty(w.side(side), price.0) == level_qty(v.side(side), price.0) + qty
            &&& forall|s: Side, p: i64|
                !(s == side && p == price.0) ==> #[trigger] level_qty(w.side(s), p) == level_qty(
                    v.side(s),
                    p,
                )
        },
{
    if let Ok(w) = v.spec_insert(id, side, price, qty) {
        let o = RestingOrder { side, price, qty };
        assert forall|s: Side, p: i64|
            level_qty(w.side(s), p) == #[trigger] resting_at(w.orders, s, p) by {
            lemma_resting_insert(v.orders, id, o, s, p);
            assert(resting_at(v.orders, s, p) == level_qty(v.side(s), p));
        }
    }
}

/// Taking from a resting order takes the same quantity from its level: the
/// level drops by exactly the fill (and disappears when it reaches zero),
/// every other level stays, and every level still holds exactly the orders
/// resting at it.
pub proof fn lemma_take_keeps_levels(v: BookView, id: u64, qty: u64)
    requires
        levels_hold_orders(v),
        v.orders.contains_key(id),
    ensures
        v.spec_take(id, qty) matches Ok((w, fill)) && {
            let o = v.orders[id];
            &&& fill == min_qty(qty, o.qty as nat)
            &&& levels_hold_orders(w)
            &&& level_qty(w.side(o.side), o.price.0) + fill == level_qty(v.side(o.side), o.price.0)
            &&& (level_qty(w.side(o.side), o.price.0) == 0 ==> !w.side(o.side).contains_key(
                o.price.0,
            ))
            &&& forall|s: Side, p: i64|
                !(s == o.side && p == o.price.0) ==> #[trigger] level_qty(w.side(s), p)
                    == level_qty(v.side(s), p)
        },
{
    let o = v.orders[id];
    let (w, fill) = v.spec_take(id, qty).unwrap();
    let rest = v.orders.remove(id);
    lemma_resting_remove(v.orders, id, o.side, o.price.0);
    assert(level_qty(v.side(o.side), o.price.0) == resting_at(v.orders, o.side, o.price.0));
    assert forall|s: Side, p: i64|
        level_qty(w.side(s), p) == #[trigger] resting_at(w.orders, s, p) by {
        lemma_resting_remove(v.orders, id, s, p);
        assert(resting_at(v.orders, s, p) == level_qty(v.side(s), p));
        if o.qty - fill != 0 {
            let o2 = RestingOrder { qty: (o.qty - fill) as u64, ..o };
            lemma_resting_insert(rest, id, o2, s, p);
            assert(v.orders.insert(id, o2) =~= rest.insert(id, o2));
        }
    }
}

/// An execution lowers the order's level by exactly the fill, like a take,
/// and keeps every level holding exactly the orders resting at it.
pub proof fn lemma_execute_keeps_levels(v: BookView, id: u64, qty: u64)
    requires
        levels_hold_orders(v),
        v.orders.contains_key(id),
    ensures
        v.spec_execute(id, qty) matches Ok((w, fill)) && {
            let o = v.orders[id];
            &&& fill == min_qty(qty, o.qty as nat)
            &&& levels_hold_orders(w)
            &&& level_qty(w.side(o.side), o.price.0) + fill == level_qty(v.side(o.side), o.price.0)
            &&& forall|s: Side, p: i64|
                !(s == o.side && p == o.price.0) ==> #[trigger] level_qty(w.side(s), p)
                    == level_qty(v.side(s), p)
        },
{
    lemma_take_keeps_levels(v, id, qty);
}

/// Cancelling an order lowers its level by all it had left.
pub proof fn lemma_cancel_keeps_levels(v: BookView, id: u64)
    requires
        levels_hold_orders(v),
        v.orders.contains_key(id),
    ensures
        v.spec_cancel(id) matches Ok((w, q)) && {
            let o = v.orders[id];
            &&& q == o.qty
            &&& levels_hold_orders(w)
            &&& level_qty(w.side(o.side), o.price.0) + o.qty == level_qty(v.side(o.side), o.price.0)
            &&& forall|s: Side, p: i64|
                !(s == o.side && p == o.price.0) ==> #[trigger] level_qty(w.side(s), p)
                    == level_qty(v.side(s), p)
        },
{
    lemma_take_keeps_levels(v, id, v.orders[id].qty);
}

/// A replace lowers the old order's level by all it had left and raises the
/// new price's level on the same side by the new quantity.
pub proof fn lemma_replace_keeps_levels(v: BookView, old_id: u64, new_id: u64, price: Price, qty: u64)
    requires
        levels_hold_orders(v),
    ensures
        v.spec_replace(old_id, new_id, price, qty) matches Ok(w) ==> {
            let o = v.orders[old_id];
            &&& levels_hold_orders(w)
            &&& forall|p: i64|
                #[trigger] level_qty(w.side(o.side), p) + (if p == o.price.0 {
                    o.qty as int
                } else {
                    0
                }) == level_qty(v.side(o.side), p) + (if p == price.0 {
                    qty as int
                } else {
                    0
                })
            &&& forall|s: Side, p: i64|
                s != o.side ==> #[trigger] level_qty(w.side(s), p) == level_qty(v.side(s), p)
        },
{
    if v.spec_replace(old_id, new_id, price, qty) is Ok {
        let o = v.orders[old_id];
        lemma_cancel_keeps_levels(v, old_id);
        let c = v.spec_cancel(old_id).unwrap().0;
        lemma_insert_keeps_levels(c, new_id, o.side, price, qty);
    }
}


/// Every price level holds a positive quantity.
pub open spec fn no_empty_levels(v: BookView) -> bool {
    &&& forall|p: i64| #[trigger] v.bids.contains_key(p) ==> v.bids[p] > 0
    &&& forall|p: i64| #[trigger] v.asks.contains_key(p) ==> v.asks[p] > 0
}

/// An add of a positive quantity and any remove keep every level positive,
/// so a book built from an empty one by such adds and by removes has no
/// empty level.
pub proof fn lemma_no_empty_levels_kept(v: BookView, side: Side, price: i64, qty: u64)
    requires
        no_empty_levels(v),
    ensures
        qty > 0 && level_qty(v.side(side), price) + qty <= u64::MAX ==> no_empty_levels(
            v.added(side, price, qty),
        ),
        no_empty_levels(v.with_side(side, take_from_level(v.side(side), price, qty))),
{
}

/// The order operations keep every level positive: a new order rests a
/// positive quantity, and taking from an order takes from its level.
pub proof fn lemma_order_ops_keep_levels_positive(
    v: BookView,
    id: u64,
    new_id: u64,
    side: Side,
    price: Price,
    qty: u64,
)
    requires
        no_empty_levels(v),
    ensures
        v.spec_insert(id, side, price, qty) matches Ok(w) ==> no_empty_levels(w),
        v.spec_take(id, qty) matches Ok((w, _)) ==> no_empty_levels(w),
        v.spec_execute(id, qty) matches Ok((w, _)) ==> no_empty_levels(w),
        v.spec_cancel(id) matches Ok((w, _)) ==> no_empty_levels(w),
        v.spec_replace(id, new_id, price, qty) matches Ok(w) ==> no_empty_levels(w),
{
    if v.orders.contains_key(id) {
        let o = v.orders[id];
        lemma_no_empty_levels_kept(v, o.side, o.price.0, min_qty(qty, o.qty as nat));
        lemma_no_empty_levels_kept(v, o.side, o.price.0, o.qty);
        let c = v.spec_cancel(id).unwrap().0;
        lemma_no_empty_levels_kept(c, o.side, price.0, qty);
    }
    lemma_no_empty_levels_kept(v, side, price.0, qty);
}

/// The first bid level listed is the best bid, and the first ask level
/// listed is the best ask: the highest (lowest) price of a side is unique.
pub proof fn lemma_best_is_unique(m: Map<i64, u64>, p: i64, q: i64)
    ensures
        is_highest(m, p) && is_highest(m, q) ==> p == q,
        is_lowest(m, p) && is_lowest(m, q) ==> p == q,
{
}


/// Replacing a resting order by a fresh id (or the same one) with a positive
/// quantity succeeds whenever the new level has room, whether or not the
/// price changes: the old order is gone and the new one rests on the old
/// order's side at the new price for the new quantity.
pub proof fn lemma_replace_succeeds(v: BookView, old_id: u64, new_id: u64, price: Price, qty: u64)
    requires
        v.orders.contains_key(old_id),
        new_id == old_id || !v.orders.contains_key(new_id),
        qty > 0,
        level_qty(v.side(v.orders[old_id].side), price.0) + qty <= u64::MAX,
    ensures
        v.spec_replace(old_id, new_id, price, qty) matches Ok(w) && {
            &&& w.orders.contains_key(new_id)
            &&& w.orders[new_id] == RestingOrder { side: v.orders[old_id].side, price, qty }
            &&& old_id != new_id ==> !w.orders.contains_key(old_id)
        },
{
    let o = v.orders[old_id];
    let c = v.spec_cancel(old_id).unwrap().0;
    assert(!c.orders.contains_key(new_id));
    assert(level_qty(c.side(o.side), price.0) <= level_qty(v.side(o.side), price.0));
}

} // verus!
