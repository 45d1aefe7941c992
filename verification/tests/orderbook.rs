use nasdaq::orderbook::{Orderbook, Price, Quantity, Side};

#[test]
fn best_and_spread() {
    let mut ob = Orderbook::new();
    ob.add(Side::Bid, Price(9_950), Quantity(100));
    ob.add(Side::Bid, Price(9_975), Quantity(50));
    ob.add(Side::Ask, Price(10_000), Quantity(75));
    ob.add(Side::Ask, Price(10_025), Quantity(200));

    assert_eq!(ob.best_bid(), Some((Price(9_975), Quantity(50))));
    assert_eq!(ob.best_ask(), Some((Price(10_000), Quantity(75))));
    assert_eq!(ob.spread(), Some(25));
    let mid = match (ob.best_ask(), ob.best_bid()) {
        (Some((a, _)), Some((b, _))) => Some((a.0 + b.0) as f64 / 2.0),
        _ => None,
    };
    assert_eq!(mid, Some(9_987.5));
}

#[test]
fn level_aggregation() {
    let mut ob = Orderbook::new();
    ob.add(Side::Bid, Price(100), Quantity(10));
    ob.add(Side::Bid, Price(100), Quantity(15));
    assert_eq!(ob.best_bid(), Some((Price(100), Quantity(25))));
}

#[test]
fn remove_clears_empty_levels() {
    let mut ob = Orderbook::new();
    ob.add(Side::Ask, Price(100), Quantity(10));
    assert_eq!(ob.remove(Side::Ask, Price(100), Quantity(4)), 4);
    assert_eq!(ob.best_ask(), Some((Price(100), Quantity(6))));
    assert_eq!(ob.remove(Side::Ask, Price(100), Quantity(999)), 6);
    assert_eq!(ob.best_ask(), None);
    assert_eq!(ob.depth(), (0, 0));
}

#[test]
fn empty_book() {
    let ob = Orderbook::new();
    assert_eq!(ob.best_bid(), None);
    assert_eq!(ob.best_ask(), None);
    assert_eq!(ob.spread(), None);
}

#[test]
fn display_formats() {
    assert_eq!(Price(12_345).to_string(), "123.45");
    assert_eq!(Quantity(7).to_string(), "7x");
}
