use nasdaq::orderbook::analytics::top_of_book;
use nasdaq::orderbook::{BookError, Orderbook, Price, Quantity, RestingOrder, Side};

fn sample() -> Orderbook {
    let mut ob = Orderbook::new();
    ob.add(Side::Bid, Price(9_950), Quantity(100));
    ob.add(Side::Bid, Price(9_975), Quantity(50));
    ob.add(Side::Ask, Price(10_000), Quantity(75));
    ob.add(Side::Ask, Price(10_025), Quantity(200));
    ob
}

#[test]
fn levels_are_ordered_best_first() {
    let ob = sample();
    assert_eq!(
        ob.bid_levels(),
        vec![(Price(9_975), Quantity(50)), (Price(9_950), Quantity(100))]
    );
    assert_eq!(
        ob.ask_levels(),
        vec![(Price(10_000), Quantity(75)), (Price(10_025), Quantity(200))]
    );
    assert_eq!(ob.depth(), (2, 2));
}

#[test]
fn remove_undoes_add() {
    let mut ob = sample();
    ob.add(Side::Bid, Price(9_960), Quantity(30));
    ob.add(Side::Ask, Price(10_000), Quantity(5));
    assert_eq!(ob.remove(Side::Bid, Price(9_960), Quantity(30)), 30);
    assert_eq!(ob.remove(Side::Ask, Price(10_000), Quantity(5)), 5);
    let fresh = sample();
    assert_eq!(ob.bid_levels(), fresh.bid_levels());
    assert_eq!(ob.ask_levels(), fresh.ask_levels());
}

#[test]
fn remove_from_missing_level_is_zero() {
    let mut ob = sample();
    assert_eq!(ob.remove(Side::Bid, Price(1), Quantity(10)), 0);
    assert_eq!(ob.depth(), (2, 2));
}

#[test]
fn zero_quantity_level_is_cleared_by_remove() {
    let mut ob = Orderbook::new();
    ob.add(Side::Bid, Price(5), Quantity(0));
    assert_eq!(ob.best_bid(), Some((Price(5), Quantity(0))));
    assert_eq!(ob.remove(Side::Bid, Price(5), Quantity(0)), 0);
    assert_eq!(ob.best_bid(), None);
}

#[test]
fn spread_is_best_ask_minus_best_bid() {
    let mut ob = sample();
    assert_eq!(ob.spread(), Some(25));
    ob.add(Side::Ask, Price(9_990), Quantity(1));
    assert_eq!(ob.spread(), Some(15));
    let mut one_sided = Orderbook::new();
    one_sided.add(Side::Bid, Price(1), Quantity(1));
    assert_eq!(one_sided.spread(), None);
}

#[test]
fn cancel_undoes_insert() {
    let mut ob = sample();
    assert_eq!(ob.insert(7, Side::Bid, Price(9_975), 25), Ok(()));
    assert_eq!(ob.best_bid(), Some((Price(9_975), Quantity(75))));
    assert_eq!(
        ob.order(7),
        Some(RestingOrder { side: Side::Bid, price: Price(9_975), qty: 25 })
    );
    assert_eq!(ob.cancel(7), Ok(25));
    assert_eq!(ob.order(7), None);
    assert_eq!(ob.bid_levels(), sample().bid_levels());
}

#[test]
fn execute_accounting() {
    let mut ob = Orderbook::new();
    assert_eq!(ob.insert(1, Side::Ask, Price(100), 100), Ok(()));
    assert_eq!(ob.execute(1, 40), Ok(40));
    assert_eq!(ob.order(1).unwrap().qty, 60);
    assert_eq!(ob.traded_volume(), 40);
    assert_eq!(ob.best_ask(), Some((Price(100), Quantity(60))));
    assert_eq!(ob.execute(1, 100), Ok(60));
    assert_eq!(ob.order(1), None);
    assert_eq!(ob.traded_volume(), 100);
    assert_eq!(ob.best_ask(), None);
}

#[test]
fn reduce_does_not_count_as_traded() {
    let mut ob = Orderbook::new();
    ob.insert(1, Side::Bid, Price(10), 10).unwrap();
    assert_eq!(ob.reduce(1, 3), Ok(3));
    assert_eq!(ob.order(1).unwrap().qty, 7);
    assert_eq!(ob.traded_volume(), 0);
}

#[test]
fn refused_operations() {
    let mut ob = Orderbook::new();
    ob.insert(1, Side::Bid, Price(10), 10).unwrap();
    assert_eq!(ob.insert(1, Side::Ask, Price(11), 5), Err(BookError::DuplicateOrder));
    assert_eq!(ob.insert(2, Side::Ask, Price(11), 0), Err(BookError::ZeroQuantity));
    ob.add(Side::Ask, Price(12), Quantity(u64::MAX - 5));
    assert_eq!(ob.insert(3, Side::Ask, Price(12), 10), Err(BookError::QuantityOverflow));
    assert_eq!(ob.execute(9, 1), Err(BookError::UnknownOrder));
    assert_eq!(ob.reduce(9, 1), Err(BookError::UnknownOrder));
    assert_eq!(ob.cancel(9), Err(BookError::UnknownOrder));
    ob.insert(4, Side::Bid, Price(9), 1).unwrap();
    assert_eq!(ob.replace(1, 4, Price(8), 5), Err(BookError::DuplicateOrder));
    assert_eq!(ob.replace(9, 5, Price(8), 5), Err(BookError::UnknownOrder));
    assert_eq!(ob.replace(1, 5, Price(8), 0), Err(BookError::ZeroQuantity));
    // refused operations change nothing
    assert_eq!(ob.order(1).unwrap().qty, 10);
    assert_eq!(ob.bid_levels(), vec![(Price(10), Quantity(10)), (Price(9), Quantity(1))]);
}

#[test]
fn replace_moves_order() {
    let mut ob = Orderbook::new();
    ob.insert(1, Side::Ask, Price(101), 50).unwrap();
    assert_eq!(ob.replace(1, 2, Price(100), 60), Ok(()));
    assert_eq!(ob.order(1), None);
    assert_eq!(
        ob.order(2),
        Some(RestingOrder { side: Side::Ask, price: Price(100), qty: 60 })
    );
    assert_eq!(ob.ask_levels(), vec![(Price(100), Quantity(60))]);
}

#[test]
fn top_of_book_matches_best_levels() {
    let ob = sample();
    let t = top_of_book(&ob);
    assert_eq!(t.bid.unwrap().price, Price(9_975));
    assert_eq!(t.bid.unwrap().qty, 50);
    assert_eq!(t.ask.unwrap().price, Price(10_000));
    assert_eq!(t.ask.unwrap().qty, 75);
    assert!(top_of_book(&Orderbook::new()).bid.is_none());
}

#[test]
fn price_text_is_exact() {
    assert_eq!(Price(0).to_string(), "0.00");
    assert_eq!(Price(-5).to_string(), "-0.05");
    assert_eq!(Price(-12_345).to_string(), "-123.45");
    assert_eq!(Price(100).to_string(), "1.00");
    assert_eq!(Price(i64::MIN).to_string(), "-92233720368547758.08");
    assert_eq!(Quantity(0).to_string(), "0x");
    assert_eq!(Quantity(1_234_567).to_string(), "1234567x");
}

#[test]
fn first_listed_level_is_the_best_and_levels_stay_positive() {
    let mut ob = sample();
    assert_eq!(ob.bid_levels()[0], ob.best_bid().unwrap());
    assert_eq!(ob.ask_levels()[0], ob.best_ask().unwrap());
    ob.remove(Side::Bid, Price(9_975), Quantity(50));
    ob.remove(Side::Ask, Price(10_025), Quantity(500));
    ob.add(Side::Ask, Price(10_010), Quantity(1));
    assert!(ob.bid_levels().iter().all(|(_, q)| q.0 > 0));
    assert!(ob.ask_levels().iter().all(|(_, q)| q.0 > 0));
    assert_eq!(ob.bid_levels()[0], ob.best_bid().unwrap());
    assert_eq!(ob.ask_levels()[0], ob.best_ask().unwrap());
    assert_eq!(ob.depth(), (1, 2));
}

#[test]
fn order_operations_leave_no_empty_level() {
    let mut ob = Orderbook::new();
    ob.insert(1, Side::Bid, Price(100), 10).unwrap();
    ob.insert(2, Side::Ask, Price(105), 4).unwrap();
    assert_eq!(ob.execute(1, 10), Ok(10));
    assert_eq!(ob.reduce(2, 1), Ok(1));
    ob.replace(2, 3, Price(104), 6).unwrap();
    assert!(ob.bid_levels().is_empty());
    assert_eq!(ob.ask_levels(), vec![(Price(104), Quantity(6))]);
    assert_eq!(ob.cancel(3), Ok(6));
    assert_eq!(ob.depth(), (0, 0));
}
