use nasdaq::itch::{parse, rank_by_volume, BookBuilder, IoErrorKind, ItchError, ItchSide, Message, Reader, SymbolStats};
use nasdaq::orderbook::{Price, Quantity, RestingOrder, Side};

fn header(buf: &mut Vec<u8>, tag: u8, ns: u64) {
    buf.push(tag);
    buf.extend([0, 1]);
    buf.extend([0, 0]);
    buf.extend(&ns.to_be_bytes()[2..]);
}

fn alpha<const N: usize>(s: &[u8]) -> [u8; N] {
    let mut b = [b' '; N];
    b[..s.len()].copy_from_slice(s);
    b
}

fn add(tag: u8, id: u64, side: u8, shares: u32, stock: &[u8], price: u32) -> Vec<u8> {
    let mut b = Vec::new();
    header(&mut b, tag, 7);
    b.extend(id.to_be_bytes());
    b.push(side);
    b.extend(shares.to_be_bytes());
    b.extend(alpha::<8>(stock));
    b.extend(price.to_be_bytes());
    if tag == b'F' {
        b.extend(alpha::<4>(b"MPID"));
    }
    b
}

fn trade(id: u64, shares: u32, stock: &[u8]) -> Vec<u8> {
    let mut b = Vec::new();
    header(&mut b, b'P', 9);
    b.extend(id.to_be_bytes());
    b.push(b'S');
    b.extend(shares.to_be_bytes());
    b.extend(alpha::<8>(stock));
    b.extend(123u32.to_be_bytes());
    b.extend(5u64.to_be_bytes());
    b
}

fn cancel(id: u64, shares: u32) -> Vec<u8> {
    let mut b = Vec::new();
    header(&mut b, b'X', 10);
    b.extend(id.to_be_bytes());
    b.extend(shares.to_be_bytes());
    b
}

fn executed_price(id: u64, shares: u32, printable: u8) -> Vec<u8> {
    let mut b = Vec::new();
    header(&mut b, b'C', 11);
    b.extend(id.to_be_bytes());
    b.extend(shares.to_be_bytes());
    b.extend(99u64.to_be_bytes());
    b.push(printable);
    b.extend(4321u32.to_be_bytes());
    b
}

fn system_event(event: u8) -> Vec<u8> {
    let mut b = Vec::new();
    header(&mut b, b'S', 0x0102_0304_0506);
    b.push(event);
    b
}

fn frame(msgs: &[Vec<u8>]) -> Vec<u8> {
    let mut out = Vec::new();
    for m in msgs {
        out.extend((m.len() as u16).to_be_bytes());
        out.extend(m);
    }
    out
}

#[test]
fn framing_round_trip() {
    let bodies = vec![
        system_event(b'O'),
        add(b'A', 1, b'B', 10, b"AAPL", 100),
        add(b'F', 2, b'S', 20, b"MSFT", 200),
        trade(3, 30, b"IBM"),
        vec![b'z', 1, 2, 3],
    ];
    let msgs = Reader::new(&frame(&bodies)).collect();
    assert_eq!(msgs.len(), bodies.len());
    for (m, b) in msgs.iter().zip(&bodies) {
        assert_eq!(format!("{:?}", m), format!("{:?}", parse(b)));
    }
}

#[test]
fn system_event_timestamp_is_48_bit_big_endian() {
    match parse(&system_event(b'Q')).unwrap() {
        Message::SystemEvent { ns, event } => {
            assert_eq!(ns, 0x0102_0304_0506);
            assert_eq!(event, 'Q');
        }
        other => panic!("wrong variant: {other:?}"),
    }
}

#[test]
fn truncation_reports_first_missing_field() {
    let raw = add(b'A', 42, b'B', 100, b"AAPL", 1_750_000);
    assert_eq!(raw.len(), 36);
    // 11 bytes after the tag: the order id (bytes 10..18) is the first that does not fit
    assert_eq!(
        parse(&raw[..12]).unwrap_err(),
        ItchError::Truncated { tag: 'A', wanted: 18, have: 11 }
    );
    // one byte short: the price (31..35) does not fit
    assert_eq!(
        parse(&raw[..35]).unwrap_err(),
        ItchError::Truncated { tag: 'A', wanted: 35, have: 34 }
    );
    assert!(parse(&raw).is_ok());
    // only the tag
    assert_eq!(parse(b"D").unwrap_err(), ItchError::Truncated { tag: 'D', wanted: 2, have: 0 });
}

#[test]
fn empty_body_is_an_error() {
    assert_eq!(parse(&[]).unwrap_err(), ItchError::Empty);
}

#[test]
fn longer_bodies_still_parse() {
    let mut raw = add(b'A', 1, b'S', 5, b"X", 6);
    raw.extend([0xAA, 0xBB]);
    match parse(&raw).unwrap() {
        Message::AddOrder { side, shares, price, .. } => {
            assert_eq!(side, ItchSide::Sell);
            assert_eq!(shares, 5);
            assert_eq!(price, 6);
        }
        other => panic!("wrong variant: {other:?}"),
    }
}

#[test]
fn printable_flag_and_price() {
    match parse(&executed_price(5, 7, b'Y')).unwrap() {
        Message::OrderExecutedPrice { order_id, shares, match_id, printable, price, .. } => {
            assert_eq!((order_id, shares, match_id, printable, price), (5, 7, 99, true, 4321));
        }
        other => panic!("wrong variant: {other:?}"),
    }
    match parse(&executed_price(5, 7, b'N')).unwrap() {
        Message::OrderExecutedPrice { printable, .. } => assert!(!printable),
        other => panic!("wrong variant: {other:?}"),
    }
}

#[test]
fn alpha_fields_decode_and_trim() {
    // a non-breaking space before the padding is trimmed too; invalid bytes
    // become the replacement character
    let raw = add(b'A', 1, b'B', 1, b"AB\xC2\xA0", 1);
    assert_eq!(parse(&raw).unwrap().stock(), Some("AB"));
    let raw = add(b'A', 1, b'B', 1, b"A\xFFB", 1);
    assert_eq!(parse(&raw).unwrap().stock(), Some("A\u{FFFD}B"));
}

#[test]
fn stock_only_for_symbol_messages() {
    assert_eq!(parse(&trade(1, 1, b"IBM")).unwrap().stock(), Some("IBM"));
    assert_eq!(parse(&cancel(1, 1)).unwrap().stock(), None);
    assert_eq!(parse(&[b'?']).unwrap().stock(), None);
}

#[test]
fn side_conversion() {
    assert_eq!(ItchSide::Buy.to_book_side(), Side::Bid);
    assert_eq!(ItchSide::Sell.to_book_side(), Side::Ask);
}

#[test]
fn cut_short_frame_is_io_error() {
    let mut stream = frame(&[add(b'A', 1, b'B', 1, b"X", 1)]);
    stream.extend([0, 36, b'A', 0]);
    let msgs = Reader::new(&stream).collect();
    assert_eq!(msgs.len(), 2);
    assert!(msgs[0].is_ok());
    assert_eq!(msgs[1].as_ref().unwrap_err(), &ItchError::Io(IoErrorKind::UnexpectedEof));
}

#[test]
fn zero_length_ends_stream() {
    let mut stream = frame(&[system_event(b'O')]);
    stream.extend([0, 0]);
    stream.extend(frame(&[system_event(b'C')]));
    let mut reader = Reader::new(&stream);
    assert!(reader.next().is_some());
    assert!(reader.next().is_none());
    assert_eq!(Reader::new(&[7]).collect().len(), 0);
}

#[test]
fn replay_stops_at_first_bad_message() {
    let good = add(b'A', 1, b'B', 10, b"AAPL", 100);
    let bad = good[..20].to_vec();
    let stream = frame(&[good.clone(), bad, add(b'A', 2, b'B', 10, b"MSFT", 100)]);
    let mut bb = BookBuilder::new();
    let err = bb.replay(&stream).unwrap_err();
    assert_eq!(err, ItchError::Truncated { tag: 'A', wanted: 23, have: 19 });
    assert!(bb.book("AAPL").is_some());
    assert!(bb.book("MSFT").is_none());
}

#[test]
fn replay_reports_cut_short_stream() {
    let mut stream = frame(&[add(b'A', 1, b'B', 10, b"AAPL", 100)]);
    stream.extend([0, 9, 1, 2]);
    let mut bb = BookBuilder::new();
    assert_eq!(bb.replay(&stream), Err(ItchError::Io(IoErrorKind::UnexpectedEof)));
    assert_eq!(bb.symbol_stats("AAPL").unwrap().adds, 1);
}

#[test]
fn filter_confines_books_and_stats() {
    let stream = frame(&[
        add(b'A', 1, b'B', 10, b"AAPL", 100),
        add(b'F', 2, b'S', 10, b"MSFT", 100),
        trade(9, 500, b"MSFT"),
        trade(9, 300, b"AAPL"),
        cancel(2, 5),
    ]);
    let mut bb = BookBuilder::for_symbol("AAPL");
    assert_eq!(bb.replay(&stream), Ok(5));
    assert!(bb.symbol_stats("MSFT").is_none());
    let st = bb.symbol_stats("AAPL").unwrap();
    assert_eq!((st.adds, st.trades, st.volume), (1, 1, 300));
    assert_eq!(bb.books().len(), 1);
    assert_eq!(bb.stats().len(), 1);
}

#[test]
fn cancels_route_by_order_id() {
    let stream = frame(&[
        add(b'A', 1, b'B', 10, b"AAPL", 100),
        cancel(1, 4),
        cancel(1, 6),
        cancel(77, 1),
        executed_price(1, 1, b'Y'),
    ]);
    let mut bb = BookBuilder::new();
    assert_eq!(bb.replay(&stream), Ok(5));
    let book = bb.book("AAPL").unwrap();
    assert_eq!(book.order(1), None);
    assert_eq!(book.depth(), (0, 0));
    let st = bb.symbol_stats("AAPL").unwrap();
    // the execution arrives after the order is gone, so it is not routed
    assert_eq!((st.cancels, st.executes, st.volume), (2, 0, 0));
}

#[test]
fn mpid_adds_and_trades_are_counted() {
    let stream = frame(&[add(b'F', 1, b'S', 10, b"MSFT", 100), trade(5, 25, b"MSFT")]);
    let mut bb = BookBuilder::new();
    bb.replay(&stream).unwrap();
    let st = bb.symbol_stats("MSFT").unwrap();
    assert_eq!(*st, SymbolStats { adds: 1, trades: 1, volume: 25, ..SymbolStats::default() });
    assert_eq!(bb.book("MSFT").unwrap().best_ask().unwrap().1 .0, 10);
}

#[test]
fn ranking_by_volume() {
    let st = |v: u64| SymbolStats { volume: v, ..SymbolStats::default() };
    let stats = vec![
        ("A".to_string(), st(5)),
        ("B".to_string(), st(9)),
        ("C".to_string(), st(5)),
        ("D".to_string(), st(0)),
    ];
    assert_eq!(rank_by_volume(&stats, 10), vec![1, 0, 2, 3]);
    assert_eq!(rank_by_volume(&stats, 2), vec![1, 0]);
    assert_eq!(rank_by_volume(&stats, 0), Vec::<usize>::new());
    assert_eq!(rank_by_volume(&[], 3), Vec::<usize>::new());
}

fn body(tag: u8, fields: &[&[u8]]) -> Vec<u8> {
    let mut b = Vec::new();
    header(&mut b, tag, 0x0A0B);
    for f in fields {
        b.extend(*f);
    }
    b
}

#[test]
fn directory_and_status_messages() {
    let r = body(
        b'R',
        &[b"ZVZZT   ", b"Q", b"N", &100u32.to_be_bytes(), b"N", b"C", b"Z ", b"P", b"N", b" ", b"1", b"Y"],
    );
    assert_eq!(r.len(), 34);
    match parse(&r).unwrap() {
        Message::StockDirectory { ns, stock, market_category, financial_status, round_lot_size, etp_flag } => {
            assert_eq!(ns, 0x0A0B);
            assert_eq!(stock, "ZVZZT");
            assert_eq!((market_category, financial_status, round_lot_size, etp_flag), ('Q', 'N', 100, 'Y'));
        }
        other => panic!("wrong variant: {other:?}"),
    }
    match parse(&body(b'H', &[b"AAPL    ", b"T"])).unwrap() {
        Message::TradingAction { stock, state, .. } => assert_eq!((stock.as_str(), state), ("AAPL", 'T')),
        other => panic!("wrong variant: {other:?}"),
    }
    match parse(&body(b'Y', &[b"AAPL    ", b"1"])).unwrap() {
        Message::RegSho { stock, action, .. } => assert_eq!((stock.as_str(), action), ("AAPL", '1')),
        other => panic!("wrong variant: {other:?}"),
    }
    match parse(&body(b'L', &[b"GSCO", b"AAPL    ", b"Y", b"N", b"A"])).unwrap() {
        Message::ParticipantPosition { mpid, stock, state, .. } => {
            assert_eq!((mpid.as_str(), stock.as_str(), state), ("GSCO", "AAPL", 'A'))
        }
        other => panic!("wrong variant: {other:?}"),
    }
}

#[test]
fn cross_broken_and_replace_messages() {
    let q = body(b'Q', &[&1_000_000u64.to_be_bytes(), b"MSFT    ", &3_000_000u32.to_be_bytes(), b"O"]);
    match parse(&q).unwrap() {
        Message::CrossTrade { shares, stock, price, cross_type, .. } => {
            assert_eq!((shares, stock.as_str(), price, cross_type), (1_000_000, "MSFT", 3_000_000, 'O'))
        }
        other => panic!("wrong variant: {other:?}"),
    }
    match parse(&body(b'B', &[&0xDEAD_BEEFu64.to_be_bytes()])).unwrap() {
        Message::BrokenTrade { match_id, .. } => assert_eq!(match_id, 0xDEAD_BEEF),
        other => panic!("wrong variant: {other:?}"),
    }
    let u = body(b'U', &[&5u64.to_be_bytes(), &6u64.to_be_bytes(), &7u32.to_be_bytes(), &8u32.to_be_bytes()]);
    match parse(&u).unwrap() {
        Message::OrderReplace { old_order_id, new_order_id, shares, price, .. } => {
            assert_eq!((old_order_id, new_order_id, shares, price), (5, 6, 7, 8))
        }
        other => panic!("wrong variant: {other:?}"),
    }
    match parse(&body(b'X', &[&5u64.to_be_bytes(), &u32::MAX.to_be_bytes()])).unwrap() {
        Message::OrderCancel { order_id, shares, .. } => assert_eq!((order_id, shares), (5, u32::MAX)),
        other => panic!("wrong variant: {other:?}"),
    }
}

fn delete(id: u64) -> Vec<u8> {
    let mut b = Vec::new();
    header(&mut b, b'D', 12);
    b.extend(id.to_be_bytes());
    b
}

fn replace(old_id: u64, new_id: u64, shares: u32, price: u32) -> Vec<u8> {
    let mut b = Vec::new();
    header(&mut b, b'U', 13);
    b.extend(old_id.to_be_bytes());
    b.extend(new_id.to_be_bytes());
    b.extend(shares.to_be_bytes());
    b.extend(price.to_be_bytes());
    b
}

#[test]
fn levels_follow_the_orders_resting_at_them() {
    let mut bb = BookBuilder::new();
    let stream = frame(&[
        add(b'A', 1, b'B', 50, b"AAPL", 100),
        add(b'A', 2, b'B', 30, b"AAPL", 100),
        executed_price(1, 20, b'Y'),
    ]);
    assert_eq!(bb.replay(&stream), Ok(3));
    assert_eq!(bb.book("AAPL").unwrap().bid_levels(), vec![(Price(100), Quantity(60))]);
    // deleting order 2 takes its 30 out of the level; a second delete does nothing
    assert_eq!(bb.replay(&frame(&[delete(2), delete(2)])), Ok(2));
    assert_eq!(bb.book("AAPL").unwrap().bid_levels(), vec![(Price(100), Quantity(30))]);
    assert_eq!(bb.symbol_stats("AAPL").unwrap().deletes, 1);
    // replacing order 1 moves its remaining 30 to the new price as 40
    assert_eq!(bb.replay(&frame(&[replace(1, 3, 40, 105)])), Ok(1));
    let book = bb.book("AAPL").unwrap();
    assert_eq!(book.bid_levels(), vec![(Price(105), Quantity(40))]);
    assert_eq!(book.order(1), None);
    assert_eq!(book.order(3), Some(RestingOrder { side: Side::Bid, price: Price(105), qty: 40 }));
    assert_eq!(bb.symbol_stats("AAPL").unwrap().replaces, 1);
    let st = bb.symbol_stats("AAPL").unwrap();
    assert_eq!((st.adds, st.executes, st.volume), (2, 1, 20));
}

#[test]
fn every_book_has_statistics() {
    let mut bb = BookBuilder::new();
    let stream = frame(&[add(b'A', 1, b'B', 50, b"AAPL", 100), add(b'F', 2, b'S', 5, b"MSFT", 7)]);
    assert_eq!(bb.replay(&stream), Ok(2));
    for (symbol, _) in bb.books() {
        assert!(bb.symbol_stats(symbol).unwrap().adds >= 1);
    }
}

#[test]
fn trailing_bytes_after_layout_are_ignored() {
    let raw = cancel(4, 9);
    let mut longer = raw.clone();
    longer.extend([1, 2, 3, 4, 5]);
    assert_eq!(format!("{:?}", parse(&raw)), format!("{:?}", parse(&longer)));
    let mut unknown = vec![b'Z'];
    unknown.extend([9, 9, 9]);
    assert!(matches!(parse(&unknown), Ok(Message::Unsupported { tag: 'Z' })));
}

#[test]
fn zero_length_then_garbage_reads_as_end_of_input() {
    let bodies = [system_event(b'O'), cancel(1, 2)];
    let mut stream = frame(&bodies);
    stream.extend([0, 0, 0xFF]);
    let out = Reader::new(&stream).collect();
    assert_eq!(out.len(), 2);
    assert!(out.iter().all(|m| m.is_ok()));
}

#[test]
fn timestamps_fit_in_48_bits_and_symbols_are_trimmed() {
    let raw = add(b'A', 1, b'B', 5, b"AB", 6);
    match parse(&raw).unwrap() {
        Message::AddOrder { ns, stock, .. } => {
            assert_eq!(ns, 7);
            assert!(ns < 1 << 48);
            assert_eq!(stock, "AB");
        }
        other => panic!("wrong variant: {other:?}"),
    }
}

#[test]
fn invalid_utf8_symbols_still_fit_their_field() {
    let mut raw = add(b'A', 1, b'B', 5, b"X", 6);
    for b in &mut raw[24..32] {
        *b = 0xFF;
    }
    match parse(&raw).unwrap() {
        Message::AddOrder { stock, .. } => {
            assert_eq!(stock.chars().count(), 8);
            assert!(stock.chars().all(|c| c == '\u{FFFD}'));
        }
        other => panic!("wrong variant: {other:?}"),
    }
}

#[test]
fn locate_and_tracking_bytes_do_not_matter() {
    let raw = add(b'A', 3, b'S', 9, b"MSFT", 77);
    let mut other = raw.clone();
    other[1..5].copy_from_slice(&[9, 8, 7, 6]);
    assert_eq!(format!("{:?}", parse(&raw)), format!("{:?}", parse(&other)));
}
