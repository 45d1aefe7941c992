use nasdaq::itch::{parse, BookBuilder, ItchError, ItchSide, Message, Reader};
use nasdaq::orderbook::analytics;
use nasdaq::orderbook::Price;

// --- test message encoders (spec layouts) ---

fn header(buf: &mut Vec<u8>, tag: u8, ns: u64) {
    buf.push(tag);
    buf.extend([0, 1]); // stock locate
    buf.extend([0, 0]); // tracking
    buf.extend(&ns.to_be_bytes()[2..]); // 48-bit timestamp
}

fn stock8(s: &str) -> [u8; 8] {
    let mut b = [b' '; 8];
    b[..s.len()].copy_from_slice(s.as_bytes());
    b
}

fn add_order(id: u64, side: u8, shares: u32, stock: &str, price: u32) -> Vec<u8> {
    let mut b = Vec::new();
    header(&mut b, b'A', 1_000);
    b.extend(id.to_be_bytes());
    b.push(side);
    b.extend(shares.to_be_bytes());
    b.extend(stock8(stock));
    b.extend(price.to_be_bytes());
    b
}

fn executed(id: u64, shares: u32) -> Vec<u8> {
    let mut b = Vec::new();
    header(&mut b, b'E', 2_000);
    b.extend(id.to_be_bytes());
    b.extend(shares.to_be_bytes());
    b.extend(77u64.to_be_bytes());
    b
}

fn delete(id: u64) -> Vec<u8> {
    let mut b = Vec::new();
    header(&mut b, b'D', 3_000);
    b.extend(id.to_be_bytes());
    b
}

fn replace(old: u64, new: u64, shares: u32, price: u32) -> Vec<u8> {
    let mut b = Vec::new();
    header(&mut b, b'U', 4_000);
    b.extend(old.to_be_bytes());
    b.extend(new.to_be_bytes());
    b.extend(shares.to_be_bytes());
    b.extend(price.to_be_bytes());
    b
}

fn frame(msgs: &[Vec<u8>]) -> Vec<u8> {
    let mut out = Vec::new();
    for m in msgs {
        out.extend((m.len() as u16).to_be_bytes());
        out.extend(m);
    }
    out
}

#[test]
fn parse_add_order() {
    let raw = add_order(42, b'B', 100, "AAPL", 1_750_000);
    let msg = parse(&raw).unwrap();
    match msg {
        Message::AddOrder { order_id, side, shares, stock, price, ns } => {
            assert_eq!(order_id, 42);
            assert_eq!(side, ItchSide::Buy);
            assert_eq!(shares, 100);
            assert_eq!(stock, "AAPL");
            assert_eq!(price, 1_750_000);
            assert_eq!(ns, 1_000);
        }
        other => panic!("wrong variant: {other:?}"),
    }
}

#[test]
fn truncated_is_error_not_panic() {
    let raw = add_order(42, b'B', 100, "AAPL", 1_750_000);
    let err = parse(&raw[..12]).unwrap_err();
    assert!(matches!(err, ItchError::Truncated { tag: 'A', .. }));
}

#[test]
fn unknown_tag_is_unsupported() {
    let msg = parse(&[b'z', 0, 0]).unwrap();
    assert!(matches!(msg, Message::Unsupported { tag: 'z' }));
}

#[test]
fn framed_replay_builds_book() {
    // AAPL: bid 100@175.00, ask 50@175.10; MSFT: bid 10@300.00
    // ITCH prices are 1/10000 USD.
    let stream = frame(&[
        add_order(1, b'B', 100, "AAPL", 1_750_000),
        add_order(2, b'S', 50, "AAPL", 1_751_000),
        add_order(3, b'B', 10, "MSFT", 3_000_000),
        executed(1, 40),              // AAPL bid partially executed
        delete(3),                    // MSFT bid gone
        replace(2, 4, 60, 1_750_500), // ask replaced tighter
    ]);

    let mut bb = BookBuilder::new();
    let n = bb.replay(stream.as_slice()).unwrap();
    assert_eq!(n, 6);

    let aapl = bb.book("AAPL").unwrap();
    let tob = analytics::top_of_book(aapl);
    assert_eq!(tob.bid.unwrap().qty, 60); // 100 - 40
    assert_eq!(tob.ask.unwrap().price, Price(1_750_500));
    assert_eq!(tob.ask.unwrap().qty, 60);
    assert_eq!(aapl.traded_volume(), 40);

    // MSFT book exists but is empty after delete
    let msft = bb.book("MSFT").unwrap();
    assert_eq!(msft.depth(), (0, 0));

    let st = bb.symbol_stats("AAPL").unwrap();
    assert_eq!(st.adds, 2);
    assert_eq!(st.executes, 1);
    assert_eq!(st.replaces, 1);
    assert_eq!(st.volume, 40);
}

#[test]
fn symbol_filter_skips_others() {
    let stream = frame(&[
        add_order(1, b'B', 100, "AAPL", 1_750_000),
        add_order(2, b'B', 10, "MSFT", 3_000_000),
    ]);
    let mut bb = BookBuilder::for_symbol("AAPL");
    bb.replay(stream.as_slice()).unwrap();
    assert!(bb.book("AAPL").is_some());
    assert!(bb.book("MSFT").is_none());
}

#[test]
fn reader_handles_clean_eof() {
    let stream = frame(&[add_order(1, b'B', 1, "X", 100)]);
    let msgs: Vec<_> = Reader::new(stream.as_slice()).collect();
    assert_eq!(msgs.len(), 1);
    assert!(msgs[0].is_ok());
}
