//! Nasdaq TotalView-ITCH 5.0 message parser and book builder.
//!
//! Parses the binary ITCH 5.0 protocol (big-endian, fixed-layout messages).
//! Supports the standard length-prefixed file framing (2-byte big-endian
//! length before each message) used by daily sample files, so full sessions
//! can be replayed into [`BookBuilder`].
//!
//! Implemented messages: S, R, H, Y, L, A, F, E, C, X, D, U, P, Q, B.
//! Unknown types are surfaced as [`Message::Unsupported`] with their tag so
//! replay never desyncs (framing carries the length).

use crate::keyed::Keyed;
use crate::orderbook::{levels_hold_orders, level_qty, min_qty, BookView, Orderbook, Price, RestingOrder, Side};
use crate::text::{decode_utf8_lossy, lossy_text, trim_end, trim_end_string};
use std::collections::HashMap;
use vstd::prelude::*;

verus! {

/// What went wrong while reading a length-framed stream.
#[derive(Debug, Clone, Copy, PartialEq, Eq, Structural)]
pub enum IoErrorKind {
    /// The stream ended inside a message.
    UnexpectedEof,
    /// Any other failure of the underlying reader.
    Other,
}

#[derive(Debug, Clone, Copy, PartialEq, Eq, Structural)]
pub enum ItchError {
    /// The message body is shorter than its layout: reading the first field
    /// that does not fit would have needed `wanted` bytes after the tag,
    /// where the body has `have`.
    Truncated { tag: char, wanted: usize, have: usize },
    /// The message body is empty: it has no tag byte.
    Empty,
    /// The underlying stream failed.
    Io(IoErrorKind),
}

/// Nanoseconds since midnight (ITCH timestamps are 48-bit).
pub type Ns = u64;

/// Buy/Sell indicator from ITCH ('B'/'S').
#[derive(Debug, Clone, Copy, PartialEq, Eq, Structural)]
pub enum ItchSide {
    Buy,
    Sell,
}

impl ItchSide {
    pub fn to_book_side(self) -> (s: Side)
        ensures
            s == (match self {
                ItchSide::Buy => Side::Bid,
                ItchSide::Sell => Side::Ask,
            }),
    {
        match self {
            ItchSide::Buy => Side::Bid,
            ItchSide::Sell => Side::Ask,
        }
    }
}

/// A parsed ITCH 5.0 message (fields per the Nasdaq spec).
#[derive(Debug, Clone)]
pub enum Message {
    /// 'S': System Event.
    SystemEvent { ns: Ns, event: char },
    /// 'R': Stock Directory.
    StockDirectory {
        ns: Ns,
        stock: String,
        market_category: char,
        financial_status: char,
        round_lot_size: u32,
        etp_flag: char,
    },
    /// 'H': Stock Trading Action.
    TradingAction { ns: Ns, stock: String, state: char },
    /// 'Y': Reg SHO Restriction.
    RegSho { ns: Ns, stock: String, action: char },
    /// 'L': Market Participant Position.
    ParticipantPosition { ns: Ns, mpid: String, stock: String, state: char },
    /// 'A': Add Order (no MPID).
    AddOrder { ns: Ns, order_id: u64, side: ItchSide, shares: u32, stock: String, price: u32 },
    /// 'F': Add Order with MPID attribution.
    AddOrderMpid {
        ns: Ns,
        order_id: u64,
        side: ItchSide,
        shares: u32,
        stock: String,
        price: u32,
        mpid: String,
    },
    /// 'E': Order Executed.
    OrderExecuted { ns: Ns, order_id: u64, shares: u32, match_id: u64 },
    /// 'C': Order Executed With Price.
    OrderExecutedPrice {
        ns: Ns,
        order_id: u64,
        shares: u32,
        match_id: u64,
        printable: bool,
        price: u32,
    },
    /// 'X': Order Cancel (partial).
    OrderCancel { ns: Ns, order_id: u64, shares: u32 },
    /// 'D': Order Delete.
    OrderDelete { ns: Ns, order_id: u64 },
    /// 'U': Order Replace.
    OrderReplace { ns: Ns, old_order_id: u64, new_order_id: u64, shares: u32, price: u32 },
    /// 'P': Trade (non-cross, hidden liquidity).
    Trade {
        ns: Ns,
        order_id: u64,
        side: ItchSide,
        shares: u32,
        stock: String,
        price: u32,
        match_id: u64,
    },
    /// 'Q': Cross Trade.
    CrossTrade { ns: Ns, shares: u64, stock: String, price: u32, cross_type: char },
    /// 'B': Broken Trade.
    BrokenTrade { ns: Ns, match_id: u64 },
    /// Any message type we don't decode; length-framed replay skips it safely.
    Unsupported { tag: char },
}

/// The stock symbol that a message carries, if its type has one.
pub open spec fn message_stock(m: Message) -> Option<Seq<char>> {
    match m {
        Message::StockDirectory { stock, .. } => Some(stock@),
        Message::TradingAction { stock, .. } => Some(stock@),
        Message::RegSho { stock, .. } => Some(stock@),
        Message::ParticipantPosition { stock, .. } => Some(stock@),
        Message::AddOrder { stock, .. } => Some(stock@),
        Message::AddOrderMpid { stock, .. } => Some(stock@),
        Message::Trade { stock, .. } => Some(stock@),
        Message::CrossTrade { stock, .. } => Some(stock@),
        _ => None,
    }
}

impl Message {
    /// Stock symbol this message concerns, if any.
    pub fn stock(&self) -> (r: Option<&str>)
        ensures
            match message_stock(*self) {
                Some(s) => r matches Some(t) && t@ == s,
                None => r is None,
            },
    {
        match self {
            Message::StockDirectory { stock, .. } => Some(stock.as_str()),
            Message::TradingAction { stock, .. } => Some(stock.as_str()),
            Message::RegSho { stock, .. } => Some(stock.as_str()),
            Message::ParticipantPosition { stock, .. } => Some(stock.as_str()),
            Message::AddOrder { stock, .. } => Some(stock.as_str()),
            Message::AddOrderMpid { stock, .. } => Some(stock.as_str()),
            Message::Trade { stock, .. } => Some(stock.as_str()),
            Message::CrossTrade { stock, .. } => Some(stock.as_str()),
            _ => None,
        }
    }
}

// --- the wire format -----------------------------------------------------

/// Unsigned big-endian value of a byte sequence.
pub open spec fn be(s: Seq<u8>) -> nat
    decreases s.len(),
{
    if s.len() == 0 {
        0
    } else {
        be(s.drop_last()) * 256 + s.last() as nat
    }
}

pub open spec fn pow256(n: nat) -> nat
    decreases n,
{
    if n == 0 {
        1
    } else {
        256 * pow256((n - 1) as nat)
    }
}

proof fn lemma_be_bound(s: Seq<u8>)
    ensures
        be(s) < pow256(s.len()),
    decreases s.len(),
{
    if s.len() > 0 {
        lemma_be_bound(s.drop_last());
    }
}

/// Big-endian number in `n` payload bytes from offset `off`.
pub open spec fn num(p: Seq<u8>, off: int, n: int) -> nat {
    be(p.subrange(off, off + n))
}

/// A one-byte code field, read as the character with that code.
pub open spec fn chr(p: Seq<u8>, off: int) -> char {
    p[off] as char
}

/// An alphanumeric field: the bytes decoded as UTF-8 (invalid sequences
/// replaced), trailing whitespace removed.
pub open spec fn alpha_text(bytes: Seq<u8>) -> Seq<char> {
    trim_end(lossy_text(bytes))
}

/// The text fields of `m` fit their fields: a stock symbol has at most 8
/// characters, an MPID at most 4.
pub open spec fn text_fields_fit(m: Message) -> bool {
    &&& message_stock(m) matches Some(st) ==> st.len() <= 8
    &&& m matches Message::ParticipantPosition { mpid, .. } ==> mpid@.len() <= 4
    &&& m matches Message::AddOrderMpid { mpid, .. } ==> mpid@.len() <= 4
}

pub open spec fn text(p: Seq<u8>, off: int, n: int) -> Seq<char> {
    alpha_text(p.subrange(off, off + n))
}

/// The side code: 'B' buys, anything else sells.
pub open spec fn side_of(b: u8) -> ItchSide {
    if b == 66 {
        ItchSide::Buy
    } else {
        ItchSide::Sell
    }
}

/// Field sizes after the tag byte, in order, of each implemented message
/// type. Every message starts with stock locate (2), tracking number (2) and
/// a 48-bit timestamp (6).
pub open spec fn field_sizes(tag: char) -> Option<Seq<nat>> {
    if tag == 'S' {
        Some(seq![2, 2, 6, 1])
    } else if tag == 'R' {
        Some(seq![2, 2, 6, 8, 1, 1, 4, 1, 1, 2, 1, 1, 1, 1, 1])
    } else if tag == 'H' || tag == 'Y' {
        Some(seq![2, 2, 6, 8, 1])
    } else if tag == 'L' {
        Some(seq![2, 2, 6, 4, 8, 1, 1, 1])
    } else if tag == 'A' {
        Some(seq![2, 2, 6, 8, 1, 4, 8, 4])
    } else if tag == 'F' {
        Some(seq![2, 2, 6, 8, 1, 4, 8, 4, 4])
    } else if tag == 'E' {
        Some(seq![2, 2, 6, 8, 4, 8])
    } else if tag == 'C' {
        Some(seq![2, 2, 6, 8, 4, 8, 1, 4])
    } else if tag == 'X' {
        Some(seq![2, 2, 6, 8, 4])
    } else if tag == 'D' || tag == 'B' {
        Some(seq![2, 2, 6, 8])
    } else if tag == 'U' {
        Some(seq![2, 2, 6, 8, 8, 4, 4])
    } else if tag == 'P' {
        Some(seq![2, 2, 6, 8, 1, 4, 8, 4, 8])
    } else if tag == 'Q' {
        Some(seq![2, 2, 6, 8, 8, 4, 1])
    } else {
        None
    }
}

/// Reading fields of the given sizes in order from `pos`, with `have` bytes
/// available: the end offset of the first field that does not fit, or the
/// end of the last field when they all fit.
pub open spec fn overrun(sizes: Seq<nat>, pos: nat, have: nat) -> nat
    decreases sizes.len(),
{
    if sizes.len() == 0 {
        pos
    } else if pos + sizes[0] > have {
        pos + sizes[0]
    } else {
        overrun(sizes.drop_first(), pos + sizes[0], have)
    }
}

/// The fields of `m` are those that payload `p` (the body after the tag)
/// encodes for message type `tag`.
pub open spec fn decoded(tag: char, p: Seq<u8>, m: Message) -> bool {
    if tag == 'S' {
        m matches Message::SystemEvent { ns, event } && ns == num(p, 4, 6) && event == chr(p, 10)
    } else if tag == 'R' {
        &&& m matches Message::StockDirectory {
            ns,
            stock,
            market_category,
            financial_status,
            round_lot_size,
            etp_flag,
        }
        &&& ns == num(p, 4, 6)
        &&& stock@ == text(p, 10, 8)
        &&& market_category == chr(p, 18)
        &&& financial_status == chr(p, 19)
        &&& round_lot_size == num(p, 20, 4)
        &&& etp_flag == chr(p, 32)
    } else if tag == 'H' {
        &&& m matches Message::TradingAction { ns, stock, state }
        &&& ns == num(p, 4, 6)
        &&& stock@ == text(p, 10, 8)
        &&& state == chr(p, 18)
    } else if tag == 'Y' {
        &&& m matches Message::RegSho { ns, stock, action }
        &&& ns == num(p, 4, 6)
        &&& stock@ == text(p, 10, 8)
        &&& action == chr(p, 18)
    } else if tag == 'L' {
        &&& m matches Message::ParticipantPosition { ns, mpid, stock, state }
        &&& ns == num(p, 4, 6)
        &&& mpid@ == text(p, 10, 4)
        &&& stock@ == text(p, 14, 8)
        &&& state == chr(p, 24)
    } else if tag == 'A' {
        &&& m matches Message::AddOrder { ns, order_id, side, shares, stock, price }
        &&& ns == num(p, 4, 6)
        &&& order_id == num(p, 10, 8)
        &&& side == side_of(p[18])
        &&& shares == num(p, 19, 4)
        &&& stock@ == text(p, 23, 8)
        &&& price == num(p, 31, 4)
    } else if tag == 'F' {
        &&& m matches Message::AddOrderMpid { ns, order_id, side, shares, stock, price, mpid }
        &&& ns == num(p, 4, 6)
        &&& order_id == num(p, 10, 8)
        &&& side == side_of(p[18])
        &&& shares == num(p, 19, 4)
        &&& stock@ == text(p, 23, 8)
        &&& price == num(p, 31, 4)
        &&& mpid@ == text(p, 35, 4)
    } else if tag == 'E' {
        &&& m matches Message::OrderExecuted { ns, order_id, shares, match_id }
        &&& ns == num(p, 4, 6)
        &&& order_id == num(p, 10, 8)
        &&& shares == num(p, 18, 4)
        &&& match_id == num(p, 22, 8)
    } else if tag == 'C' {
        &&& m matches Message::OrderExecutedPrice {
            ns,
            order_id,
            shares,
            match_id,
            printable,
            price,
        }
        &&& ns == num(p, 4, 6)
        &&& order_id == num(p, 10, 8)
        &&& shares == num(p, 18, 4)
        &&& match_id == num(p, 22, 8)
        &&& printable == (chr(p, 30) == 'Y')
        &&& price == num(p, 31, 4)
    } else if tag == 'X' {
        &&& m matches Message::OrderCancel { ns, order_id, shares }
        &&& ns == num(p, 4, 6)
        &&& order_id == num(p, 10, 8)
        &&& shares == num(p, 18, 4)
    } else if tag == 'D' {
        &&& m matches Message::OrderDelete { ns, order_id }
        &&& ns == num(p, 4, 6)
        &&& order_id == num(p, 10, 8)
    } else if tag == 'U' {
        &&& m matches Message::OrderReplace { ns, old_order_id, new_order_id, shares, price }
        &&& ns == num(p, 4, 6)
        &&& old_order_id == num(p, 10, 8)
        &&& new_order_id == num(p, 18, 8)
        &&& shares == num(p, 26, 4)
        &&& price == num(p, 30, 4)
    } else if tag == 'P' {
        &&& m matches Message::Trade { ns, order_id, side, shares, stock, price, match_id }
        &&& ns == num(p, 4, 6)
        &&& order_id == num(p, 10, 8)
        &&& side == side_of(p[18])
        &&& shares == num(p, 19, 4)
        &&& stock@ == text(p, 23, 8)
        &&& price == num(p, 31, 4)
        &&& match_id == num(p, 35, 8)
    } else if tag == 'Q' {
        &&& m matches Message::CrossTrade { ns, shares, stock, price, cross_type }
        &&& ns == num(p, 4, 6)
        &&& shares == num(p, 10, 8)
        &&& stock@ == text(p, 18, 8)
        &&& price == num(p, 26, 4)
        &&& cross_type == chr(p, 30)
    } else if tag == 'B' {
        &&& m matches Message::BrokenTrade { ns, match_id }
        &&& ns == num(p, 4, 6)
        &&& match_id == num(p, 10, 8)
    } else {
        false
    }
}

/// What parsing the message body `body` (tag byte first) gives: an empty
/// body is `Empty`; an unknown tag is `Unsupported`; a body shorter than its
/// layout is `Truncated` at the first field that does not fit; otherwise the
/// decoded message.
pub open spec fn parses_to(body: Seq<u8>, r: Result<Message, ItchError>) -> bool {
    let tag = body[0] as char;
    let p = body.subrange(1, body.len() as int);
    if body.len() == 0 {
        r == Err::<Message, ItchError>(ItchError::Empty)
    } else {
        match field_sizes(tag) {
        None => r == Ok::<Message, ItchError>(Message::Unsupported { tag }),
        Some(sizes) => if overrun(sizes, 0, p.len()) > p.len() {
            r == Err::<Message, ItchError>(
                ItchError::Truncated {
                    tag,
                    wanted: overrun(sizes, 0, p.len()) as usize,
                    have: p.len() as usize,
                },
            )
        } else {
            r matches Ok(m) && decoded(tag, p, m)
        },
        }
    }
}

// --- field readers -------------------------------------------------------

/// Big-endian value of up to eight bytes.
fn be_value(bytes: &[u8]) -> (v: u64)
    requires
        bytes@.len() <= 8,
    ensures
        v == be(bytes@),
{
    let mut acc: u64 = 0;
    let mut i: usize = 0;
    while i < bytes.len()
        invariant
            i <= bytes@.len() <= 8,
            acc == be(bytes@.take(i as int)),
        decreases bytes@.len() - i,
    {
        proof {
            lemma_be_bound(bytes@.take(i as int));
            assert(bytes@.take(i + 1).drop_last() =~= bytes@.take(i as int));
            assert(pow256(i as nat) <= pow256(7)) by {
                lemma_pow256_mono(i as nat, 7);
            }
            reveal_with_fuel(pow256, 8);
            assert(pow256(7) == 0x100_0000_0000_0000);
        }
        acc = acc * 256 + bytes[i] as u64;
        i = i + 1;
    }
    assert(bytes@.take(bytes@.len() as int) =~= bytes@);
    acc
}

proof fn lemma_pow256_mono(a: nat, b: nat)
    requires
        a <= b,
    ensures
        pow256(a) <= pow256(b),
    decreases b,
{
    if a < b {
        lemma_pow256_mono(a, (b - 1) as nat);
    }
}

struct Cur<'a> {
    buf: &'a [u8],
    pos: usize,
    tag: char,
    /// Sizes of the fields still to be read.
    plan: Ghost<Seq<nat>>,
}

impl<'a> Cur<'a> {
    /// A field of `n` bytes fits after the cursor.
    spec fn fits(self, n: nat) -> bool {
        self.pos + n <= self.buf@.len()
    }

    /// The `n` bytes after the cursor.
    spec fn field(self, n: nat) -> Seq<u8> {
        self.buf@.subrange(self.pos as int, self.pos + n)
    }

    /// The error for a field of `n` bytes that does not fit.
    spec fn short(self, n: nat) -> ItchError {
        ItchError::Truncated {
            tag: self.tag,
            wanted: (self.pos + n) as usize,
            have: self.buf@.len() as usize,
        }
    }

    /// `after` is this cursor once a field of `n` bytes was asked for: past
    /// the field where it fits, unmoved where it does not. The layout still
    /// to be read loses its first size with the field; where that size is
    /// `n`, the first field of the layout that does not fit stays the same.
    spec fn moved(self, after: Self, n: nat) -> bool {
        &&& after.buf == self.buf
        &&& after.tag == self.tag
        &&& self.fits(n) ==> after.pos == self.pos + n && after.plan@ == self.plan@.drop_first()
        &&& !self.fits(n) ==> after.pos == self.pos && after.plan == self.plan
        &&& self.plan@.len() > 0 && self.plan@[0] == n && self.fits(n) ==> overrun(
            after.plan@,
            after.pos as nat,
            self.buf@.len(),
        ) == overrun(self.plan@, self.pos as nat, self.buf@.len())
        &&& self.plan@.len() > 0 && self.plan@[0] == n && !self.fits(n) ==> overrun(
            self.plan@,
            self.pos as nat,
            self.buf@.len(),
        ) == self.pos + n
    }

    fn new(tag: char, buf: &'a [u8], plan: Ghost<Seq<nat>>) -> (c: Self)
        ensures
            c.buf == buf,
            c.pos == 0,
            c.tag == tag,
            c.plan == plan,
    {
        Cur { buf, pos: 0, tag, plan }
    }

    fn take(&mut self, n: usize) -> (r: Result<&'a [u8], ItchError>)
        requires
            old(self).pos <= old(self).buf@.len(),
            old(self).pos + n <= usize::MAX,
        ensures
            final(self).buf == old(self).buf,
            final(self).tag == old(self).tag,
            old(self).pos + n <= old(self).buf@.len() ==> {
                &&& r matches Ok(s) && s@ == old(self).buf@.subrange(
                    old(self).pos as int,
                    old(self).pos + n,
                )
                &&& final(self).pos == old(self).pos + n
            },
            old(self).pos + n > old(self).buf@.len() ==> {
                &&& r matches Err(e) && e == ItchError::Truncated {
                    tag: old(self).tag,
                    wanted: (old(self).pos + n) as usize,
                    have: old(self).buf@.len() as usize,
                }
                &&& final(self).pos == old(self).pos
            },
            old(self).moved(*final(self), n as nat),
    {
        if self.pos + n > self.buf.len() {
            return Err(
                ItchError::Truncated { tag: self.tag, wanted: self.pos + n, have: self.buf.len() },
            );
        }
        let s = &self.buf[self.pos..self.pos + n];
        self.pos = self.pos + n;
        self.plan = Ghost(self.plan@.drop_first());
        Ok(s)
    }

    fn u16(&mut self) -> (r: Result<u16, ItchError>)
        requires
            old(self).pos <= old(self).buf@.len(),
            old(self).pos + 2 <= usize::MAX,
        ensures
            old(self).moved(*final(self), 2),
            match r {
                Ok(v) => old(self).fits(2) && v == be(old(self).field(2)),
                Err(e) => !old(self).fits(2) && e == old(self).short(2),
            },
    {
        let b = self.take(2)?;
        let v = be_value(b);
        proof {
            lemma_be_bound(b@);
            reveal_with_fuel(pow256, 3);
            assert(pow256(2) == 65536);
        }
        Ok(v as u16)
    }

    fn u32(&mut self) -> (r: Result<u32, ItchError>)
        requires
            old(self).pos <= old(self).buf@.len(),
            old(self).pos + 4 <= usize::MAX,
        ensures
            old(self).moved(*final(self), 4),
            match r {
                Ok(v) => old(self).fits(4) && v == be(old(self).field(4)),
                Err(e) => !old(self).fits(4) && e == old(self).short(4),
            },
    {
        let b = self.take(4)?;
        let v = be_value(b);
        proof {
            lemma_be_bound(b@);
            reveal_with_fuel(pow256, 5);
            assert(pow256(4) == 0x1_0000_0000);
        }
        Ok(v as u32)
    }

    fn u64(&mut self) -> (r: Result<u64, ItchError>)
        requires
            old(self).pos <= old(self).buf@.len(),
            old(self).pos + 8 <= usize::MAX,
        ensures
            old(self).moved(*final(self), 8),
            match r {
                Ok(v) => old(self).fits(8) && v == be(old(self).field(8)),
                Err(e) => !old(self).fits(8) && e == old(self).short(8),
            },
    {
        let b = self.take(8)?;
        Ok(be_value(b))
    }

    /// 48-bit big-endian timestamp.
    fn ns48(&mut self) -> (r: Result<Ns, ItchError>)
        requires
            old(self).pos <= old(self).buf@.len(),
            old(self).pos + 6 <= usize::MAX,
        ensures
            old(self).moved(*final(self), 6),
            match r {
                Ok(v) => old(self).fits(6) && v == be(old(self).field(6)),
                Err(e) => !old(self).fits(6) && e == old(self).short(6),
            },
    {
        let b = self.take(6)?;
        Ok(be_value(b))
    }

    fn ch(&mut self) -> (r: Result<char, ItchError>)
        requires
            old(self).pos <= old(self).buf@.len(),
            old(self).pos + 1 <= usize::MAX,
        ensures
            old(self).moved(*final(self), 1),
            match r {
                Ok(v) => old(self).fits(1) && v == chr(old(self).buf@, old(self).pos as int),
                Err(e) => !old(self).fits(1) && e == old(self).short(1),
            },
    {
        let b = self.take(1)?;
        Ok(b[0] as char)
    }

    fn alpha(&mut self, n: usize) -> (r: Result<String, ItchError>)
        requires
            old(self).pos <= old(self).buf@.len(),
            old(self).pos + n <= usize::MAX,
        ensures
            old(self).moved(*final(self), n as nat),
            match r {
                Ok(v) => old(self).fits(n as nat) && v@ == alpha_text(old(self).field(n as nat))
                    && v@.len() <= n,
                Err(e) => !old(self).fits(n as nat) && e == old(self).short(n as nat),
            },
    {
        let b = self.take(n)?;
        let decoded = decode_utf8_lossy(b);
        proof {
            crate::text::lemma_trim_end(decoded@);
        }
        Ok(trim_end_string(decoded.as_str()))
    }

    fn side(&mut self) -> (r: Result<ItchSide, ItchError>)
        requires
            old(self).pos <= old(self).buf@.len(),
            old(self).pos + 1 <= usize::MAX,
        ensures
            old(self).moved(*final(self), 1),
            match r {
                Ok(v) => old(self).fits(1) && v == side_of(old(self).buf@[old(self).pos as int]),
                Err(e) => !old(self).fits(1) && e == old(self).short(1),
            },
    {
        let b = self.take(1)?;
        Ok(
            if b[0] == 66 {
                ItchSide::Buy
            } else {
                ItchSide::Sell
            },
        )
    }
}


/// Parse one ITCH message body (starting at the tag byte).
#[verifier::rlimit(100)]
#[verifier::spinoff_prover]
pub fn parse(body: &[u8]) -> (r: Result<Message, ItchError>)
    requires
        body@.len() <= isize::MAX,
    ensures
        parses_to(body@, r),
        r matches Ok(m) ==> text_fields_fit(m),
{
    if body.len() == 0 {
        return Err(ItchError::Empty);
    }
    let tag = body[0] as char;
    let ghost plan = match field_sizes(tag) {
        Some(sizes) => sizes,
        None => Seq::empty(),
    };
    // All messages start: tag(1) locate(2) tracking(2) timestamp(6)
    let mut c = Cur::new(tag, &body[1..body.len()], Ghost(plan));
    let msg = match tag {
        'S' => {
            let (_l, _t, ns) = (c.u16()?, c.u16()?, c.ns48()?);
            Message::SystemEvent { ns, event: c.ch()? }
        },
        'R' => {
            let (_l, _t, ns) = (c.u16()?, c.u16()?, c.ns48()?);
            let stock = c.alpha(8)?;
            let market_category = c.ch()?;
            let financial_status = c.ch()?;
            let round_lot_size = c.u32()?;
            let _round_lots_only = c.ch()?;
            let _issue_class = c.ch()?;
            let _issue_subtype = c.alpha(2)?;
            let _authenticity = c.ch()?;
            let _short_sale_thresh = c.ch()?;
            let _ipo_flag = c.ch()?;
            let _luld_tier = c.ch()?;
            let etp_flag = c.ch()?;
            Message::StockDirectory {
                ns,
                stock,
                market_category,
                financial_status,
                round_lot_size,
                etp_flag,
            }
        },
        'H' => {
            let (_l, _t, ns) = (c.u16()?, c.u16()?, c.ns48()?);
            let stock = c.alpha(8)?;
            let state = c.ch()?;
            Message::TradingAction { ns, stock, state }
        },
        'Y' => {
            let (_l, _t, ns) = (c.u16()?, c.u16()?, c.ns48()?);
            let stock = c.alpha(8)?;
            let action = c.ch()?;
            Message::RegSho { ns, stock, action }
        },
        'L' => {
            let (_l, _t, ns) = (c.u16()?, c.u16()?, c.ns48()?);
            let mpid = c.alpha(4)?;
            let stock = c.alpha(8)?;
            let _primary = c.ch()?;
            let _mode = c.ch()?;
            let state = c.ch()?;
            Message::ParticipantPosition { ns, mpid, stock, state }
        },
        'A' => {
            let (_l, _t, ns) = (c.u16()?, c.u16()?, c.ns48()?);
            Message::AddOrder {
                ns,
                order_id: c.u64()?,
                side: c.side()?,
                shares: c.u32()?,
                stock: c.alpha(8)?,
                price: c.u32()?,
            }
        },
        'F' => {
            let (_l, _t, ns) = (c.u16()?, c.u16()?, c.ns48()?);
            Message::AddOrderMpid {
                ns,
                order_id: c.u64()?,
                side: c.side()?,
                shares: c.u32()?,
                stock: c.alpha(8)?,
                price: c.u32()?,
                mpid: c.alpha(4)?,
            }
        },
        'E' => {
            let (_l, _t, ns) = (c.u16()?, c.u16()?, c.ns48()?);
            Message::OrderExecuted {
                ns,
                order_id: c.u64()?,
                shares: c.u32()?,
                match_id: c.u64()?,
            }
        },
        'C' => {
            let (_l, _t, ns) = (c.u16()?, c.u16()?, c.ns48()?);
            Message::OrderExecutedPrice {
                ns,
                order_id: c.u64()?,
                shares: c.u32()?,
                match_id: c.u64()?,
                printable: c.ch()? == 'Y',
                price: c.u32()?,
            }
        },
        'X' => {
            let (_l, _t, ns) = (c.u16()?, c.u16()?, c.ns48()?);
            Message::OrderCancel { ns, order_id: c.u64()?, shares: c.u32()? }
        },
        'D' => {
            let (_l, _t, ns) = (c.u16()?, c.u16()?, c.ns48()?);
            Message::OrderDelete { ns, order_id: c.u64()? }
        },
        'U' => {
            let (_l, _t, ns) = (c.u16()?, c.u16()?, c.ns48()?);
            Message::OrderReplace {
                ns,
                old_order_id: c.u64()?,
                new_order_id: c.u64()?,
                shares: c.u32()?,
                price: c.u32()?,
            }
        },
        'P' => {
            let (_l, _t, ns) = (c.u16()?, c.u16()?, c.ns48()?);
            Message::Trade {
                ns,
                order_id: c.u64()?,
                side: c.side()?,
                shares: c.u32()?,
                stock: c.alpha(8)?,
                price: c.u32()?,
                match_id: c.u64()?,
            }
        },
        'Q' => {
            let (_l, _t, ns) = (c.u16()?, c.u16()?, c.ns48()?);
            Message::CrossTrade {
                ns,
                shares: c.u64()?,
                stock: c.alpha(8)?,
                price: c.u32()?,
                cross_type: c.ch()?,
            }
        },
        'B' => {
            let (_l, _t, ns) = (c.u16()?, c.u16()?, c.ns48()?);
            Message::BrokenTrade { ns, match_id: c.u64()? }
        },
        other => Message::Unsupported { tag: other },
    };
    Ok(msg)
}


// --- framing ---------------------------------------------------------------

/// Length announced by the 2-byte big-endian prefix at the front of `rest`.
pub open spec fn frame_len(rest: Seq<u8>) -> int {
    be(rest.take(2)) as int
}

/// Whether `rest` starts with a complete frame: a non-zero length prefix and
/// at least that many bytes after it.
pub open spec fn has_frame(rest: Seq<u8>) -> bool {
    rest.len() >= 2 && frame_len(rest) > 0 && rest.len() - 2 >= frame_len(rest)
}

/// The message bodies of a length-framed stream, up to the end of input, a
/// zero length, or a frame cut short.
pub open spec fn frames(rest: Seq<u8>) -> Seq<Seq<u8>>
    decreases rest.len(),
{
    if has_frame(rest) {
        seq![rest.subrange(2, 2 + frame_len(rest))] + frames(rest.skip(2 + frame_len(rest)))
    } else {
        Seq::empty()
    }
}

/// Whether the frames of `rest` end in a frame whose body is cut short.
pub open spec fn cut_short(rest: Seq<u8>) -> bool
    decreases rest.len(),
{
    if has_frame(rest) {
        cut_short(rest.skip(2 + frame_len(rest)))
    } else {
        rest.len() >= 2 && frame_len(rest) > 0
    }
}

/// Reader of a length-prefixed ITCH stream (2-byte big-endian length framing).
pub struct Reader<'a> {
    inner: &'a [u8],
}

impl<'a> Reader<'a> {
    /// The bytes not read yet.
    pub closed spec fn rest(self) -> Seq<u8> {
        self.inner@
    }

    pub fn new(inner: &'a [u8]) -> (r: Self)
        ensures
            r.rest() == inner@,
    {
        Reader { inner }
    }

    /// The next message; `None` at the end of the stream: the end of input,
    /// a zero length, or input that ends inside the 2-byte length prefix;
    /// an I/O error when the input ends inside a frame's body.
    pub fn next(&mut self) -> (r: Option<Result<Message, ItchError>>)
        ensures
            has_frame(old(self).rest()) ==> {
                &&& r matches Some(x) && parses_to(
                    old(self).rest().subrange(2, 2 + frame_len(old(self).rest())),
                    x,
                )
                &&& final(self).rest() == old(self).rest().skip(2 + frame_len(old(self).rest()))
            },
            !has_frame(old(self).rest()) ==> {
                &&& final(self).rest() == if old(self).rest().len() >= 2 && frame_len(
                    old(self).rest(),
                ) == 0 {
                    old(self).rest().skip(2)
                } else {
                    Seq::empty()
                }
                &&& if cut_short(old(self).rest()) {
                    &&& r == Some(Err::<Message, ItchError>(ItchError::Io(IoErrorKind::UnexpectedEof)))
                    &&& final(self).rest().len() == 0
                } else {
                    r is None
                }
            },
    {
        let n = self.inner.len();
        // Clean end of input on the length prefix: end of stream.
        if n < 2 {
            self.inner = &self.inner[n..n];
            assert(self.inner@ =~= Seq::<u8>::empty());
            return None;
        }
        let len_bytes = &self.inner[0..2];
        let len = be_value(len_bytes) as usize;
        proof {
            lemma_be_bound(len_bytes@);
            reveal_with_fuel(pow256, 3);
            assert(len_bytes@ =~= self.inner@.take(2));
        }
        if len == 0 {
            self.inner = &self.inner[2..n];
            assert(self.inner@ =~= old(self).inner@.skip(2));
            return None;
        }
        if n - 2 < len {
            self.inner = &self.inner[n..n];
            assert(self.inner@ =~= Seq::<u8>::empty());
            return Some(Err(ItchError::Io(IoErrorKind::UnexpectedEof)));
        }
        let body = &self.inner[2..2 + len];
        self.inner = &self.inner[2 + len..n];
        proof {
            assert(self.inner@ =~= old(self).inner@.skip(2 + len));
        }
        Some(parse(body))
    }

    /// All remaining messages, in order, up to the end of the stream; a frame
    /// cut short ends the list with an I/O error.
    pub fn collect(self) -> (out: Vec<Result<Message, ItchError>>)
        ensures
            out@.len() == frames(self.rest()).len() + (if cut_short(self.rest()) {
                1int
            } else {
                0
            }),
            forall|i: int|
                0 <= i < frames(self.rest()).len() ==> parses_to(
                    #[trigger] frames(self.rest())[i],
                    out@[i],
                ),
            cut_short(self.rest()) ==> out@.last() == Err::<Message, ItchError>(
                ItchError::Io(IoErrorKind::UnexpectedEof),
            ),
    {
        let ghost start = self.rest();
        let mut reader = self;
        let mut out: Vec<Result<Message, ItchError>> = Vec::new();
        let ghost mut done: Seq<Seq<u8>> = Seq::empty();
        let ghost mut failed = false;
        loop
            invariant_except_break
                frames(start) == done + frames(reader.rest()),
                cut_short(start) == (failed || cut_short(reader.rest())),
                failed ==> reader.rest().len() == 0,
            invariant
                out@.len() == done.len() + (if failed {
                    1int
                } else {
                    0
                }),
                forall|i: int| 0 <= i < done.len() ==> parses_to(#[trigger] done[i], out@[i]),
                failed ==> out@.last() == Err::<Message, ItchError>(
                    ItchError::Io(IoErrorKind::UnexpectedEof),
                ),
            ensures
                frames(start) == done,
                cut_short(start) == failed,
            decreases reader.rest().len(),
        {
            let ghost before = reader.rest();
            match reader.next() {
                None => {
                    break;
                },
                Some(x) => {
                    proof {
                        if has_frame(before) {
                            let body = before.subrange(2, 2 + frame_len(before));
                            assert(frames(before) == seq![body] + frames(reader.rest()));
                            assert(done + frames(before) =~= done.push(body) + frames(
                                reader.rest(),
                            ));
                            done = done.push(body);
                        } else {
                            failed = true;
                            assert(frames(reader.rest()) =~= Seq::<Seq<u8>>::empty());
                        }
                    }
                    out.push(x);
                },
            }
        }
        proof {
            assert(done + Seq::<Seq<u8>>::empty() =~= done);
        }
        out
    }
}

// --- book building ---------------------------------------------------------

/// Per-symbol book statistics accumulated during replay. Counters wrap
/// around modulo 2^64.
#[derive(Debug, Clone, Copy, PartialEq, Eq, Structural)]
pub struct SymbolStats {
    pub adds: u64,
    pub executes: u64,
    pub cancels: u64,
    pub deletes: u64,
    pub replaces: u64,
    pub trades: u64,
    pub volume: u64,
}

impl SymbolStats {
    pub open spec fn zero() -> SymbolStats {
        SymbolStats {
            adds: 0,
            executes: 0,
            cancels: 0,
            deletes: 0,
            replaces: 0,
            trades: 0,
            volume: 0,
        }
    }
}

impl Default for SymbolStats {
    fn default() -> (s: Self)
        ensures
            s == SymbolStats::zero(),
    {
        SymbolStats {
            adds: 0,
            executes: 0,
            cancels: 0,
            deletes: 0,
            replaces: 0,
            trades: 0,
            volume: 0,
        }
    }
}

/// An orderbook with no levels, no orders and no traded volume.
pub open spec fn empty_book() -> BookView {
    BookView {
        bids: Map::empty(),
        asks: Map::empty(),
        orders: Map::empty(),
        traded_volume: 0,
    }
}

pub open spec fn book_side(s: ItchSide) -> Side {
    match s {
        ItchSide::Buy => Side::Bid,
        ItchSide::Sell => Side::Ask,
    }
}

/// Whether a symbol passes the builder's filter.
pub open spec fn wanted(filter: Option<Seq<char>>, stock: Seq<char>) -> bool {
    match filter {
        None => true,
        Some(f) => f == stock,
    }
}

/// The mathematical state of a book builder.
pub struct BuilderView {
    /// The book of each symbol that an add order reached.
    pub books: Map<Seq<char>, BookView>,
    /// Which symbol each live order id belongs to.
    pub order_symbol: Map<u64, Seq<char>>,
    /// Statistics per symbol.
    pub stats: Map<Seq<char>, SymbolStats>,
    /// The one symbol to build, if restricted.
    pub filter: Option<Seq<char>>,
}

impl BuilderView {
    pub open spec fn stats_of(self, stock: Seq<char>) -> SymbolStats {
        if self.stats.contains_key(stock) {
            self.stats[stock]
        } else {
            SymbolStats::zero()
        }
    }

    pub open spec fn book_of(self, stock: Seq<char>) -> BookView {
        if self.books.contains_key(stock) {
            self.books[stock]
        } else {
            empty_book()
        }
    }

    pub open spec fn with_stats(self, stock: Seq<char>, st: SymbolStats) -> BuilderView {
        BuilderView { stats: self.stats.insert(stock, st), ..self }
    }

    /// An add order, with or without attribution.
    pub open spec fn spec_add(
        self,
        id: u64,
        side: ItchSide,
        shares: u32,
        stock: Seq<char>,
        price: u32,
    ) -> BuilderView {
        if !wanted(self.filter, stock) {
            self
        } else {
            let st = self.stats_of(stock);
            let book = self.book_of(stock);
            let added = match book.spec_insert(id, book_side(side), Price(price as i64), shares as u64) {
                Ok(b) => b,
                Err(_) => book,
            };
            BuilderView {
                books: self.books.insert(stock, added),
                order_symbol: self.order_symbol.insert(id, stock),
                stats: self.stats.insert(stock, SymbolStats { adds: st.adds.wrapping_add(1), ..st }),
                filter: self.filter,
            }
        }
    }

    /// An execution, with or without price.
    pub open spec fn spec_executed(self, id: u64, shares: u32) -> BuilderView {
        if !self.order_symbol.contains_key(id) {
            self
        } else {
            let stock = self.order_symbol[id];
            let st = self.stats_of(stock);
            let counted = self.with_stats(
                stock,
                SymbolStats {
                    executes: st.executes.wrapping_add(1),
                    volume: st.volume.wrapping_add(shares as u64),
                    ..st
                },
            );
            if !self.books.contains_key(stock) {
                counted
            } else {
                let book = self.books[stock];
                let after = match book.spec_execute(id, shares as u64) {
                    Ok((b, _)) => b,
                    Err(_) => book,
                };
                BuilderView {
                    books: self.books.insert(stock, after),
                    order_symbol: if after.orders.contains_key(id) {
                        self.order_symbol
                    } else {
                        self.order_symbol.remove(id)
                    },
                    ..counted
                }
            }
        }
    }

    /// A partial cancel.
    pub open spec fn spec_cancelled(self, id: u64, shares: u32) -> BuilderView {
        if !self.order_symbol.contains_key(id) {
            self
        } else {
            let stock = self.order_symbol[id];
            let st = self.stats_of(stock);
            let counted = self.with_stats(
                stock,
                SymbolStats { cancels: st.cancels.wrapping_add(1), ..st },
            );
            if !self.books.contains_key(stock) {
                counted
            } else {
                let book = self.books[stock];
                let after = match book.spec_take(id, shares as u64) {
                    Ok((b, _)) => b,
                    Err(_) => book,
                };
                BuilderView {
                    books: self.books.insert(stock, after),
                    order_symbol: if after.orders.contains_key(id) {
                        self.order_symbol
                    } else {
                        self.order_symbol.remove(id)
                    },
                    ..counted
                }
            }
        }
    }

    /// An order delete.
    pub open spec fn spec_deleted(self, id: u64) -> BuilderView {
        if !self.order_symbol.contains_key(id) {
            self
        } else {
            let stock = self.order_symbol[id];
            let st = self.stats_of(stock);
            let counted = BuilderView {
                order_symbol: self.order_symbol.remove(id),
                ..self.with_stats(stock, SymbolStats { deletes: st.deletes.wrapping_add(1), ..st })
            };
            if !self.books.contains_key(stock) {
                counted
            } else {
                let book = self.books[stock];
                let after = match book.spec_cancel(id) {
                    Ok((b, _)) => b,
                    Err(_) => book,
                };
                BuilderView { books: self.books.insert(stock, after), ..counted }
            }
        }
    }

    /// An order replace: the new id takes over the old one's symbol.
    pub open spec fn spec_replaced(self, old_id: u64, new_id: u64, shares: u32, price: u32) -> BuilderView {
        if !self.order_symbol.contains_key(old_id) {
            self
        } else {
            let stock = self.order_symbol[old_id];
            let st = self.stats_of(stock);
            let counted = BuilderView {
                order_symbol: self.order_symbol.remove(old_id).insert(new_id, stock),
                ..self.with_stats(stock, SymbolStats { replaces: st.replaces.wrapping_add(1), ..st })
            };
            if !self.books.contains_key(stock) {
                counted
            } else {
                let book = self.books[stock];
                let after = match book.spec_replace(old_id, new_id, Price(price as i64), shares as u64) {
                    Ok(b) => b,
                    Err(_) => book,
                };
                BuilderView { books: self.books.insert(stock, after), ..counted }
            }
        }
    }

    /// A non-cross trade: counted against its symbol when wanted.
    pub open spec fn spec_traded(self, stock: Seq<char>, shares: u32) -> BuilderView {
        if !wanted(self.filter, stock) {
            self
        } else {
            let st = self.stats_of(stock);
            self.with_stats(
                stock,
                SymbolStats {
                    trades: st.trades.wrapping_add(1),
                    volume: st.volume.wrapping_add(shares as u64),
                    ..st
                },
            )
        }
    }

    /// Applying one message.
    pub open spec fn spec_apply(self, msg: Message) -> BuilderView {
        match msg {
            Message::AddOrder { order_id, side, shares, stock, price, .. } => self.spec_add(
                order_id,
                side,
                shares,
                stock@,
                price,
            ),
            Message::AddOrderMpid { order_id, side, shares, stock, price, .. } => self.spec_add(
                order_id,
                side,
                shares,
                stock@,
                price,
            ),
            Message::OrderExecuted { order_id, shares, .. } => self.spec_executed(order_id, shares),
            Message::OrderExecutedPrice { order_id, shares, .. } => self.spec_executed(
                order_id,
                shares,
            ),
            Message::OrderCancel { order_id, shares, .. } => self.spec_cancelled(order_id, shares),
            Message::OrderDelete { order_id, .. } => self.spec_deleted(order_id),
            Message::OrderReplace { old_order_id, new_order_id, shares, price, .. } => self.spec_replaced(
                old_order_id,
                new_order_id,
                shares,
                price,
            ),
            Message::Trade { stock, shares, .. } => self.spec_traded(stock@, shares),
            _ => self,
        }
    }

    /// Every symbol with a book has statistics that count at least one add.
    pub open spec fn books_counted(self) -> bool {
        forall|s: Seq<char>| #[trigger]
            self.books.contains_key(s) ==> self.stats.contains_key(s) && self.stats[s].adds >= 1
    }

    /// Every routed order id names a symbol that has a book; only wanted
    /// symbols have books or statistics; every symbol with a book has
    /// statistics, and in each book every price level holds exactly the
    /// orders resting at it.
    pub open spec fn consistent(self) -> bool {
        &&& forall|id: u64| #[trigger]
            self.order_symbol.contains_key(id) ==> self.books.contains_key(self.order_symbol[id])
        &&& forall|s: Seq<char>| #[trigger] self.books.contains_key(s) ==> wanted(self.filter, s)
        &&& forall|s: Seq<char>| #[trigger] self.stats.contains_key(s) ==> wanted(self.filter, s)
        &&& forall|s: Seq<char>| #[trigger]
            self.books.contains_key(s) ==> self.stats.contains_key(s) && levels_hold_orders(
                self.books[s],
            )
    }
}

proof fn lemma_book_keeps(v: BuilderView, w: BuilderView, stock: Seq<char>)
    requires
        v.consistent(),
        w.filter == v.filter,
        w.books == v.books.insert(stock, w.books[stock]),
        w.books.contains_key(stock),
        levels_hold_orders(w.books[stock]),
        wanted(v.filter, stock),
        forall|s: Seq<char>| #[trigger] v.stats.contains_key(s) ==> w.stats.contains_key(s),
        w.stats.contains_key(stock),
        forall|s: Seq<char>| #[trigger] w.stats.contains_key(s) ==> wanted(w.filter, s),
        forall|id: u64| #[trigger]
            w.order_symbol.contains_key(id) ==> w.books.contains_key(w.order_symbol[id]),
    ensures
        w.consistent(),
{
    assert forall|s: Seq<char>| #[trigger] w.books.contains_key(s) implies w.stats.contains_key(s)
        && levels_hold_orders(w.books[s]) && wanted(w.filter, s) by {
        if s != stock {
            assert(v.books.contains_key(s));
        }
    }
}

proof fn lemma_add_consistent(
    v: BuilderView,
    id: u64,
    side: ItchSide,
    shares: u32,
    stock: Seq<char>,
    price: u32,
)
    requires
        v.consistent(),
    ensures
        v.spec_add(id, side, shares, stock, price).consistent(),
{
    if wanted(v.filter, stock) {
        let book = v.book_of(stock);
        if !v.books.contains_key(stock) {
            crate::orderbook::lemma_empty_levels_hold_orders(empty_book());
        }
        crate::orderbook::lemma_insert_keeps_levels(
            book,
            id,
            book_side(side),
            Price(price as i64),
            shares as u64,
        );
        lemma_book_keeps(v, v.spec_add(id, side, shares, stock, price), stock);
    }
}

proof fn lemma_executed_consistent(v: BuilderView, id: u64, shares: u32)
    requires
        v.consistent(),
    ensures
        v.spec_executed(id, shares).consistent(),
{
    if v.order_symbol.contains_key(id) {
        let stock = v.order_symbol[id];
        let book = v.books[stock];
        if book.orders.contains_key(id) {
            crate::orderbook::lemma_execute_keeps_levels(book, id, shares as u64);
        }
        lemma_book_keeps(v, v.spec_executed(id, shares), stock);
    }
}

proof fn lemma_cancelled_consistent(v: BuilderView, id: u64, shares: u32)
    requires
        v.consistent(),
    ensures
        v.spec_cancelled(id, shares).consistent(),
{
    if v.order_symbol.contains_key(id) {
        let stock = v.order_symbol[id];
        let book = v.books[stock];
        if book.orders.contains_key(id) {
            crate::orderbook::lemma_take_keeps_levels(book, id, shares as u64);
        }
        lemma_book_keeps(v, v.spec_cancelled(id, shares), stock);
    }
}

proof fn lemma_deleted_consistent(v: BuilderView, id: u64)
    requires
        v.consistent(),
    ensures
        v.spec_deleted(id).consistent(),
{
    if v.order_symbol.contains_key(id) {
        let stock = v.order_symbol[id];
        let book = v.books[stock];
        if book.orders.contains_key(id) {
            crate::orderbook::lemma_cancel_keeps_levels(book, id);
        }
        lemma_book_keeps(v, v.spec_deleted(id), stock);
    }
}

proof fn lemma_replaced_consistent(v: BuilderView, old_id: u64, new_id: u64, shares: u32, price: u32)
    requires
        v.consistent(),
    ensures
        v.spec_replaced(old_id, new_id, shares, price).consistent(),
{
    if v.order_symbol.contains_key(old_id) {
        let stock = v.order_symbol[old_id];
        let book = v.books[stock];
        crate::orderbook::lemma_replace_keeps_levels(
            book,
            old_id,
            new_id,
            Price(price as i64),
            shares as u64,
        );
        lemma_book_keeps(v, v.spec_replaced(old_id, new_id, shares, price), stock);
    }
}

/// An execution of a live order counts one execution and the asked shares
/// as volume for its symbol, and lowers the order's price level in that
/// symbol's book by exactly the quantity filled; no other level moves.
pub proof fn lemma_execution_lowers_level(v: BuilderView, id: u64, shares: u32)
    requires
        v.consistent(),
        v.order_symbol.contains_key(id),
        v.books[v.order_symbol[id]].orders.contains_key(id),
    ensures
        ({
            let stock = v.order_symbol[id];
            let book = v.books[stock];
            let o = book.orders[id];
            let fill = min_qty(shares as u64, o.qty as nat);
            let w = v.spec_executed(id, shares);
            &&& w.stats[stock].executes == v.stats[stock].executes.wrapping_add(1)
            &&& w.stats[stock].volume == v.stats[stock].volume.wrapping_add(shares as u64)
            &&& level_qty(w.books[stock].side(o.side), o.price.0) + fill == level_qty(
                book.side(o.side),
                o.price.0,
            )
            &&& forall|s: Side, p: i64|
                !(s == o.side && p == o.price.0) ==> #[trigger] level_qty(w.books[stock].side(s), p)
                    == level_qty(book.side(s), p)
            &&& if fill == o.qty {
                !w.books[stock].orders.contains_key(id) && !w.order_symbol.contains_key(id)
            } else {
                w.books[stock].orders[id].qty + fill == o.qty && w.order_symbol[id] == stock
            }
        }),
{
    let stock = v.order_symbol[id];
    crate::orderbook::lemma_execute_keeps_levels(v.books[stock], id, shares as u64);
}

/// A partial cancel of a live order counts one cancel for its symbol and
/// lowers the order's price level by exactly the quantity taken off the
/// order; volume and every other level stay.
pub proof fn lemma_partial_cancel_lowers_level(v: BuilderView, id: u64, shares: u32)
    requires
        v.consistent(),
        v.order_symbol.contains_key(id),
        v.books[v.order_symbol[id]].orders.contains_key(id),
    ensures
        ({
            let stock = v.order_symbol[id];
            let book = v.books[stock];
            let o = book.orders[id];
            let fill = min_qty(shares as u64, o.qty as nat);
            let w = v.spec_cancelled(id, shares);
            &&& w.stats[stock].cancels == v.stats[stock].cancels.wrapping_add(1)
            &&& w.stats[stock].volume == v.stats[stock].volume
            &&& level_qty(w.books[stock].side(o.side), o.price.0) + fill == level_qty(
                book.side(o.side),
                o.price.0,
            )
            &&& forall|s: Side, p: i64|
                !(s == o.side && p == o.price.0) ==> #[trigger] level_qty(w.books[stock].side(s), p)
                    == level_qty(book.side(s), p)
            &&& if fill == o.qty {
                !w.books[stock].orders.contains_key(id) && !w.order_symbol.contains_key(id)
            } else {
                w.books[stock].orders[id].qty + fill == o.qty && w.order_symbol[id] == stock
            }
        }),
{
    let stock = v.order_symbol[id];
    crate::orderbook::lemma_take_keeps_levels(v.books[stock], id, shares as u64);
}

/// Deleting a live order counts one delete for its symbol and lowers the
/// order's price level by all it had left; the order is no longer live, so a
/// second delete of it changes nothing.
pub proof fn lemma_delete_lowers_level(v: BuilderView, id: u64)
    requires
        v.consistent(),
        v.order_symbol.contains_key(id),
        v.books[v.order_symbol[id]].orders.contains_key(id),
    ensures
        ({
            let stock = v.order_symbol[id];
            let book = v.books[stock];
            let o = book.orders[id];
            let w = v.spec_deleted(id);
            &&& w.stats[stock].deletes == v.stats[stock].deletes.wrapping_add(1)
            &&& level_qty(w.books[stock].side(o.side), o.price.0) + o.qty == level_qty(
                book.side(o.side),
                o.price.0,
            )
            &&& forall|s: Side, p: i64|
                !(s == o.side && p == o.price.0) ==> #[trigger] level_qty(w.books[stock].side(s), p)
                    == level_qty(book.side(s), p)
            &&& !w.order_symbol.contains_key(id)
            &&& w.spec_deleted(id) == w
        }),
{
    let stock = v.order_symbol[id];
    crate::orderbook::lemma_cancel_keeps_levels(v.books[stock], id);
}

/// Replacing a live order counts one replace for its symbol; where the book
/// takes the replacement, the old order's level drops by all it had left and
/// the new price's level on the same side grows by the new quantity, and
/// the new id is routed to the same symbol.
pub proof fn lemma_replace_moves_level(
    v: BuilderView,
    old_id: u64,
    new_id: u64,
    shares: u32,
    price: u32,
)
    requires
        v.consistent(),
        v.order_symbol.contains_key(old_id),
    ensures
        ({
            let stock = v.order_symbol[old_id];
            let book = v.books[stock];
            let o = book.orders[old_id];
            let w = v.spec_replaced(old_id, new_id, shares, price);
            &&& w.stats[stock].replaces == v.stats[stock].replaces.wrapping_add(1)
            &&& w.order_symbol[new_id] == stock
            &&& book.spec_replace(old_id, new_id, Price(price as i64), shares as u64) is Ok ==> {
                &&& forall|p: i64|
                    #[trigger] level_qty(w.books[stock].side(o.side), p) + (if p == o.price.0 {
                        o.qty as int
                    } else {
                        0
                    }) == level_qty(book.side(o.side), p) + (if p == price {
                        shares as int
                    } else {
                        0
                    })
                &&& w.books[stock].orders[new_id] == RestingOrder {
                    side: o.side,
                    price: Price(price as i64),
                    qty: shares as u64,
                }
            }
        }),
{
    let stock = v.order_symbol[old_id];
    crate::orderbook::lemma_replace_keeps_levels(
        v.books[stock],
        old_id,
        new_id,
        Price(price as i64),
        shares as u64,
    );
}

/// One message keeps every book's symbol counted as added, as long as no add
/// counter is at its maximum; no add counter grows by more than one.
proof fn lemma_apply_books_counted(v: BuilderView, msg: Message)
    requires
        v.books_counted(),
        forall|s: Seq<char>| #[trigger] v.stats_of(s).adds < u64::MAX,
    ensures
        v.spec_apply(msg).books_counted(),
        forall|s: Seq<char>| #[trigger]
            v.spec_apply(msg).stats_of(s).adds <= v.stats_of(s).adds + 1,
{
    let w = v.spec_apply(msg);
    assert forall|s: Seq<char>| #[trigger] w.books.contains_key(s) implies w.stats.contains_key(s)
        && w.stats[s].adds >= 1 by {
        assert(v.stats_of(s).adds < u64::MAX);
        if !v.books.contains_key(s) {
            assert(w.stats_of(s).adds == v.stats_of(s).adds + 1);
        } else {
            assert(w.stats_of(s).adds >= v.stats_of(s).adds);
        }
    }
    assert forall|s: Seq<char>| #[trigger] w.stats_of(s).adds <= v.stats_of(s).adds + 1 by {
        assert(v.stats_of(s).adds < u64::MAX);
    }
}

/// A builder that starts with every book's symbol counted as added (a new
/// builder has no books) keeps it through any messages, as long as no add
/// counter could reach its maximum on the way: every symbol with a book then
/// has statistics with at least one add.
pub proof fn lemma_books_counted_after(v: BuilderView, msgs: Seq<Message>)
    requires
        v.books_counted(),
        forall|s: Seq<char>| #[trigger] v.stats_of(s).adds + msgs.len() < u64::MAX,
    ensures
        apply_all(v, msgs).books_counted(),
        forall|s: Seq<char>| #[trigger]
            apply_all(v, msgs).stats_of(s).adds <= v.stats_of(s).adds + msgs.len(),
    decreases msgs.len(),
{
    if msgs.len() > 0 {
        let init = msgs.drop_last();
        assert forall|s: Seq<char>| #[trigger] v.stats_of(s).adds + init.len() < u64::MAX by {
            assert(v.stats_of(s).adds + msgs.len() < u64::MAX);
        }
        lemma_books_counted_after(v, init);
        let w = apply_all(v, init);
        assert forall|s: Seq<char>| #[trigger] w.stats_of(s).adds < u64::MAX by {
            assert(v.stats_of(s).adds + msgs.len() < u64::MAX);
        }
        lemma_apply_books_counted(w, msgs.last());
        assert forall|s: Seq<char>| #[trigger] apply_all(v, msgs).stats_of(s).adds
            <= v.stats_of(s).adds + msgs.len() by {
            assert(w.stats_of(s).adds <= v.stats_of(s).adds + init.len());
        }
    }
}

/// A trade of a wanted symbol counts one trade and adds exactly its shares
/// to that symbol's volume (modulo 2^64); every other counter, every other
/// symbol's statistics, the books and the order routing stay as they were.
/// A trade of a symbol that is not wanted changes nothing.
pub proof fn lemma_trade_accumulates_volume(v: BuilderView, msg: Message)
    requires
        msg is Trade,
    ensures
        ({
            let w = v.spec_apply(msg);
            let stock = msg->Trade_stock@;
            let shares = msg->Trade_shares;
            let before = v.stats_of(stock);
            let after = w.stats_of(stock);
            if wanted(v.filter, stock) {
                &&& after.trades == before.trades.wrapping_add(1)
                &&& after.volume == before.volume.wrapping_add(shares as u64)
                &&& after.adds == before.adds
                &&& after.executes == before.executes
                &&& after.cancels == before.cancels
                &&& after.deletes == before.deletes
                &&& after.replaces == before.replaces
                &&& forall|s: Seq<char>| s != stock ==> #[trigger] w.stats_of(s) == v.stats_of(s)
                &&& w.books == v.books
                &&& w.order_symbol == v.order_symbol
            } else {
                w == v
            }
        }),
{
}

/// An add order of a wanted symbol counts one add for that symbol and
/// changes none of its other counters (executions, cancels, deletes,
/// replaces, trades, volume) nor any other symbol's statistics. An add of a
/// symbol that is not wanted changes nothing.
pub proof fn lemma_add_counts_only_adds(v: BuilderView, msg: Message)
    requires
        msg is AddOrder || msg is AddOrderMpid,
    ensures
        ({
            let w = v.spec_apply(msg);
            let stock = match msg {
                Message::AddOrderMpid { stock, .. } => stock@,
                _ => msg->AddOrder_stock@,
            };
            let before = v.stats_of(stock);
            let after = w.stats_of(stock);
            if wanted(v.filter, stock) {
                &&& after.adds == before.adds.wrapping_add(1)
                &&& after.executes == before.executes
                &&& after.cancels == before.cancels
                &&& after.deletes == before.deletes
                &&& after.replaces == before.replaces
                &&& after.trades == before.trades
                &&& after.volume == before.volume
                &&& forall|s: Seq<char>| s != stock ==> #[trigger] w.stats_of(s) == v.stats_of(s)
            } else {
                w == v
            }
        }),
{
}

/// `after` is `before` with one more of the counter `kind` (0 executions,
/// 1 cancels, 2 deletes, 3 replaces) and `extra` more volume, modulo 2^64;
/// every other counter is unchanged.
pub open spec fn counted_one(before: SymbolStats, after: SymbolStats, kind: int, extra: u64) -> bool {
    &&& after.adds == before.adds
    &&& after.trades == before.trades
    &&& after.executes == if kind == 0 {
        before.executes.wrapping_add(1)
    } else {
        before.executes
    }
    &&& after.cancels == if kind == 1 {
        before.cancels.wrapping_add(1)
    } else {
        before.cancels
    }
    &&& after.deletes == if kind == 2 {
        before.deletes.wrapping_add(1)
    } else {
        before.deletes
    }
    &&& after.replaces == if kind == 3 {
        before.replaces.wrapping_add(1)
    } else {
        before.replaces
    }
    &&& after.volume == before.volume.wrapping_add(extra)
}

/// A message about a live order id counts once against the symbol the id is
/// routed to: an execution counts one execution and its shares as volume, a
/// partial cancel one cancel, a delete one delete, a replace one replace;
/// no other counter of that symbol and no other symbol's statistics move.
/// A message about an id that is not routed changes nothing, and so does
/// any message that is not an order, execution, cancel, delete, replace or
/// trade.
pub proof fn lemma_order_messages_count_once(v: BuilderView, msg: Message)
    ensures
        ({
            let w = v.spec_apply(msg);
            match msg {
                Message::OrderExecuted { order_id, shares, .. } => if v.order_symbol.contains_key(
                    order_id,
                ) {
                    let s = v.order_symbol[order_id];
                    &&& counted_one(v.stats_of(s), w.stats_of(s), 0, shares as u64)
                    &&& forall|t: Seq<char>| t != s ==> #[trigger] w.stats_of(t) == v.stats_of(t)
                } else {
                    w == v
                },
                Message::OrderExecutedPrice { order_id, shares, .. } => if v.order_symbol.contains_key(
                    order_id,
                ) {
                    let s = v.order_symbol[order_id];
                    &&& counted_one(v.stats_of(s), w.stats_of(s), 0, shares as u64)
                    &&& forall|t: Seq<char>| t != s ==> #[trigger] w.stats_of(t) == v.stats_of(t)
                } else {
                    w == v
                },
                Message::OrderCancel { order_id, .. } => if v.order_symbol.contains_key(order_id) {
                    let s = v.order_symbol[order_id];
                    &&& counted_one(v.stats_of(s), w.stats_of(s), 1, 0)
                    &&& forall|t: Seq<char>| t != s ==> #[trigger] w.stats_of(t) == v.stats_of(t)
                } else {
                    w == v
                },
                Message::OrderDelete { order_id, .. } => if v.order_symbol.contains_key(order_id) {
                    let s = v.order_symbol[order_id];
                    &&& counted_one(v.stats_of(s), w.stats_of(s), 2, 0)
                    &&& forall|t: Seq<char>| t != s ==> #[trigger] w.stats_of(t) == v.stats_of(t)
                    &&& !w.order_symbol.contains_key(order_id)
                } else {
                    w == v
                },
                Message::OrderReplace { old_order_id, new_order_id, .. } => if v.order_symbol.contains_key(
                    old_order_id,
                ) {
                    let s = v.order_symbol[old_order_id];
                    &&& counted_one(v.stats_of(s), w.stats_of(s), 3, 0)
                    &&& forall|t: Seq<char>| t != s ==> #[trigger] w.stats_of(t) == v.stats_of(t)
                    &&& w.order_symbol.contains_key(new_order_id)
                    &&& w.order_symbol[new_order_id] == s
                } else {
                    w == v
                },
                Message::AddOrder { .. } => true,
                Message::AddOrderMpid { .. } => true,
                Message::Trade { .. } => true,
                _ => w == v,
            }
        }),
{
}

/// An add order of a wanted symbol routes its id to that symbol and, where
/// the id is new to the symbol's book, the quantity positive and the level
/// has room, rests the order in that book: the order is live on its side at
/// its price for its shares, and its level grows by exactly those shares.
/// Other symbols' books stay as they were.
pub proof fn lemma_add_rests_order(
    v: BuilderView,
    id: u64,
    side: ItchSide,
    shares: u32,
    stock: Seq<char>,
    price: u32,
)
    requires
        wanted(v.filter, stock),
    ensures
        ({
            let w = v.spec_add(id, side, shares, stock, price);
            let book = v.book_of(stock);
            let p = price as i64;
            &&& w.order_symbol.contains_key(id) && w.order_symbol[id] == stock
            &&& w.books.contains_key(stock)
            &&& forall|t: Seq<char>| t != stock ==> #[trigger] w.book_of(t) == v.book_of(t)
            &&& (!book.orders.contains_key(id) && shares > 0 && level_qty(
                book.side(book_side(side)),
                p,
            ) + shares <= u64::MAX) ==> {
                &&& w.books[stock].orders.contains_key(id)
                &&& w.books[stock].orders[id] == RestingOrder {
                    side: book_side(side),
                    price: Price(p),
                    qty: shares as u64,
                }
                &&& level_qty(w.books[stock].side(book_side(side)), p) == level_qty(
                    book.side(book_side(side)),
                    p,
                ) + shares
            }
        }),
{
    let w = v.spec_add(id, side, shares, stock, price);
    assert forall|t: Seq<char>| t != stock implies #[trigger] w.book_of(t) == v.book_of(t) by {
        if v.books.contains_key(t) {
            assert(w.books.contains_key(t));
        }
    }
}

/// The builder's tables, without the invariant attached.
struct Tables {
    books: Keyed<Orderbook>,
    order_symbol: HashMap<u64, String>,
    stats: Keyed<SymbolStats>,
    filter: Option<String>,
}

impl Tables {
    spec fn view(&self) -> BuilderView {
        BuilderView {
            books: Map::new(|s: Seq<char>| self.books.names().contains(s), |s: Seq<char>| self.books.value(s)@),
            order_symbol: Map::new(
                |id: u64| self.order_symbol@.contains_key(id),
                |id: u64| self.order_symbol@[id]@,
            ),
            stats: Map::new(|s: Seq<char>| self.stats.names().contains(s), |s: Seq<char>| self.stats.value(s)),
            filter: match self.filter {
                Some(f) => Some(f@),
                None => None,
            },
        }
    }

    spec fn wf(&self) -> bool {
        &&& self.books.wf()
        &&& self.stats.wf()
        &&& self.view().consistent()
    }

    fn empty(filter: Option<String>) -> (t: Tables)
        ensures
            t.wf(),
            t.view().books == Map::<Seq<char>, BookView>::empty(),
            t.view().order_symbol == Map::<u64, Seq<char>>::empty(),
            t.view().stats == Map::<Seq<char>, SymbolStats>::empty(),
            t.view().filter == match filter {
                Some(f) => Some(f@),
                None => None::<Seq<char>>,
            },
    {
        let t = Tables {
            books: Keyed::new(),
            order_symbol: HashMap::new(),
            stats: Keyed::new(),
            filter,
        };
        assert(t.view().books =~= Map::<Seq<char>, BookView>::empty());
        assert(t.view().order_symbol =~= Map::<u64, Seq<char>>::empty());
        assert(t.view().stats =~= Map::<Seq<char>, SymbolStats>::empty());
        t
    }

    fn wanted(&self, stock: &String) -> (b: bool)
        ensures
            b == wanted(self.view().filter, stock@),
    {
        match &self.filter {
            None => true,
            Some(f) => f.eq(stock),
        }
    }

    /// Replaces the statistics of `stock` by `update(current)`.
    fn bump_stats(&mut self, stock: &String, st: SymbolStats)
        requires
            old(self).wf(),
            wanted(old(self).view().filter, stock@),
        ensures
            final(self).wf(),
            final(self).view() == old(self).view().with_stats(stock@, st),
    {
        let i = self.stats.slot(stock.as_str(), SymbolStats::default());
        let _ = self.stats.swap_at(i, st);
        assert(self.view().stats =~= old(self).view().stats.insert(stock@, st));
        assert(self.view().books =~= old(self).view().books);
        assert(self.view().order_symbol =~= old(self).view().order_symbol);
    }

    fn add_order(&mut self, id: u64, side: ItchSide, shares: u32, stock: &String, price: u32)
        requires
            old(self).wf(),
        ensures
            final(self).wf(),
            final(self).view() == old(self).view().spec_add(id, side, shares, stock@, price),
    {
        broadcast use vstd::std_specs::hash::group_hash_axioms;

        if !self.wanted(stock) {
            return ;
        }
        let st = self.stats_of(stock);
        self.bump_stats(stock, SymbolStats { adds: st.adds.wrapping_add(1), ..st });
        let ghost mid = self.view();
        self.order_symbol.insert(id, stock.clone());
        let bi = self.books.slot(stock.as_str(), Orderbook::new());
        let mut book = self.books.swap_at(bi, Orderbook::new());
        let _ = book.insert(id, side.to_book_side(), Price(price as i64), shares as u64);
        let _ = self.books.swap_at(bi, book);
        proof {
            let goal = old(self).view().spec_add(id, side, shares, stock@, price);
            lemma_add_consistent(old(self).view(), id, side, shares, stock@, price);
            assert(self.view().books =~= goal.books);
            assert(self.view().order_symbol =~= goal.order_symbol);
            assert(self.view().stats =~= goal.stats);
        }
    }

    fn executed(&mut self, id: u64, shares: u32)
        requires
            old(self).wf(),
        ensures
            final(self).wf(),
            final(self).view() == old(self).view().spec_executed(id, shares),
    {
        broadcast use vstd::std_specs::hash::group_hash_axioms;

        let stock = match self.order_symbol.get(&id) {
            Some(s) => s.clone(),
            None => return ,
        };
        let st = self.stats_of(&stock);
        self.bump_stats(
            &stock,
            SymbolStats {
                executes: st.executes.wrapping_add(1),
                volume: st.volume.wrapping_add(shares as u64),
                ..st
            },
        );
        match self.books.find(stock.as_str()) {
            Some(bi) => {
                let mut book = self.books.swap_at(bi, Orderbook::new());
                let _ = book.execute(id, shares as u64);
                let gone = book.order(id).is_none();
                let _ = self.books.swap_at(bi, book);
                if gone {
                    self.order_symbol.remove(&id);
                }
            },
            None => {},
        }
        proof {
            let goal = old(self).view().spec_executed(id, shares);
            lemma_executed_consistent(old(self).view(), id, shares);
            assert(self.view().books =~= goal.books);
            assert(self.view().order_symbol =~= goal.order_symbol);
            assert(self.view().stats =~= goal.stats);
        }
    }

    fn cancelled(&mut self, id: u64, shares: u32)
        requires
            old(self).wf(),
        ensures
            final(self).wf(),
            final(self).view() == old(self).view().spec_cancelled(id, shares),
    {
        broadcast use vstd::std_specs::hash::group_hash_axioms;

        let stock = match self.order_symbol.get(&id) {
            Some(s) => s.clone(),
            None => return ,
        };
        let st = self.stats_of(&stock);
        self.bump_stats(&stock, SymbolStats { cancels: st.cancels.wrapping_add(1), ..st });
        match self.books.find(stock.as_str()) {
            Some(bi) => {
                let mut book = self.books.swap_at(bi, Orderbook::new());
                let _ = book.reduce(id, shares as u64);
                let gone = book.order(id).is_none();
                let _ = self.books.swap_at(bi, book);
                if gone {
                    self.order_symbol.remove(&id);
                }
            },
            None => {},
        }
        proof {
            let goal = old(self).view().spec_cancelled(id, shares);
            lemma_cancelled_consistent(old(self).view(), id, shares);
            assert(self.view().books =~= goal.books);
            assert(self.view().order_symbol =~= goal.order_symbol);
            assert(self.view().stats =~= goal.stats);
        }
    }

    fn deleted(&mut self, id: u64)
        requires
            old(self).wf(),
        ensures
            final(self).wf(),
            final(self).view() == old(self).view().spec_deleted(id),
    {
        broadcast use vstd::std_specs::hash::group_hash_axioms;

        let stock = match self.order_symbol.remove(&id) {
            Some(s) => s,
            None => {
                proof {
                    assert(self.order_symbol@ =~= old(self).order_symbol@);
                    assert(self.view().order_symbol =~= old(self).view().order_symbol);
                }
                return ;
            },
        };
        proof {
            assert(self.view().order_symbol =~= old(self).view().order_symbol.remove(id));
            assert(old(self).view().order_symbol.contains_key(id));
        }
        let st = self.stats_of(&stock);
        self.bump_stats(&stock, SymbolStats { deletes: st.deletes.wrapping_add(1), ..st });
        match self.books.find(stock.as_str()) {
            Some(bi) => {
                let mut book = self.books.swap_at(bi, Orderbook::new());
                let _ = book.cancel(id);
                let _ = self.books.swap_at(bi, book);
            },
            None => {},
        }
        proof {
            let goal = old(self).view().spec_deleted(id);
            lemma_deleted_consistent(old(self).view(), id);
            assert(self.view().books =~= goal.books);
            assert(self.view().order_symbol =~= goal.order_symbol);
            assert(self.view().stats =~= goal.stats);
        }
    }

    fn replaced(&mut self, old_id: u64, new_id: u64, shares: u32, price: u32)
        requires
            old(self).wf(),
        ensures
            final(self).wf(),
            final(self).view() == old(self).view().spec_replaced(old_id, new_id, shares, price),
    {
        broadcast use vstd::std_specs::hash::group_hash_axioms;

        let stock = match self.order_symbol.remove(&old_id) {
            Some(s) => s,
            None => {
                proof {
                    assert(self.order_symbol@ =~= old(self).order_symbol@);
                    assert(self.view().order_symbol =~= old(self).view().order_symbol);
                }
                return ;
            },
        };
        proof {
            assert(self.view().order_symbol =~= old(self).view().order_symbol.remove(old_id));
            assert(old(self).view().order_symbol.contains_key(old_id));
        }
        let st = self.stats_of(&stock);
        self.bump_stats(&stock, SymbolStats { replaces: st.replaces.wrapping_add(1), ..st });
        match self.books.find(stock.as_str()) {
            Some(bi) => {
                let mut book = self.books.swap_at(bi, Orderbook::new());
                let _ = book.replace(old_id, new_id, Price(price as i64), shares as u64);
                let _ = self.books.swap_at(bi, book);
            },
            None => {},
        }
        self.order_symbol.insert(new_id, stock);
        proof {
            let goal = old(self).view().spec_replaced(old_id, new_id, shares, price);
            lemma_replaced_consistent(old(self).view(), old_id, new_id, shares, price);
            assert(self.view().books =~= goal.books);
            assert(self.view().order_symbol =~= goal.order_symbol);
            assert(self.view().stats =~= goal.stats);
        }
    }

    fn traded(&mut self, stock: &String, shares: u32)
        requires
            old(self).wf(),
        ensures
            final(self).wf(),
            final(self).view() == old(self).view().spec_traded(stock@, shares),
    {
        if self.wanted(stock) {
            let st = self.stats_of(stock);
            self.bump_stats(
                stock,
                SymbolStats {
                    trades: st.trades.wrapping_add(1),
                    volume: st.volume.wrapping_add(shares as u64),
                    ..st
                },
            );
        }
    }

    fn stats_of(&self, stock: &String) -> (st: SymbolStats)
        requires
            self.wf(),
        ensures
            st == self.view().stats_of(stock@),
    {
        match self.stats.find(stock.as_str()) {
            Some(i) => *self.stats.at(i),
            None => SymbolStats::default(),
        }
    }
}


/// Builds per-symbol orderbooks from an ITCH message stream.
///
/// ITCH order ids are unique per session across all symbols, so a global
/// order-id -> symbol map routes execute/cancel/delete/replace messages.
///
/// Every builder is consistent (`BuilderView::consistent`); the accessors
/// state it, so a caller holding any builder can rely on it.
pub struct BookBuilder {
    tables: Tables,
}

impl View for BookBuilder {
    type V = BuilderView;

    closed spec fn view(&self) -> BuilderView {
        self.tables.view()
    }
}

impl BookBuilder {
    #[verifier::type_invariant]
    spec fn tables_agree(self) -> bool {
        self.tables.wf()
    }

    pub fn new() -> (b: Self)
        ensures
            b@.books == Map::<Seq<char>, BookView>::empty(),
            b@.order_symbol == Map::<u64, Seq<char>>::empty(),
            b@.stats == Map::<Seq<char>, SymbolStats>::empty(),
            b@.filter == None::<Seq<char>>,
            b@.consistent(),
    {
        BookBuilder { tables: Tables::empty(None) }
    }

    /// Only build the book for `symbol`; other messages are counted but skipped.
    pub fn for_symbol(symbol: &str) -> (b: Self)
        ensures
            b@.books == Map::<Seq<char>, BookView>::empty(),
            b@.order_symbol == Map::<u64, Seq<char>>::empty(),
            b@.stats == Map::<Seq<char>, SymbolStats>::empty(),
            b@.filter == Some(symbol@),
            b@.consistent(),
    {
        BookBuilder { tables: Tables::empty(Some(symbol.to_owned())) }
    }

    /// The book built for `symbol`, if any.
    pub fn book(&self, symbol: &str) -> (r: Option<&Orderbook>)
        ensures
            self@.consistent(),
            match r {
                Some(b) => self@.books.contains_key(symbol@) && b@ == self@.books[symbol@],
                None => !self@.books.contains_key(symbol@),
            },
    {
        proof {
            use_type_invariant(self);
        }
        match self.tables.books.find(symbol) {
            Some(i) => Some(self.tables.books.at(i)),
            None => None,
        }
    }

    /// All books, each symbol once.
    pub fn books(&self) -> (r: &[(String, Orderbook)])
        ensures
            self@.consistent(),
            forall|i: int|
                0 <= i < r@.len() ==> self@.books.contains_key(#[trigger] r@[i].0@) && r@[i].1@
                    == self@.books[r@[i].0@],
            forall|i: int, j: int| 0 <= i < j < r@.len() ==> r@[i].0@ != r@[j].0@,
            forall|s: Seq<char>|
                #[trigger] self@.books.contains_key(s) ==> exists|i: int|
                    0 <= i < r@.len() && r@[i].0@ == s,
    {
        proof {
            use_type_invariant(self);
            self.tables.books.lemma_list();
        }
        self.tables.books.as_slice()
    }

    /// Statistics of every symbol seen, each symbol once.
    pub fn stats(&self) -> (r: &[(String, SymbolStats)])
        ensures
            self@.consistent(),
            forall|i: int|
                0 <= i < r@.len() ==> self@.stats.contains_key(#[trigger] r@[i].0@) && r@[i].1
                    == self@.stats[r@[i].0@],
            forall|i: int, j: int| 0 <= i < j < r@.len() ==> r@[i].0@ != r@[j].0@,
            forall|s: Seq<char>|
                #[trigger] self@.stats.contains_key(s) ==> exists|i: int|
                    0 <= i < r@.len() && r@[i].0@ == s,
    {
        proof {
            use_type_invariant(self);
            self.tables.stats.lemma_list();
        }
        self.tables.stats.as_slice()
    }

    /// Statistics of `symbol`, if it was seen.
    pub fn symbol_stats(&self, symbol: &str) -> (r: Option<&SymbolStats>)
        ensures
            self@.consistent(),
            match r {
                Some(st) => self@.stats.contains_key(symbol@) && *st == self@.stats[symbol@],
                None => !self@.stats.contains_key(symbol@),
            },
    {
        proof {
            use_type_invariant(self);
        }
        match self.tables.stats.find(symbol) {
            Some(i) => Some(self.tables.stats.at(i)),
            None => None,
        }
    }

    /// Apply one message to the books.
    pub fn apply(&mut self, msg: &Message)
        ensures
            final(self)@ == old(self)@.spec_apply(*msg),
            final(self)@.consistent(),
    {
        proof {
            use_type_invariant(&*self);
        }
        let mut t = Tables::empty(None);
        std::mem::swap(&mut t, &mut self.tables);
        match msg {
            Message::AddOrder { order_id, side, shares, stock, price, .. } => {
                t.add_order(*order_id, *side, *shares, stock, *price)
            },
            Message::AddOrderMpid { order_id, side, shares, stock, price, .. } => {
                t.add_order(*order_id, *side, *shares, stock, *price)
            },
            Message::OrderExecuted { order_id, shares, .. } => t.executed(*order_id, *shares),
            Message::OrderExecutedPrice { order_id, shares, .. } => t.executed(*order_id, *shares),
            Message::OrderCancel { order_id, shares, .. } => t.cancelled(*order_id, *shares),
            Message::OrderDelete { order_id, .. } => t.deleted(*order_id),
            Message::OrderReplace { old_order_id, new_order_id, shares, price, .. } => {
                t.replaced(*old_order_id, *new_order_id, *shares, *price)
            },
            Message::Trade { stock, shares, .. } => t.traded(stock, *shares),
            _ => {},
        }
        self.tables = t;
    }

    /// Replay an entire length-framed stream. Returns messages applied.
    pub fn replay(&mut self, data: &[u8]) -> (r: Result<u64, ItchError>)
        ensures
            replayed(
                old(self)@,
                frames(data@).take(parsed_prefix(frames(data@)) as int),
                final(self)@,
            ),
            final(self)@.consistent(),
            match r {
                Ok(n) => {
                    &&& parsed_prefix(frames(data@)) == frames(data@).len()
                    &&& !cut_short(data@)
                    &&& n == frames(data@).len()
                },
                Err(e) => if parsed_prefix(frames(data@)) < frames(data@).len() {
                    parses_to(
                        frames(data@)[parsed_prefix(frames(data@)) as int],
                        Err::<Message, ItchError>(e),
                    )
                } else {
                    &&& cut_short(data@)
                    &&& e == ItchError::Io(IoErrorKind::UnexpectedEof)
                },
            },
    {
        proof {
            use_type_invariant(&*self);
        }
        let ghost start = data@;
        let ghost before = self@;
        let ghost mut done: Seq<Seq<u8>> = Seq::empty();
        let ghost mut msgs: Seq<Message> = Seq::empty();
        let mut n: u64 = 0;
        let total: usize = data.len();
        let mut reader = Reader::new(data);
        proof {
            assert(done + frames(reader.rest()) =~= frames(start));
        }
        loop
            invariant
                start == data@,
                before == old(self)@,
                start.len() == total,
                frames(start) == done + frames(reader.rest()),
                cut_short(start) == cut_short(reader.rest()),
                parsed_prefix(frames(start)) == done.len() + parsed_prefix(frames(reader.rest())),
                n == done.len(),
                n + reader.rest().len() <= start.len(),
                msgs.len() == done.len(),
                forall|i: int|
                    0 <= i < done.len() ==> parses_to(#[trigger] done[i], Ok::<Message, ItchError>(msgs[i])),
                self@ == apply_all(before, msgs),
                self@.consistent(),
            decreases reader.rest().len(),
        {
            let ghost rest = reader.rest();
            match reader.next() {
                None => {
                    proof {
                        assert(frames(rest) =~= Seq::<Seq<u8>>::empty());
                        assert(parsed_prefix(frames(rest)) == 0);
                        assert(frames(start) =~= done);
                        assert(frames(start).take(done.len() as int) =~= done);
                        lemma_replayed(before, done, msgs, self@);
                    }
                    return Ok(n);
                },
                Some(Err(e)) => {
                    proof {
                        if has_frame(rest) {
                            let body = rest.subrange(2, 2 + frame_len(rest));
                            assert(frames(rest)[0] == body);
                            assert(frames(start)[done.len() as int] == body);
                            assert(parse_fails(body));
                        } else {
                            assert(frames(rest) =~= Seq::<Seq<u8>>::empty());
                        }
                        assert(parsed_prefix(frames(rest)) == 0);
                        assert(frames(start).take(done.len() as int) =~= done);
                        lemma_replayed(before, done, msgs, self@);
                    }
                    return Err(e);
                },
                Some(Ok(m)) => {
                    let ghost body = rest.subrange(2, 2 + frame_len(rest));
                    proof {
                        assert(frames(rest) == seq![body] + frames(reader.rest()));
                        assert((seq![body] + frames(reader.rest())).drop_first() =~= frames(
                            reader.rest(),
                        ));
                        assert(done + frames(rest) =~= done.push(body) + frames(reader.rest()));
                    }
                    proof {
                        assert(reader.rest().len() + 3 <= rest.len());
                    }
                    self.apply(&m);
                    n = n + 1;
                    proof {
                        let old_msgs = msgs;
                        done = done.push(body);
                        msgs = msgs.push(m);
                        assert(msgs.drop_last() =~= old_msgs);
                    }
                },
            }
        }
    }
}

proof fn lemma_replayed(
    before: BuilderView,
    bodies: Seq<Seq<u8>>,
    msgs: Seq<Message>,
    after: BuilderView,
)
    requires
        msgs.len() == bodies.len(),
        forall|i: int|
            0 <= i < bodies.len() ==> parses_to(#[trigger] bodies[i], Ok::<Message, ItchError>(msgs[i])),
        after == apply_all(before, msgs),
    ensures
        replayed(before, bodies, after),
{
}

impl Default for BookBuilder {
    fn default() -> (b: Self)
        ensures
            b@.books == Map::<Seq<char>, BookView>::empty(),
            b@.order_symbol == Map::<u64, Seq<char>>::empty(),
            b@.stats == Map::<Seq<char>, SymbolStats>::empty(),
            b@.filter == None::<Seq<char>>,
    {
        BookBuilder::new()
    }
}

/// The number of leading bodies that parse without error.
pub open spec fn parsed_prefix(bodies: Seq<Seq<u8>>) -> nat
    decreases bodies.len(),
{
    if bodies.len() == 0 || parse_fails(bodies[0]) {
        0
    } else {
        1 + parsed_prefix(bodies.drop_first())
    }
}

/// Whether parsing `body` fails: it is empty, or its type is implemented and
/// the body is shorter than its layout.
pub open spec fn parse_fails(body: Seq<u8>) -> bool {
    body.len() == 0 || match field_sizes(body[0] as char) {
        Some(sizes) => overrun(sizes, 0, (body.len() - 1) as nat) > body.len() - 1,
        None => false,
    }
}

/// Applying messages in order.
pub open spec fn apply_all(v: BuilderView, msgs: Seq<Message>) -> BuilderView
    decreases msgs.len(),
{
    if msgs.len() == 0 {
        v
    } else {
        apply_all(v, msgs.drop_last()).spec_apply(msgs.last())
    }
}

/// `after` is `before` with the messages that `bodies` parse to applied in
/// order.
pub open spec fn replayed(before: BuilderView, bodies: Seq<Seq<u8>>, after: BuilderView) -> bool {
    exists|msgs: Seq<Message>|
        {
            &&& msgs.len() == bodies.len()
            &&& forall|i: int|
                0 <= i < bodies.len() ==> parses_to(#[trigger] bodies[i], Ok::<Message, ItchError>(msgs[i]))
            &&& after == #[trigger] apply_all(before, msgs)
        }
}


// --- ranking -----------------------------------------------------------------

/// Entry `i` ranks before entry `j`: more volume, or equal volume and listed
/// earlier.
pub open spec fn ranks_before(stats: Seq<(String, SymbolStats)>, i: int, j: int) -> bool {
    stats[i].1.volume > stats[j].1.volume || (stats[i].1.volume == stats[j].1.volume && i < j)
}

/// Positions of the `limit` entries with the most volume, most first; equal
/// volumes keep their listed order.
pub fn rank_by_volume(stats: &[(String, SymbolStats)], limit: usize) -> (r: Vec<usize>)
    ensures
        r@.len() == if limit <= stats@.len() {
            limit as int
        } else {
            stats@.len() as int
        },
        forall|k: int| 0 <= k < r@.len() ==> #[trigger] r@[k] < stats@.len(),
        forall|a: int, b: int|
            0 <= a < b < r@.len() ==> ranks_before(stats@, r@[a] as int, r@[b] as int),
        forall|j: usize|
            j < stats@.len() && !#[trigger] r@.contains(j) ==> forall|k: int|
                0 <= k < r@.len() ==> ranks_before(stats@, #[trigger] r@[k] as int, j as int),
{
    let n = stats.len();
    let mut chosen: Vec<bool> = Vec::new();
    let mut i: usize = 0;
    while i < n
        invariant
            i <= n == stats@.len(),
            chosen@.len() == i,
            forall|j: int| 0 <= j < i ==> !chosen@[j],
        decreases n - i,
    {
        chosen.push(false);
        i = i + 1;
    }
    let mut r: Vec<usize> = Vec::new();
    while r.len() < limit && r.len() < n
        invariant
            n == stats@.len(),
            chosen@.len() == n,
            forall|k: int| 0 <= k < r@.len() ==> #[trigger] r@[k] < n,
            forall|j: int| 0 <= j < n ==> (chosen@[j] <==> r@.contains(j as usize)),
            r@.len() <= n,
            r@.len() <= limit,
            forall|a: int, b: int|
                0 <= a < b < r@.len() ==> ranks_before(stats@, r@[a] as int, r@[b] as int),
            forall|j: int|
                0 <= j < n && !chosen@[j] ==> forall|k: int|
                    0 <= k < r@.len() ==> ranks_before(stats@, #[trigger] r@[k] as int, j),
        decreases n - r@.len(),
    {
        // the first unchosen entry with the most volume
        let mut best: usize = n;
        let mut j: usize = 0;
        while j < n
            invariant
                n == stats@.len(),
                chosen@.len() == n,
                j <= n,
                best == n || (best < j && !chosen@[best as int]),
                forall|x: int|
                    0 <= x < j && !chosen@[x] ==> best < n && (x == best || ranks_before(
                        stats@,
                        best as int,
                        x,
                    )),
                (exists|x: int| 0 <= x < j && !chosen@[x]) ==> best < n,
            decreases n - j,
        {
            if !chosen[j] {
                if best == n || stats[j].1.volume > stats[best].1.volume {
                    best = j;
                }
            }
            j = j + 1;
        }
        proof {
            let count = r@.len();
            assert(r@.len() < n);
            lemma_some_unchosen(r@, n as int);
            let x = choose|x: usize| x < n && !r@.contains(x);
            assert(!chosen@[x as int]);
        }
        let ghost old_r = r@;
        chosen.set(best, true);
        r.push(best);
        proof {
            assert forall|k: int| 0 <= k < old_r.len() implies ranks_before(stats@, #[trigger] r@[k] as int, best as int) by {
                assert(r@[k] == old_r[k]);
            }
            assert forall|jj: int| 0 <= jj < n implies (chosen@[jj] <==> r@.contains(jj as usize)) by {
                if jj == best {
                    assert(r@[old_r.len() as int] == best);
                } else {
                    if r@.contains(jj as usize) {
                        let k = choose|k: int| 0 <= k < r@.len() && r@[k] == jj as usize;
                        assert(k < old_r.len());
                        assert(old_r[k] == jj as usize);
                    }
                    if old_r.contains(jj as usize) {
                        let k = choose|k: int| 0 <= k < old_r.len() && old_r[k] == jj as usize;
                        assert(r@[k] == jj as usize);
                    }
                }
            }
        }
    }
    proof {
        assert forall|j: usize| j < n && !#[trigger] r@.contains(j) implies forall|k: int|
            0 <= k < r@.len() ==> ranks_before(stats@, #[trigger] r@[k] as int, j as int) by {
            assert(!chosen@[j as int]);
        }
    }
    r
}

/// Fewer than `n` positions below `n` leave one of them out.
proof fn lemma_some_unchosen(r: Seq<usize>, n: int)
    requires
        r.len() < n <= usize::MAX,
        forall|k: int| 0 <= k < r.len() ==> #[trigger] r[k] < n,
    ensures
        exists|x: usize| x < n && !r.contains(x),
{
    if forall|x: usize| x < n ==> #[trigger] r.contains(x) {
        let covered = Set::new(|x: int| 0 <= x < n);
        let image = r.map_values(|v: usize| v as int).to_set();
        assert(covered.subset_of(image)) by {
            assert forall|x: int| covered.contains(x) implies image.contains(x) by {
                assert(r.contains(x as usize));
                let k = choose|k: int| 0 <= k < r.len() && r[k] == x as usize;
                assert(r.map_values(|v: usize| v as int)[k] == x);
            }
        }
        vstd::set_lib::lemma_int_range(0, n);
        assert(covered =~= vstd::set_lib::set_int_range(0, n));
        r.map_values(|v: usize| v as int).lemma_cardinality_of_set();
        vstd::set_lib::lemma_len_subset(covered, image);
    }
}

// --- laws --------------------------------------------------------------------

/// The 2-byte big-endian length prefix for a body of `n` bytes.
pub open spec fn be16(n: nat) -> Seq<u8> {
    seq![(n / 256) as u8, (n % 256) as u8]
}

/// Bodies written one after the other, each after its length prefix.
pub open spec fn framed(bodies: Seq<Seq<u8>>) -> Seq<u8>
    decreases bodies.len(),
{
    if bodies.len() == 0 {
        Seq::empty()
    } else {
        be16(bodies[0].len()) + bodies[0] + framed(bodies.drop_first())
    }
}

/// Framing round trip: reading a stream of framed bodies (each non-empty and
/// at most 65535 bytes) gives back exactly those bodies, in order, and the
/// stream ends cleanly.
pub proof fn lemma_framing_roundtrip(bodies: Seq<Seq<u8>>)
    requires
        forall|i: int| 0 <= i < bodies.len() ==> 1 <= #[trigger] bodies[i].len() <= 65535,
    ensures
        frames(framed(bodies)) == bodies,
        !cut_short(framed(bodies)),
    decreases bodies.len(),
{
    if bodies.len() == 0 {
        assert(frames(framed(bodies)) =~= bodies);
    } else {
        let b = bodies[0];
        let n = b.len();
        let s = framed(bodies);
        let tail = bodies.drop_first();
        assert forall|i: int| 0 <= i < tail.len() implies 1 <= #[trigger] tail[i].len() <= 65535 by {
            assert(tail[i] == bodies[i + 1]);
        }
        lemma_framing_roundtrip(tail);
        let p = be16(n);
        assert(s.take(2) =~= p);
        assert(p.drop_last() =~= seq![p[0]]);
        assert(seq![p[0]].drop_last() =~= Seq::<u8>::empty());
        assert(n / 256 <= 255);
        assert(p[0] == n / 256);
        assert(p[1] == n % 256);
        reveal_with_fuel(be, 3);
        assert(be(seq![p[0]]) == p[0]);
        assert(be(p) == (n / 256) * 256 + n % 256);
        assert(frame_len(s) == n);
        assert(s.subrange(2, 2 + n as int) =~= b);
        assert(s.skip(2 + n as int) =~= framed(tail));
        assert(frames(s) =~= seq![b] + tail);
        assert(bodies =~= seq![b] + tail);
    }
}

/// Framed bodies followed by anything: the bodies are read first, in order,
/// and the rest of the stream is read as it would be on its own.
proof fn lemma_framed_then(bodies: Seq<Seq<u8>>, tail: Seq<u8>)
    requires
        forall|i: int| 0 <= i < bodies.len() ==> 1 <= #[trigger] bodies[i].len() <= 65535,
    ensures
        frames(framed(bodies) + tail) == bodies + frames(tail),
        cut_short(framed(bodies) + tail) == cut_short(tail),
    decreases bodies.len(),
{
    if bodies.len() == 0 {
        assert(framed(bodies) + tail =~= tail);
        assert(bodies + frames(tail) =~= frames(tail));
    } else {
        let b = bodies[0];
        let n = b.len();
        let tl = bodies.drop_first();
        assert forall|i: int| 0 <= i < tl.len() implies 1 <= #[trigger] tl[i].len() <= 65535 by {
            assert(tl[i] == bodies[i + 1]);
        }
        lemma_framed_then(tl, tail);
        let s = framed(bodies) + tail;
        let p = be16(n);
        assert(framed(bodies) == p + b + framed(tl));
        assert(s.take(2) =~= p);
        assert(p.drop_last() =~= seq![p[0]]);
        assert(seq![p[0]].drop_last() =~= Seq::<u8>::empty());
        assert(n / 256 <= 255);
        reveal_with_fuel(be, 3);
        assert(be(seq![p[0]]) == p[0]);
        assert(be(p) == (n / 256) * 256 + n % 256);
        assert(frame_len(s) == n);
        assert(s.subrange(2, 2 + n as int) =~= b);
        assert(s.skip(2 + n as int) =~= framed(tl) + tail);
        assert(bodies + frames(tail) =~= seq![b] + (tl + frames(tail)));
    }
}

/// A zero length prefix ends a stream as the end of input does: framed
/// bodies (each non-empty and at most 65535 bytes) followed by a zero
/// length and anything at all read as exactly those bodies, in order, and
/// the stream ends cleanly.
pub proof fn lemma_zero_length_ends_stream(bodies: Seq<Seq<u8>>, rest: Seq<u8>)
    requires
        forall|i: int| 0 <= i < bodies.len() ==> 1 <= #[trigger] bodies[i].len() <= 65535,
    ensures
        frames(framed(bodies) + seq![0u8, 0u8] + rest) == bodies,
        !cut_short(framed(bodies) + seq![0u8, 0u8] + rest),
{
    let tail = seq![0u8, 0u8] + rest;
    lemma_framed_then(bodies, tail);
    assert(framed(bodies) + seq![0u8, 0u8] + rest =~= framed(bodies) + tail);
    assert(tail.take(2) =~= seq![0u8, 0u8]);
    reveal_with_fuel(be, 3);
    assert(seq![0u8, 0u8].drop_last() =~= seq![0u8]);
    assert(seq![0u8].drop_last() =~= Seq::<u8>::empty());
    assert(frame_len(tail) == 0);
    assert(frames(tail) =~= Seq::<Seq<u8>>::empty());
    assert(bodies + frames(tail) =~= bodies);
}

/// Total size of a layout.
pub open spec fn layout_len(sizes: Seq<nat>) -> nat
    decreases sizes.len(),
{
    if sizes.len() == 0 {
        0
    } else {
        sizes[0] + layout_len(sizes.drop_first())
    }
}

proof fn lemma_overrun(sizes: Seq<nat>, pos: nat, have: nat)
    requires
        pos <= have,
    ensures
        (overrun(sizes, pos, have) > have) == (pos + layout_len(sizes) > have),
    decreases sizes.len(),
{
    if sizes.len() > 0 && pos + sizes[0] <= have {
        lemma_overrun(sizes.drop_first(), pos + sizes[0], have);
    }
}

/// A body fails to parse exactly when its type is implemented and it is
/// shorter than that type's layout; unknown types and long enough bodies
/// always parse.
pub proof fn lemma_parse_fails_iff_short(body: Seq<u8>)
    ensures
        parse_fails(body) == (body.len() == 0 || (field_sizes(body[0] as char) matches Some(
            sizes,
        ) && body.len() - 1 < layout_len(sizes))),
{
    if body.len() == 0 {
    } else if let Some(sizes) = field_sizes(body[0] as char) {
        lemma_overrun(sizes, 0, (body.len() - 1) as nat);
    }
}


/// The total size of each implemented layout.
proof fn lemma_layout_sizes(tag: char)
    ensures
        field_sizes(tag) matches Some(sizes) ==> layout_len(sizes) == if tag == 'S' {
            11nat
        } else if tag == 'R' {
            33nat
        } else if tag == 'H' || tag == 'Y' {
            19nat
        } else if tag == 'L' {
            25nat
        } else if tag == 'A' || tag == 'C' {
            35nat
        } else if tag == 'F' {
            39nat
        } else if tag == 'E' {
            30nat
        } else if tag == 'X' {
            22nat
        } else if tag == 'D' || tag == 'B' {
            18nat
        } else if tag == 'U' {
            34nat
        } else if tag == 'P' {
            43nat
        } else {
            31nat
        },
{
    reveal_with_fuel(layout_len, 16);
}

/// The fields of a message lie within its layout: a payload that agrees
/// with `p` on the layout decodes to the same messages.
proof fn lemma_decoded_prefix(tag: char, p: Seq<u8>, pq: Seq<u8>, m: Message)
    requires
        field_sizes(tag) matches Some(sizes) && layout_len(sizes) <= p.len(),
        p.len() <= pq.len(),
        forall|i: int| 0 <= i < p.len() ==> #[trigger] pq[i] == p[i],
    ensures
        decoded(tag, pq, m) == decoded(tag, p, m),
{
    lemma_layout_sizes(tag);
    assert forall|off: int, n: int|
        0 <= off && 0 <= n && off + n <= p.len() implies #[trigger] pq.subrange(off, off + n)
        == p.subrange(off, off + n) by {
        assert(pq.subrange(off, off + n) =~= p.subrange(off, off + n));
    }
}

/// Bytes after a message's layout are ignored: a body that parses (long
/// enough for its type, or of a type not implemented) gives the same result
/// with any bytes appended.
pub proof fn lemma_parse_ignores_trailing(
    body: Seq<u8>,
    extra: Seq<u8>,
    r: Result<Message, ItchError>,
)
    requires
        !parse_fails(body),
    ensures
        parses_to(body + extra, r) == parses_to(body, r),
{
    let q = body + extra;
    let tag = body[0] as char;
    let p = body.subrange(1, body.len() as int);
    let pq = q.subrange(1, q.len() as int);
    assert(q[0] == body[0]);
    assert forall|i: int| 0 <= i < p.len() implies #[trigger] pq[i] == p[i] by {
        assert(pq[i] == q[i + 1]);
    }
    if let Some(sizes) = field_sizes(tag) {
        lemma_parse_fails_iff_short(body);
        lemma_parse_fails_iff_short(q);
        assert(!parse_fails(q));
        if let Ok(m) = r {
            lemma_decoded_prefix(tag, p, pq, m);
        }
    }
}

/// The stock locate and tracking number (body bytes 1 to 4) are read and
/// dropped: bodies that differ only there parse to the same result.
pub proof fn lemma_parse_ignores_locate_tracking(
    body: Seq<u8>,
    other: Seq<u8>,
    r: Result<Message, ItchError>,
)
    requires
        other.len() == body.len(),
        forall|i: int| 0 <= i < body.len() && !(1 <= i < 5) ==> #[trigger] other[i] == body[i],
    ensures
        parses_to(other, r) == parses_to(body, r),
{
    if body.len() > 0 {
        let tag = body[0] as char;
        let p = body.subrange(1, body.len() as int);
        let po = other.subrange(1, other.len() as int);
        assert(other[0] == body[0]);
        assert forall|off: int, n: int|
            4 <= off && 0 <= n && off + n <= p.len() implies #[trigger] po.subrange(off, off + n)
            == p.subrange(off, off + n) by {
            assert forall|k: int| 0 <= k < n implies #[trigger] po[off + k] == p[off + k] by {
                assert(other[off + k + 1] == body[off + k + 1]);
            }
            assert(po.subrange(off, off + n) =~= p.subrange(off, off + n));
        }
        assert forall|i: int| 4 <= i < p.len() implies #[trigger] po[i] == p[i] by {
            assert(other[i + 1] == body[i + 1]);
        }
        if let Ok(m) = r {
            if field_sizes(tag) is Some {
                lemma_parse_fails_iff_short(body);
                if !parse_fails(body) {
                    lemma_layout_sizes(tag);
                    assert(decoded(tag, po, m) == decoded(tag, p, m));
                }
            }
        }
    }
}

/// The timestamp that a message carries, if its type has one.
pub open spec fn message_ns(m: Message) -> Option<u64> {
    match m {
        Message::SystemEvent { ns, .. } => Some(ns),
        Message::StockDirectory { ns, .. } => Some(ns),
        Message::TradingAction { ns, .. } => Some(ns),
        Message::RegSho { ns, .. } => Some(ns),
        Message::ParticipantPosition { ns, .. } => Some(ns),
        Message::AddOrder { ns, .. } => Some(ns),
        Message::AddOrderMpid { ns, .. } => Some(ns),
        Message::OrderExecuted { ns, .. } => Some(ns),
        Message::OrderExecutedPrice { ns, .. } => Some(ns),
        Message::OrderCancel { ns, .. } => Some(ns),
        Message::OrderDelete { ns, .. } => Some(ns),
        Message::OrderReplace { ns, .. } => Some(ns),
        Message::Trade { ns, .. } => Some(ns),
        Message::CrossTrade { ns, .. } => Some(ns),
        Message::BrokenTrade { ns, .. } => Some(ns),
        Message::Unsupported { .. } => None,
    }
}

/// Every decoded message carries the 48-bit big-endian timestamp at bytes
/// 5..11 of its body (after tag, locate and tracking number), so it is below
/// 2^48; the stock symbol, where the type has one, has no trailing
/// whitespace.
pub proof fn lemma_decoded_fields(body: Seq<u8>, m: Message)
    requires
        parses_to(body, Ok::<Message, ItchError>(m)),
    ensures
        m is Unsupported || message_ns(m) == Some(be(body.subrange(5, 11)) as u64),
        message_ns(m) matches Some(ns) ==> ns < 0x1_0000_0000_0000,
        message_stock(m) matches Some(st) ==> st.len() == 0 || !crate::text::is_space(st.last()),
{
    if !(m is Unsupported) {
        let p = body.subrange(1, body.len() as int);
        assert(!parse_fails(body));
        lemma_parse_fails_iff_short(body);
        lemma_layout_sizes(body[0] as char);
        assert(p.subrange(4, 10) =~= body.subrange(5, 11));
        lemma_be_bound(body.subrange(5, 11));
        reveal_with_fuel(pow256, 7);
        assert(pow256(6) == 0x1_0000_0000_0000);
    }
    if let Some(st) = message_stock(m) {
        let p = body.subrange(1, body.len() as int);
        let tag = body[0] as char;
        let off: int = if tag == 'L' {
            14
        } else if tag == 'A' || tag == 'F' || tag == 'P' {
            23
        } else if tag == 'Q' {
            18
        } else {
            10
        };
        assert(st == text(p, off, 8));
        crate::text::lemma_trim_end(lossy_text(p.subrange(off, off + 8)));
    }
}

/// Parsing is deterministic as far as book building can tell: two messages
/// that a body parses to have the same effect on any builder state.
pub proof fn lemma_parse_apply_deterministic(v: BuilderView, body: Seq<u8>, m1: Message, m2: Message)
    requires
        parses_to(body, Ok::<Message, ItchError>(m1)),
        parses_to(body, Ok::<Message, ItchError>(m2)),
    ensures
        v.spec_apply(m1) == v.spec_apply(m2),
{
}

/// Replaying a stream has one outcome: the state after applying its messages
/// in order.
pub proof fn lemma_replayed_unique(
    before: BuilderView,
    bodies: Seq<Seq<u8>>,
    a1: BuilderView,
    a2: BuilderView,
)
    requires
        replayed(before, bodies, a1),
        replayed(before, bodies, a2),
    ensures
        a1 == a2,
{
    let msgs1 = choose|msgs: Seq<Message>|
        {
            &&& msgs.len() == bodies.len()
            &&& forall|i: int|
                0 <= i < bodies.len() ==> parses_to(#[trigger] bodies[i], Ok::<Message, ItchError>(msgs[i]))
            &&& a1 == #[trigger] apply_all(before, msgs)
        };
    let msgs2 = choose|msgs: Seq<Message>|
        {
            &&& msgs.len() == bodies.len()
            &&& forall|i: int|
                0 <= i < bodies.len() ==> parses_to(#[trigger] bodies[i], Ok::<Message, ItchError>(msgs[i]))
            &&& a2 == #[trigger] apply_all(before, msgs)
        };
    lemma_apply_all_same(before, bodies, msgs1, msgs2);
}

proof fn lemma_apply_all_same(
    before: BuilderView,
    bodies: Seq<Seq<u8>>,
    msgs1: Seq<Message>,
    msgs2: Seq<Message>,
)
    requires
        msgs1.len() == bodies.len(),
        msgs2.len() == bodies.len(),
        forall|i: int|
            0 <= i < bodies.len() ==> parses_to(#[trigger] bodies[i], Ok::<Message, ItchError>(msgs1[i])),
        forall|i: int|
            0 <= i < bodies.len() ==> parses_to(#[trigger] bodies[i], Ok::<Message, ItchError>(msgs2[i])),
    ensures
        apply_all(before, msgs1) == apply_all(before, msgs2),
    decreases bodies.len(),
{
    if bodies.len() > 0 {
        let n = bodies.len() - 1;
        let b = bodies.drop_last();
        assert forall|i: int| 0 <= i < b.len() implies parses_to(#[trigger] b[i], Ok::<Message, ItchError>(msgs1.drop_last()[i])) by {
            assert(b[i] == bodies[i]);
        }
        assert forall|i: int| 0 <= i < b.len() implies parses_to(#[trigger] b[i], Ok::<Message, ItchError>(msgs2.drop_last()[i])) by {
            assert(b[i] == bodies[i]);
        }
        lemma_apply_all_same(before, b, msgs1.drop_last(), msgs2.drop_last());
        lemma_parse_apply_deterministic(
            apply_all(before, msgs1.drop_last()),
            bodies[n],
            msgs1[n],
            msgs2[n],
        );
    }
}

} // verus!
