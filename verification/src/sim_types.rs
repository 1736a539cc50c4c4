//! What simulated agents are told and what they ask for.

use crate::bytes::Id32;
use crate::hexes::{hex_encode, hex_text, hex_value, is_hex_digit, law_hex_round_trip};
use crate::text::{strip_pairs, stripped};
use crate::types::{Match, MatchSpec, OrderSide, Region};
use vstd::prelude::*;
use vstd::utf8::encode_utf8;

verus! {

/// A trade as it is reported. The time is the simulation's, in microseconds.
#[derive(Clone, Debug)]
pub struct TradeRecord {
    pub id: String,
    pub symbol: String,
    pub price: u64,
    pub amount: u64,
    pub seller: String,
    pub buyer: String,
    pub timestamp_us: u64,
    pub node_id: u32,
}

/// What a [`TradeRecord`] stands for.
#[verifier::ext_equal]
pub struct TradeRecordSpec {
    pub id: Seq<char>,
    pub symbol: Seq<char>,
    pub price: u64,
    pub amount: u64,
    pub seller: Seq<char>,
    pub buyer: Seq<char>,
    pub timestamp_us: u64,
    pub node_id: u32,
}

impl View for TradeRecord {
    type V = TradeRecordSpec;

    open spec fn view(&self) -> TradeRecordSpec {
        TradeRecordSpec {
            id: self.id@,
            symbol: self.symbol@,
            price: self.price,
            amount: self.amount,
            seller: self.seller@,
            buyer: self.buyer@,
            timestamp_us: self.timestamp_us,
            node_id: self.node_id,
        }
    }
}

/// Records, each by its view.
pub open spec fn trades_view(s: Seq<TradeRecord>) -> Seq<TradeRecordSpec> {
    Seq::new(s.len(), |i: int| s[i]@)
}

/// The record of a match that a node made at a time.
pub open spec fn record_of(m: MatchSpec, timestamp_us: u64, node_id: u32) -> TradeRecordSpec {
    TradeRecordSpec {
        id: hex_text(m.maker_order_id@),
        symbol: m.symbol,
        price: m.price,
        amount: m.amount,
        seller: hex_text(m.seller@),
        buyer: hex_text(m.fee_payer@),
        timestamp_us,
        node_id,
    }
}

impl TradeRecord {
    /// The record of a match that a node made at a time.
    pub fn of(m: &Match, timestamp_us: u64, node_id: u32) -> (r: Self)
        ensures
            r@ == record_of(m@, timestamp_us, node_id),
    {
        TradeRecord {
            id: order_id_to_hex(&m.maker_order_id),
            symbol: m.symbol.clone(),
            price: m.price,
            amount: m.amount,
            seller: trader_id_to_hex(&m.seller),
            buyer: trader_id_to_hex(&m.fee_payer),
            timestamp_us,
            node_id,
        }
    }

    /// An equal record.
    pub fn duplicate(&self) -> (r: Self)
        ensures
            r@ == self@,
    {
        TradeRecord {
            id: self.id.clone(),
            symbol: self.symbol.clone(),
            price: self.price,
            amount: self.amount,
            seller: self.seller.clone(),
            buyer: self.buyer.clone(),
            timestamp_us: self.timestamp_us,
            node_id: self.node_id,
        }
    }
}

/// What rests at a price: how much, and in how many orders.
#[derive(Clone, Copy, Debug, PartialEq, Eq, Structural)]
pub struct BidAskLevel {
    pub price: u64,
    pub total_amount: u64,
    pub order_count: usize,
}

/// The best levels of both sides, best first.
#[derive(Clone, Debug)]
pub struct BookDepth {
    pub symbol: String,
    pub node_id: u32,
    pub region: String,
    pub bids: Vec<BidAskLevel>,
    pub asks: Vec<BidAskLevel>,
}

/// The best prices of both sides, where there are any. The middle price lies halfway between.
#[derive(Clone, Copy, Debug, PartialEq, Eq, Structural)]
pub struct Quote {
    pub bid: Option<u64>,
    pub ask: Option<u64>,
}

/// The prices at a time.
#[derive(Clone, Copy, Debug, PartialEq, Eq, Structural)]
pub struct PricePoint {
    pub timestamp_us: u64,
    pub quote: Quote,
    pub last_trade_price: Option<u64>,
}

/// What a node holds and has done.
#[derive(Clone, Debug)]
pub struct NodeSnapshot {
    pub id: u32,
    pub region: String,
    pub online: bool,
    pub order_count: usize,
    pub matches_this_step: usize,
}

/// A side by its name: `buy` in either case is a buy, anything else a sell.
pub open spec fn side_named(s: Seq<char>) -> OrderSide {
    if s.len() == 3 && (s[0] == 'b' || s[0] == 'B') && (s[1] == 'u' || s[1] == 'U') && (s[2] == 'y'
        || s[2] == 'Y') {
        OrderSide::Buy
    } else {
        OrderSide::Sell
    }
}

/// The side of that name.
pub fn parse_order_side(s: &str) -> (r: OrderSide)
    ensures
        r == side_named(s@),
{
    if s.unicode_len() != 3 {
        return OrderSide::Sell;
    }
    let a: char = s.get_char(0);
    let b: char = s.get_char(1);
    let c: char = s.get_char(2);
    if (a == 'b' || a == 'B') && (b == 'u' || b == 'U') && (c == 'y' || c == 'Y') {
        OrderSide::Buy
    } else {
        OrderSide::Sell
    }
}

/// An order's id in hexadecimal.
pub fn order_id_to_hex(id: &Id32) -> (r: String)
    ensures
        r@ == hex_text(id@),
{
    hex_encode(id.as_slice())
}

/// A trader's id in hexadecimal.
pub fn trader_id_to_hex(id: &Id32) -> (r: String)
    ensures
        r@ == hex_text(id@),
{
    order_id_to_hex(id)
}

/// The byte that two characters stand for: two digits, or a plus sign and one.
pub open spec fn pair_value(a: u8, b: u8) -> Option<u8> {
    if is_hex_digit(a) && is_hex_digit(b) {
        Some((hex_value(a) * 16 + hex_value(b)) as u8)
    } else if a == 43 && is_hex_digit(b) {
        Some(hex_value(b))
    } else {
        None
    }
}

/// What is left of an id's text without its prefixes, as bytes.
pub open spec fn id_digits(s: Seq<char>) -> Seq<u8> {
    encode_utf8(stripped(s, '0', 'x'))
}

/// The text stands for this id.
pub open spec fn reads_as(s: Seq<char>, id: Id32) -> bool {
    let d = id_digits(s);
    d.len() == 64 && forall|i: int|
        0 <= i < 32 ==> pair_value(d[2 * i], d[2 * i + 1]) == Some(#[trigger] id@[i])
}

/// The text stands for no id.
pub open spec fn reads_as_nothing(s: Seq<char>) -> bool {
    let d = id_digits(s);
    d.len() != 64 || exists|i: int| 0 <= i < 32 && #[trigger] pair_at(d, i) is None
}

/// The `i`-th byte that the text stands for.
pub open spec fn pair_at(d: Seq<u8>, i: int) -> Option<u8> {
    pair_value(d[2 * i], d[2 * i + 1])
}

/// The id that text stands for, if it stands for one.
pub open spec fn id_read(s: Seq<char>) -> Option<Id32> {
    if exists|id: Id32| #[trigger] reads_as(s, id) {
        Some(choose|id: Id32| #[trigger] reads_as(s, id))
    } else {
        None
    }
}

/// Text stands for one id at most, and for none where a byte of it cannot be read.
pub proof fn lemma_id_read(s: Seq<char>)
    ensures
        forall|id: Id32| #[trigger] reads_as(s, id) ==> id_read(s) == Some(id),
        reads_as_nothing(s) ==> id_read(s) is None,
{
    let d = id_digits(s);
    assert forall|id: Id32| #[trigger] reads_as(s, id) implies id_read(s) == Some(id) by {
        let other = id_read(s)->0;
        assert(reads_as(s, other));
        assert forall|i: int| 0 <= i < 32 implies id@[i] == other@[i] by {
            assert(pair_value(d[2 * i], d[2 * i + 1]) == Some(id@[i]));
            assert(pair_value(d[2 * i], d[2 * i + 1]) == Some(other@[i]));
        }
        assert(id =~= other);
    }
    if reads_as_nothing(s) && id_read(s) is Some {
        let id = id_read(s)->0;
        assert(reads_as(s, id));
        let i = choose|i: int| 0 <= i < 32 && #[trigger] pair_at(d, i) is None;
        assert(pair_value(d[2 * i], d[2 * i + 1]) == Some(id@[i]));
    }
}

fn digit_value(c: u8) -> (r: Option<u8>)
    ensures
        r == (if is_hex_digit(c) {
            Some(hex_value(c))
        } else {
            None
        }),
        r matches Some(v) ==> v < 16,
{
    if 48 <= c && c <= 57 {
        Some(c - 48)
    } else if 65 <= c && c <= 70 {
        Some(c - 55)
    } else if 97 <= c && c <= 102 {
        Some(c - 87)
    } else {
        None
    }
}

/// The id that hexadecimal text stands for, with or without a prefix.
pub fn hex_to_order_id(hex: &str) -> (r: Option<Id32>)
    ensures
        match r {
            Some(id) => reads_as(hex@, id),
            None => reads_as_nothing(hex@),
        },
{
    let digits: &str = strip_pairs(hex, '0', 'x');
    let d: &[u8] = digits.as_bytes();
    if d.len() != 64 {
        return None;
    }
    let mut bytes: Id32 = [0u8; 32];
    let mut i: usize = 0;
    while i < 32
        invariant
            i <= 32,
            d@.len() == 64,
            d@ == id_digits(hex@),
            forall|k: int|
                0 <= k < i ==> pair_value(d@[2 * k], d@[2 * k + 1]) == Some(#[trigger] bytes@[k]),
        decreases 32 - i,
    {
        let a: u8 = d[2 * i];
        let b: u8 = d[2 * i + 1];
        let low: u8 = match digit_value(b) {
            Some(v) => v,
            None => {
                assert(pair_at(d@, i as int) is None);
                return None;
            },
        };
        let high: u8 = match digit_value(a) {
            Some(v) => v,
            None => {
                if a != 43 {
                    assert(pair_at(d@, i as int) is None);
                    return None;
                }
                0
            },
        };
        bytes[i] = high * 16 + low;
        i = i + 1;
    }
    Some(bytes)
}

/// The id that hexadecimal text stands for, with or without a prefix.
pub fn hex_to_trader_id(hex: &str) -> (r: Option<Id32>)
    ensures
        match r {
            Some(id) => reads_as(hex@, id),
            None => reads_as_nothing(hex@),
        },
{
    hex_to_order_id(hex)
}

/// An id's text reads as that id, and as no other.
pub proof fn law_id_text_round_trip(id: Id32, other: Id32)
    ensures
        reads_as(hex_text(id@), id),
        !reads_as_nothing(hex_text(id@)),
        reads_as(hex_text(id@), other) ==> other == id,
{
    let t = hex_text(id@);
    law_hex_round_trip(id@);
    crate::hexes::lemma_hex_text_chars(id@);
    let b = id@[0];
    assert(t[1] == crate::hexes::hex_char(b as nat % 16));
    crate::hexes::lemma_hex_char(b as nat % 16);
    assert(t[1] != 'x') by {
        assert(t[1] as u32 <= 102);
        assert('x' as u32 == 120);
    }
    assert(stripped(t, '0', 'x') == t);
    let d = encode_utf8(t);
    assert(d == id_digits(t));
    assert(d.len() == 64) by {
        assert(crate::hexes::hex_bytes(d).len() == 32);
    }
    assert forall|i: int| 0 <= i < 32 implies pair_at(d, i) == Some(#[trigger] id@[i]) by {
        assert(is_hex_digit(d[2 * i]) && is_hex_digit(d[2 * i + 1]));
        assert(crate::hexes::hex_bytes(d)[i] == id@[i]);
    }
    assert forall|i: int| 0 <= i < 32 implies #[trigger] pair_at(d, i) is Some by {
        assert(pair_at(d, i) == Some(id@[i]));
    }
    if reads_as(t, other) {
        assert forall|i: int| 0 <= i < 32 implies id@[i] == other@[i] by {
            assert(pair_at(d, i) == Some(id@[i]));
            assert(pair_value(d[2 * i], d[2 * i + 1]) == Some(other@[i]));
        }
        assert(id =~= other);
    }
}

/// How a region is shown in reports.
pub open spec fn region_label(r: Region) -> Seq<char> {
    match r {
        Region::UsEast1 => "UsEast1"@,
        Region::EuWest1 => "EuWest1"@,
        Region::ApSoutheast1 => "ApSoutheast1"@,
    }
}

/// How a region is shown in reports.
pub fn label_region(r: Region) -> (s: String)
    ensures
        s@ == region_label(r),
{
    match r {
        Region::UsEast1 => "UsEast1".to_owned(),
        Region::EuWest1 => "EuWest1".to_owned(),
        Region::ApSoutheast1 => "ApSoutheast1".to_owned(),
    }
}

} // verus!
