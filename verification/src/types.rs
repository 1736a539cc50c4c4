//! Orders, matches and the identities they carry.

use crate::bytes::Id32;
use vstd::prelude::*;

verus! {

/// A node of the mesh.
#[derive(Clone, Copy, Debug, PartialEq, Eq, Hash, Structural)]
pub struct NodeId(pub u32);

/// Where a node runs.
#[derive(Clone, Copy, Debug, PartialEq, Eq, Hash, Structural)]
pub enum Region {
    UsEast1,
    EuWest1,
    ApSoutheast1,
}

/// The name that a region goes by.
pub open spec fn region_name(r: Region) -> Seq<char> {
    match r {
        Region::UsEast1 => "us-east-1"@,
        Region::EuWest1 => "eu-west-1"@,
        Region::ApSoutheast1 => "ap-southeast-1"@,
    }
}

impl Region {
    pub fn name(&self) -> (r: &'static str)
        ensures
            r@ == region_name(*self),
    {
        match self {
            Region::UsEast1 => "us-east-1",
            Region::EuWest1 => "eu-west-1",
            Region::ApSoutheast1 => "ap-southeast-1",
        }
    }
}

/// Which side of the book an order is on.
#[derive(Clone, Copy, Debug, PartialEq, Eq, Structural)]
pub enum OrderSide {
    Buy,
    Sell,
}

/// How fast a trade is to settle.
#[derive(Clone, Copy, Debug, PartialEq, Eq, Hash, Structural)]
pub enum SettlementPreference {
    Standard,
    Express,
    Instant,
}

/// Which party's preference decides the settlement tier.
#[derive(Clone, Copy, Debug, PartialEq, Eq, Hash, Structural)]
pub enum SettlementRequester {
    Seller,
    Buyer,
}

/// The static fee schedule, in basis points.
pub open spec fn tier_bps(t: SettlementPreference) -> u32 {
    match t {
        SettlementPreference::Standard => 5,
        SettlementPreference::Express => 15,
        SettlementPreference::Instant => 50,
    }
}

/// How many seconds after the match a trade of this tier must be settled.
pub open spec fn tier_seconds(t: SettlementPreference) -> u64 {
    match t {
        SettlementPreference::Standard => 86_400,
        SettlementPreference::Express => 3_600,
        SettlementPreference::Instant => 60,
    }
}

impl SettlementPreference {
    pub fn fee_basis_points(&self) -> (r: u32)
        ensures
            r == tier_bps(*self),
    {
        match self {
            SettlementPreference::Standard => 5,
            SettlementPreference::Express => 15,
            SettlementPreference::Instant => 50,
        }
    }

    pub fn deadline_seconds(&self) -> (r: u64)
        ensures
            r == tier_seconds(*self),
    {
        match self {
            SettlementPreference::Standard => 86_400,
            SettlementPreference::Express => 3_600,
            SettlementPreference::Instant => 60,
        }
    }
}

impl Default for SettlementPreference {
    fn default() -> (r: Self)
        ensures
            r == SettlementPreference::Standard,
    {
        SettlementPreference::Standard
    }
}

impl Default for SettlementRequester {
    fn default() -> (r: Self)
        ensures
            r == SettlementRequester::Seller,
    {
        SettlementRequester::Seller
    }
}

/// A signed limit order.
#[derive(Clone, Debug)]
pub struct Order {
    pub id: Id32,
    pub trader: Id32,
    pub symbol: String,
    pub side: OrderSide,
    pub price: u64,
    pub amount: u64,
    pub signature: Vec<u8>,
    pub nonce: u64,
    pub expiry: u64,
    pub settlement_preference: SettlementPreference,
    pub settlement_requester: SettlementRequester,
}

/// What an [`Order`] stands for.
#[verifier::ext_equal]
pub struct OrderSpec {
    pub id: Id32,
    pub trader: Id32,
    pub symbol: Seq<char>,
    pub side: OrderSide,
    pub price: u64,
    pub amount: u64,
    pub signature: Seq<u8>,
    pub nonce: u64,
    pub expiry: u64,
    pub settlement_preference: SettlementPreference,
    pub settlement_requester: SettlementRequester,
}

impl View for Order {
    type V = OrderSpec;

    open spec fn view(&self) -> OrderSpec {
        OrderSpec {
            id: self.id,
            trader: self.trader,
            symbol: self.symbol@,
            side: self.side,
            price: self.price,
            amount: self.amount,
            signature: self.signature@,
            nonce: self.nonce,
            expiry: self.expiry,
            settlement_preference: self.settlement_preference,
            settlement_requester: self.settlement_requester,
        }
    }
}

impl Order {
    /// An equal order.
    pub fn duplicate(&self) -> (r: Order)
        ensures
            r@ == self@,
    {
        Order {
            id: self.id,
            trader: self.trader,
            symbol: self.symbol.clone(),
            side: self.side,
            price: self.price,
            amount: self.amount,
            signature: self.signature.clone(),
            nonce: self.nonce,
            expiry: self.expiry,
            settlement_preference: self.settlement_preference,
            settlement_requester: self.settlement_requester,
        }
    }
}

/// The orders of a list, each by its view.
pub open spec fn orders_view(s: Seq<Order>) -> Seq<OrderSpec> {
    Seq::new(s.len(), |i: int| s[i]@)
}

/// A trade between a resting order (the maker) and an incoming one (the taker).
#[derive(Clone, Debug)]
pub struct Match {
    pub maker_order_id: Id32,
    pub taker_order_id: Id32,
    pub maker_trader: Id32,
    pub taker_trader: Id32,
    pub price: u64,
    pub amount: u64,
    pub timestamp_us: u64,
    pub settlement_tier: SettlementPreference,
    pub fee_basis_points: u32,
    pub seller: Id32,
    pub fee_payer: Id32,
    pub settlement_deadline: u64,
    pub symbol: String,
    pub assigned_node: Id32,
}

/// What a [`Match`] stands for.
#[verifier::ext_equal]
pub struct MatchSpec {
    pub maker_order_id: Id32,
    pub taker_order_id: Id32,
    pub maker_trader: Id32,
    pub taker_trader: Id32,
    pub price: u64,
    pub amount: u64,
    pub timestamp_us: u64,
    pub settlement_tier: SettlementPreference,
    pub fee_basis_points: u32,
    pub seller: Id32,
    pub fee_payer: Id32,
    pub settlement_deadline: u64,
    pub symbol: Seq<char>,
    pub assigned_node: Id32,
}

impl View for Match {
    type V = MatchSpec;

    open spec fn view(&self) -> MatchSpec {
        MatchSpec {
            maker_order_id: self.maker_order_id,
            taker_order_id: self.taker_order_id,
            maker_trader: self.maker_trader,
            taker_trader: self.taker_trader,
            price: self.price,
            amount: self.amount,
            timestamp_us: self.timestamp_us,
            settlement_tier: self.settlement_tier,
            fee_basis_points: self.fee_basis_points,
            seller: self.seller,
            fee_payer: self.fee_payer,
            settlement_deadline: self.settlement_deadline,
            symbol: self.symbol@,
            assigned_node: self.assigned_node,
        }
    }
}

impl Match {
    /// An equal match.
    pub fn duplicate(&self) -> (r: Match)
        ensures
            r@ == self@,
    {
        Match {
            maker_order_id: self.maker_order_id,
            taker_order_id: self.taker_order_id,
            maker_trader: self.maker_trader,
            taker_trader: self.taker_trader,
            price: self.price,
            amount: self.amount,
            timestamp_us: self.timestamp_us,
            settlement_tier: self.settlement_tier,
            fee_basis_points: self.fee_basis_points,
            seller: self.seller,
            fee_payer: self.fee_payer,
            settlement_deadline: self.settlement_deadline,
            symbol: self.symbol.clone(),
            assigned_node: self.assigned_node,
        }
    }
}

/// The matches of a list, each by its view.
pub open spec fn matches_view(s: Seq<Match>) -> Seq<MatchSpec> {
    Seq::new(s.len(), |i: int| s[i]@)
}

/// An order on its way through the mesh. The time is the sender's, in microseconds.
#[derive(Clone, Debug)]
pub struct FloodMessage {
    pub order: Order,
    pub hop_count: u8,
    pub path: Vec<NodeId>,
    pub timestamp_us: u64,
    pub source_region: Region,
}

/// What a [`FloodMessage`] stands for.
#[verifier::ext_equal]
pub struct FloodMessageSpec {
    pub order: OrderSpec,
    pub hop_count: u8,
    pub path: Seq<NodeId>,
    pub timestamp_us: u64,
    pub source_region: Region,
}

impl View for FloodMessage {
    type V = FloodMessageSpec;

    open spec fn view(&self) -> FloodMessageSpec {
        FloodMessageSpec {
            order: self.order@,
            hop_count: self.hop_count,
            path: self.path@,
            timestamp_us: self.timestamp_us,
            source_region: self.source_region,
        }
    }
}

/// An order as its first node sends it out.
pub open spec fn originated(
    order: OrderSpec,
    node: NodeId,
    region: Region,
    timestamp_us: u64,
) -> FloodMessageSpec {
    FloodMessageSpec {
        order,
        hop_count: 0,
        path: seq![node],
        timestamp_us,
        source_region: region,
    }
}

impl FloodMessage {
    /// The message by which a node sends an order out for the first time.
    pub fn originate(order: Order, node: NodeId, region: Region, timestamp_us: u64) -> (r: Self)
        ensures
            r@ == originated(order@, node, region, timestamp_us),
    {
        let mut path: Vec<NodeId> = Vec::new();
        path.push(node);
        let r = FloodMessage { order, hop_count: 0, path, timestamp_us, source_region: region };
        assert(r@.path =~= seq![node]);
        r
    }
}

} // verus!
