//! Fee rates per settlement tier and the fees they give.

use crate::types::{tier_bps, SettlementPreference};
use vstd::prelude::*;

verus! {

/// The lowest rate that is ever charged, in basis points.
pub const MIN_FEE_BPS: u32 = 1;

/// The highest rate that is ever charged, in basis points.
pub const MAX_FEE_BPS: u32 = 500;

/// Basis points in one whole.
pub const BPS_SCALE: u64 = 10_000;

/// A rate brought into the range that may be charged.
pub open spec fn clamp_bps(raw: u32) -> u32 {
    if raw < MIN_FEE_BPS {
        MIN_FEE_BPS
    } else if raw > MAX_FEE_BPS {
        MAX_FEE_BPS
    } else {
        raw
    }
}

/// `notional * bps / 10_000`, rounded down.
pub open spec fn fee_of(amount: int, price: int, bps: int) -> int {
    amount * price * bps / (BPS_SCALE as int)
}

/// The rate that each tier is set to.
#[derive(Clone, Copy, Debug, PartialEq, Eq, Structural)]
pub struct FeeCalculator {
    pub standard_bps: u32,
    pub express_bps: u32,
    pub instant_bps: u32,
}

/// The rate that a tier is set to, before it is brought into range.
pub open spec fn raw_rate(c: FeeCalculator, tier: SettlementPreference) -> u32 {
    match tier {
        SettlementPreference::Standard => c.standard_bps,
        SettlementPreference::Express => c.express_bps,
        SettlementPreference::Instant => c.instant_bps,
    }
}

/// The rate that a tier is charged at. It is in range, whatever the calculator is set to.
pub open spec fn rate_of(c: FeeCalculator, tier: SettlementPreference) -> u32 {
    clamp_bps(raw_rate(c, tier))
}

/// The calculator that charges the static schedule.
pub open spec fn default_rates() -> FeeCalculator {
    FeeCalculator {
        standard_bps: tier_bps(SettlementPreference::Standard),
        express_bps: tier_bps(SettlementPreference::Express),
        instant_bps: tier_bps(SettlementPreference::Instant),
    }
}

impl Default for FeeCalculator {
    fn default() -> (r: Self)
        ensures
            r == default_rates(),
    {
        FeeCalculator { standard_bps: 5, express_bps: 15, instant_bps: 50 }
    }
}

/// Brings a rate into the range that may be charged.
pub fn clamp_fee_basis_points(raw: u32) -> (r: u32)
    ensures
        r == clamp_bps(raw),
        MIN_FEE_BPS <= r <= MAX_FEE_BPS,
{
    if raw < MIN_FEE_BPS {
        MIN_FEE_BPS
    } else if raw > MAX_FEE_BPS {
        MAX_FEE_BPS
    } else {
        raw
    }
}

/// The fee on `amount * price` at `bps`. The product must fit in 128 bits; of the quotient the
/// low 64 bits are returned.
pub fn fee_at_rate(amount: u64, price: u64, bps: u32) -> (r: u64)
    requires
        amount * price * bps <= u128::MAX,
    ensures
        r as int == fee_of(amount as int, price as int, bps as int) % 0x1_0000_0000_0000_0000,
        fee_of(amount as int, price as int, bps as int) <= u64::MAX ==> r as int == fee_of(
            amount as int,
            price as int,
            bps as int,
        ),
{
    proof {
        lemma_mul_u64(amount, price);
        let p = amount * price;
        assert(p * bps == amount * price * bps);
        assert(0 <= p * bps) by (nonlinear_arith)
            requires
                0 <= p,
                0 <= bps,
        ;
    }
    let notional: u128 = amount as u128 * price as u128;
    let scaled: u128 = notional * bps as u128;
    let fee: u128 = scaled / 10_000;
    proof {
        assert(fee as u64 == fee % 0x1_0000_0000_0000_0000u128) by (bit_vector);
    }
    fee as u64
}

proof fn lemma_mul_u64(a: u64, b: u64)
    ensures
        0 <= a * b <= u128::MAX,
{
    assert(0 <= a * b <= 0xffff_ffff_ffff_ffff * 0xffff_ffff_ffff_ffff) by (nonlinear_arith)
        requires
            0 <= a <= 0xffff_ffff_ffff_ffff,
            0 <= b <= 0xffff_ffff_ffff_ffff,
    ;
}

impl FeeCalculator {
    /// A calculator with the given raw rates, each brought into range.
    pub fn from_rates(standard: u32, express: u32, instant: u32) -> (r: Self)
        ensures
            r.standard_bps == clamp_bps(standard),
            r.express_bps == clamp_bps(express),
            r.instant_bps == clamp_bps(instant),
    {
        FeeCalculator {
            standard_bps: clamp_fee_basis_points(standard),
            express_bps: clamp_fee_basis_points(express),
            instant_bps: clamp_fee_basis_points(instant),
        }
    }

    pub fn default_fee_basis_points(preference: SettlementPreference) -> (r: u32)
        ensures
            r == tier_bps(preference),
    {
        preference.fee_basis_points()
    }

    pub fn calculate_fee_basis_points(&self, tier: SettlementPreference) -> (r: u32)
        ensures
            r == rate_of(*self, tier),
            MIN_FEE_BPS <= r <= MAX_FEE_BPS,
    {
        let raw: u32 = match tier {
            SettlementPreference::Standard => self.standard_bps,
            SettlementPreference::Express => self.express_bps,
            SettlementPreference::Instant => self.instant_bps,
        };
        clamp_fee_basis_points(raw)
    }

    pub fn compute_fee_amount(amount: u64, price: u64, tier: SettlementPreference) -> (r: u64)
        requires
            amount * price * tier_bps(tier) <= u128::MAX,
        ensures
            r as int == fee_of(amount as int, price as int, tier_bps(tier) as int)
                % 0x1_0000_0000_0000_0000,
            fee_of(amount as int, price as int, tier_bps(tier) as int) <= u64::MAX ==> r as int
                == fee_of(amount as int, price as int, tier_bps(tier) as int),
    {
        fee_at_rate(amount, price, Self::default_fee_basis_points(tier))
    }

    pub fn compute_fee_amount_dynamic(
        &self,
        amount: u64,
        price: u64,
        tier: SettlementPreference,
    ) -> (r: u64)
        requires
            amount * price * rate_of(*self, tier) <= u128::MAX,
        ensures
            r as int == fee_of(amount as int, price as int, rate_of(*self, tier) as int)
                % 0x1_0000_0000_0000_0000,
            fee_of(amount as int, price as int, rate_of(*self, tier) as int) <= u64::MAX ==> r
                as int == fee_of(amount as int, price as int, rate_of(*self, tier) as int),
    {
        fee_at_rate(amount, price, self.calculate_fee_basis_points(tier))
    }
}

/// A calculator that nobody configured charges the static schedule, for every tier.
pub proof fn law_default_rates_are_static(tier: SettlementPreference)
    ensures
        rate_of(default_rates(), tier) == tier_bps(tier),
{
}

/// Every calculator charges every tier at a rate in range.
pub proof fn law_rates_are_in_range(c: FeeCalculator, tier: SettlementPreference)
    ensures
        MIN_FEE_BPS <= rate_of(c, tier) <= MAX_FEE_BPS,
{
}

/// At a rate of at most the highest one, a fee is at most a twentieth of the notional.
pub proof fn law_fee_is_bounded(amount: u64, price: u64, raw: u32)
    ensures
        0 <= fee_of(amount as int, price as int, clamp_bps(raw) as int) <= amount * price / 20,
{
    let n = amount * price;
    let b = clamp_bps(raw) as int;
    assert(0 <= n) by (nonlinear_arith)
        requires
            n == amount * price,
    ;
    assert(0 <= n * b <= n * 500) by (nonlinear_arith)
        requires
            0 <= n,
            0 <= b <= 500,
    ;
}

/// A fee is its rate's share of the notional, in ten-thousandths, rounded down.
pub proof fn law_fee_is_the_share(amount: u64, price: u64, bps: u32)
    ensures
        ({
            let fee = fee_of(amount as int, price as int, bps as int);
            fee * 10_000 <= amount * price * bps < (fee + 1) * 10_000
        }),
{
}

/// A rate in range is charged as it is set, tier by tier; one below or above is charged at the end of
/// the range that it is nearest to. Faster tiers are never cheaper by the static schedule.
pub proof fn law_rates_are_as_set(standard: u32, express: u32, instant: u32)
    ensures
        ({
            let c = FeeCalculator {
                standard_bps: standard,
                express_bps: express,
                instant_bps: instant,
            };
            &&& 1 <= standard <= 500 ==> rate_of(c, SettlementPreference::Standard) == standard
            &&& 1 <= express <= 500 ==> rate_of(c, SettlementPreference::Express) == express
            &&& 1 <= instant <= 500 ==> rate_of(c, SettlementPreference::Instant) == instant
            &&& standard < 1 ==> rate_of(c, SettlementPreference::Standard) == 1
            &&& standard > 500 ==> rate_of(c, SettlementPreference::Standard) == 500
            &&& express < 1 ==> rate_of(c, SettlementPreference::Express) == 1
            &&& express > 500 ==> rate_of(c, SettlementPreference::Express) == 500
            &&& instant < 1 ==> rate_of(c, SettlementPreference::Instant) == 1
            &&& instant > 500 ==> rate_of(c, SettlementPreference::Instant) == 500
        }),
        0 < tier_bps(SettlementPreference::Standard) < tier_bps(SettlementPreference::Express)
            < tier_bps(SettlementPreference::Instant),
        tier_bps(SettlementPreference::Standard) == 5,
        tier_bps(SettlementPreference::Express) == 15,
        tier_bps(SettlementPreference::Instant) == 50,
{
}

} // verus!
