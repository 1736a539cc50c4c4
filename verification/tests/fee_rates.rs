use chronos::fees::{clamp_fee_basis_points, FeeCalculator};
use chronos::types::SettlementPreference;

// What gas price, batch utilisation and volatility make of the static schedule.
fn calculator(base_gas_price: u64, batch_utilization: f64, volatility_index: f64) -> FeeCalculator {
    let rate = |tier: SettlementPreference| {
        let gas = tier.fee_basis_points() as f64 * (base_gas_price as f64 / 50.0);
        let batched = gas * (1.0 - batch_utilization * 0.5);
        (batched * (1.0 + volatility_index * 0.5)).max(1.0) as u32
    };
    FeeCalculator::from_rates(
        rate(SettlementPreference::Standard),
        rate(SettlementPreference::Express),
        rate(SettlementPreference::Instant),
    )
}

#[test]
fn test_default_calculator_matches_static_schedule() {
    let calc = FeeCalculator::default();
    for tier in [
        SettlementPreference::Standard,
        SettlementPreference::Express,
        SettlementPreference::Instant,
    ] {
        assert_eq!(calc.calculate_fee_basis_points(tier), tier.fee_basis_points());
    }
}

#[test]
fn test_default_fee_basis_points() {
    assert_eq!(FeeCalculator::default_fee_basis_points(SettlementPreference::Standard), 5);
    assert_eq!(FeeCalculator::default_fee_basis_points(SettlementPreference::Express), 15);
    assert_eq!(FeeCalculator::default_fee_basis_points(SettlementPreference::Instant), 50);
}

#[test]
fn test_compute_fee_amount() {
    let fee = FeeCalculator::compute_fee_amount(100, 3000, SettlementPreference::Standard);
    assert_eq!(fee, 150);
    let fee = FeeCalculator::compute_fee_amount(100, 3000, SettlementPreference::Express);
    assert_eq!(fee, 450);
    let fee = FeeCalculator::compute_fee_amount(100, 3000, SettlementPreference::Instant);
    assert_eq!(fee, 1500);
}

#[test]
fn test_dynamic_fee_scales_with_gas() {
    let calc = calculator(100, 0.5, 0.0);
    let bps = calc.calculate_fee_basis_points(SettlementPreference::Express);
    assert_eq!(bps, 22);
}

#[test]
fn test_dynamic_fee_scales_with_batch_utilization() {
    let calc = calculator(50, 1.0, 0.0);
    let bps = calc.calculate_fee_basis_points(SettlementPreference::Express);
    assert_eq!(bps, 7);
}

#[test]
fn test_dynamic_fee_scales_with_volatility() {
    let calc = calculator(50, 0.0, 1.0);
    let bps = calc.calculate_fee_basis_points(SettlementPreference::Express);
    assert_eq!(bps, 22);
}

#[test]
fn test_dynamic_fee_clamped() {
    let calc = calculator(5000, 0.0, 10.0);
    let bps = calc.calculate_fee_basis_points(SettlementPreference::Instant);
    assert_eq!(bps, 500);
}

#[test]
fn rates_are_kept_within_bounds() {
    assert_eq!(clamp_fee_basis_points(0), 1);
    assert_eq!(clamp_fee_basis_points(1), 1);
    assert_eq!(clamp_fee_basis_points(499), 499);
    assert_eq!(clamp_fee_basis_points(501), 500);
}

#[test]
fn dynamic_fees_go_by_the_configured_rate() {
    let calc = calculator(100, 0.0, 0.0);
    assert_eq!(calc.compute_fee_amount_dynamic(100, 3000, SettlementPreference::Standard), 300);
}

#[test]
fn rates_out_of_range_are_not_charged() {
    let calc = FeeCalculator { standard_bps: 0, express_bps: 501, instant_bps: 7 };
    assert_eq!(calc.calculate_fee_basis_points(SettlementPreference::Standard), 1);
    assert_eq!(calc.calculate_fee_basis_points(SettlementPreference::Express), 500);
    assert_eq!(calc.calculate_fee_basis_points(SettlementPreference::Instant), 7);
    assert_eq!(calc.compute_fee_amount_dynamic(100, 10_000, SettlementPreference::Standard), 100);
}
