use stablecoin_exchange::fee_amm::{compute_amount_out, sqrt, Error, TempoFeeAMM};

#[test]
fn test_calculate_fee_swap_output() {
    let amount_in = 10_000i128;
    let result = TempoFeeAMM::calculate_fee_swap_output(amount_in);
    assert_eq!(result, Ok(9970));
}

#[test]
fn test_calculate_rebalance_input() {
    let amount_out = 10_000i128;
    let result = TempoFeeAMM::calculate_rebalance_input(amount_out);
    assert_eq!(result, Ok(9986));
}

#[test]
fn fee_swap_output_truncates() {
    assert_eq!(TempoFeeAMM::calculate_fee_swap_output(1), Ok(0));
    assert_eq!(TempoFeeAMM::calculate_fee_swap_output(3_333), Ok(3_323));
    assert_eq!(compute_amount_out(0), Ok(0));
}

#[test]
fn fee_swap_output_overflow() {
    assert_eq!(TempoFeeAMM::calculate_fee_swap_output(i128::MAX), Err(Error::Overflow));
}

#[test]
fn rebalance_input_overflow() {
    assert_eq!(TempoFeeAMM::calculate_rebalance_input(i128::MAX), Err(Error::Overflow));
}

#[test]
fn rebalance_input_small_amounts() {
    assert_eq!(TempoFeeAMM::calculate_rebalance_input(0), Ok(1));
    assert_eq!(TempoFeeAMM::calculate_rebalance_input(1), Ok(1));
}

#[test]
fn integer_square_roots() {
    assert_eq!(sqrt(0), 0);
    assert_eq!(sqrt(1), 1);
    assert_eq!(sqrt(2), 1);
    assert_eq!(sqrt(15), 3);
    assert_eq!(sqrt(16), 4);
    assert_eq!(sqrt(1_000_000_000_000_000_000), 1_000_000_000);
    assert_eq!(sqrt(-5), -5);
    let big = i128::MAX - 1;
    let r = sqrt(big);
    assert!(r * r <= big);
    assert!((r + 1).checked_mul(r + 1).map_or(true, |s| s > big));
}
