use anchore_pool::error::Error;
use anchore_pool::math::{calculate_input_for_output, calculate_output_amount, calculate_price, isqrt};
use anchore_pool::pool::{AnchorePool, Side};
use anchore_pool::shares::Address;
use anchore_pool::wide::{mul_div, mul_wide, Wide};

fn account(n: u128) -> Address {
    Address { is_contract: false, hash_hi: 0, hash_lo: n }
}

fn token(n: u128) -> Address {
    Address { is_contract: true, hash_hi: 7, hash_lo: n }
}

fn small(n: u128) -> Wide {
    Wide { hi: 0, lo: n }
}

fn seeded_pool(fee: u128) -> AnchorePool {
    let mut pool = AnchorePool::init(token(1), token(2), fee).unwrap();
    assert_eq!(pool.add_liquidity(account(1), 1000, 4000), Ok(2000));
    pool
}

#[test]
fn first_deposit_mints_geometric_mean() {
    let pool = seeded_pool(30);
    assert_eq!(pool.get_reserves(), (1000, 4000));
    assert_eq!(pool.get_lp_token_supply(), 2000);
    assert_eq!(pool.get_lp_balance(account(1)), 2000);
    assert_eq!(pool.get_lp_balance(account(2)), 0);
}

#[test]
fn exact_in_swap_scenario() {
    let mut pool = seeded_pool(30);
    assert_eq!(pool.get_amount_out(100, token(1)), Ok(360));
    assert_eq!(pool.swap_exact_tokens_in(100, token(1), 0), Ok(360));
    assert_eq!(pool.get_reserves(), (1100, 3640));
}

#[test]
fn remove_all_shares_returns_deposit() {
    let mut pool = seeded_pool(30);
    assert_eq!(pool.remove_liquidity(account(1), 2000), Ok((1000, 4000)));
    assert_eq!(pool.get_lp_token_supply(), 0);
    assert_eq!(pool.get_reserves(), (0, 0));
    assert_eq!(pool.get_lp_balance(account(1)), 0);
}

#[test]
fn minimum_one_above_output_is_rejected() {
    let mut pool = seeded_pool(30);
    assert_eq!(pool.swap_exact_tokens_in(100, token(1), 361), Err(Error::OutputBelowMinimum));
    assert_eq!(pool.get_reserves(), (1000, 4000));
    assert_eq!(pool.get_lp_token_supply(), 2000);
}

#[test]
fn swap_keeps_product_from_falling() {
    let mut pool = seeded_pool(30);
    let before = 1000u128 * 4000;
    pool.swap_exact_tokens_in(250, token(2), 0).unwrap();
    let (a, b) = pool.get_reserves();
    assert!(a * b >= before);
    pool.swap_tokens_for_exact_out(500, token(2), u128::MAX - 1).unwrap();
    let (c, d) = pool.get_reserves();
    assert!(c * d >= a * b);
}

#[test]
fn exact_out_swap_takes_rounded_up_input() {
    let mut pool = seeded_pool(30);
    assert_eq!(pool.get_amount_in(360, token(1)), Ok(100));
    assert_eq!(pool.swap_tokens_for_exact_out(360, token(1), 100), Ok(100));
    assert_eq!(pool.get_reserves(), (1100, 3640));
}

#[test]
fn exact_out_then_exact_in_round_trip() {
    let pool = seeded_pool(0);
    let needed = pool.get_amount_in(300, token(1)).unwrap();
    assert_eq!(needed, 82);
    assert!(pool.get_amount_out(needed, token(1)).unwrap() >= 300);
}

#[test]
fn exact_out_above_maximum_is_rejected() {
    let mut pool = seeded_pool(30);
    assert_eq!(pool.swap_tokens_for_exact_out(360, token(1), 99), Err(Error::InputExceedsMaximum));
    assert_eq!(pool.get_reserves(), (1000, 4000));
}

#[test]
fn exact_out_of_whole_reserve_is_rejected() {
    let mut pool = seeded_pool(30);
    assert_eq!(pool.get_amount_in(4000, token(1)), Ok(u128::MAX));
    assert_eq!(pool.swap_tokens_for_exact_out(4000, token(1), u128::MAX), Err(Error::InputExceedsMaximum));
    assert_eq!(pool.swap_tokens_for_exact_out(5000, token(1), u128::MAX), Err(Error::InputExceedsMaximum));
    assert_eq!(pool.get_reserves(), (1000, 4000));
}

#[test]
fn quote_then_swap_matches() {
    let mut pool = seeded_pool(3);
    let quote = pool.get_amount_out(777, token(2)).unwrap();
    assert_eq!(pool.swap_exact_tokens_in(777, token(2), quote), Ok(quote));
}

#[test]
fn second_deposit_credits_limiting_side() {
    let mut pool = seeded_pool(30);
    assert_eq!(pool.add_liquidity(account(2), 500, 1000), Ok(500));
    assert_eq!(pool.get_lp_token_supply(), 2500);
    assert_eq!(pool.get_lp_balance(account(2)), 500);
    assert_eq!(pool.get_reserves(), (1500, 5000));
}

#[test]
fn deposit_then_redeem_returns_no_more() {
    let mut pool = seeded_pool(30);
    pool.swap_exact_tokens_in(100, token(1), 0).unwrap();
    let minted = pool.add_liquidity(account(3), 333, 777).unwrap();
    let (a, b) = pool.remove_liquidity(account(3), minted).unwrap();
    assert!(a <= 333);
    assert!(b <= 777);
}

#[test]
fn redemption_is_proportional() {
    let mut pool = seeded_pool(30);
    pool.add_liquidity(account(2), 500, 2000).unwrap();
    pool.swap_exact_tokens_in(100, token(1), 0).unwrap();
    let (ra, rb) = pool.get_reserves();
    let total = pool.get_lp_token_supply();
    let held = pool.get_lp_balance(account(2));
    assert_eq!(held, 1000);
    assert_eq!(pool.remove_liquidity(account(2), held), Ok((held * ra / total, held * rb / total)));
}

#[test]
fn zero_deposit_is_rejected() {
    let mut pool = AnchorePool::init(token(1), token(2), 30).unwrap();
    assert_eq!(pool.add_liquidity(account(1), 0, 10), Err(Error::ZeroAmount));
    assert_eq!(pool.add_liquidity(account(1), 10, 0), Err(Error::ZeroAmount));
    assert_eq!(pool.get_lp_token_supply(), 0);
}

#[test]
fn zero_burn_is_rejected() {
    let mut pool = seeded_pool(30);
    assert_eq!(pool.remove_liquidity(account(1), 0), Err(Error::ZeroLiquidity));
}

#[test]
fn burn_above_balance_is_rejected() {
    let mut pool = seeded_pool(30);
    assert_eq!(pool.remove_liquidity(account(1), 2001), Err(Error::InsufficientLpBalance));
    assert_eq!(pool.remove_liquidity(account(2), 1), Err(Error::InsufficientLpBalance));
    assert_eq!(pool.get_lp_balance(account(1)), 2000);
}

#[test]
fn foreign_asset_is_rejected() {
    let mut pool = seeded_pool(30);
    assert_eq!(pool.swap_exact_tokens_in(100, token(9), 0), Err(Error::InvalidInputToken));
    assert_eq!(pool.swap_tokens_for_exact_out(100, token(9), 1000), Err(Error::InvalidInputToken));
    assert_eq!(pool.get_amount_out(100, token(9)), Err(Error::InvalidInputToken));
    assert_eq!(pool.get_amount_in(100, token(9)), Err(Error::InvalidInputToken));
    assert_eq!(pool.get_price(token(9)), Err(Error::InvalidInputToken));
}

#[test]
fn init_rejects_bad_arguments() {
    assert_eq!(AnchorePool::init(token(1), token(1), 30).err(), Some(Error::IdenticalAssets));
    assert_eq!(AnchorePool::init(token(1), token(2), 10000).err(), Some(Error::InvalidFeeRate));
    let pool = AnchorePool::init(token(1), token(2), 9999).unwrap();
    assert_eq!(pool.get_fee_rate(), 9999);
    assert_eq!(pool.side_of(token(2)), Some(Side::B));
    assert_eq!(pool.token_of(Side::A), token(1));
}

#[test]
fn deposit_against_empty_reserve_is_rejected() {
    let mut pool = seeded_pool(30);
    pool.sync_reserves(0, 4000);
    assert_eq!(pool.add_liquidity(account(2), 10, 10), Err(Error::DepletedReserves));
}

#[test]
fn oversized_values_report_overflow() {
    let mut pool = AnchorePool::init(token(1), token(2), 30).unwrap();
    assert_eq!(pool.add_liquidity(account(1), u128::MAX, 2), Ok(26087635650665564424));
    let mut pool = seeded_pool(30);
    assert_eq!(pool.add_liquidity(account(1), u128::MAX, 1), Err(Error::Overflow));
    assert_eq!(pool.swap_exact_tokens_in(u128::MAX, token(1), 0), Err(Error::Overflow));
    pool.sync_reserves(u128::MAX, 4000);
    assert_eq!(pool.get_price(token(2)), Err(Error::Overflow));
}

#[test]
fn sync_overwrites_reserves() {
    let mut pool = seeded_pool(30);
    pool.sync_reserves(1500, 4100);
    assert_eq!(pool.get_reserves(), (1500, 4100));
    assert_eq!(pool.get_lp_token_supply(), 2000);
}

#[test]
fn price_is_scaled_ratio() {
    let pool = seeded_pool(30);
    assert_eq!(pool.get_price(token(1)), Ok(4_000_000_000_000_000_000));
    assert_eq!(pool.get_price(token(2)), Ok(250_000_000_000_000_000));
    let empty = AnchorePool::init(token(1), token(2), 30).unwrap();
    assert_eq!(empty.get_price(token(1)), Ok(0));
}

#[test]
fn integer_square_roots() {
    assert_eq!(isqrt(small(0)), 0);
    assert_eq!(isqrt(small(1)), 1);
    assert_eq!(isqrt(small(2)), 1);
    assert_eq!(isqrt(small(3)), 1);
    assert_eq!(isqrt(small(4)), 2);
    assert_eq!(isqrt(small(99)), 9);
    assert_eq!(isqrt(small(4_000_000)), 2000);
    assert_eq!(isqrt(small(u128::MAX)), u64::MAX as u128);
}

#[test]
fn formula_values() {
    assert_eq!(calculate_output_amount(100, 1000, 4000, 30), Ok(360));
    assert_eq!(calculate_output_amount(0, 1000, 4000, 30), Ok(0));
    assert_eq!(calculate_output_amount(100, 0, 4000, 30), Ok(0));
    assert_eq!(calculate_input_for_output(360, 1000, 4000, 30), Ok(100));
    assert_eq!(calculate_input_for_output(0, 1000, 4000, 30), Ok(1));
    assert_eq!(calculate_input_for_output(5, 0, 4000, 30), Ok(1));
    assert_eq!(calculate_input_for_output(0, 1000, 0, 30), Ok(u128::MAX));
    assert_eq!(calculate_output_amount(100, 1000, 4000, 10000), Ok(0));
    assert_eq!(calculate_input_for_output(u128::MAX / 2, u128::MAX, u128::MAX, 30), Err(Error::Overflow));
    assert_eq!(calculate_price(1000, 4000), Ok(4_000_000_000_000_000_000));
    assert_eq!(calculate_price(0, 4000), Ok(0));
}

#[test]
fn fees_are_counted_on_input_side() {
    let mut pool = seeded_pool(30);
    assert_eq!(pool.get_accumulated_fees(), (0, 0));
    pool.swap_exact_tokens_in(100, token(1), 0).unwrap();
    assert_eq!(pool.get_accumulated_fees(), (1, 0));
    pool.swap_tokens_for_exact_out(100, token(2), u128::MAX - 1).unwrap();
    let (_, fees_b) = pool.get_accumulated_fees();
    assert!(fees_b >= 1);
}

#[test]
fn fee_portion_rounds_kept_part_down() {
    assert_eq!(anchore_pool::math::calculate_fee_portion(1001, 5000), 501);
    assert_eq!(anchore_pool::math::calculate_fee_portion(100, 30), 1);
    assert_eq!(anchore_pool::math::calculate_fee_portion(0, 30), 0);
    assert_eq!(anchore_pool::math::calculate_fee_portion(u128::MAX, 0), 0);
}

#[test]
fn wide_square_roots() {
    assert_eq!(isqrt(Wide { hi: u128::MAX, lo: u128::MAX }), u128::MAX);
    let big: u128 = 1_000_000_000_000_000_000_000_000_000_000;
    assert_eq!(isqrt(mul_wide(big, big)), big);
    assert_eq!(isqrt(mul_wide(big, 3)), 1_732_050_807_568_877);
}

#[test]
fn wide_products_and_quotients() {
    assert_eq!(mul_wide(u128::MAX, u128::MAX), Wide { hi: u128::MAX - 1, lo: 1 });
    assert_eq!(mul_wide(1 << 64, 1 << 64), Wide { hi: 1, lo: 0 });
    assert_eq!(mul_div(u128::MAX, u128::MAX, u128::MAX), Some(u128::MAX));
    assert_eq!(mul_div(u128::MAX, 3, 2), None);
    assert_eq!(mul_div(1 << 100, 1 << 100, 1 << 90), Some(1 << 110));
}

#[test]
fn eighteen_decimal_pool_round_trip() {
    let dai: u128 = 300 * 1_000_000_000_000_000_000;
    let weth: u128 = 1_000_000_000_000_000_000;
    let mut pool = AnchorePool::init(token(1), token(2), 30).unwrap();
    let minted = pool.add_liquidity(account(1), dai, weth).unwrap();
    assert_eq!(minted, 17_320_508_075_688_772_935);
    assert_eq!(pool.get_price(token(2)), Ok(300_000_000_000_000_000_000));
    assert_eq!(pool.remove_liquidity(account(1), minted), Ok((dai, weth)));
    assert_eq!(pool.get_lp_token_supply(), 0);
}

#[test]
fn exact_out_of_nothing_still_costs() {
    let mut pool = seeded_pool(30);
    assert_eq!(pool.get_amount_in(0, token(1)), Ok(1));
    assert_eq!(pool.swap_tokens_for_exact_out(0, token(1), 0), Err(Error::InputExceedsMaximum));
    let mut empty = AnchorePool::init(token(1), token(2), 30).unwrap();
    assert_eq!(empty.swap_tokens_for_exact_out(0, token(1), u128::MAX), Err(Error::InputExceedsMaximum));
    assert_eq!(empty.get_amount_in(0, token(1)), Ok(u128::MAX));
}
