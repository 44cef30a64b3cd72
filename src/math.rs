use vstd::prelude::*;
use crate::error::Error;
use crate::wide::{div_wide, mul_div, mul_wide, word, Wide};
use vstd::arithmetic::div_mod::{lemma_div_denominator, lemma_fundamental_div_mod, lemma_hoist_over_denominator, lemma_mod_pos_bound};

verus! {

/// Fee rates are expressed in parts of this denominator (basis points).
pub const BPS_DENOMINATOR: u128 = 10000;

/// Fixed-point scale of quoted prices.
pub const PRICE_SCALE: u128 = 1_000_000_000_000_000_000;

/// The value can be held in a `u128`.
pub open spec fn fits(v: int) -> bool {
    0 <= v <= u128::MAX
}

/// The input that counts toward the trade once the fee is taken, rounded down.
pub open spec fn after_fee(amount_in: int, fee_rate_bps: int) -> int {
    amount_in * (10000 - fee_rate_bps) / 10000
}

/// The part of an input kept as fee: what does not count toward the trade.
pub open spec fn fee_portion(amount_in: int, fee_rate_bps: int) -> int {
    amount_in - after_fee(amount_in, fee_rate_bps)
}

/// `v`, or the largest `u128` where `v` is larger.
pub open spec fn capped(v: int) -> nat {
    if v > u128::MAX {
        u128::MAX as nat
    } else {
        v as nat
    }
}

/// Output of a fixed-input swap: the constant-product curve solved for the output,
/// rounded down. Zero when the input or either reserve is zero.
pub open spec fn output_amount(amount_in: int, reserve_in: int, reserve_out: int, fee_rate_bps: int) -> int {
    if amount_in == 0 || reserve_in == 0 || reserve_out == 0 {
        0
    } else {
        let f = after_fee(amount_in, fee_rate_bps);
        f * reserve_out / (reserve_in + f)
    }
}

/// The denominator of `output_amount` fits in 128 bits. The products are formed at
/// full width, so this is the only limit.
pub open spec fn output_computable(amount_in: int, reserve_in: int, reserve_out: int, fee_rate_bps: int) -> bool {
    amount_in == 0 || reserve_in == 0 || reserve_out == 0 || fits(reserve_in + after_fee(amount_in, fee_rate_bps))
}

/// Input required by a fixed-output swap, rounded up by one unit; the largest
/// `u128` when the output would take the whole reserve or more.
pub open spec fn input_amount(amount_out: int, reserve_in: int, reserve_out: int, fee_rate_bps: int) -> int {
    if amount_out >= reserve_out {
        u128::MAX as int
    } else {
        reserve_in * amount_out * 10000 / ((reserve_out - amount_out) * (10000 - fee_rate_bps)) + 1
    }
}

/// The required input of a fixed-output swap fits in 128 bits.
pub open spec fn input_computable(amount_out: int, reserve_in: int, reserve_out: int, fee_rate_bps: int) -> bool {
    fits(input_amount(amount_out, reserve_in, reserve_out, fee_rate_bps))
}

/// Shares owed for a deposit into a pool that already has shares outstanding:
/// the smaller of the two deposit-to-reserve ratios, rounded down.
pub open spec fn proportional_shares(amount_a: int, amount_b: int, reserve_a: int, reserve_b: int, total: int) -> int {
    let by_a = amount_a * total / reserve_a;
    let by_b = amount_b * total / reserve_b;
    if by_a < by_b { by_a } else { by_b }
}

/// Price of one unit of an asset in units of the other, scaled by `PRICE_SCALE`;
/// zero when either reserve is empty.
pub open spec fn scaled_price(reserve_this: int, reserve_other: int) -> int {
    if reserve_this == 0 || reserve_other == 0 {
        0
    } else {
        reserve_other * 1_000_000_000_000_000_000 / reserve_this
    }
}

/// `r` is the floor of the square root of `n`.
pub open spec fn is_floor_sqrt(n: int, r: int) -> bool {
    0 <= r && r * r <= n && n < (r + 1) * (r + 1)
}

/// The floor of the square root of `n`.
pub open spec fn floor_sqrt(n: int) -> int {
    choose|r: int| is_floor_sqrt(n, r)
}

/// The floor square root is unique.
pub proof fn lemma_floor_sqrt_unique(n: int, r: int)
    requires
        is_floor_sqrt(n, r),
    ensures
        floor_sqrt(n) == r,
{
    let c = floor_sqrt(n);
    assert(is_floor_sqrt(n, c));
    if c < r {
        assert((c + 1) * (c + 1) <= r * r) by (nonlinear_arith)
            requires c + 1 <= r, c >= 0;
    } else if r < c {
        assert((r + 1) * (r + 1) <= c * c) by (nonlinear_arith)
            requires r + 1 <= c, r >= 0;
    }
}

/// Shares minted for a deposit of `amount_a` and `amount_b` into a pool with the given
/// reserves and `total` shares outstanding, or why none can be.
pub open spec fn liquidity_outcome(amount_a: int, amount_b: int, reserve_a: int, reserve_b: int, total: int) -> Result<int, Error> {
    if total == 0 {
        Ok(floor_sqrt(amount_a * amount_b))
    } else if reserve_a == 0 || reserve_b == 0 {
        Err(Error::DepletedReserves)
    } else if fits(proportional_shares(amount_a, amount_b, reserve_a, reserve_b, total)) {
        Ok(proportional_shares(amount_a, amount_b, reserve_a, reserve_b, total))
    } else {
        Err(Error::Overflow)
    }
}

/// A fixed-input swap pays out no more than the output reserve, and the product of
/// the reserves after it, input credited and output paid, is at least the product before.
pub proof fn lemma_output_keeps_product(amount_in: int, reserve_in: int, reserve_out: int, fee_rate_bps: int)
    requires
        amount_in >= 0,
        reserve_in >= 0,
        reserve_out >= 0,
        0 <= fee_rate_bps < 10000,
    ensures
        0 <= output_amount(amount_in, reserve_in, reserve_out, fee_rate_bps) <= reserve_out,
        (reserve_in + amount_in) * (reserve_out - output_amount(amount_in, reserve_in, reserve_out, fee_rate_bps))
            >= reserve_in * reserve_out,
{
    let out = output_amount(amount_in, reserve_in, reserve_out, fee_rate_bps);
    if amount_in == 0 || reserve_in == 0 || reserve_out == 0 {
        assert((reserve_in + amount_in) * reserve_out >= reserve_in * reserve_out) by (nonlinear_arith)
            requires amount_in >= 0, reserve_in >= 0, reserve_out >= 0;
    } else {
        let f = after_fee(amount_in, fee_rate_bps);
        assert(0 <= f <= amount_in) by (nonlinear_arith)
            requires f == amount_in * (10000 - fee_rate_bps) / 10000, amount_in >= 0, 0 <= fee_rate_bps < 10000;
        let d = reserve_in + f;
        lemma_fundamental_div_mod(f * reserve_out, d);
        lemma_mod_pos_bound(f * reserve_out, d);
        assert(out == (f * reserve_out) / d);
        assert(f * reserve_out >= 0) by (nonlinear_arith)
            requires f >= 0, reserve_out >= 0;
        assert(out * d <= f * reserve_out) by (nonlinear_arith)
            requires f * reserve_out == d * out + (f * reserve_out) % d, (f * reserve_out) % d >= 0;
        assert(out >= 0) by (nonlinear_arith)
            requires out == (f * reserve_out) / d, f * reserve_out >= 0, d > 0;
        assert(out <= reserve_out) by (nonlinear_arith)
            requires out * d <= f * reserve_out, d > 0, f <= d, reserve_out >= 0;
        assert((reserve_in + amount_in) * (reserve_out - out) >= reserve_in * reserve_out) by (nonlinear_arith)
            requires
                out * d <= f * reserve_out,
                d == reserve_in + f,
                f <= amount_in,
                out <= reserve_out;
    }
}

/// A fixed-output swap that takes less than the whole output reserve leaves the
/// product of the reserves, required input credited and output paid, above the
/// product before.
pub proof fn lemma_input_keeps_product(amount_out: int, reserve_in: int, reserve_out: int, fee_rate_bps: int)
    requires
        0 <= amount_out < reserve_out,
        reserve_in >= 0,
        0 <= fee_rate_bps < 10000,
    ensures
        (reserve_in + input_amount(amount_out, reserve_in, reserve_out, fee_rate_bps)) * (reserve_out - amount_out)
            >= reserve_in * reserve_out,
{
    let n = reserve_in * amount_out * 10000;
    let d = (reserve_out - amount_out) * (10000 - fee_rate_bps);
    let a = input_amount(amount_out, reserve_in, reserve_out, fee_rate_bps);
    assert(d > 0) by (nonlinear_arith)
        requires d == (reserve_out - amount_out) * (10000 - fee_rate_bps), reserve_out > amount_out, fee_rate_bps < 10000;
    lemma_fundamental_div_mod(n, d);
    lemma_mod_pos_bound(n, d);
    assert(n >= 0) by (nonlinear_arith)
        requires n == reserve_in * amount_out * 10000, reserve_in >= 0, amount_out >= 0;
    assert(a * d > n) by (nonlinear_arith)
        requires a == n / d + 1, n == d * (n / d) + n % d, n % d < d;
    assert(a * (reserve_out - amount_out) * 10000 >= a * d) by (nonlinear_arith)
        requires d == (reserve_out - amount_out) * (10000 - fee_rate_bps), a >= 0, reserve_out > amount_out, fee_rate_bps >= 0;
    assert(a * (reserve_out - amount_out) > reserve_in * amount_out) by (nonlinear_arith)
        requires a * (reserve_out - amount_out) * 10000 > reserve_in * amount_out * 10000;
    assert((reserve_in + a) * (reserve_out - amount_out) >= reserve_in * reserve_out) by (nonlinear_arith)
        requires a * (reserve_out - amount_out) > reserve_in * amount_out;
}

/// `word()` squared bounds every `Wide`.
proof fn lemma_wide_bound(n: Wide)
    ensures
        0 <= n.value() < word() * word(),
{
    assert(0 <= n.value() < word() * word()) by (nonlinear_arith)
        requires n.value() == n.hi * word() + n.lo, 0 <= n.hi < word(), 0 <= n.lo < word();
}

/// One Newton step from any positive guess lands at or above the floor square root.
proof fn lemma_newton_step_bound(n: int, x: int)
    requires
        n >= 0,
        x >= 1,
    ensures
        n < ((x + n / x) / 2 + 1) * ((x + n / x) / 2 + 1),
{
    let q = n / x;
    let r = n % x;
    lemma_fundamental_div_mod(n, x);
    lemma_mod_pos_bound(n, x);
    let y = (x + q) / 2;
    assert(2 * (y + 1) >= x + q + 1);
    assert(q >= 0) by (nonlinear_arith)
        requires n >= 0, x >= 1, q == n / x;
    assert(4 * (y + 1) * (y + 1) >= (x + q + 1) * (x + q + 1)) by (nonlinear_arith)
        requires 2 * (y + 1) >= x + q + 1, x + q + 1 >= 0;
    assert((x + q + 1) * (x + q + 1) == 4 * (x * q + x - 1) + (x - q - 1) * (x - q - 1) + 4)
        by (nonlinear_arith);
    assert((x - q - 1) * (x - q - 1) >= 0) by (nonlinear_arith);
    assert(n <= x * q + x - 1);
    assert(n < (y + 1) * (y + 1)) by (nonlinear_arith)
        requires
            4 * (y + 1) * (y + 1) >= (x + q + 1) * (x + q + 1),
            (x + q + 1) * (x + q + 1) == 4 * (x * q + x - 1) + (x - q - 1) * (x - q - 1) + 4,
            (x - q - 1) * (x - q - 1) >= 0,
            n <= x * q + x - 1;
}

/// When a Newton step does not decrease the guess, the guess squared is at most `n`.
proof fn lemma_newton_stop(n: int, x: int)
    requires
        n >= 0,
        x >= 1,
        (x + n / x) / 2 >= x,
    ensures
        x * x <= n,
{
    let q = n / x;
    lemma_fundamental_div_mod(n, x);
    lemma_mod_pos_bound(n, x);
    assert(q >= x);
    assert(x * x <= x * q) by (nonlinear_arith)
        requires q >= x, x >= 1;
}

/// Integer square root of a 256-bit integer by Newton's method: starting from the
/// largest `u128`, which is at least the root, step to `(x + n / x) / 2` while that
/// decreases the guess.
pub fn isqrt(n: Wide) -> (r: u128)
    ensures
        is_floor_sqrt(n.value(), r as int),
        r == floor_sqrt(n.value()),
{
    let ghost v = n.value();
    proof {
        lemma_wide_bound(n);
    }
    if n.hi == 0 && n.lo == 0 {
        assert(is_floor_sqrt(0, 0)) by (nonlinear_arith);
        proof {
            lemma_floor_sqrt_unique(0, 0);
        }
        return 0;
    }
    let mut x: u128 = u128::MAX;
    let mut done = false;
    while !done
        invariant
            v == n.value(),
            v >= 1,
            x >= 1,
            v < (x + 1) * (x + 1),
            done ==> x * x <= v,
        decreases x, (if done { 0int } else { 1int }),
    {
        let (q, _) = div_wide(n, x);
        if q.hi != 0 {
            proof {
                assert(q.value() >= word()) by (nonlinear_arith)
                    requires q.value() == q.hi * word() + q.lo, q.hi >= 1, q.lo >= 0;
                lemma_newton_stop(v, x as int);
            }
            done = true;
        } else {
            let ql = q.lo;
            let y = x / 2 + ql / 2 + (x % 2 + ql % 2) / 2;
            if y >= x {
                proof {
                    lemma_newton_stop(v, x as int);
                }
                done = true;
            } else {
                proof {
                    lemma_newton_step_bound(v, x as int);
                    assert(y >= 1) by (nonlinear_arith)
                        requires v < (y + 1) * (y + 1), v >= 1, y >= 0;
                }
                x = y;
            }
        }
    }
    proof {
        lemma_floor_sqrt_unique(v, x as int);
    }
    x
}

/// The smaller of two 256-bit integers.
fn min_wide(a: Wide, b: Wide) -> (r: Wide)
    ensures
        r.value() == if a.value() < b.value() { a.value() } else { b.value() },
{
    if a.hi < b.hi || (a.hi == b.hi && a.lo < b.lo) {
        assert(a.value() < b.value()) by (nonlinear_arith)
            requires a.value() == a.hi * word() + a.lo, b.value() == b.hi * word() + b.lo,
                a.hi < b.hi || (a.hi == b.hi && a.lo < b.lo), 0 <= a.lo < word(), 0 <= b.lo < word();
        a
    } else {
        assert(a.value() >= b.value()) by (nonlinear_arith)
            requires a.value() == a.hi * word() + a.lo, b.value() == b.hi * word() + b.lo,
                !(a.hi < b.hi || (a.hi == b.hi && a.lo < b.lo)), 0 <= a.lo < word(), 0 <= b.lo < word();
        b
    }
}

/// Shares to mint for a deposit: the floor square root of the product of the two
/// amounts for the first deposit, else the smaller of the two proportional amounts.
/// Products are formed at full width.
pub fn calculate_liquidity_to_mint(amount_a: u128, amount_b: u128, reserve_a: u128, reserve_b: u128, total: u128) -> (r: Result<u128, Error>)
    ensures
        r == (match liquidity_outcome(amount_a as int, amount_b as int, reserve_a as int, reserve_b as int, total as int) {
            Ok(v) => Ok::<u128, Error>(v as u128),
            Err(e) => Err::<u128, Error>(e),
        }),
        liquidity_outcome(amount_a as int, amount_b as int, reserve_a as int, reserve_b as int, total as int) is Ok
            ==> fits(liquidity_outcome(amount_a as int, amount_b as int, reserve_a as int, reserve_b as int, total as int)->Ok_0),
{
    if total == 0 {
        return Ok(isqrt(mul_wide(amount_a, amount_b)));
    }
    if reserve_a == 0 || reserve_b == 0 {
        return Err(Error::DepletedReserves);
    }
    let (by_a, _) = div_wide(mul_wide(amount_a, total), reserve_a);
    let (by_b, _) = div_wide(mul_wide(amount_b, total), reserve_b);
    let least = min_wide(by_a, by_b);
    if least.hi != 0 {
        assert(least.value() >= word()) by (nonlinear_arith)
            requires least.value() == least.hi * word() + least.lo, least.hi >= 1, least.lo >= 0;
        return Err(Error::Overflow);
    }
    Ok(least.lo)
}

/// The fee kept from `amount_in`, computed without forming `amount_in * (10000 - fee)`.
pub fn calculate_fee_portion(amount_in: u128, fee_rate_bps: u128) -> (r: u128)
    requires
        fee_rate_bps <= 10000,
    ensures
        r == fee_portion(amount_in as int, fee_rate_bps as int),
{
    let k = BPS_DENOMINATOR - fee_rate_bps;
    let q = amount_in / BPS_DENOMINATOR;
    let m = amount_in % BPS_DENOMINATOR;
    assert(q * k <= amount_in) by (nonlinear_arith)
        requires q == amount_in / 10000, 0 <= k <= 10000, amount_in >= 0;
    assert(m * k < 100000000) by (nonlinear_arith)
        requires m < 10000, k <= 10000, m >= 0;
    proof {
        lemma_fundamental_div_mod(amount_in as int, 10000);
        assert(q * k <= q * 10000) by (nonlinear_arith)
            requires k <= 10000, q >= 0;
        assert(m * k / 10000 <= m) by (nonlinear_arith)
            requires k <= 10000, m >= 0;
    }
    let kept = q * k + m * k / BPS_DENOMINATOR;
    proof {
        lemma_fundamental_div_mod(amount_in as int, 10000);
        assert(amount_in as int * k == m * k + (q * k) * 10000) by (nonlinear_arith)
            requires amount_in as int == 10000 * q + m;
        lemma_hoist_over_denominator(m * k, q * k, 10000);
        assert(kept == after_fee(amount_in as int, fee_rate_bps as int));
        assert(kept <= amount_in) by (nonlinear_arith)
            requires kept == amount_in as int * k / 10000, k <= 10000, amount_in >= 0;
    }
    amount_in - kept
}

/// Output of a fixed-input swap against the given reserves. A fee of 10000 basis
/// points leaves nothing to trade and gives zero.
pub fn calculate_output_amount(amount_in: u128, reserve_in: u128, reserve_out: u128, fee_rate_bps: u128) -> (r: Result<u128, Error>)
    requires
        fee_rate_bps <= 10000,
    ensures
        output_computable(amount_in as int, reserve_in as int, reserve_out as int, fee_rate_bps as int)
            ==> r == Ok::<u128, Error>(output_amount(amount_in as int, reserve_in as int, reserve_out as int, fee_rate_bps as int) as u128)
                && fits(output_amount(amount_in as int, reserve_in as int, reserve_out as int, fee_rate_bps as int)),
        !output_computable(amount_in as int, reserve_in as int, reserve_out as int, fee_rate_bps as int)
            ==> r == Err::<u128, Error>(Error::Overflow),
{
    if amount_in == 0 || reserve_in == 0 || reserve_out == 0 {
        return Ok(0);
    }
    let ghost f_int = after_fee(amount_in as int, fee_rate_bps as int);
    assert(0 <= f_int <= amount_in) by (nonlinear_arith)
        requires f_int == amount_in * (10000 - fee_rate_bps) / 10000, amount_in >= 0, 0 <= fee_rate_bps <= 10000;
    let with_fee = match mul_div(amount_in, BPS_DENOMINATOR - fee_rate_bps, BPS_DENOMINATOR) {
        Some(v) => v,
        None => return Err(Error::Overflow),
    };
    let denominator = match reserve_in.checked_add(with_fee) {
        Some(v) => v,
        None => return Err(Error::Overflow),
    };
    assert((with_fee as int) * (reserve_out as int) / (denominator as int) <= reserve_out) by (nonlinear_arith)
        requires with_fee <= denominator, denominator > 0, reserve_out >= 0, with_fee >= 0;
    match mul_div(with_fee, reserve_out, denominator) {
        Some(v) => Ok(v),
        None => Err(Error::Overflow),
    }
}

/// Input required by a fixed-output swap against the given reserves. The numerator
/// is divided by the remaining reserve first and by the fee factor after, which
/// gives the same rounded-down quotient without forming their product.
pub fn calculate_input_for_output(amount_out: u128, reserve_in: u128, reserve_out: u128, fee_rate_bps: u128) -> (r: Result<u128, Error>)
    requires
        fee_rate_bps < 10000,
    ensures
        input_computable(amount_out as int, reserve_in as int, reserve_out as int, fee_rate_bps as int)
            ==> r == Ok::<u128, Error>(input_amount(amount_out as int, reserve_in as int, reserve_out as int, fee_rate_bps as int) as u128)
                && fits(input_amount(amount_out as int, reserve_in as int, reserve_out as int, fee_rate_bps as int)),
        !input_computable(amount_out as int, reserve_in as int, reserve_out as int, fee_rate_bps as int)
            ==> r == Err::<u128, Error>(Error::Overflow),
{
    if amount_out >= reserve_out {
        return Ok(u128::MAX);
    }
    let d = reserve_out - amount_out;
    let k = BPS_DENOMINATOR - fee_rate_bps;
    let ghost n = reserve_in as int * amount_out as int;
    let (q1, r1) = div_wide(mul_wide(reserve_in, amount_out), d);
    proof {
        lemma_fundamental_div_mod(n, d as int);
        lemma_mod_pos_bound(n, d as int);
        assert(n >= 0) by (nonlinear_arith)
            requires n == reserve_in as int * amount_out as int;
        // floor(n * 10000 / d) = q1 * 10000 + floor(r1 * 10000 / d)
        assert(n * 10000 == r1 * 10000 + (q1.value() * 10000) * d) by (nonlinear_arith)
            requires n == d * q1.value() + r1;
        lemma_hoist_over_denominator(r1 * 10000, q1.value() * 10000, d as nat);
        assert(r1 * 10000 >= 0) by (nonlinear_arith)
            requires r1 >= 0;
        assert(n * 10000 >= 0) by (nonlinear_arith)
            requires n >= 0;
        lemma_div_denominator(n * 10000, d as int, k as int);
        assert(reserve_in * amount_out * 10000 == n * 10000);
    }
    if q1.hi != 0 {
        proof {
            assert(q1.value() >= word()) by (nonlinear_arith)
                requires q1.value() == q1.hi * word() + q1.lo, q1.hi >= 1, q1.lo >= 0;
            let t = q1.value() * 10000 + (r1 * 10000) / (d as int);
            assert((r1 * 10000) / (d as int) >= 0) by (nonlinear_arith)
                requires r1 >= 0, d > 0;
            assert(t / (k as int) >= q1.value()) by (nonlinear_arith)
                requires t >= q1.value() * 10000, 0 < k <= 10000, q1.value() >= 0;
        }
        return Err(Error::Overflow);
    }
    let s = match mul_div(r1, BPS_DENOMINATOR, d) {
        Some(v) => v,
        None => {
            assert(r1 * 10000 / (d as int) <= 10000) by (nonlinear_arith)
                requires r1 < d, d > 0, r1 >= 0;
            return Err(Error::Overflow);
        },
    };
    assert(s <= 10000) by (nonlinear_arith)
        requires s == r1 * 10000 / (d as int), r1 < d, d > 0, r1 >= 0;
    let scaled = mul_wide(q1.lo, BPS_DENOMINATOR);
    assert(scaled.hi < 10000) by (nonlinear_arith)
        requires scaled.value() == q1.lo * 10000, scaled.value() == scaled.hi * word() + scaled.lo,
            q1.lo < word(), scaled.lo >= 0, scaled.hi >= 0;
    let total = if scaled.lo > u128::MAX - s {
        Wide { hi: scaled.hi + 1, lo: scaled.lo - (u128::MAX - s) - 1 }
    } else {
        Wide { hi: scaled.hi, lo: scaled.lo + s }
    };
    assert(total.value() == q1.value() * 10000 + s);
    let (q2, _) = div_wide(total, k);
    if q2.hi != 0 || q2.lo == u128::MAX {
        proof {
            assert(q2.value() >= u128::MAX) by (nonlinear_arith)
                requires q2.value() == q2.hi * word() + q2.lo, q2.hi >= 1 || q2.lo == u128::MAX, q2.lo >= 0,
                    word() == u128::MAX + 1;
        }
        return Err(Error::Overflow);
    }
    Ok(q2.lo + 1)
}

/// Price of one unit of the asset whose reserve is `reserve_this`, in units of the
/// other asset, scaled by `PRICE_SCALE`.
pub fn calculate_price(reserve_this: u128, reserve_other: u128) -> (r: Result<u128, Error>)
    ensures
        fits(scaled_price(reserve_this as int, reserve_other as int))
            ==> r == Ok::<u128, Error>(scaled_price(reserve_this as int, reserve_other as int) as u128),
        !fits(scaled_price(reserve_this as int, reserve_other as int)) ==> r == Err::<u128, Error>(Error::Overflow),
{
    if reserve_this == 0 || reserve_other == 0 {
        return Ok(0);
    }
    match mul_div(reserve_other, PRICE_SCALE, reserve_this) {
        Some(v) => Ok(v),
        None => Err(Error::Overflow),
    }
}

} // verus!
