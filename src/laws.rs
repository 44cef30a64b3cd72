use vstd::prelude::*;
use vstd::arithmetic::div_mod::{lemma_fundamental_div_mod, lemma_mod_pos_bound};
use crate::math::{after_fee, fits, floor_sqrt, input_amount, output_amount};
use crate::pool::PoolState;
use crate::shares::Address;

verus! {

/// `q * d <= m` for the rounded-down quotient `q = m / d`, and `m < (q + 1) * d`.
proof fn lemma_div_bounds(m: int, d: int)
    requires
        m >= 0,
        d > 0,
    ensures
        (m / d) * d <= m < (m / d + 1) * d,
        m / d >= 0,
{
    lemma_fundamental_div_mod(m, d);
    lemma_mod_pos_bound(m, d);
    assert((m / d) * d == d * (m / d)) by (nonlinear_arith);
    assert((m / d + 1) * d == d * (m / d) + d) by (nonlinear_arith);
    assert(m / d >= 0) by (nonlinear_arith)
        requires m >= 0, d > 0;
}

/// Depositing into a pool and at once burning every share that the deposit minted
/// succeeds, when any were minted, and pays back no more of either asset than was
/// deposited. When the pool had no shares (and so, with no donation pending, no
/// reserves), it pays back exactly the deposit. When the deposit matches the pool's
/// ratio, what is lost to rounding is at most one minted share's worth of the
/// reserve before the deposit, plus one unit.
pub proof fn lemma_deposit_then_redeem(s: PoolState, provider: Address, amount_a: nat, amount_b: nat)
    requires
        s.inv(),
        s.total_supply == 0 ==> s.reserve_a == 0 && s.reserve_b == 0,
        s.add_outcome(amount_a, amount_b) is Ok,
    ensures
        ({
            let minted = s.add_outcome(amount_a, amount_b)->Ok_0;
            let after = s.deposited(provider, amount_a, amount_b, minted);
            minted > 0 ==> after.remove_outcome(provider, minted) is Ok && {
                let (paid_a, paid_b) = after.remove_outcome(provider, minted)->Ok_0;
                &&& paid_a <= amount_a
                &&& paid_b <= amount_b
                &&& s.total_supply == 0 ==> paid_a == amount_a && paid_b == amount_b
                &&& s.total_supply > 0 && amount_a * s.reserve_b == amount_b * s.reserve_a ==> {
                    &&& amount_a <= paid_a + s.reserve_a / (s.total_supply + minted) + 1
                    &&& amount_b <= paid_b + s.reserve_b / (s.total_supply + minted) + 1
                }
            }
        }),
{
    let minted = s.add_outcome(amount_a, amount_b)->Ok_0;
    let after = s.deposited(provider, amount_a, amount_b, minted);
    if minted > 0 {
        let t = s.total_supply as int;
        let v = minted as int;
        if t == 0 {
            assert(v == floor_sqrt((amount_a * amount_b) as int));
            assert(v * amount_a / v == amount_a) by (nonlinear_arith)
                requires v > 0;
            assert(v * amount_b / v == amount_b) by (nonlinear_arith)
                requires v > 0;
        } else {
            let ra = s.reserve_a as int;
            let rb = s.reserve_b as int;
            let by_a = amount_a * t / ra;
            let by_b = amount_b * t / rb;
            lemma_div_bounds(amount_a * t, ra);
            lemma_div_bounds(amount_b * t, rb);
            assert(v <= by_a && v <= by_b);
            assert(v * ra <= amount_a * t) by (nonlinear_arith)
                requires v <= by_a, by_a * ra <= amount_a * t, ra > 0;
            assert(v * rb <= amount_b * t) by (nonlinear_arith)
                requires v <= by_b, by_b * rb <= amount_b * t, rb > 0;
            lemma_redeem_at_most(v, ra, t, amount_a as int);
            lemma_redeem_at_most(v, rb, t, amount_b as int);
            if amount_a * s.reserve_b == amount_b * s.reserve_a {
                let a = amount_a as int;
                let b = amount_b as int;
                if v == by_a {
                    assert((v + 1) * ra > a * t);
                    assert((v + 1) * rb > b * t) by (nonlinear_arith)
                        requires (v + 1) * ra > a * t, a * rb == b * ra, ra > 0, rb > 0;
                } else {
                    assert((v + 1) * rb > b * t);
                    assert((v + 1) * ra > a * t) by (nonlinear_arith)
                        requires (v + 1) * rb > b * t, a * rb == b * ra, ra > 0, rb > 0;
                }
                lemma_rounding_only(v, ra, t, a);
                lemma_rounding_only(v, rb, t, b);
            }
        }
    }
}

/// Burning `v` of `t + v` shares against a reserve that a deposit of `a` raised from
/// `r` pays at most `a`, when the deposit was worth at least `v` shares at the old ratio.
proof fn lemma_redeem_at_most(v: int, r: int, t: int, a: int)
    requires
        v > 0,
        r > 0,
        t > 0,
        a >= 0,
        v * r <= a * t,
    ensures
        v * (r + a) / (t + v) <= a,
{
    assert(v * (r + a) <= a * (t + v)) by (nonlinear_arith)
        requires v * r <= a * t;
    assert(v * (r + a) / (t + v) <= a * (t + v) / (t + v)) by (nonlinear_arith)
        requires v * (r + a) <= a * (t + v), t + v > 0;
    assert(a * (t + v) / (t + v) == a) by (nonlinear_arith)
        requires t + v > 0;
}

/// Burning `v` of `t + v` shares, against a reserve that a deposit of `a` raised from
/// `r`, falls short of `a` by at most `r / (t + v) + 1` when `v` is the rounded-down
/// share of the deposit.
proof fn lemma_rounding_only(v: int, r: int, t: int, a: int)
    requires
        v > 0,
        r > 0,
        t > 0,
        a >= 0,
        (v + 1) * r > a * t,
    ensures
        a <= v * (r + a) / (t + v) + r / (t + v) + 1,
{
    let d = t + v;
    let p = v * (r + a);
    assert(p >= 0) by (nonlinear_arith)
        requires v > 0, r > 0, a >= 0, p == v * (r + a);
    lemma_div_bounds(p, d);
    lemma_div_bounds(r, d);
    let paid = p / d;
    let g = r / d;
    assert(a * d < (paid + g + 2) * d) by (nonlinear_arith)
        requires
            d == t + v,
            p == v * (r + a),
            (v + 1) * r > a * t,
            p < (paid + 1) * d,
            r < (g + 1) * d;
    assert(a < paid + g + 2) by (nonlinear_arith)
        requires a * d < (paid + g + 2) * d, d > 0;
}

/// A provider's shares redeem, of each reserve, their fraction of the shares
/// outstanding, rounded down: the claim `c` on a reserve `r` satisfies
/// `c * total <= shares * r < (c + 1) * total`, and never exceeds `r`.
pub proof fn lemma_share_proportionality(s: PoolState, provider: Address)
    requires
        s.inv(),
        s.balances[provider] > 0,
    ensures
        ({
            let shares = s.balances[provider];
            let t = s.total_supply;
            &&& s.remove_outcome(provider, shares) == Ok::<(nat, nat), crate::error::Error>(
                    (s.redeemed(shares, s.reserve_a), s.redeemed(shares, s.reserve_b)))
            &&& s.redeemed(shares, s.reserve_a) * t <= shares * s.reserve_a < (s.redeemed(shares, s.reserve_a) + 1) * t
            &&& s.redeemed(shares, s.reserve_b) * t <= shares * s.reserve_b < (s.redeemed(shares, s.reserve_b) + 1) * t
            &&& s.redeemed(shares, s.reserve_a) <= s.reserve_a
            &&& s.redeemed(shares, s.reserve_b) <= s.reserve_b
        }),
{
    let shares = s.balances[provider] as int;
    let t = s.total_supply as int;
    assert(shares <= t);
    assert(shares * s.reserve_a >= 0 && shares * s.reserve_b >= 0) by (nonlinear_arith)
        requires shares > 0;
    lemma_div_bounds(shares * s.reserve_a, t);
    lemma_div_bounds(shares * s.reserve_b, t);
    assert(shares * s.reserve_a / t <= s.reserve_a) by (nonlinear_arith)
        requires 0 < shares <= t, (shares * s.reserve_a / t) * t <= shares * s.reserve_a;
    assert(shares * s.reserve_b / t <= s.reserve_b) by (nonlinear_arith)
        requires 0 < shares <= t, (shares * s.reserve_b / t) * t <= shares * s.reserve_b;
}

/// A quote from `quote_out`, used at once as the minimum output of a fixed-input swap
/// of the same amount, is met exactly, unless the input reserve would overflow.
pub proof fn lemma_quote_then_swap(s: PoolState, amount_in: nat, token_in: Address)
    requires
        s.inv(),
        s.quote_out(amount_in, token_in) is Ok,
        fits((s.reserves_for(s.side_of(token_in)->Some_0).0 + amount_in) as int),
    ensures
        s.swap_in_outcome(amount_in, token_in, s.quote_out(amount_in, token_in)->Ok_0)
            == s.quote_out(amount_in, token_in),
{
}

/// Paying the input that a fixed-output swap of `amount_out` requires, as the input of
/// a fixed-input swap against the same reserves, yields at least `amount_out`, when
/// the input reserve is not empty, the output is less than the output reserve, and
/// the fee on that input is a whole number of units. Where the fee rounds, the
/// property can fail for small amounts.
pub proof fn lemma_exact_out_round_trip(amount_out: int, reserve_in: int, reserve_out: int, fee_rate_bps: int)
    requires
        0 <= fee_rate_bps < 10000,
        reserve_in > 0,
        0 <= amount_out < reserve_out,
        (input_amount(amount_out, reserve_in, reserve_out, fee_rate_bps) * (10000 - fee_rate_bps)) % 10000 == 0,
    ensures
        output_amount(input_amount(amount_out, reserve_in, reserve_out, fee_rate_bps), reserve_in, reserve_out, fee_rate_bps)
            >= amount_out,
{
    let a = input_amount(amount_out, reserve_in, reserve_out, fee_rate_bps);
    let k = 10000 - fee_rate_bps;
    {
        let n = reserve_in * amount_out * 10000;
        let d = (reserve_out - amount_out) * k;
        assert(d > 0) by (nonlinear_arith)
            requires d == (reserve_out - amount_out) * k, reserve_out > amount_out, k > 0;
        assert(n >= 0) by (nonlinear_arith)
            requires n == reserve_in * amount_out * 10000, reserve_in > 0, amount_out >= 0;
        lemma_div_bounds(n, d);
        assert(a == n / d + 1);
        assert(a * d > n) by (nonlinear_arith)
            requires a == n / d + 1, n < (n / d + 1) * d;
        let f = after_fee(a, fee_rate_bps);
        lemma_fundamental_div_mod(a * k, 10000);
        assert(f * 10000 == a * k);
        assert(f * (reserve_out - amount_out) * 10000 == a * d) by (nonlinear_arith)
            requires f * 10000 == a * k, d == (reserve_out - amount_out) * k;
        assert(f * (reserve_out - amount_out) > reserve_in * amount_out) by (nonlinear_arith)
            requires f * (reserve_out - amount_out) * 10000 > reserve_in * amount_out * 10000;
        assert(f >= 0) by (nonlinear_arith)
            requires f * 10000 == a * k, a >= 1, k > 0;
        assert(amount_out * (reserve_in + f) <= f * reserve_out) by (nonlinear_arith)
            requires f * (reserve_out - amount_out) > reserve_in * amount_out;
        assert(f * reserve_out >= 0) by (nonlinear_arith)
            requires f >= 0, reserve_out > 0;
        lemma_div_bounds(f * reserve_out, reserve_in + f);
        assert(amount_out <= f * reserve_out / (reserve_in + f)) by (nonlinear_arith)
            requires
                amount_out * (reserve_in + f) <= f * reserve_out,
                f * reserve_out < (f * reserve_out / (reserve_in + f) + 1) * (reserve_in + f),
                reserve_in + f > 0;
    }
}

} // verus!
