use vstd::prelude::*;
use vstd::arithmetic::div_mod::{lemma_fundamental_div_mod, lemma_fundamental_div_mod_converse};
use vstd::arithmetic::power2::{lemma2_to64, lemma_pow2_adds, lemma_pow2_pos, lemma_pow2_unfold, pow2};

verus! {

/// 2^128, the base of the two words of a `Wide`.
pub open spec fn word() -> int {
    u128::MAX as int + 1
}

/// 2^64 as an executable constant.
const HALF_WORD: u128 = 0x1_0000_0000_0000_0000;

/// An unsigned 256-bit integer as a high and a low 128-bit word.
#[derive(Clone, Copy, Debug, PartialEq, Eq, Structural)]
pub struct Wide {
    pub hi: u128,
    pub lo: u128,
}

impl Wide {
    pub open spec fn value(self) -> int {
        self.hi * word() + self.lo
    }
}

/// The full product of two 128-bit integers.
pub fn mul_wide(a: u128, b: u128) -> (r: Wide)
    ensures
        r.value() == a * b,
{
    let a1 = a / HALF_WORD;
    let a0 = a % HALF_WORD;
    let b1 = b / HALF_WORD;
    let b0 = b % HALF_WORD;
    assert(a0 * b0 <= u128::MAX && a0 * b1 <= u128::MAX && a1 * b0 <= u128::MAX && a1 * b1 <= u128::MAX)
        by (nonlinear_arith)
        requires a0 < 0x1_0000_0000_0000_0000, b0 < 0x1_0000_0000_0000_0000,
            a1 < 0x1_0000_0000_0000_0000, b1 < 0x1_0000_0000_0000_0000, a0 >= 0, a1 >= 0, b0 >= 0, b1 >= 0;
    let p00 = a0 * b0;
    let p01 = a0 * b1;
    let p10 = a1 * b0;
    let p11 = a1 * b1;
    let (mid, carry): (u128, u128) = if p01 > u128::MAX - p10 {
        (p01 - (u128::MAX - p10) - 1, 1)
    } else {
        (p01 + p10, 0)
    };
    let mh = mid / HALF_WORD;
    let ml = mid % HALF_WORD;
    assert(ml * 0x1_0000_0000_0000_0000 <= u128::MAX - 0xFFFF_FFFF_FFFF_FFFF) by (nonlinear_arith)
        requires ml < 0x1_0000_0000_0000_0000, ml >= 0;
    let shifted = ml * HALF_WORD;
    let (lo, c2): (u128, u128) = if p00 > u128::MAX - shifted {
        (p00 - (u128::MAX - shifted) - 1, 1)
    } else {
        (p00 + shifted, 0)
    };
    assert(a * b == (p11 + mh + carry * 0x1_0000_0000_0000_0000 + c2) * word() + lo) by (nonlinear_arith)
        requires
            a == a1 * 0x1_0000_0000_0000_0000 + a0,
            b == b1 * 0x1_0000_0000_0000_0000 + b0,
            p00 == a0 * b0, p01 == a0 * b1, p10 == a1 * b0, p11 == a1 * b1,
            p01 + p10 == mid + carry * word(),
            mid == mh * 0x1_0000_0000_0000_0000 + ml,
            shifted == ml * 0x1_0000_0000_0000_0000,
            shifted + p00 == lo + c2 * word(),
            word() == 0x1_0000_0000_0000_0000 * 0x1_0000_0000_0000_0000;
    assert(p11 + mh + carry * 0x1_0000_0000_0000_0000 + c2 <= u128::MAX) by (nonlinear_arith)
        requires
            a * b == (p11 + mh + carry * 0x1_0000_0000_0000_0000 + c2) * word() + lo,
            a <= u128::MAX, b <= u128::MAX, a >= 0, b >= 0, lo >= 0,
            word() == u128::MAX + 1;
    let hi = p11 + mh + carry * HALF_WORD + c2;
    Wide { hi, lo }
}

/// Divides `r * 2^128 + lo` by `d`, where `r < d`, one bit at a time.
fn div_step(r: u128, lo: u128, d: u128) -> (res: (u128, u128))
    requires
        r < d,
    ensures
        r * word() + lo == res.0 * d + res.1,
        res.1 < d,
{
    let ghost n: int = r * word() + lo;
    let mut q: u128 = 0;
    let mut rem: u128 = r;
    let mut rest: u128 = lo;
    let mut half: u128 = 0x8000_0000_0000_0000_0000_0000_0000_0000;
    let ghost mut e: nat = 128;
    proof {
        lemma2_to64();
        lemma_pow2_adds(64, 64);
        assert(pow2(128) == word());
        assert(n < d * word()) by (nonlinear_arith)
            requires n == r * word() + lo, r < d, lo < word();
    }
    while half > 0
        invariant
            half as int == pow2(e) / 2,
            e <= 128,
            n == (q * d + rem) * pow2(e) + rest,
            rest < pow2(e),
            rem < d,
            n < d * word(),
        decreases half,
    {
        proof {
            lemma_pow2_pos(e);
            lemma2_to64();
            if e == 0 {
                assert(false);
            }
            lemma_pow2_unfold(e);
            assert(q * pow2(e) < word()) by (nonlinear_arith)
                requires n == (q * d + rem) * pow2(e) + rest, n < d * word(), rem >= 0, rest >= 0, d > 0, q >= 0;
            assert(2 * q < word()) by (nonlinear_arith)
                requires q * pow2(e) < word(), pow2(e) >= 2, q >= 0;
        }
        let bit: u128 = if rest >= half { 1 } else { 0 };
        let ghost old_rest = rest;
        rest = rest - bit * half;
        let qb: u128;
        let ghost old_rem = rem;
        if rem >= d - rem {
            rem = (rem - (d - rem)) + bit;
            qb = 1;
        } else if rem + rem + bit >= d {
            rem = rem + rem + bit - d;
            qb = 1;
        } else {
            rem = rem + rem + bit;
            qb = 0;
        }
        let ghost old_q = q;
        q = q + q + qb;
        proof {
            assert(n == (q * d + rem) * half + rest) by (nonlinear_arith)
                requires
                    n == (old_q * d + old_rem) * pow2(e) + old_rest,
                    pow2(e) == 2 * half,
                    q == 2 * old_q + qb,
                    rem == 2 * old_rem + bit - qb * d,
                    old_rest == bit * half + rest;
        }
        half = half / 2;
        proof {
            e = (e - 1) as nat;
        }
    }
    proof {
        lemma_pow2_pos(e);
    }
    (q, rem)
}

/// Quotient and remainder of a 256-bit integer by a nonzero 128-bit one.
pub fn div_wide(n: Wide, d: u128) -> (res: (Wide, u128))
    requires
        d > 0,
    ensures
        res.0.value() == n.value() / (d as int),
        res.1 == n.value() % (d as int),
{
    let qh = n.hi / d;
    let r = n.hi % d;
    let (ql, rem) = div_step(r, n.lo, d);
    let q = Wide { hi: qh, lo: ql };
    proof {
        lemma_fundamental_div_mod(n.hi as int, d as int);
        assert(n.value() == q.value() * d + rem) by (nonlinear_arith)
            requires
                n.value() == n.hi * word() + n.lo,
                n.hi == qh * d + r,
                r * word() + n.lo == ql * d + rem,
                q.value() == qh * word() + ql;
        lemma_fundamental_div_mod_converse(n.value(), d as int, q.value(), rem as int);
    }
    (q, rem)
}

/// `a * b / c`, rounded down, when it fits in 128 bits.
pub fn mul_div(a: u128, b: u128, c: u128) -> (r: Option<u128>)
    requires
        c > 0,
    ensures
        (a as int) * (b as int) / (c as int) <= u128::MAX ==> r == Some(((a as int) * (b as int) / (c as int)) as u128),
        (a as int) * (b as int) / (c as int) > u128::MAX ==> r is None,
{
    let (q, _) = div_wide(mul_wide(a, b), c);
    if q.hi == 0 {
        Some(q.lo)
    } else {
        assert(q.value() >= word()) by (nonlinear_arith)
            requires q.value() == q.hi * word() + q.lo, q.hi >= 1, q.lo >= 0;
        None
    }
}

} // verus!
