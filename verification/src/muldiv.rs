//! Exact integer arithmetic for proportional shares: a quotient of a product
//! that does not fit the machine word, and rounding up.

use vstd::prelude::*;
use vstd::arithmetic::div_mod::lemma_fundamental_div_mod_converse;

verus! {

/// The largest divisor that `mul_div` accepts, two to the power 127.
pub const DIVISOR_LIMIT: u128 = 0x8000_0000_0000_0000_0000_0000_0000_0000;

/// `x / y` rounded up to the next integer, for `x >= 0` and `y > 0`.
pub open spec fn ceil_div(x: int, y: int) -> int {
    if x % y == 0 {
        x / y
    } else {
        x / y + 1
    }
}

/// A quotient `q` with remainder below the divisor is bounded by `x` when the
/// dividend is `x * m` for a factor `m` that does not exceed the divisor.
pub proof fn lemma_quotient_bound(q: int, r: int, x: int, m: int, d: int)
    requires
        q * d + r == x * m,
        0 <= r,
        0 <= x,
        0 <= m <= d,
        0 < d,
    ensures
        q <= x,
{
    assert(x * m <= x * d) by (nonlinear_arith)
        requires
            0 <= x,
            m <= d,
    ;
    assert(q * d <= x * d);
    assert(q <= x) by (nonlinear_arith)
        requires
            q * d <= x * d,
            0 < d,
    ;
}

/// Quotient and remainder of `x * y` by `d`, without forming the product.
///
/// The factor `y` is read bit by bit from the lowest one; `x` times the
/// weight of the current bit, and `x` times the bits read so far, are both
/// kept as a quotient and a remainder by `d`.
pub fn mul_div(x: u128, y: u128, d: u128) -> (res: (u128, u128))
    requires
        y <= d,
        0 < d <= DIVISOR_LIMIT,
    ensures
        x * y == res.0 * d + res.1,
        res.1 < d,
        res.0 <= x,
{
    let mut rest: u128 = y;
    let mut aq: u128 = 0;
    let mut ar: u128 = 0;
    let mut cq: u128 = x / d;
    let mut cr: u128 = x % d;
    let ghost mut weight: int = 1;
    let ghost mut low: int = 0;
    proof {
        assert(x == (x / d) * d + x % d) by (nonlinear_arith)
            requires
                0 < d,
        ;
        assert(x * 0 == 0);
        assert(x * 1 == x);
    }
    while rest > 0
        invariant
            y <= d,
            0 < d <= DIVISOR_LIMIT,
            y == rest * weight + low,
            0 <= low < weight,
            x * low == aq * d + ar,
            ar < d,
            rest > 0 ==> x * weight == cq * d + cr && cr < d,
        decreases rest,
    {
        let bit: u128 = rest % 2;
        let half: u128 = rest / 2;
        proof {
            assert(rest * weight == 2 * (half * weight) + bit * weight) by (nonlinear_arith)
                requires
                    rest == 2 * half + bit,
            ;
        }
        if bit == 1 {
            proof {
                assert(x * (low + weight) == x * low + x * weight) by (nonlinear_arith);
                assert((aq + cq) * d == aq * d + cq * d) by (nonlinear_arith);
                assert((aq + cq + 1) * d == aq * d + cq * d + d) by (nonlinear_arith);
                assert(0 <= half * weight) by (nonlinear_arith)
                    requires
                        0 <= half,
                        0 <= weight,
                ;
                if ar + cr >= d {
                    lemma_quotient_bound(aq + cq + 1, ar + cr - d, x as int, low + weight, d as int);
                } else {
                    lemma_quotient_bound(aq + cq, ar + cr, x as int, low + weight, d as int);
                }
            }
            let sum: u128 = ar + cr;
            if sum >= d {
                ar = sum - d;
                aq = aq + cq + 1;
            } else {
                ar = sum;
                aq = aq + cq;
            }
            proof {
                low = low + weight;
            }
        }
        proof {
            assert(x * (2 * weight) == 2 * (x * weight)) by (nonlinear_arith);
            assert(half * (2 * weight) == 2 * (half * weight)) by (nonlinear_arith);
        }
        if half > 0 {
            proof {
                assert((2 * cq) * d == 2 * (cq * d)) by (nonlinear_arith);
                assert((2 * cq + 1) * d == 2 * (cq * d) + d) by (nonlinear_arith);
                assert(2 * weight <= half * (2 * weight)) by (nonlinear_arith)
                    requires
                        1 <= half,
                        0 <= weight,
                ;
                if 2 * cr >= d {
                    lemma_quotient_bound(2 * cq + 1, 2 * cr - d, x as int, 2 * weight, d as int);
                } else {
                    lemma_quotient_bound(2 * cq, 2 * cr, x as int, 2 * weight, d as int);
                }
            }
            let twice: u128 = cr + cr;
            if twice >= d {
                cr = twice - d;
                cq = cq + cq + 1;
            } else {
                cr = twice;
                cq = cq + cq;
            }
        }
        proof {
            weight = 2 * weight;
        }
        rest = half;
    }
    proof {
        assert(rest * weight == 0) by (nonlinear_arith)
            requires
                rest == 0,
        ;
        lemma_quotient_bound(aq as int, ar as int, x as int, y as int, d as int);
    }
    (aq, ar)
}

/// `ceil_div(x, y)` is the least integer whose product with `y` reaches `x`.
pub proof fn lemma_ceil_div_is_least(x: int, y: int)
    requires
        0 <= x,
        0 < y,
    ensures
        ceil_div(x, y) * y >= x,
        (ceil_div(x, y) - 1) * y < x,
        0 <= ceil_div(x, y),
{
    let q = x / y;
    let r = x % y;
    assert(x == q * y + r && 0 <= r < y) by (nonlinear_arith)
        requires
            q == x / y,
            r == x % y,
            0 < y,
    ;
    assert(0 <= q) by (nonlinear_arith)
        requires
            q == x / y,
            0 <= x,
            0 < y,
    ;
    assert((q + 1) * y == q * y + y) by (nonlinear_arith);
    assert((q - 1) * y == q * y - y) by (nonlinear_arith);
}

/// A dividend written as `q * y + n` with `0 <= n < 2 * y` rounds up to `q`,
/// `q + 1` or `q + 2`, by where `n` lies.
pub proof fn lemma_ceil_div_split(x: int, y: int, q: int, n: int)
    requires
        0 < y,
        x == q * y + n,
        0 <= n < 2 * y,
    ensures
        ceil_div(x, y) == q + (if n == 0 {
            0int
        } else if n <= y {
            1int
        } else {
            2int
        }),
{
    assert((q + 1) * y == q * y + y) by (nonlinear_arith);
    if n < y {
        lemma_fundamental_div_mod_converse(x, y, q, n);
    } else {
        lemma_fundamental_div_mod_converse(x, y, q + 1, n - y);
    }
}

} // verus!
