//! Fee rates as exact fractions, and the share of an amount that a rate
//! claims.

use rust_decimal::Decimal;
use vstd::prelude::*;
use crate::muldiv::{ceil_div, lemma_ceil_div_is_least, lemma_ceil_div_split, mul_div};

verus! {

/// `Decimal` of rust_decimal, a fixed-point decimal number. Its inside is not
/// looked at: a value is only read through the two functions below.
#[verifier::external_type_specification]
#[verifier::external_body]
pub struct ExDecimal(Decimal);

/// The signed integer that a decimal number holds before its scale is applied.
pub uninterp spec fn decimal_mantissa(d: Decimal) -> int;

/// The number of decimal places of a decimal number.
pub uninterp spec fn decimal_scale(d: Decimal) -> nat;

/// `Decimal::mantissa` of rust_decimal: the number's 96-bit integer with its
/// sign. The contract only names the result.
#[verifier::external_body]
fn mantissa_of(d: &Decimal) -> (m: i128)
    ensures
        m == decimal_mantissa(*d),
{
    d.mantissa()
}

/// `Decimal::scale` of rust_decimal: the power of ten by which the mantissa is
/// divided. The contract only names the result.
#[verifier::external_body]
fn scale_of(d: &Decimal) -> (s: u32)
    ensures
        s == decimal_scale(*d),
{
    d.scale()
}

/// Ten to the power `n`.
pub open spec fn pow10(n: nat) -> int
    decreases n,
{
    if n == 0 {
        1
    } else {
        10 * pow10((n - 1) as nat)
    }
}

/// A fraction between zero and one, both included.
#[derive(Clone, Copy, Debug, PartialEq, Eq, Structural)]
pub struct Rate {
    pub numer: i128,
    pub denom: i128,
}

/// The rate `mantissa / 10^scale`, where that lies between zero and one and
/// the power of ten is an amount.
pub open spec fn scaled_rate(mantissa: int, scale: nat) -> Option<Rate> {
    if 0 <= mantissa <= pow10(scale) <= i128::MAX {
        Some(Rate { numer: mantissa as i128, denom: pow10(scale) as i128 })
    } else {
        None
    }
}

/// The part of `amount` that `rate` claims when the transfer is scaled by the
/// smaller of the two sums over the larger, rounded up to a whole unit.
pub open spec fn scaled_share(amount: int, rate: Rate, n_in: int, n_out: int) -> int {
    let num = if n_in <= n_out { n_in } else { n_out };
    let den = if n_in <= n_out { n_out } else { n_in };
    if den == 0 {
        0
    } else {
        ceil_div(amount * rate.numer * num, rate.denom * den)
    }
}

proof fn lemma_pow10_grows(n: nat, m: nat)
    requires
        n <= m,
    ensures
        0 < pow10(n) <= pow10(m),
    decreases m,
{
    if n < m {
        lemma_pow10_grows(n, (m - 1) as nat);
    } else if n > 0 {
        lemma_pow10_grows((n - 1) as nat, (n - 1) as nat);
    }
}

/// Ten to the power `scale`, if that is an amount.
fn checked_pow10(scale: u32) -> (res: Option<i128>)
    ensures
        res == (if pow10(scale as nat) <= i128::MAX {
            Some(pow10(scale as nat) as i128)
        } else {
            None
        }),
{
    let mut res: i128 = 1;
    let mut i: u32 = 0;
    while i < scale
        invariant
            i <= scale,
            res == pow10(i as nat),
            1 <= res,
        decreases scale - i,
    {
        if res > i128::MAX / 10 {
            proof {
                lemma_pow10_grows((i + 1) as nat, scale as nat);
            }
            return None;
        }
        res = res * 10;
        i = i + 1;
    }
    Some(res)
}

/// A share is not negative and at most the amount it is taken of.
pub proof fn lemma_scaled_share_bounds(amount: int, rate: Rate, n_in: int, n_out: int)
    requires
        rate.wf(),
        0 <= amount,
        0 <= n_in,
        0 <= n_out,
    ensures
        0 <= scaled_share(amount, rate, n_in, n_out) <= amount,
{
    let num = if n_in <= n_out { n_in } else { n_out };
    let den = if n_in <= n_out { n_out } else { n_in };
    if den != 0 {
        let m = rate.numer as int;
        let p = rate.denom as int;
        let x = amount * m * num;
        let y = p * den;
        assert(0 < y) by (nonlinear_arith)
            requires
                y == p * den,
                0 < p,
                0 < den,
        ;
        assert(0 <= x) by (nonlinear_arith)
            requires
                x == amount * m * num,
                0 <= amount,
                0 <= m,
                0 <= num,
        ;
        lemma_ceil_div_is_least(x, y);
        assert(x <= amount * y) by (nonlinear_arith)
            requires
                x == amount * m * num,
                y == p * den,
                0 <= amount,
                0 <= m <= p,
                0 <= num <= den,
        ;
        assert(ceil_div(x, y) <= amount) by (nonlinear_arith)
            requires
                (ceil_div(x, y) - 1) * y < x,
                x <= amount * y,
                0 < y,
        ;
    }
}

/// A share is the exact quotient rounded up: the least whole number of units
/// that is not less than `amount * rate * num / den`, where `num` is the
/// smaller and `den` the larger of the two sums.
pub proof fn lemma_share_rounds_up(amount: int, rate: Rate, n_in: int, n_out: int)
    requires
        rate.wf(),
        0 <= amount,
        0 <= n_in,
        0 <= n_out,
        0 < n_in || 0 < n_out,
    ensures
        ({
            let num = if n_in <= n_out { n_in } else { n_out };
            let den = if n_in <= n_out { n_out } else { n_in };
            let share = scaled_share(amount, rate, n_in, n_out);
            &&& share * (rate.denom * den) >= amount * rate.numer * num
            &&& (share - 1) * (rate.denom * den) < amount * rate.numer * num
        }),
{
    let num = if n_in <= n_out { n_in } else { n_out };
    let den = if n_in <= n_out { n_out } else { n_in };
    let x = amount * rate.numer * num;
    let y = rate.denom * den;
    assert(0 < y) by (nonlinear_arith)
        requires
            y == rate.denom * den,
            0 < rate.denom,
            0 < den,
    ;
    assert(0 <= x) by (nonlinear_arith)
        requires
            x == amount * rate.numer * num,
            0 <= amount,
            0 <= rate.numer,
            0 <= num,
    ;
    lemma_ceil_div_is_least(x, y);
}

impl Rate {
    /// The fraction is well formed and lies between zero and one.
    pub open spec fn wf(&self) -> bool {
        0 <= self.numer <= self.denom && 0 < self.denom
    }

    /// Whether the fraction is well formed and lies between zero and one.
    pub fn is_valid(&self) -> (res: bool)
        ensures
            res == self.wf(),
    {
        0 <= self.numer && self.numer <= self.denom && 0 < self.denom
    }

    /// The rate `numer / denom`, if that lies between zero and one.
    pub fn new(numer: i128, denom: i128) -> (res: Option<Rate>)
        ensures
            res == (if 0 <= numer <= denom && 0 < denom {
                Some(Rate { numer, denom })
            } else {
                None
            }),
            res matches Some(r) ==> r.wf(),
    {
        if 0 <= numer && numer <= denom && 0 < denom {
            Some(Rate { numer, denom })
        } else {
            None
        }
    }

    /// The rate `mantissa / 10^scale`, if that lies between zero and one and
    /// the power of ten is an amount.
    pub fn from_scaled(mantissa: i128, scale: u32) -> (res: Option<Rate>)
        ensures
            res == scaled_rate(mantissa as int, scale as nat),
            res matches Some(r) ==> r.wf(),
    {
        proof {
            lemma_pow10_grows(0, scale as nat);
        }
        match checked_pow10(scale) {
            Some(denom) => {
                if 0 <= mantissa && mantissa <= denom {
                    Some(Rate { numer: mantissa, denom })
                } else {
                    None
                }
            },
            None => None,
        }
    }

    /// The rate that a decimal number stands for, if it lies between zero and
    /// one.
    pub fn from_decimal(d: &Decimal) -> (res: Option<Rate>)
        ensures
            res == scaled_rate(decimal_mantissa(*d), decimal_scale(*d)),
            res matches Some(r) ==> r.wf(),
    {
        Rate::from_scaled(mantissa_of(d), scale_of(d))
    }

    /// The share of `amount` under this rate, scaled by the smaller of `n_in`
    /// and `n_out` over the larger and rounded up.
    ///
    /// No intermediate product is formed: the amount is first scaled by the
    /// two sums, the quotient then by the rate, and the two remainders decide
    /// by how much the result is rounded up.
    pub fn share(&self, amount: i128, n_in: i128, n_out: i128) -> (res: i128)
        requires
            self.wf(),
            0 <= amount,
            0 <= n_in,
            0 <= n_out,
        ensures
            res == scaled_share(amount as int, *self, n_in as int, n_out as int),
            0 <= res <= amount,
    {
        let num: u128 = if n_in <= n_out { n_in as u128 } else { n_out as u128 };
        let den: u128 = if n_in <= n_out { n_out as u128 } else { n_in as u128 };
        if den == 0 {
            return 0;
        }
        let a: u128 = amount as u128;
        let m: u128 = self.numer as u128;
        let p: u128 = self.denom as u128;
        let (q1, r1) = mul_div(a, num, den);
        let (q2, r2) = mul_div(q1, m, p);
        let (q3, r3) = mul_div(m, r1, den);
        let s: u128 = r2 + q3;
        let ghost x: int = a * m * num;
        let ghost y: int = p * den;
        let ghost n: int = s * den + r3;
        proof {
            assert(a * m * num == m * (a * num)) by (nonlinear_arith);
            assert(m * (q1 * den + r1) == (q1 * m) * den + m * r1) by (nonlinear_arith);
            assert((q2 * p + r2) * den == q2 * (p * den) + r2 * den) by (nonlinear_arith);
            assert((r2 + q3) * den == r2 * den + q3 * den) by (nonlinear_arith);
            assert(x == q2 * y + n);
            assert(r2 * den <= (p - 1) * den) by (nonlinear_arith)
                requires
                    r2 <= p - 1,
                    0 <= den,
            ;
            assert(m * r1 <= p * (den - 1)) by (nonlinear_arith)
                requires
                    0 <= m <= p,
                    0 <= r1 <= den - 1,
            ;
            assert((p - 1) * den + p * (den - 1) < 2 * (p * den)) by (nonlinear_arith)
                requires
                    0 < p,
                    0 < den,
            ;
            assert(0 <= s * den) by (nonlinear_arith)
                requires
                    0 <= s,
                    0 <= den,
            ;
            assert(0 <= n < 2 * y);
            lemma_ceil_div_split(x, y, q2 as int, n);
            lemma_scaled_share_bounds(amount as int, *self, n_in as int, n_out as int);
            if s == 0 {
                assert(s * den == 0) by (nonlinear_arith)
                    requires
                        s == 0,
                ;
            }
            if s < p {
                assert(s * den + den <= p * den) by (nonlinear_arith)
                    requires
                        s + 1 <= p,
                        0 <= den,
                ;
            }
            if s > p {
                assert(s * den >= p * den + den) by (nonlinear_arith)
                    requires
                        s >= p + 1,
                        0 <= den,
                ;
            }
            if s > 0 {
                assert(s * den >= den) by (nonlinear_arith)
                    requires
                        s >= 1,
                        0 <= den,
                ;
            }
        }
        let extra: u128 = if s == 0 && r3 == 0 {
            0
        } else if s < p || (s == p && r3 == 0) {
            1
        } else {
            2
        };
        (q2 + extra) as i128
    }
}

} // verus!
