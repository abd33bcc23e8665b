//! A sum of amounts that cannot overflow.

use vstd::prelude::*;

verus! {

/// Two to the power 127: one more than the largest amount.
pub const WRAP: u128 = 0x8000_0000_0000_0000_0000_0000_0000_0000;

/// A sum of non-negative amounts, kept as the number of times it has passed
/// `WRAP` and what is left below it.
#[derive(Clone, Copy, Debug)]
pub struct WideSum {
    pub carry: usize,
    pub low: u128,
}

impl WideSum {
    /// The part below `WRAP` is below it.
    pub open spec fn wf(&self) -> bool {
        self.low < WRAP
    }

    /// The sum that the value stands for.
    pub open spec fn value(&self) -> int {
        self.carry * WRAP + self.low
    }

    /// The empty sum.
    pub fn zero() -> (res: WideSum)
        ensures
            res.wf(),
            res.value() == 0,
            res.carry == 0,
    {
        WideSum { carry: 0, low: 0 }
    }

    /// The sum with one more amount.
    pub fn plus(self, amount: i128) -> (res: WideSum)
        requires
            self.wf(),
            0 <= amount,
            self.carry < usize::MAX,
        ensures
            res.wf(),
            res.value() == self.value() + amount,
            res.carry <= self.carry + 1,
    {
        let low: u128 = self.low + amount as u128;
        if low >= WRAP {
            WideSum { carry: self.carry + 1, low: low - WRAP }
        } else {
            WideSum { carry: self.carry, low }
        }
    }

    /// Whether two sums are equal.
    pub fn same(&self, other: &WideSum) -> (res: bool)
        requires
            self.wf(),
            other.wf(),
        ensures
            res == (self.value() == other.value()),
    {
        self.carry == other.carry && self.low == other.low
    }

    /// The sum as an amount, if it is one.
    pub fn to_amount(&self) -> (res: Option<i128>)
        requires
            self.wf(),
        ensures
            res == (if self.value() <= i128::MAX {
                Some(self.value() as i128)
            } else {
                None
            }),
    {
        if self.carry == 0 {
            Some(self.low as i128)
        } else {
            None
        }
    }
}

} // verus!
