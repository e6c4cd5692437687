//! A 256-bit unsigned integer, held as two 128-bit limbs.
//!
//! Prices and amounts in the order book are 256-bit unsigned integers.  The
//! type carries exactly the operations the matching engine needs: comparison,
//! minimum, and subtraction (plain and saturating).

use vstd::prelude::*;

verus! {

/// A 256-bit unsigned integer: `val == lo + hi * 2^128`.
#[derive(Clone, Copy, Debug, PartialEq, Eq, Structural)]
pub struct U256 {
    pub lo: u128,
    pub hi: u128,
}

impl U256 {
    /// The mathematical value of this 256-bit integer.
    pub open spec fn val(self) -> int {
        self.lo + self.hi * 0x100000000000000000000000000000000int
    }

    /// The limbs are the canonical base-2^128 digits of the value.
    pub proof fn lemma_limbs_of_val(self)
        ensures
            self.lo == self.val() % 0x100000000000000000000000000000000int,
            self.hi == self.val() / 0x100000000000000000000000000000000int,
    {
        vstd::arithmetic::div_mod::lemma_fundamental_div_mod_converse(
            self.val(),
            0x100000000000000000000000000000000int,
            self.hi as int,
            self.lo as int,
        );
    }

    pub fn zero() -> (r: U256)
        ensures
            r.val() == 0,
    {
        U256 { lo: 0, hi: 0 }
    }

    pub fn from_u64(x: u64) -> (r: U256)
        ensures
            r.val() == x,
    {
        U256 { lo: x as u128, hi: 0 }
    }

    pub fn is_zero(&self) -> (r: bool)
        ensures
            r == (self.val() == 0),
    {
        self.lo == 0 && self.hi == 0
    }

    pub fn eq_val(&self, other: &U256) -> (r: bool)
        ensures
            r == (self.val() == other.val()),
    {
        self.lo == other.lo && self.hi == other.hi
    }

    pub fn lt(&self, other: &U256) -> (r: bool)
        ensures
            r == (self.val() < other.val()),
    {
        self.hi < other.hi || (self.hi == other.hi && self.lo < other.lo)
    }

    pub fn le(&self, other: &U256) -> (r: bool)
        ensures
            r == (self.val() <= other.val()),
    {
        !other.lt(self)
    }

    /// The smaller of the two values.
    pub fn min(a: U256, b: U256) -> (r: U256)
        ensures
            r.val() == if a.val() <= b.val() { a.val() } else { b.val() },
            r == a || r == b,
    {
        if a.le(&b) {
            a
        } else {
            b
        }
    }

    /// Subtraction; the caller must rule underflow out.
    pub fn sub(&self, other: &U256) -> (r: U256)
        requires
            self.val() >= other.val(),
        ensures
            r.val() == self.val() - other.val(),
    {
        if self.lo >= other.lo {
            U256 { lo: self.lo - other.lo, hi: self.hi - other.hi }
        } else {
            U256 { lo: (u128::MAX - other.lo) + self.lo + 1, hi: self.hi - other.hi - 1 }
        }
    }

    /// Subtraction clamped at zero: underflow yields zero rather than wrapping.
    pub fn saturating_sub(&self, other: &U256) -> (r: U256)
        ensures
            r.val() == if self.val() >= other.val() {
                self.val() - other.val()
            } else {
                0
            },
    {
        if self.lt(other) {
            U256::zero()
        } else {
            self.sub(other)
        }
    }
}

} // verus!
