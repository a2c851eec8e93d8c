//! Exact key counting past 64 bits. A keyspace can hold up to `2^152`
//! keys, so counters are 192-bit unsigned values: a low 64-bit limb and
//! a high 128-bit limb. Every operation states its exact value.

use vstd::arithmetic::div_mod::lemma_fundamental_div_mod;
use vstd::prelude::*;

verus! {

/// `2^64`, the weight of the high limb.
pub const LIMB: u128 = 0x1_0000_0000_0000_0000;

/// An exact unsigned count below `2^192`.
#[derive(Clone, Copy, PartialEq, Eq, Structural, Debug)]
pub struct BigCount {
    pub lo: u64,
    pub hi: u128,
}

impl BigCount {
    /// The number this counter stands for.
    pub open spec fn value(self) -> int {
        self.lo + 0x1_0000_0000_0000_0000 * self.hi
    }

    pub fn new() -> (r: BigCount)
        ensures
            r.value() == 0,
    {
        BigCount { lo: 0, hi: 0 }
    }

    pub fn from_u64(x: u64) -> (r: BigCount)
        ensures
            r.value() == x,
    {
        BigCount { lo: x, hi: 0 }
    }

    pub fn is_zero(&self) -> (r: bool)
        ensures
            r == (self.value() == 0),
    {
        self.lo == 0 && self.hi == 0
    }

    /// The sum of two counts.
    pub fn add(&self, other: &BigCount) -> (r: BigCount)
        requires
            self.value() + other.value()
                < 0x1_0000_0000_0000_0000_0000_0000_0000_0000_0000_0000_0000_0000,
        ensures
            r.value() == self.value() + other.value(),
    {
        let s: u128 = self.lo as u128 + other.lo as u128;
        let lo: u64 = (s % LIMB) as u64;
        let carry: u128 = s / LIMB;
        proof {
            lemma_fundamental_div_mod(s as int, LIMB as int);
            assert(carry <= 1);
        }
        let hi: u128 = self.hi + other.hi + carry;
        BigCount { lo, hi }
    }

    /// The count grown by a small amount.
    pub fn add_u64(&self, x: u64) -> (r: BigCount)
        requires
            self.value() + x < 0x1_0000_0000_0000_0000_0000_0000_0000_0000_0000_0000_0000_0000,
        ensures
            r.value() == self.value() + x,
    {
        let other = BigCount::from_u64(x);
        self.add(&other)
    }

    /// The count scaled by a small factor.
    pub fn mul_u64(&self, x: u64) -> (r: BigCount)
        requires
            self.value() * x < 0x1_0000_0000_0000_0000_0000_0000_0000_0000_0000_0000_0000_0000,
        ensures
            r.value() == self.value() * x,
    {
        proof {
            assert((self.lo as int) * (x as int) < 0x1_0000_0000_0000_0000_0000_0000_0000_0000)
                by (nonlinear_arith)
                requires
                    self.lo < 0x1_0000_0000_0000_0000,
                    x < 0x1_0000_0000_0000_0000,
            ;
        }
        let p0: u128 = (self.lo as u128) * (x as u128);
        let lo: u64 = (p0 % LIMB) as u64;
        let carry: u128 = p0 / LIMB;
        let ghost hx = (self.hi as int) * (x as int);
        proof {
            lemma_fundamental_div_mod(p0 as int, LIMB as int);
            assert(self.value() * x == p0 + 0x1_0000_0000_0000_0000 * hx) by (nonlinear_arith)
                requires
                    self.value() == self.lo + 0x1_0000_0000_0000_0000 * self.hi,
                    p0 == (self.lo as int) * (x as int),
                    hx == (self.hi as int) * (x as int),
            ;
            assert(hx >= 0) by (nonlinear_arith)
                requires
                    hx == (self.hi as int) * (x as int),
                    self.hi >= 0,
                    x >= 0,
            ;
            assert(hx + carry < 0x1_0000_0000_0000_0000_0000_0000_0000_0000);
            assert((self.hi as u128) * (x as u128) == hx) by (nonlinear_arith)
                requires
                    hx == (self.hi as int) * (x as int),
                    0 <= hx < 0x1_0000_0000_0000_0000_0000_0000_0000_0000,
            ;
        }
        let hi: u128 = (self.hi) * (x as u128) + carry;
        BigCount { lo, hi }
    }
}

} // verus!
