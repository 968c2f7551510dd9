//! Exact number representations for the renderer.
//!
//! The command line gives coordinates as decimal literals; the coordinate
//! mapper works on them as exact rationals, so every statement about a mapped
//! point is a statement about integers.

use vstd::prelude::*;

verus! {

/// Powers of ten, the denominators of decimal literals.
pub open spec fn pow10(e: nat) -> nat
    decreases e,
{
    if e == 0 {
        1
    } else {
        10 * pow10((e - 1) as nat)
    }
}

pub proof fn lemma_pow10_upto6()
    ensures
        pow10(0) == 1,
        pow10(1) == 10,
        pow10(2) == 100,
        pow10(3) == 1000,
        pow10(4) == 10000,
        pow10(5) == 100000,
        pow10(6) == 1000000,
{
    reveal_with_fuel(pow10, 7);
}

/// Largest integer part a parsed decimal literal may carry.
pub const MAX_INT_PART: u64 = 1_000_000_000_000;

/// Largest number of fractional digits a parsed decimal literal may carry.
pub const MAX_SCALE: u32 = 6;

/// A signed decimal literal with a fixed-precision fractional part:
/// the value `(-1)^neg * (int_part + frac / 10^scale)`.
///
/// `-0.12` is held as `neg = true, int_part = 0, frac = 12, scale = 2`.
#[derive(Clone, Copy, PartialEq, Eq, Structural, Debug)]
pub struct Decimal {
    pub neg: bool,
    pub int_part: u64,
    pub frac: u64,
    pub scale: u32,
}

impl Decimal {
    /// Well-formedness: the fractional digits fit their scale, and both
    /// parts stay small enough for exact rational arithmetic downstream.
    pub open spec fn wf(self) -> bool {
        &&& self.scale <= MAX_SCALE
        &&& self.int_part <= MAX_INT_PART
        &&& (self.frac as nat) < pow10(self.scale as nat)
    }

    /// Numerator of the exact value, over the denominator `10^scale`.
    pub open spec fn numerator(self) -> int {
        let magnitude = self.int_part * pow10(self.scale as nat) + self.frac;
        if self.neg {
            -(magnitude as int)
        } else {
            magnitude as int
        }
    }

    /// Denominator of the exact value.
    pub open spec fn denominator(self) -> int {
        pow10(self.scale as nat) as int
    }

    /// The exact value of the literal as a rational number.
    pub fn to_ratio(&self) -> (r: Ratio)
        requires
            self.wf(),
        ensures
            r.num == self.numerator(),
            r.den == self.denominator(),
            r.wf(),
            r.den <= 1_000_000,
            -2_000_000_000_000_000_000 <= r.num <= 2_000_000_000_000_000_000,
    {
        proof {
            lemma_pow10_upto6();
        }
        let p: u64 = pow10_exec(self.scale);
        proof {
            assert(self.int_part * p <= 1_000_000_000_000_000_000) by (nonlinear_arith)
                requires
                    self.int_part <= 1_000_000_000_000,
                    p <= 1_000_000,
            ;
        }
        let magnitude: u64 = self.int_part * p + self.frac;
        let num: i128 = if self.neg {
            -(magnitude as i128)
        } else {
            magnitude as i128
        };
        Ratio { num, den: p as i128 }
    }
}

/// `10^e` as a machine integer, for the small scales a literal may carry.
pub fn pow10_exec(e: u32) -> (r: u64)
    requires
        e <= MAX_SCALE,
    ensures
        r == pow10(e as nat),
        1 <= r <= 1_000_000,
{
    proof {
        lemma_pow10_upto6();
    }
    if e == 0 {
        1
    } else if e == 1 {
        10
    } else if e == 2 {
        100
    } else if e == 3 {
        1000
    } else if e == 4 {
        10000
    } else if e == 5 {
        100000
    } else {
        1000000
    }
}

/// An exact rational number; the mapped plane points are of this type.
#[derive(Clone, Copy, PartialEq, Eq, Structural, Debug)]
pub struct Ratio {
    pub num: i128,
    pub den: i128,
}

impl Ratio {
    /// Well-formedness: a positive denominator.
    pub open spec fn wf(self) -> bool {
        self.den > 0
    }

    /// Equality of the represented values, by cross-multiplication.
    pub open spec fn same_value(self, other: Ratio) -> bool {
        self.num * other.den == other.num * self.den
    }
}

} // verus!
