//! Floating-point numbers, held and ordered by their bit patterns.
use core::cmp::Ordering;
use vstd::arithmetic::power2::{lemma_pow2_pos, lemma_pow2_unfold, pow2};
use vstd::prelude::*;

verus! {

/// A number of IEEE 754 binary64, held by its bit pattern: the sign, eleven bits of exponent and
/// fifty-two bits of fraction.
#[derive(Debug, Clone, Copy)]
pub struct Float {
    pub bits: u64,
}

/// What a pattern without its sign stands for, in units of the smallest positive number. A
/// zero exponent holds the fraction alone; any other puts a leading one before it. Infinity
/// stands where the next number would be if the exponents went on.
pub open spec fn magnitude_units(m: nat) -> nat {
    let exponent = m / 0x10_0000_0000_0000;
    let fraction = m % 0x10_0000_0000_0000;
    if exponent == 0 {
        fraction
    } else {
        (0x10_0000_0000_0000 + fraction) * pow2((exponent - 1) as nat)
    }
}

impl Float {
    /// Whether the sign bit is set.
    pub open spec fn is_negative(self) -> bool {
        self.bits >= 0x8000_0000_0000_0000
    }

    /// The pattern without its sign bit.
    pub open spec fn magnitude(self) -> nat {
        if self.is_negative() {
            (self.bits - 0x8000_0000_0000_0000) as nat
        } else {
            self.bits as nat
        }
    }

    /// Whether the pattern stands for no number: its exponent is all ones, its fraction not zero.
    pub open spec fn is_nan(self) -> bool {
        self.magnitude() > 0x7ff0_0000_0000_0000
    }

    /// The number that a pattern stands for, in units of the smallest positive number.
    pub open spec fn units(self) -> int {
        if self.is_negative() {
            -(magnitude_units(self.magnitude()) as int)
        } else {
            magnitude_units(self.magnitude()) as int
        }
    }

    /// The order of the numbers: a pattern that is no number has no place in it, and the two
    /// zeros are equal.
    pub open spec fn numeric_order(self, other: Float) -> Option<Ordering> {
        if self.precedes(other) {
            Some(Ordering::Less)
        } else if self.equals(other) {
            Some(Ordering::Equal)
        } else if other.precedes(self) {
            Some(Ordering::Greater)
        } else {
            None
        }
    }

    /// Whether both are numbers, and this one is the smaller.
    pub open spec fn precedes(self, other: Float) -> bool {
        !self.is_nan() && !other.is_nan() && self.units() < other.units()
    }

    /// Whether both are numbers, and the same one.
    pub open spec fn equals(self, other: Float) -> bool {
        !self.is_nan() && !other.is_nan() && self.units() == other.units()
    }

    /// The place of the pattern in the total order of all patterns: `-0` stands just below `+0`,
    /// and the patterns that are no number stand outside the infinities.
    pub open spec fn total_order_key(self) -> int {
        if self.is_negative() {
            -1 - self.magnitude()
        } else {
            self.magnitude() as int
        }
    }

    /// The place of the pattern in the total order of all patterns.
    pub fn total_key(self) -> (r: i128)
        ensures
            r == self.total_order_key(),
    {
        if self.bits < 0x8000_0000_0000_0000 {
            self.bits as i128
        } else {
            0x7fff_ffff_ffff_ffff - self.bits as i128
        }
    }

    /// The pattern as a signed number: the two zeros give zero.
    fn signed_magnitude(self) -> (r: i128)
        ensures
            r == (if self.is_negative() {
                -(self.magnitude() as int)
            } else {
                self.magnitude() as int
            }),
    {
        if self.bits < 0x8000_0000_0000_0000 {
            self.bits as i128
        } else {
            0x8000_0000_0000_0000 - self.bits as i128
        }
    }
}

proof fn lemma_units_step(m: nat)
    ensures
        magnitude_units(m) < magnitude_units(m + 1),
{
    let one: nat = 0x10_0000_0000_0000;
    let exponent = m / one;
    let fraction = m % one;
    assert(m == exponent * one + fraction) by (nonlinear_arith)
        requires
            one == 0x10_0000_0000_0000,
            exponent == m / one,
            fraction == m % one,
    ;
    if fraction + 1 < one {
        assert((m + 1) / one == exponent && (m + 1) % one == fraction + 1) by (nonlinear_arith)
            requires
                one == 0x10_0000_0000_0000,
                m == exponent * one + fraction,
                fraction + 1 < one,
        ;
        if exponent > 0 {
            let p = pow2((exponent - 1) as nat);
            lemma_pow2_pos((exponent - 1) as nat);
            assert((one + fraction) * p < (one + (fraction + 1)) * p) by (nonlinear_arith)
                requires
                    p > 0,
            ;
        }
    } else {
        assert((m + 1) / one == exponent + 1 && (m + 1) % one == 0) by (nonlinear_arith)
            requires
                one == 0x10_0000_0000_0000,
                m == exponent * one + fraction,
                fraction + 1 == one,
        ;
        if exponent > 0 {
            let p = pow2((exponent - 1) as nat);
            lemma_pow2_pos((exponent - 1) as nat);
            lemma_pow2_unfold(exponent);
            assert((one + fraction) * p < (one + 0) * (2 * p)) by (nonlinear_arith)
                requires
                    p > 0,
                    fraction + 1 == one,
            ;
        } else {
            assert(pow2(0) == 1) by {
                vstd::arithmetic::power2::lemma2_to64();
            }
        }
    }
}

/// A greater pattern stands for a greater number.
proof fn lemma_units_monotone(a: nat, b: nat)
    requires
        a < b,
    ensures
        magnitude_units(a) < magnitude_units(b),
    decreases b - a,
{
    lemma_units_step(a);
    if a + 1 < b {
        lemma_units_monotone(a + 1, b);
    }
}

/// The patterns, read as signed numbers, are ordered as the numbers they stand for.
proof fn lemma_units_order(a: Float, b: Float)
    ensures
        ({
            let x = if a.is_negative() {
                -(a.magnitude() as int)
            } else {
                a.magnitude() as int
            };
            let y = if b.is_negative() {
                -(b.magnitude() as int)
            } else {
                b.magnitude() as int
            };
            &&& x < y <==> a.units() < b.units()
            &&& x == y <==> a.units() == b.units()
        }),
{
    let (m, n) = (a.magnitude(), b.magnitude());
    assert(magnitude_units(0) == 0);
    if m > 0 {
        lemma_units_monotone(0, m);
    }
    if n > 0 {
        lemma_units_monotone(0, n);
    }
    if m < n {
        lemma_units_monotone(m, n);
    } else if n < m {
        lemma_units_monotone(n, m);
    }
}

impl PartialEq for Float {
    fn eq(&self, other: &Self) -> (r: bool) {
        let order = self.partial_cmp(other);
        match order {
            Some(Ordering::Equal) => true,
            _ => false,
        }
    }
}

impl vstd::std_specs::cmp::PartialEqSpecImpl for Float {
    open spec fn obeys_eq_spec() -> bool {
        true
    }

    open spec fn eq_spec(&self, other: &Self) -> bool {
        self.numeric_order(*other) == Some(Ordering::Equal)
    }
}

impl PartialOrd for Float {
    fn partial_cmp(&self, other: &Self) -> (r: Option<Ordering>) {
        proof {
            lemma_units_order(*self, *other);
        }
        let x: i128 = self.signed_magnitude();
        let y: i128 = other.signed_magnitude();
        let infinity: i128 = 0x7ff0_0000_0000_0000;
        if x > infinity || x < -infinity || y > infinity || y < -infinity {
            None
        } else if x < y {
            Some(Ordering::Less)
        } else if x == y {
            Some(Ordering::Equal)
        } else {
            Some(Ordering::Greater)
        }
    }
}

impl vstd::std_specs::cmp::PartialOrdSpecImpl for Float {
    open spec fn obeys_partial_cmp_spec() -> bool {
        true
    }

    open spec fn partial_cmp_spec(&self, other: &Self) -> Option<Ordering> {
        self.numeric_order(*other)
    }
}

} // verus!
