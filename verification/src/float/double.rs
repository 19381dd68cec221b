use vstd::prelude::*;

use crate::float::arithmetic::{
    add_parts, convert_parts, converted, divide_parts, integer, integer_parts, multiply_parts, product,
    quotient, sum,
};
use crate::float::format::{Format, Parts};
use crate::float::root::{root_parts, square_root};
use crate::float::single::Single;

verus! {

/// A binary64 number, held as its bit pattern.
///
/// Arithmetic is that of IEEE 754 with rounding to nearest even. Two values are
/// `==` where their bit patterns are: comparing numbers is what `lt`, `le`, `gt`
/// and `ge` are for. Every operation on a NaN gives the same quiet NaN.
#[derive(Clone, Copy, PartialEq, Eq, Structural, Debug)]
pub struct Double {
    pub bits: u64,
}

impl Double {
    pub open spec fn parts(self) -> Parts {
        Parts {
            negative: self.bits >= 0x8000_0000_0000_0000,
            code: (self.bits % 0x8000_0000_0000_0000) as u64,
        }
    }

    pub open spec fn of_parts(p: Parts) -> Double {
        Double { bits: (if p.negative { p.code + 0x8000_0000_0000_0000 } else { p.code as int }) as u64 }
    }

    /// Where the number stands in the order of the numbers: equal numbers, which
    /// the two zeros are, have equal ranks.
    pub open spec fn rank(self) -> int {
        if self.parts().negative {
            -(self.parts().code as int)
        } else {
            self.parts().code as int
        }
    }

    pub open spec fn spec_from_bits(bits: u64) -> Double {
        Double { bits }
    }

    /// The number of a bit pattern.
    #[verifier::when_used_as_spec(spec_from_bits)]
    pub fn from_bits(bits: u64) -> (r: Double)
        ensures
            r == Self::from_bits(bits),
    {
        Double { bits }
    }

    pub(crate) fn unpack(self) -> (p: Parts)
        ensures
            p == self.parts(),
            p.fits(Format::Double),
    {
        Parts {
            negative: self.bits >= 0x8000_0000_0000_0000,
            code: (self.bits % 0x8000_0000_0000_0000) as u64,
        }
    }

    pub(crate) fn pack(p: Parts) -> (r: Double)
        requires
            p.fits(Format::Double),
        ensures
            r == Self::of_parts(p),
            r.parts() == p,
    {
        if p.negative {
            Double { bits: p.code as u64 + 0x8000_0000_0000_0000 }
        } else {
            Double { bits: p.code as u64 }
        }
    }

    pub open spec fn spec_is_nan(self) -> bool {
        self.parts().is_nan(Format::Double)
    }

    /// Tells whether this is no number.
    #[verifier::when_used_as_spec(spec_is_nan)]
    pub fn is_nan(self) -> (r: bool)
        ensures
            r == self.is_nan(),
    {
        self.unpack().code > 0x7ff0_0000_0000_0000
    }

    pub open spec fn spec_is_finite(self) -> bool {
        self.parts().is_finite(Format::Double)
    }

    /// Tells whether this is a number other than the infinities.
    #[verifier::when_used_as_spec(spec_is_finite)]
    pub fn is_finite(self) -> (r: bool)
        ensures
            r == self.is_finite(),
    {
        self.unpack().code < 0x7ff0_0000_0000_0000
    }

    pub open spec fn spec_lt(self, other: Double) -> bool {
        !self.is_nan() && !other.is_nan() && self.rank() < other.rank()
    }

    /// Less than; false where either side is a NaN.
    #[verifier::when_used_as_spec(spec_lt)]
    pub fn lt(self, other: Double) -> (r: bool)
        ensures
            r == self.lt(other),
    {
        let a = self.unpack();
        let b = other.unpack();
        if a.code > 0x7ff0_0000_0000_0000 || b.code > 0x7ff0_0000_0000_0000 {
            return false;
        }
        if a.negative {
            if b.negative {
                b.code < a.code
            } else {
                a.code > 0 || b.code > 0
            }
        } else {
            !b.negative && a.code < b.code
        }
    }

    pub open spec fn spec_le(self, other: Double) -> bool {
        !self.is_nan() && !other.is_nan() && self.rank() <= other.rank()
    }

    /// Less than or equal; false where either side is a NaN.
    #[verifier::when_used_as_spec(spec_le)]
    pub fn le(self, other: Double) -> (r: bool)
        ensures
            r == self.le(other),
    {
        !self.is_nan() && !other.is_nan() && !other.lt(self)
    }

    pub open spec fn spec_gt(self, other: Double) -> bool {
        other.lt(self)
    }

    /// Greater than; false where either side is a NaN.
    #[verifier::when_used_as_spec(spec_gt)]
    pub fn gt(self, other: Double) -> (r: bool)
        ensures
            r == self.gt(other),
    {
        other.lt(self)
    }

    pub open spec fn spec_ge(self, other: Double) -> bool {
        other.le(self)
    }

    /// Greater than or equal; false where either side is a NaN.
    #[verifier::when_used_as_spec(spec_ge)]
    pub fn ge(self, other: Double) -> (r: bool)
        ensures
            r == self.ge(other),
    {
        other.le(self)
    }

    pub open spec fn spec_max(self, other: Double) -> Double {
        if self.is_nan() || self.lt(other) {
            other
        } else {
            self
        }
    }

    /// The greater of the two; the other one where one is a NaN.
    #[verifier::when_used_as_spec(spec_max)]
    pub fn max(self, other: Double) -> (r: Double)
        ensures
            r == self.max(other),
    {
        if self.is_nan() || self.lt(other) {
            other
        } else {
            self
        }
    }

    pub open spec fn spec_min(self, other: Double) -> Double {
        if self.is_nan() || other.lt(self) {
            other
        } else {
            self
        }
    }

    /// The smaller of the two; the other one where one is a NaN.
    #[verifier::when_used_as_spec(spec_min)]
    pub fn min(self, other: Double) -> (r: Double)
        ensures
            r == self.min(other),
    {
        if self.is_nan() || other.lt(self) {
            other
        } else {
            self
        }
    }

    pub open spec fn spec_clamp(self, low: Double, high: Double) -> Double {
        if self.lt(low) {
            low
        } else if self.gt(high) {
            high
        } else {
            self
        }
    }

    /// The number moved into a closed interval; a NaN stays one.
    #[verifier::when_used_as_spec(spec_clamp)]
    pub fn clamp(self, low: Double, high: Double) -> (r: Double)
        requires
            low.le(high),
        ensures
            r == self.clamp(low, high),
            !self.is_nan() ==> low.le(r) && r.le(high),
    {
        if self.lt(low) {
            low
        } else if self.gt(high) {
            high
        } else {
            self
        }
    }

    pub open spec fn spec_neg(self) -> Double {
        Self::of_parts(Parts { negative: !self.parts().negative, code: self.parts().code })
    }

    /// The number with the other sign.
    #[verifier::when_used_as_spec(spec_neg)]
    pub fn neg(self) -> (r: Double)
        ensures
            r == self.neg(),
            r.parts() == (Parts { negative: !self.parts().negative, code: self.parts().code }),
    {
        let a = self.unpack();
        Self::pack(Parts { negative: !a.negative, code: a.code })
    }

    pub open spec fn spec_abs(self) -> Double {
        Self::of_parts(Parts { negative: false, code: self.parts().code })
    }

    /// The number without its sign.
    #[verifier::when_used_as_spec(spec_abs)]
    pub fn abs(self) -> (r: Double)
        ensures
            r == self.abs(),
            r.parts() == (Parts { negative: false, code: self.parts().code }),
    {
        let a = self.unpack();
        Self::pack(Parts { negative: false, code: a.code })
    }

    #[verifier::opaque]
    pub open spec fn spec_plus(self, other: Double) -> Double {
        Self::of_parts(sum(Format::Double, self.parts(), other.parts()))
    }

    /// The sum.
    #[verifier::when_used_as_spec(spec_plus)]
    pub fn plus(self, other: Double) -> (r: Double)
        ensures
            r == self.plus(other),
    {
        reveal(Double::spec_plus);
        Self::pack(add_parts(Format::Double, self.unpack(), other.unpack()))
    }

    pub open spec fn spec_minus(self, other: Double) -> Double {
        self.plus(other.neg())
    }

    /// The difference.
    #[verifier::when_used_as_spec(spec_minus)]
    pub fn minus(self, other: Double) -> (r: Double)
        ensures
            r == self.minus(other),
    {
        self.plus(other.neg())
    }

    #[verifier::opaque]
    pub open spec fn spec_times(self, other: Double) -> Double {
        Self::of_parts(product(Format::Double, self.parts(), other.parts()))
    }

    /// The product.
    #[verifier::when_used_as_spec(spec_times)]
    pub fn times(self, other: Double) -> (r: Double)
        ensures
            r == self.times(other),
    {
        reveal(Double::spec_times);
        Self::pack(multiply_parts(Format::Double, self.unpack(), other.unpack()))
    }

    #[verifier::opaque]
    pub open spec fn spec_over(self, other: Double) -> Double {
        Self::of_parts(quotient(Format::Double, self.parts(), other.parts()))
    }

    /// The quotient.
    #[verifier::when_used_as_spec(spec_over)]
    pub fn over(self, other: Double) -> (r: Double)
        ensures
            r == self.over(other),
    {
        reveal(Double::spec_over);
        Self::pack(divide_parts(Format::Double, self.unpack(), other.unpack()))
    }

    #[verifier::opaque]
    pub open spec fn spec_of_u64(n: u64) -> Double {
        Self::of_parts(integer(Format::Double, n as nat))
    }

    /// The number nearest to an integer.
    #[verifier::when_used_as_spec(spec_of_u64)]
    pub fn of_u64(n: u64) -> (r: Double)
        ensures
            r == Self::of_u64(n),
    {
        reveal(Double::spec_of_u64);
        Self::pack(integer_parts(Format::Double, n))
    }

    #[verifier::opaque]
    pub open spec fn spec_sqrt(self) -> Double {
        Self::of_parts(square_root(Format::Double, self.parts()))
    }

    /// The square root.
    #[verifier::when_used_as_spec(spec_sqrt)]
    pub fn sqrt(self) -> (r: Double)
        ensures
            r == self.sqrt(),
    {
        reveal(Double::spec_sqrt);
        Self::pack(root_parts(Format::Double, self.unpack()))
    }

    #[verifier::opaque]
    pub open spec fn spec_to_single(self) -> Single {
        Single::of_parts(converted(Format::Double, Format::Single, self.parts()))
    }

    /// The binary32 number nearest to this one.
    #[verifier::when_used_as_spec(spec_to_single)]
    pub fn to_single(self) -> (r: Single)
        ensures
            r == self.to_single(),
    {
        reveal(Double::spec_to_single);
        Single::pack(convert_parts(Format::Double, Format::Single, self.unpack()))
    }
}

} // verus!
