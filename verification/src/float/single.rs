use vstd::prelude::*;

use crate::float::arithmetic::{
    add_parts, convert_parts, converted, divide_parts, integer, integer_parts, multiply_parts, product,
    quotient, raise_parts, raised, sum, truncate_parts, truncated,
};
use crate::float::format::{Format, Parts};
use crate::float::double::Double;

verus! {

/// A binary32 number, held as its bit pattern.
///
/// Arithmetic is that of IEEE 754 with rounding to nearest even. Two values are
/// `==` where their bit patterns are: comparing numbers is what `lt`, `le`, `gt`
/// and `ge` are for. Every operation on a NaN gives the same quiet NaN.
#[derive(Clone, Copy, PartialEq, Eq, Structural, Debug)]
pub struct Single {
    pub bits: u32,
}

impl Single {
    pub open spec fn parts(self) -> Parts {
        Parts {
            negative: self.bits >= 0x8000_0000,
            code: (self.bits % 0x8000_0000) as u64,
        }
    }

    pub open spec fn of_parts(p: Parts) -> Single {
        Single { bits: (if p.negative { p.code + 0x8000_0000 } else { p.code as int }) as u32 }
    }

    /// Where the number stands in the order of the numbers: equal numbers, which
    /// the two zeros are, have equal ranks.
    pub open spec fn rank(self) -> int {
        if self.parts().negative {
            -(self.parts().code as int)
        } else {
            self.parts().code as int
        }
    }

    pub open spec fn spec_from_bits(bits: u32) -> Single {
        Single { bits }
    }

    /// The number of a bit pattern.
    #[verifier::when_used_as_spec(spec_from_bits)]
    pub fn from_bits(bits: u32) -> (r: Single)
        ensures
            r == Self::from_bits(bits),
    {
        Single { bits }
    }

    pub(crate) fn unpack(self) -> (p: Parts)
        ensures
            p == self.parts(),
            p.fits(Format::Single),
    {
        Parts {
            negative: self.bits >= 0x8000_0000,
            code: (self.bits % 0x8000_0000) as u64,
        }
    }

    pub(crate) fn pack(p: Parts) -> (r: Single)
        requires
            p.fits(Format::Single),
        ensures
            r == Self::of_parts(p),
            r.parts() == p,
    {
        if p.negative {
            Single { bits: p.code as u32 + 0x8000_0000 }
        } else {
            Single { bits: p.code as u32 }
        }
    }

    pub open spec fn spec_is_nan(self) -> bool {
        self.parts().is_nan(Format::Single)
    }

    /// Tells whether this is no number.
    #[verifier::when_used_as_spec(spec_is_nan)]
    pub fn is_nan(self) -> (r: bool)
        ensures
            r == self.is_nan(),
    {
        self.unpack().code > 0x7f80_0000
    }

    pub open spec fn spec_is_finite(self) -> bool {
        self.parts().is_finite(Format::Single)
    }

    /// Tells whether this is a number other than the infinities.
    #[verifier::when_used_as_spec(spec_is_finite)]
    pub fn is_finite(self) -> (r: bool)
        ensures
            r == self.is_finite(),
    {
        self.unpack().code < 0x7f80_0000
    }

    pub open spec fn spec_lt(self, other: Single) -> bool {
        !self.is_nan() && !other.is_nan() && self.rank() < other.rank()
    }

    /// Less than; false where either side is a NaN.
    #[verifier::when_used_as_spec(spec_lt)]
    pub fn lt(self, other: Single) -> (r: bool)
        ensures
            r == self.lt(other),
    {
        let a = self.unpack();
        let b = other.unpack();
        if a.code > 0x7f80_0000 || b.code > 0x7f80_0000 {
            return false;
        }
        if a.negative {
            if b.negative {
                b.code < a.code
            } else {
                a.code > 0 || b.code > 0
            }
        } else {
            !b.negative && a.code < b.code
        }
    }

    pub open spec fn spec_le(self, other: Single) -> bool {
        !self.is_nan() && !other.is_nan() && self.rank() <= other.rank()
    }

    /// Less than or equal; false where either side is a NaN.
    #[verifier::when_used_as_spec(spec_le)]
    pub fn le(self, other: Single) -> (r: bool)
        ensures
            r == self.le(other),
    {
        !self.is_nan() && !other.is_nan() && !other.lt(self)
    }

    pub open spec fn spec_gt(self, other: Single) -> bool {
        other.lt(self)
    }

    /// Greater than; false where either side is a NaN.
    #[verifier::when_used_as_spec(spec_gt)]
    pub fn gt(self, other: Single) -> (r: bool)
        ensures
            r == self.gt(other),
    {
        other.lt(self)
    }

    pub open spec fn spec_ge(self, other: Single) -> bool {
        other.le(self)
    }

    /// Greater than or equal; false where either side is a NaN.
    #[verifier::when_used_as_spec(spec_ge)]
    pub fn ge(self, other: Single) -> (r: bool)
        ensures
            r == self.ge(other),
    {
        other.le(self)
    }

    pub open spec fn spec_max(self, other: Single) -> Single {
        if self.is_nan() || self.lt(other) {
            other
        } else {
            self
        }
    }

    /// The greater of the two; the other one where one is a NaN.
    #[verifier::when_used_as_spec(spec_max)]
    pub fn max(self, other: Single) -> (r: Single)
        ensures
            r == self.max(other),
    {
        if self.is_nan() || self.lt(other) {
            other
        } else {
            self
        }
    }

    pub open spec fn spec_min(self, other: Single) -> Single {
        if self.is_nan() || other.lt(self) {
            other
        } else {
            self
        }
    }

    /// The smaller of the two; the other one where one is a NaN.
    #[verifier::when_used_as_spec(spec_min)]
    pub fn min(self, other: Single) -> (r: Single)
        ensures
            r == self.min(other),
    {
        if self.is_nan() || other.lt(self) {
            other
        } else {
            self
        }
    }

    pub open spec fn spec_clamp(self, low: Single, high: Single) -> Single {
        if self.lt(low) {
            low
        } else if self.gt(high) {
            high
        } else {
            self
        }
    }

    /// The number moved into a closed interval; a NaN stays one.
    #[verifier::when_used_as_spec(spec_clamp)]
    pub fn clamp(self, low: Single, high: Single) -> (r: Single)
        requires
            low.le(high),
        ensures
            r == self.clamp(low, high),
            !self.is_nan() ==> low.le(r) && r.le(high),
    {
        if self.lt(low) {
            low
        } else if self.gt(high) {
            high
        } else {
            self
        }
    }

    pub open spec fn spec_neg(self) -> Single {
        Self::of_parts(Parts { negative: !self.parts().negative, code: self.parts().code })
    }

    /// The number with the other sign.
    #[verifier::when_used_as_spec(spec_neg)]
    pub fn neg(self) -> (r: Single)
        ensures
            r == self.neg(),
            r.parts() == (Parts { negative: !self.parts().negative, code: self.parts().code }),
    {
        let a = self.unpack();
        Self::pack(Parts { negative: !a.negative, code: a.code })
    }

    pub open spec fn spec_abs(self) -> Single {
        Self::of_parts(Parts { negative: false, code: self.parts().code })
    }

    /// The number without its sign.
    #[verifier::when_used_as_spec(spec_abs)]
    pub fn abs(self) -> (r: Single)
        ensures
            r == self.abs(),
            r.parts() == (Parts { negative: false, code: self.parts().code }),
    {
        let a = self.unpack();
        Self::pack(Parts { negative: false, code: a.code })
    }

    #[verifier::opaque]
    pub open spec fn spec_plus(self, other: Single) -> Single {
        Self::of_parts(sum(Format::Single, self.parts(), other.parts()))
    }

    /// The sum.
    #[verifier::when_used_as_spec(spec_plus)]
    pub fn plus(self, other: Single) -> (r: Single)
        ensures
            r == self.plus(other),
    {
        reveal(Single::spec_plus);
        Self::pack(add_parts(Format::Single, self.unpack(), other.unpack()))
    }

    pub open spec fn spec_minus(self, other: Single) -> Single {
        self.plus(other.neg())
    }

    /// The difference.
    #[verifier::when_used_as_spec(spec_minus)]
    pub fn minus(self, other: Single) -> (r: Single)
        ensures
            r == self.minus(other),
    {
        self.plus(other.neg())
    }

    #[verifier::opaque]
    pub open spec fn spec_times(self, other: Single) -> Single {
        Self::of_parts(product(Format::Single, self.parts(), other.parts()))
    }

    /// The product.
    #[verifier::when_used_as_spec(spec_times)]
    pub fn times(self, other: Single) -> (r: Single)
        ensures
            r == self.times(other),
    {
        reveal(Single::spec_times);
        Self::pack(multiply_parts(Format::Single, self.unpack(), other.unpack()))
    }

    #[verifier::opaque]
    pub open spec fn spec_over(self, other: Single) -> Single {
        Self::of_parts(quotient(Format::Single, self.parts(), other.parts()))
    }

    /// The quotient.
    #[verifier::when_used_as_spec(spec_over)]
    pub fn over(self, other: Single) -> (r: Single)
        ensures
            r == self.over(other),
    {
        reveal(Single::spec_over);
        Self::pack(divide_parts(Format::Single, self.unpack(), other.unpack()))
    }

    #[verifier::opaque]
    pub open spec fn spec_of_u64(n: u64) -> Single {
        Self::of_parts(integer(Format::Single, n as nat))
    }

    /// The number nearest to an integer.
    #[verifier::when_used_as_spec(spec_of_u64)]
    pub fn of_u64(n: u64) -> (r: Single)
        ensures
            r == Self::of_u64(n),
    {
        reveal(Single::spec_of_u64);
        Self::pack(integer_parts(Format::Single, n))
    }

    #[verifier::opaque]
    pub open spec fn spec_to_double(self) -> Double {
        Double::of_parts(converted(Format::Single, Format::Double, self.parts()))
    }

    /// The same number in binary64.
    #[verifier::when_used_as_spec(spec_to_double)]
    pub fn to_double(self) -> (r: Double)
        ensures
            r == self.to_double(),
    {
        reveal(Single::spec_to_double);
        Double::pack(convert_parts(Format::Single, Format::Double, self.unpack()))
    }

    #[verifier::opaque]
    pub open spec fn spec_ceil_to_u64(self) -> u64 {
        raised(Format::Single, self.parts()) as u64
    }

    /// Rounded up to an integer, saturating; a NaN gives zero.
    #[verifier::when_used_as_spec(spec_ceil_to_u64)]
    pub fn ceil_to_u64(self) -> (r: u64)
        ensures
            r == self.ceil_to_u64(),
    {
        reveal(Single::spec_ceil_to_u64);
        raise_parts(Format::Single, self.unpack())
    }

    #[verifier::opaque]
    pub open spec fn spec_trunc_to_u32(self) -> u32 {
        let n = truncated(Format::Single, self.parts());
        if n > u32::MAX {
            u32::MAX
        } else {
            n as u32
        }
    }

    /// Truncated to an integer, saturating; a NaN gives zero.
    #[verifier::when_used_as_spec(spec_trunc_to_u32)]
    pub fn trunc_to_u32(self) -> (r: u32)
        ensures
            r == self.trunc_to_u32(),
    {
        reveal(Single::spec_trunc_to_u32);
        let n = truncate_parts(Format::Single, self.unpack());
        if n > u32::MAX as u64 {
            u32::MAX
        } else {
            n as u32
        }
    }
}

} // verus!
