use vstd::arithmetic::power2::pow2;
use vstd::prelude::*;

verus! {

/// The two IEEE 754 binary interchange formats that the controllers use.
///
/// A finite number of either format is an integer multiple of the smallest
/// positive number of that format. That smallest number is the *unit* here, so
/// the magnitude of every finite number is a natural number of units.
#[derive(Clone, Copy, PartialEq, Eq, Structural, Debug)]
pub enum Format {
    /// binary32
    Single,
    /// binary64
    Double,
}

impl Format {
    /// Number of significant bits, the hidden one among them.
    pub open spec fn precision(self) -> nat {
        match self {
            Format::Single => 24,
            Format::Double => 53,
        }
    }

    /// One is this power of two units.
    pub open spec fn scale(self) -> nat {
        match self {
            Format::Single => 149,
            Format::Double => 1074,
        }
    }

    /// Weight of the hidden bit of a normalised significand.
    pub open spec fn hidden(self) -> nat {
        match self {
            Format::Single => 0x80_0000,
            Format::Double => 0x10_0000_0000_0000,
        }
    }

    /// The code of infinity. Larger codes are NaNs, smaller ones are finite.
    pub open spec fn infinity(self) -> nat {
        match self {
            Format::Single => 0x7f80_0000,
            Format::Double => 0x7ff0_0000_0000_0000,
        }
    }

    /// The code of the NaN that an invalid operation gives.
    pub open spec fn quiet_nan(self) -> nat {
        match self {
            Format::Single => 0x7fc0_0000,
            Format::Double => 0x7ff8_0000_0000_0000,
        }
    }

    /// All codes are below this bound: it is the weight of the sign bit.
    pub open spec fn code_bound(self) -> nat {
        match self {
            Format::Single => 0x8000_0000,
            Format::Double => 0x8000_0000_0000_0000,
        }
    }
}

/// A number of some format: its sign, and its bit pattern without the sign bit.
#[derive(Clone, Copy, PartialEq, Eq, Structural, Debug)]
pub struct Parts {
    pub negative: bool,
    pub code: u64,
}

impl Parts {
    pub open spec fn fits(self, f: Format) -> bool {
        self.code < f.code_bound()
    }

    pub open spec fn is_nan(self, f: Format) -> bool {
        self.code > f.infinity()
    }

    pub open spec fn is_infinite(self, f: Format) -> bool {
        self.code == f.infinity()
    }

    pub open spec fn is_finite(self, f: Format) -> bool {
        self.code < f.infinity()
    }

    pub open spec fn is_zero(self) -> bool {
        self.code == 0
    }

    /// Magnitude of a finite number, in units.
    pub open spec fn magnitude(self, f: Format) -> nat {
        magnitude(f, self.code as nat)
    }

    /// Signed value of a finite number, in units.
    pub open spec fn value(self, f: Format) -> int {
        if self.negative {
            -(self.magnitude(f) as int)
        } else {
            self.magnitude(f) as int
        }
    }
}

/// Significand of a finite code.
pub open spec fn significand(f: Format, code: nat) -> nat {
    if code < f.hidden() {
        code
    } else {
        f.hidden() + code % f.hidden()
    }
}

/// Exponent of a finite code: the magnitude is the significand times this power of two.
pub open spec fn exponent(f: Format, code: nat) -> nat {
    if code < f.hidden() {
        0
    } else {
        (code / f.hidden() - 1) as nat
    }
}

/// Magnitude that a finite code stands for, in units.
pub open spec fn magnitude(f: Format, code: nat) -> nat {
    significand(f, code) * pow2(exponent(f, code))
}

/// Number of binary digits of `n`; zero has none.
pub open spec fn bit_len(n: nat) -> nat
    decreases n,
{
    if n == 0 {
        0
    } else {
        1 + bit_len(n / 2)
    }
}

/// The integer nearest to `n / d`; of two equally near ones, the even one.
pub open spec fn round_half_even(n: nat, d: nat) -> nat {
    let q = n / d;
    let r = n % d;
    if 2 * r > d || (2 * r == d && q % 2 == 1) {
        q + 1
    } else {
        q
    }
}

/// How many low bits of an integer part `n` do not fit the precision.
pub open spec fn excess(f: Format, n: nat) -> nat {
    if bit_len(n) > f.precision() {
        (bit_len(n) - f.precision()) as nat
    } else {
        0
    }
}

/// The code of significand `t` and exponent `k`; infinity beyond the finite range.
pub open spec fn encoded(f: Format, k: nat, t: nat) -> nat {
    let code = k * f.hidden() + t;
    if code < f.infinity() {
        code
    } else {
        f.infinity()
    }
}

/// The code of the number of the format that is nearest to `n / d` units, ties
/// going to the even significand.
pub open spec fn nearest(f: Format, n: nat, d: nat) -> nat {
    let k = excess(f, n / d);
    encoded(f, k, round_half_even(n, d * pow2(k)))
}

} // verus!
