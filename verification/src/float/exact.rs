use vstd::arithmetic::div_mod::{lemma_fundamental_div_mod, lemma_mod_bound};
use vstd::arithmetic::power2::{
    lemma2_to64, lemma2_to64_rest, lemma_pow2_adds, lemma_pow2_pos, pow2,
};
use vstd::prelude::*;

use crate::float::arithmetic::{lemma_magnitude_monotone, lemma_significand_bounds};
use crate::float::double::Double;
use crate::float::format::{Format, bit_len, excess, magnitude, nearest, round_half_even};
use crate::float::laws::{
    distance, lemma_encoded_magnitude, lemma_least_of_exponent, lemma_magnitude_of_one,
    lemma_nearest_antitone, lemma_nearest_bounds, lemma_nearest_exact, lemma_nearest_monotone,
    lemma_nearest_zero_is_zero, lemma_plus_commutes, lemma_product_fits, lemma_quotient_fits,
    lemma_rank_orders_values, lemma_rounded_significand, lemma_sum_rank, lemma_to_double_exact,
};
use crate::float::numbers::{HALF, ONE, SIXTY};
use crate::float::rounding::{lemma_bit_len_bounds, lemma_hidden_is_power, lemma_pow2_le};
use crate::float::single::Single;

verus! {

/// Rounding is off by no more than the last place, relative to the result, where
/// there are as many digits as the precision.
pub proof fn lemma_relative_error(f: Format, n: nat, d: nat)
    requires
        d > 0,
        f.hidden() * d <= n,
        nearest(f, n, d) < f.infinity(),
    ensures
        distance(n as int, (magnitude(f, nearest(f, n, d)) * d) as int) * (2 * f.hidden()) <= n,
{
    let q = n / d;
    let k = excess(f, q);
    let w = pow2(k);
    let dk = d * w;
    let t = round_half_even(n, dk);
    let h = f.hidden();
    lemma_pow2_pos(k);
    lemma2_to64();
    lemma_rounded_significand(f, n, d);
    assert(dk > 0) by (nonlinear_arith)
        requires
            d > 0,
            w > 0,
            dk == d * w,
    ;
    lemma_encoded_magnitude(f, k, t);
    assert(magnitude(f, nearest(f, n, d)) * d == t * dk) by (nonlinear_arith)
        requires
            magnitude(f, nearest(f, n, d)) == t * w,
            dk == d * w,
    ;
    if k > 0 {
        lemma_least_of_exponent(f, n, d);
    } else {
        assert(dk == d) by (nonlinear_arith)
            requires
                dk == d * w,
                w == 1,
        ;
    }
    let off = distance(n as int, (t * dk) as int);
    assert(2 * off <= dk) by {
        let (a, r) = (n / dk, n % dk);
        lemma_fundamental_div_mod(n as int, dk as int);
        lemma_mod_bound(n as int, dk as int);
        assert(dk * a == a * dk && (a + 1) * dk == a * dk + dk) by (nonlinear_arith);
    }
    assert(off * (2 * h) <= n) by (nonlinear_arith)
        requires
            0 <= 2 * off <= dk,
            h * dk <= n,
            h > 0,
    {
        assert((2 * off) * h <= dk * h);
    }
}

/// An integer of no more digits than the precision, times a power of two, is a
/// number of the format.
pub proof fn lemma_exact_code(f: Format, s: nat, e: nat) -> (code: nat)
    requires
        s < 2 * f.hidden(),
        e <= match f {
            Format::Single => 240nat,
            Format::Double => 1900nat,
        },
    ensures
        code < f.infinity(),
        magnitude(f, code) == s * pow2(e),
        code == 0 <==> s == 0,
{
    lemma_pow2_pos(e);
    if s == 0 {
        lemma_significand_bounds(f, 0);
        assert(s * pow2(e) == 0) by (nonlinear_arith)
            requires
                s == 0,
        ;
        0
    } else {
        let p = f.precision();
        let h = f.hidden();
        let b = bit_len(s);
        lemma_bit_len_bounds(s);
        lemma_hidden_is_power(f);
        if b > p {
            lemma_pow2_le(p, (b - 1) as nat);
        }
        let r: nat = if (p - b) as nat <= e { (p - b) as nat } else { e };
        let k = (e - r) as nat;
        let w = pow2(r);
        let t = s * w;
        lemma_pow2_pos(r);
        lemma_pow2_adds(b, r);
        lemma_pow2_le(b + r, p);
        assert(0 < t < 2 * h) by (nonlinear_arith)
            requires
                t == s * w,
                0 < s < pow2(b),
                w > 0,
                pow2(b) * w <= 2 * h,
        ;
        if k > 0 {
            lemma_pow2_adds((b - 1) as nat, r);
            assert((b - 1) as nat + r == (p - 1) as nat);
            assert(t >= h) by (nonlinear_arith)
                requires
                    t == s * w,
                    s >= pow2((b - 1) as nat),
                    pow2((b - 1) as nat) * w == h,
                    w > 0,
            ;
        }
        let code = k * h + t;
        match f {
            Format::Single => {
                assert(code < f.infinity()) by (nonlinear_arith)
                    requires
                        code == k * h + t,
                        t < 2 * h,
                        k <= 240,
                        h == 0x80_0000,
                        f.infinity() == 0x7f80_0000,
                ;
            },
            Format::Double => {
                assert(code < f.infinity()) by (nonlinear_arith)
                    requires
                        code == k * h + t,
                        t < 2 * h,
                        k <= 1900,
                        h == 0x10_0000_0000_0000,
                        f.infinity() == 0x7ff0_0000_0000_0000,
                ;
            },
        }
        lemma_encoded_magnitude(f, k, t);
        lemma_pow2_adds(r, k);
        assert(t * pow2(k) == s * pow2(e)) by (nonlinear_arith)
            requires
                t == s * w,
                w * pow2(k) == pow2(e),
        ;
        code
    }
}

/// Integers below 2^53 convert without rounding.
pub proof fn lemma_of_u64_exact(n: u64)
    requires
        n < 0x20_0000_0000_0000,
    ensures
        Double::of_u64(n).is_finite(),
        !Double::of_u64(n).parts().negative,
        Double::of_u64(n).parts().magnitude(Format::Double) == n * pow2(1074),
        Double::of_u64(n).parts().code == 0 <==> n == 0,
{
    reveal(Double::spec_of_u64);
    let f = Format::Double;
    let code = lemma_exact_code(f, n as nat, 1074);
    lemma_nearest_exact(f, 1, code);
}

/// A product that is a number of the format is that number.
pub proof fn lemma_exact_product(a: Double, b: Double, code: nat)
    requires
        a.is_finite(),
        b.is_finite(),
        !a.parts().negative,
        !b.parts().negative,
        code < Format::Double.infinity(),
        a.parts().magnitude(Format::Double) * b.parts().magnitude(Format::Double) == magnitude(
            Format::Double,
            code,
        ) * pow2(1074),
    ensures
        a.times(b) == Double::from_bits(code as u64),
        a.times(b).parts().code == code,
        !a.times(b).parts().negative,
{
    reveal(Double::spec_times);
    lemma_pow2_pos(1074);
    lemma_nearest_exact(Format::Double, pow2(1074), code);
    lemma_product_fits(a.parts(), b.parts());
}

/// A quotient that is a number of the format is that number.
pub proof fn lemma_exact_quotient(a: Double, b: Double, code: nat)
    requires
        a.is_finite(),
        b.is_finite(),
        !a.parts().negative,
        !b.parts().negative,
        b.parts().code != 0,
        code < Format::Double.infinity(),
        a.parts().magnitude(Format::Double) * pow2(1074) == magnitude(Format::Double, code)
            * b.parts().magnitude(Format::Double),
    ensures
        a.over(b) == Double::from_bits(code as u64),
        a.over(b).parts().code == code,
        !a.over(b).parts().negative,
{
    reveal(Double::spec_over);
    let f = Format::Double;
    lemma_significand_bounds(f, b.parts().code as nat);
    lemma_nearest_exact(f, b.parts().magnitude(f), code);
    lemma_quotient_fits(a.parts(), b.parts());
}

/// How many units sixty is.
pub proof fn lemma_magnitude_of_sixty()
    ensures
        Double::from_bits(SIXTY).parts().magnitude(Format::Double) == 60 * pow2(1074),
{
    lemma2_to64();
    lemma2_to64_rest();
    lemma_pow2_adds(49, 1027);
    lemma_pow2_adds(2, 1074);
    assert(magnitude(Format::Double, SIXTY as nat) == 0x1e_0000_0000_0000 * pow2(1027));
}

/// Conversion to binary64 keeps the order of numbers that are not below zero.
pub proof fn lemma_to_double_monotone(a: Single, b: Single)
    requires
        a.le(b),
        b.is_finite(),
        a.rank() >= 0,
    ensures
        a.to_double().le(b.to_double()),
{
    lemma_to_double_exact(a);
    lemma_to_double_exact(b);
    let (f, g) = (Format::Single, Format::Double);
    let (x, y) = (a.to_double(), b.to_double());
    let (ma, mb) = (a.parts().magnitude(f), b.parts().magnitude(f));
    let (mx, my) = (x.parts().magnitude(g), y.parts().magnitude(g));
    lemma_significand_bounds(f, 0);
    lemma_significand_bounds(g, x.parts().code as nat);
    lemma_significand_bounds(g, y.parts().code as nat);
    if a.parts().code < b.parts().code {
        lemma_magnitude_monotone(f, a.parts().code as nat, b.parts().code as nat);
    }
    assert(ma <= mb);
    lemma_pow2_pos(149);
    lemma_pow2_pos(1074);
    assert(mx <= my) by (nonlinear_arith)
        requires
            mx * pow2(149) == ma * pow2(1074),
            my * pow2(149) == mb * pow2(1074),
            ma <= mb,
            pow2(149) > 0,
    {
        assert(ma * pow2(1074) <= mb * pow2(1074));
    }
    assert(ma == 0 ==> mx == 0) by (nonlinear_arith)
        requires
            mx * pow2(149) == ma * pow2(1074),
            pow2(149) > 0,
    ;
    if y.parts().code < x.parts().code {
        lemma_magnitude_monotone(g, y.parts().code as nat, x.parts().code as nat);
    }
    assert(mb == 0 ==> my == 0) by (nonlinear_arith)
        requires
            my * pow2(149) == mb * pow2(1074),
            pow2(149) > 0,
    ;
    if x.parts().code > 0 {
        lemma_magnitude_monotone(g, 0, x.parts().code as nat);
    }
    if y.parts().code > 0 {
        lemma_magnitude_monotone(g, 0, y.parts().code as nat);
    }
    lemma_significand_bounds(g, 0);
}

/// How far a product is from the exact one, relative to it.
pub proof fn lemma_product_error(a: Double, b: Double)
    requires
        a.is_finite(),
        b.is_finite(),
        a.times(b).is_finite(),
        0x10_0000_0000_0000 * pow2(1074) <= a.parts().magnitude(Format::Double)
            * b.parts().magnitude(Format::Double),
    ensures
        a.times(b).parts().negative == (a.parts().negative != b.parts().negative),
        distance(
            (a.parts().magnitude(Format::Double) * b.parts().magnitude(Format::Double)) as int,
            (a.times(b).parts().magnitude(Format::Double) * pow2(1074)) as int,
        ) * 0x20_0000_0000_0000 <= a.parts().magnitude(Format::Double) * b.parts().magnitude(
            Format::Double,
        ),
{
    reveal(Double::spec_times);
    let f = Format::Double;
    lemma_pow2_pos(1074);
    lemma_product_fits(a.parts(), b.parts());
    lemma_relative_error(f, a.parts().magnitude(f) * b.parts().magnitude(f), pow2(1074));
}

/// How far a quotient is from the exact one, relative to it.
pub proof fn lemma_quotient_error(a: Double, b: Double)
    requires
        a.is_finite(),
        b.is_finite(),
        a.over(b).is_finite(),
        b.parts().code != 0,
        0x10_0000_0000_0000 * b.parts().magnitude(Format::Double) <= a.parts().magnitude(
            Format::Double,
        ) * pow2(1074),
    ensures
        a.over(b).parts().negative == (a.parts().negative != b.parts().negative),
        distance(
            (a.parts().magnitude(Format::Double) * pow2(1074)) as int,
            (a.over(b).parts().magnitude(Format::Double) * b.parts().magnitude(
                Format::Double,
            )) as int,
        ) * 0x20_0000_0000_0000 <= a.parts().magnitude(Format::Double) * pow2(1074),
{
    reveal(Double::spec_over);
    let f = Format::Double;
    lemma_significand_bounds(f, b.parts().code as nat);
    lemma_quotient_fits(a.parts(), b.parts());
    lemma_relative_error(f, a.parts().magnitude(f) * pow2(1074), b.parts().magnitude(f));
}

/// A product that is no greater than some finite number is finite.
pub proof fn lemma_product_is_finite(a: Double, b: Double, code: nat)
    requires
        a.is_finite(),
        b.is_finite(),
        code < Format::Double.infinity(),
        a.parts().magnitude(Format::Double) * b.parts().magnitude(Format::Double) <= magnitude(
            Format::Double,
            code,
        ) * pow2(1074),
    ensures
        a.times(b).is_finite(),
        a.times(b).parts().code <= code,
{
    reveal(Double::spec_times);
    let f = Format::Double;
    lemma_pow2_pos(1074);
    lemma_product_fits(a.parts(), b.parts());
    lemma_nearest_bounds(
        f,
        a.parts().magnitude(f) * b.parts().magnitude(f),
        pow2(1074),
        code,
    );
}

/// A quotient that is no greater than some finite number is finite.
pub proof fn lemma_quotient_is_finite(a: Double, b: Double, code: nat)
    requires
        a.is_finite(),
        b.is_finite(),
        b.parts().code != 0,
        code < Format::Double.infinity(),
        a.parts().magnitude(Format::Double) * pow2(1074) <= magnitude(Format::Double, code)
            * b.parts().magnitude(Format::Double),
    ensures
        a.over(b).is_finite(),
        a.over(b).parts().code <= code,
{
    reveal(Double::spec_over);
    let f = Format::Double;
    lemma_significand_bounds(f, b.parts().code as nat);
    lemma_quotient_fits(a.parts(), b.parts());
    lemma_nearest_bounds(
        f,
        a.parts().magnitude(f) * pow2(1074),
        b.parts().magnitude(f),
        code,
    );
}

/// A difference that is a number of the format is that number.
pub proof fn lemma_exact_difference(a: Double, b: Double, code: nat)
    requires
        a.is_finite(),
        b.is_finite(),
        code < Format::Double.infinity(),
    ensures
        a.parts().value(Format::Double) - b.parts().value(Format::Double) == magnitude(
            Format::Double,
            code,
        ) ==> a.minus(b).rank() == code,
        b.parts().value(Format::Double) - a.parts().value(Format::Double) == magnitude(
            Format::Double,
            code,
        ) ==> a.minus(b).rank() == -code,
        !a.minus(b).is_nan(),
{
    let c = b.neg();
    assert(c.parts().code == b.parts().code && c.parts().negative != b.parts().negative);
    lemma_sum_rank(a, c);
    lemma_nearest_exact(Format::Double, 1, code);
    lemma_nearest_zero_is_zero(Format::Double, 1);
    lemma_significand_bounds(Format::Double, code);
}

/// Two numbers of one value and one sign are the same.
pub proof fn lemma_same_value(a: Double, b: Double)
    requires
        a.is_finite(),
        b.is_finite(),
        a.parts().negative == b.parts().negative,
        a.parts().magnitude(Format::Double) == b.parts().magnitude(Format::Double),
    ensures
        a == b,
{
    let (x, y) = (a.parts().code as nat, b.parts().code as nat);
    if x < y {
        lemma_magnitude_monotone(Format::Double, x, y);
    }
    if y < x {
        lemma_magnitude_monotone(Format::Double, y, x);
    }
}

/// Nothing and a number that is not negative add up to that number.
pub proof fn lemma_zero_plus(a: Double)
    requires
        !a.is_nan(),
        !a.parts().negative,
    ensures
        Double::from_bits(0).plus(a) == a,
{
    reveal(Double::spec_plus);
    let f = Format::Double;
    lemma_significand_bounds(f, 0);
    if a.is_finite() {
        lemma_significand_bounds(f, a.parts().code as nat);
        lemma_nearest_exact(f, 1, a.parts().code as nat);
    }
}

/// The sign of a product.
pub proof fn lemma_times_sign(a: Double, b: Double)
    requires
        !a.times(b).is_nan(),
    ensures
        a.times(b).parts().negative == (a.parts().negative != b.parts().negative),
{
    reveal(Double::spec_times);
    lemma_product_fits(a.parts(), b.parts());
}

/// A number over another one of twice its value is one half.
pub proof fn lemma_half_of_double(a: Double, double: Double)
    requires
        a.is_finite(),
        double.is_finite(),
        a.rank() > 0,
        double.rank() > 0,
        double.parts().magnitude(Format::Double) == 2 * a.parts().magnitude(Format::Double),
    ensures
        a.rank() < double.rank(),
        a.over(double) == Double::from_bits(HALF),
{
    let f = Format::Double;
    let half = Double::from_bits(HALF);
    let w = pow2(1074);
    lemma2_to64();
    lemma2_to64_rest();
    lemma_pow2_adds(52, 1021);
    lemma_pow2_adds(1, 1073);
    let (m, h) = (a.parts().magnitude(f), half.parts().magnitude(f));
    assert(2 * h == w);
    lemma_significand_bounds(f, a.parts().code as nat);
    lemma_rank_orders_values(a, double);
    assert(m * w == h * (2 * m)) by (nonlinear_arith)
        requires
            2 * h == w,
    ;
    lemma_exact_quotient(a, double, HALF as nat);
}

/// Nothing less leaves a number what it is.
pub proof fn lemma_less_zero(a: Double, nothing: Double)
    requires
        a.is_finite(),
        nothing.parts().code == 0,
    ensures
        !a.minus(nothing).is_nan(),
        a.minus(nothing).rank() == a.rank(),
{
    lemma_significand_bounds(Format::Double, 0);
    lemma_exact_difference(a, nothing, a.parts().code as nat);
}

/// A greater divisor gives no greater quotient.
pub proof fn lemma_over_antitone(a: Double, b: Double, c: Double)
    requires
        a.is_finite(),
        !a.parts().negative,
        b.rank() > 0,
        b.le(c),
    ensures
        a.over(c).le(a.over(b)),
{
    reveal(Double::spec_over);
    let f = Format::Double;
    lemma_quotient_fits(a.parts(), b.parts());
    lemma_quotient_fits(a.parts(), c.parts());
    let n = a.parts().magnitude(f) * pow2(1074);
    if b.is_finite() {
        lemma_significand_bounds(f, b.parts().code as nat);
        lemma_nearest_monotone(f, 0, n, b.parts().magnitude(f));
        if c.is_finite() {
            lemma_significand_bounds(f, c.parts().code as nat);
            if b.parts().code < c.parts().code {
                lemma_magnitude_monotone(f, b.parts().code as nat, c.parts().code as nat);
            }
            lemma_nearest_monotone(f, 0, n, c.parts().magnitude(f));
            lemma_nearest_antitone(f, n, b.parts().magnitude(f), c.parts().magnitude(f));
        }
    }
}

/// Zero and a finite number add up to that number.
pub proof fn lemma_nothing_and(a: Double, b: Double)
    requires
        a.is_finite(),
        a.rank() == 0,
        b.is_finite(),
    ensures
        a.plus(b).rank() == b.rank(),
        a.plus(b).is_finite(),
{
    let f = Format::Double;
    lemma_sum_rank(a, b);
    lemma_significand_bounds(f, 0);
    lemma_significand_bounds(f, b.parts().code as nat);
    lemma_nearest_exact(f, 1, b.parts().code as nat);
}

/// A finite number and zero add up to that number.
pub proof fn lemma_and_nothing(a: Double, b: Double)
    requires
        a.is_finite(),
        b.is_finite(),
        b.rank() == 0,
    ensures
        a.plus(b).rank() == a.rank(),
        a.plus(b).is_finite(),
{
    lemma_plus_commutes(a, b);
    lemma_nothing_and(b, a);
}

/// Whole numbers add up exactly.
pub proof fn lemma_whole_sum(a: u64, b: u64)
    requires
        a + b < 0x20_0000_0000_0000,
    ensures
        Double::of_u64(a).plus(Double::of_u64(b)) == Double::of_u64((a + b) as u64),
{
    let f = Format::Double;
    let w = pow2(1074);
    let sum = Double::of_u64((a + b) as u64);
    lemma_of_u64_exact(a);
    lemma_of_u64_exact(b);
    lemma_of_u64_exact((a + b) as u64);
    assert(a * w + b * w == (a + b) * w) by (nonlinear_arith);
    lemma_sum_rank(Double::of_u64(a), Double::of_u64(b));
    lemma_nearest_exact(f, 1, sum.parts().code as nat);
    let r = Double::of_u64(a).plus(Double::of_u64(b));
    assert(sum.parts().magnitude(f) * 1 == sum.parts().magnitude(f));
    assert(r.rank() == sum.rank());
    if r.rank() == 0 {
        assert(a == 0 && b == 0);
        lemma_zero_plus(Double::of_u64(b));
    }
}

/// A number over one is that number.
pub proof fn lemma_over_one(a: Double)
    requires
        a.is_finite(),
    ensures
        a.over(Double::from_bits(ONE)) == a,
{
    reveal(Double::spec_over);
    let f = Format::Double;
    lemma_magnitude_of_one();
    lemma_pow2_pos(1074);
    lemma_nearest_exact(f, pow2(1074), a.parts().code as nat);
}

} // verus!
