use vstd::arithmetic::div_mod::{
    lemma_div_is_ordered, lemma_fundamental_div_mod, lemma_fundamental_div_mod_converse,
    lemma_mod_bound,
};
use vstd::arithmetic::power2::{
    lemma2_to64, lemma2_to64_rest, lemma_pow2_adds, lemma_pow2_pos, lemma_pow2_unfold, pow2,
};
use vstd::prelude::*;

use crate::float::arithmetic::{
    converted, lemma_magnitude_monotone, lemma_significand_bounds, product, quotient,
};
use crate::float::double::Double;
use crate::float::format::{
    Format, Parts, bit_len, encoded, excess, exponent, magnitude, nearest, round_half_even,
    significand,
};
use crate::float::numbers::{ONE, PICO_1};
use crate::float::root::{floor_root, lemma_floor_root};
use crate::float::rounding::{
    lemma_bit_len_bounds, lemma_bit_len_unique, lemma_hidden_is_power, lemma_pow2_le,
};
use crate::float::single::Single;

verus! {

/// A greater number has no fewer binary digits.
pub proof fn lemma_bit_len_monotone(a: nat, b: nat)
    requires
        a <= b,
    ensures
        bit_len(a) <= bit_len(b),
    decreases b,
{
    if a > 0 {
        lemma_bit_len_monotone(a / 2, b / 2);
    }
}

/// A greater quotient rounds to no smaller integer.
pub proof fn lemma_round_half_even_monotone(a: nat, b: nat, d: nat)
    requires
        a <= b,
        d > 0,
    ensures
        round_half_even(a, d) <= round_half_even(b, d),
{
    lemma_div_is_ordered(a as int, b as int, d as int);
    lemma_fundamental_div_mod(a as int, d as int);
    lemma_fundamental_div_mod(b as int, d as int);
}

/// Rounding to an integer never passes an integer.
pub proof fn lemma_round_half_even_bounds(n: nat, d: nat, bound: nat)
    requires
        d > 0,
    ensures
        n <= bound * d ==> round_half_even(n, d) <= bound,
        n >= bound * d ==> round_half_even(n, d) >= bound,
{
    assert(bound * d == d * bound) by (nonlinear_arith);
    lemma_fundamental_div_mod_converse((bound * d) as int, d as int, bound as int, 0);
    assert(round_half_even(bound * d, d) == bound);
    if n <= bound * d {
        lemma_round_half_even_monotone(n, bound * d, d);
    }
    if n >= bound * d {
        lemma_round_half_even_monotone(bound * d, n, d);
    }
}

/// What rounding keeps of a quotient: at most `precision` bits, all of them used
/// where some are cut off.
pub proof fn lemma_rounded_significand(f: Format, n: nat, d: nat)
    requires
        d > 0,
    ensures
        ({
            let k = excess(f, n / d);
            let t = round_half_even(n, d * pow2(k));
            &&& t <= 2 * f.hidden()
            &&& k > 0 ==> t >= f.hidden()
        }),
{
    let q = n / d;
    let k = excess(f, q);
    let p = f.precision();
    let dk = d * pow2(k);
    lemma_hidden_is_power(f);
    lemma_pow2_pos(k);
    lemma2_to64();
    lemma_fundamental_div_mod(n as int, d as int);
    lemma_mod_bound(n as int, d as int);
    assert(dk > 0) by (nonlinear_arith)
        requires
            d > 0,
            pow2(k) > 0,
            dk == d * pow2(k),
    ;
    if q > 0 {
        lemma_bit_len_bounds(q);
        lemma_pow2_le(bit_len(q), p + k);
        lemma_pow2_adds(p, k);
        let g = 2 * f.hidden();
        assert(n <= g * dk) by (nonlinear_arith)
            requires
                n == d * q + n % d,
                n % d < d,
                q + 1 <= g * pow2(k),
                d > 0,
                dk == d * pow2(k),
        {
            assert(d * (q + 1) <= d * (g * pow2(k)));
        }
        lemma_round_half_even_bounds(n, dk, g);
        if k > 0 {
            lemma_pow2_adds((p - 1) as nat, k);
            assert((bit_len(q) - 1) as nat == (p - 1) as nat + k);
            let h = f.hidden();
            assert(n >= h * dk) by (nonlinear_arith)
                requires
                    n >= d * q,
                    q >= h * pow2(k),
                    d > 0,
                    dk == d * pow2(k),
            {
                assert(d * q >= d * (h * pow2(k)));
            }
            lemma_round_half_even_bounds(n, dk, h);
        }
    } else {
        assert(k == 0);
        let r = n % d;
        assert(n == r) by (nonlinear_arith)
            requires
                n == d * q + r,
                q == 0,
        ;
        assert(dk == d) by (nonlinear_arith)
            requires
                dk == d * pow2(k),
                pow2(k) == 1,
        ;
        assert(n <= 1 * dk);
        lemma_round_half_even_bounds(n, dk, 1);
    }
}

/// A greater quotient rounds to no smaller number.
pub proof fn lemma_nearest_monotone(f: Format, a: nat, b: nat, d: nat)
    requires
        a <= b,
        d > 0,
    ensures
        nearest(f, a, d) <= nearest(f, b, d) <= f.infinity(),
{
    lemma_div_is_ordered(a as int, b as int, d as int);
    lemma_bit_len_monotone(a / d, b / d);
    lemma_rounded_significand(f, a, d);
    lemma_rounded_significand(f, b, d);
    let ka = excess(f, a / d);
    let kb = excess(f, b / d);
    let ta = round_half_even(a, d * pow2(ka));
    let tb = round_half_even(b, d * pow2(kb));
    let h = f.hidden();
    if ka == kb {
        lemma_pow2_pos(ka);
        assert(d * pow2(ka) > 0) by (nonlinear_arith)
            requires
                d > 0,
                pow2(ka) > 0,
        ;
        lemma_round_half_even_monotone(a, b, d * pow2(ka));
    } else {
        assert(ka * h + 2 * h <= kb * h + h) by (nonlinear_arith)
            requires
                ka + 1 <= kb,
                h >= 0,
        ;
    }
}

/// Rounding never passes a number of the format.
pub proof fn lemma_nearest_bounds(f: Format, n: nat, d: nat, code: nat)
    requires
        d > 0,
        code < f.infinity(),
    ensures
        n <= magnitude(f, code) * d ==> nearest(f, n, d) <= code,
        n >= magnitude(f, code) * d ==> nearest(f, n, d) >= code,
{
    let m = magnitude(f, code);
    lemma_nearest_exact(f, d, code);
    if n <= m * d {
        lemma_nearest_monotone(f, n, m * d, d);
    }
    if n >= m * d {
        lemma_nearest_monotone(f, m * d, n, d);
    }
}

/// A quotient that is a number of the format is kept.
pub proof fn lemma_nearest_exact(f: Format, d: nat, code: nat)
    requires
        d > 0,
        code < f.infinity(),
    ensures
        nearest(f, magnitude(f, code) * d, d) == code,
{
    let m = magnitude(f, code);
    let (s, e) = (significand(f, code), exponent(f, code));
    let w = pow2(e);
    lemma_significand_bounds(f, code);
    lemma_hidden_is_power(f);
    lemma_pow2_pos(e);
    lemma2_to64();
    assert(m * d == d * m) by (nonlinear_arith);
    lemma_fundamental_div_mod_converse((m * d) as int, d as int, m as int, 0);
    // the excess of the magnitude is the exponent
    let p = f.precision();
    assert(excess(f, m) == e) by {
        if e > 0 {
            lemma_pow2_adds((p - 1) as nat, e);
            lemma_pow2_adds(p, e);
            assert((p + e - 1) as nat == (p - 1) as nat + e);
            assert(f.hidden() * w <= s * w) by (nonlinear_arith)
                requires
                    f.hidden() <= s,
                    w > 0,
            ;
            assert(s * w < (2 * f.hidden()) * w) by (nonlinear_arith)
                requires
                    s < 2 * f.hidden(),
                    w > 0,
            ;
            lemma_bit_len_unique(m, p + e);
        } else if m > 0 {
            assert(m == s) by (nonlinear_arith)
                requires
                    m == s * w,
                    w == 1,
            ;
            lemma_bit_len_bounds(m);
            if bit_len(m) > p {
                lemma_pow2_le(p, (bit_len(m) - 1) as nat);
            }
        }
    }
    let dk = d * w;
    assert(dk > 0) by (nonlinear_arith)
        requires
            d > 0,
            w > 0,
            dk == d * w,
    ;
    assert(m * d == s * dk) by (nonlinear_arith)
        requires
            m == s * w,
            dk == d * w,
    ;
    lemma_round_half_even_bounds(m * d, dk, s);
    assert(round_half_even(m * d, dk) == s);
    assert(encoded(f, e, s) == code);
}

/// How far two numbers are apart.
pub open spec fn distance(a: int, b: int) -> int {
    if a < b {
        b - a
    } else {
        a - b
    }
}

/// No integer is nearer to a quotient than the one that it is rounded to.
proof fn lemma_round_half_even_nearest(n: nat, d: nat, j: nat)
    requires
        d > 0,
    ensures
        distance(n as int, (round_half_even(n, d) * d) as int) <= distance(n as int, (j * d) as int),
{
    let (q, r) = (n / d, n % d);
    lemma_fundamental_div_mod(n as int, d as int);
    lemma_mod_bound(n as int, d as int);
    assert(d * q == q * d && (q + 1) * d == q * d + d) by (nonlinear_arith);
    if j <= q {
        assert(j * d <= q * d) by (nonlinear_arith)
            requires
                j <= q,
        ;
    } else {
        assert(j * d >= (q + 1) * d) by (nonlinear_arith)
            requires
                j >= q + 1,
        ;
    }
}

/// No number of the format is nearer to a quotient than the one that it is rounded
/// to.
pub proof fn lemma_nearest_is_nearest(f: Format, n: nat, d: nat, code: nat)
    requires
        d > 0,
        nearest(f, n, d) < f.infinity(),
        code < f.infinity(),
    ensures
        distance(n as int, (magnitude(f, nearest(f, n, d)) * d) as int) <= distance(
            n as int,
            (magnitude(f, code) * d) as int,
        ),
{
    let q = n / d;
    let k = excess(f, q);
    let w = pow2(k);
    let dk = d * w;
    let t = round_half_even(n, dk);
    let h = f.hidden();
    lemma_pow2_pos(k);
    lemma_rounded_significand(f, n, d);
    assert(dk > 0) by (nonlinear_arith)
        requires
            d > 0,
            w > 0,
            dk == d * w,
    ;
    lemma_encoded_magnitude(f, k, t);
    assert(magnitude(f, nearest(f, n, d)) * d == t * dk) by (nonlinear_arith)
        requires
            magnitude(f, nearest(f, n, d)) == t * w,
            dk == d * w,
    ;
    let (s, e) = (significand(f, code), exponent(f, code));
    lemma_significand_bounds(f, code);
    if e >= k {
        // a multiple of the same step
        lemma_pow2_adds((e - k) as nat, k);
        let j = s * pow2((e - k) as nat);
        assert(magnitude(f, code) * d == j * dk) by (nonlinear_arith)
            requires
                magnitude(f, code) == s * pow2(e),
                pow2(e) == pow2((e - k) as nat) * w,
                j == s * pow2((e - k) as nat),
                dk == d * w,
        ;
        lemma_round_half_even_nearest(n, dk, j);
    } else {
        // below the least significand of this exponent, which is nearer
        lemma_round_half_even_nearest(n, dk, h);
        lemma_least_of_exponent(f, n, d);
        lemma_pow2_le(e + 1, k);
        lemma_pow2_unfold(e + 1);
        lemma_pow2_pos(e);
        let m = magnitude(f, code);
        assert(m * d <= h * dk) by (nonlinear_arith)
            requires
                m == s * pow2(e),
                s < 2 * h,
                2 * pow2(e) <= w,
                dk == d * w,
        {
            assert(s * pow2(e) <= h * (2 * pow2(e)));
            assert(h * (2 * pow2(e)) <= h * w);
            assert(m * d <= h * w * d);
        }
    }
}

/// What is cut off a quotient leaves at least the least significand.
pub proof fn lemma_least_of_exponent(f: Format, n: nat, d: nat)
    requires
        d > 0,
        excess(f, n / d) > 0,
    ensures
        f.hidden() * (d * pow2(excess(f, n / d))) <= n,
{
    let q = n / d;
    let k = excess(f, q);
    let p = f.precision();
    let (h, w) = (f.hidden(), pow2(k));
    lemma_hidden_is_power(f);
    lemma_bit_len_bounds(q);
    lemma_pow2_adds((p - 1) as nat, k);
    assert((bit_len(q) - 1) as nat == (p - 1) as nat + k);
    lemma_fundamental_div_mod(n as int, d as int);
    lemma_mod_bound(n as int, d as int);
    assert(h * (d * w) <= n) by (nonlinear_arith)
        requires
            n >= d * q,
            q >= h * w,
            d > 0,
    {
        assert(d * q >= d * (h * w));
    }
}

/// A significand and an exponent are those of their code.
pub proof fn lemma_encoded_magnitude(f: Format, k: nat, t: nat)
    requires
        t <= 2 * f.hidden(),
        k > 0 ==> t >= f.hidden(),
        encoded(f, k, t) < f.infinity(),
    ensures
        magnitude(f, encoded(f, k, t)) == t * pow2(k),
{
    let h = f.hidden();
    let code = encoded(f, k, t);
    assert(code == k * h + t);
    if t == 2 * h {
        assert(code == (k + 2) * h + 0) by (nonlinear_arith)
            requires
                code == k * h + 2 * h,
        ;
        lemma_fundamental_div_mod_converse(code as int, h as int, (k + 2) as int, 0);
        lemma_pow2_unfold(k + 1);
        assert(code >= h) by (nonlinear_arith)
            requires
                code == k * h + 2 * h,
        ;
        assert(h * pow2(k + 1) == t * pow2(k)) by (nonlinear_arith)
            requires
                t == 2 * h,
                pow2(k + 1) == 2 * pow2(k),
        ;
    } else if t >= h {
        assert(code == (k + 1) * h + (t - h)) by (nonlinear_arith)
            requires
                code == k * h + t,
        ;
        lemma_fundamental_div_mod_converse(code as int, h as int, (k + 1) as int, t - h);
        assert(code >= h) by (nonlinear_arith)
            requires
                code == k * h + t,
                t >= h,
        ;
    } else {
        assert(code == t) by (nonlinear_arith)
            requires
                code == k * h + t,
                k == 0,
        ;
    }
}

/// The number that rounding a signed exact result gives, as a rank.
pub open spec fn signed_nearest(f: Format, exact: int, d: nat) -> int {
    if exact < 0 {
        -(nearest(f, (-exact) as nat, d) as int)
    } else {
        nearest(f, exact as nat, d) as int
    }
}

/// A greater exact result rounds to no smaller number.
pub proof fn lemma_signed_nearest_monotone(f: Format, a: int, b: int, d: nat)
    requires
        a <= b,
        d > 0,
    ensures
        signed_nearest(f, a, d) <= signed_nearest(f, b, d),
        -(f.infinity() as int) <= signed_nearest(f, a, d) <= f.infinity(),
{
    if a < 0 {
        lemma_nearest_monotone(f, 0, (-a) as nat, d);
        if b < 0 {
            lemma_nearest_monotone(f, (-b) as nat, (-a) as nat, d);
        }
    } else {
        lemma_nearest_monotone(f, a as nat, b as nat, d);
    }
}

/// The order of the ranks is the order of the values.
pub proof fn lemma_rank_orders_values(a: Double, b: Double)
    requires
        a.is_finite(),
        b.is_finite(),
    ensures
        a.rank() < b.rank() <==> a.parts().value(Format::Double) < b.parts().value(Format::Double),
{
    let f = Format::Double;
    let (x, y) = (a.parts().code as nat, b.parts().code as nat);
    lemma_significand_bounds(f, x);
    lemma_significand_bounds(f, y);
    if x < y {
        lemma_magnitude_monotone(f, x, y);
    }
    if y < x {
        lemma_magnitude_monotone(f, y, x);
    }
}

/// The rank of a finite sum is the rounded exact sum.
pub proof fn lemma_sum_rank(a: Double, b: Double)
    requires
        a.is_finite(),
        b.is_finite(),
    ensures
        !a.plus(b).is_nan(),
        a.plus(b).rank() == signed_nearest(
            Format::Double,
            a.parts().value(Format::Double) + b.parts().value(Format::Double),
            1,
        ),
{
    reveal(Double::spec_plus);
    let f = Format::Double;
    let exact = a.parts().value(f) + b.parts().value(f);
    lemma_nearest_zero_is_zero(f, 1);
    if exact < 0 {
        lemma_nearest_monotone(f, 0, (-exact) as nat, 1);
    } else {
        lemma_nearest_monotone(f, 0, exact as nat, 1);
    }
}

/// Zero rounds to zero.
pub proof fn lemma_nearest_zero_is_zero(f: Format, d: nat)
    requires
        d > 0,
    ensures
        nearest(f, 0, d) == 0,
{
    lemma_significand_bounds(f, 0);
    lemma_nearest_exact(f, d, 0);
    assert(magnitude(f, 0) * d == 0) by (nonlinear_arith)
        requires
            magnitude(f, 0) == 0,
    ;
}

/// Adding the same number keeps the order.
pub proof fn lemma_plus_monotone(c: Double, a: Double, b: Double)
    requires
        a.le(b),
        !c.plus(a).is_nan(),
        !c.plus(b).is_nan(),
    ensures
        c.plus(a).le(c.plus(b)),
{
    reveal(Double::spec_plus);
    let f = Format::Double;
    if c.is_finite() && a.is_finite() && b.is_finite() {
        lemma_sum_rank(c, a);
        lemma_sum_rank(c, b);
        lemma_rank_orders_values(a, b);
        lemma_rank_orders_values(b, a);
        lemma_signed_nearest_monotone(
            f,
            c.parts().value(f) + a.parts().value(f),
            c.parts().value(f) + b.parts().value(f),
            1,
        );
    } else if c.is_finite() && a.is_finite() {
        lemma_sum_rank(c, a);
        lemma_signed_nearest_monotone(
            f,
            c.parts().value(f) + a.parts().value(f),
            c.parts().value(f) + a.parts().value(f),
            1,
        );
    } else if c.is_finite() && b.is_finite() {
        lemma_sum_rank(c, b);
        lemma_signed_nearest_monotone(
            f,
            c.parts().value(f) + b.parts().value(f),
            c.parts().value(f) + b.parts().value(f),
            1,
        );
    }
}

pub proof fn lemma_product_fits(a: Parts, b: Parts)
    requires
        a.fits(Format::Double),
        b.fits(Format::Double),
    ensures
        product(Format::Double, a, b).fits(Format::Double),
        Double::of_parts(product(Format::Double, a, b)).parts() == product(Format::Double, a, b),
{
    let f = Format::Double;
    lemma_pow2_pos(f.scale());
    lemma_nearest_monotone(f, 0, a.magnitude(f) * b.magnitude(f), pow2(f.scale()));
}

/// Multiplying by the same number, not below zero, keeps the order.
pub proof fn lemma_times_monotone(c: Double, a: Double, b: Double)
    requires
        a.le(b),
        !c.parts().negative,
        !c.times(a).is_nan(),
        !c.times(b).is_nan(),
    ensures
        c.times(a).le(c.times(b)),
{
    reveal(Double::spec_times);
    let f = Format::Double;
    let d = pow2(f.scale());
    lemma_product_fits(c.parts(), a.parts());
    lemma_product_fits(c.parts(), b.parts());
    lemma_pow2_pos(f.scale());
    if c.is_finite() && a.is_finite() && b.is_finite() {
        lemma_rank_orders_values(b, a);
        let (mc, ma, mb) = (
            c.parts().magnitude(f),
            a.parts().magnitude(f),
            b.parts().magnitude(f),
        );
        if ma <= mb {
            assert(mc * ma <= mc * mb) by (nonlinear_arith)
                requires
                    ma <= mb,
            ;
            lemma_nearest_monotone(f, mc * ma, mc * mb, d);
        } else {
            assert(mc * mb <= mc * ma) by (nonlinear_arith)
                requires
                    mb <= ma,
            ;
            lemma_nearest_monotone(f, mc * mb, mc * ma, d);
        }
        if a.parts().negative && !b.parts().negative {
        } else if !a.parts().negative && b.parts().negative {
            // both are zero
            lemma_significand_bounds(f, a.parts().code as nat);
            lemma_significand_bounds(f, b.parts().code as nat);
            assert(mc * ma == 0 && mc * mb == 0) by (nonlinear_arith)
                requires
                    ma == 0,
                    mb == 0,
            ;
            lemma_nearest_zero_is_zero(f, d);
        }
    }
}

/// The sum of two numbers not below zero is a number not below either.
pub proof fn lemma_plus_not_negative(a: Double, b: Double)
    requires
        !a.is_nan(),
        !b.is_nan(),
        a.rank() >= 0,
        b.rank() >= 0,
    ensures
        !a.plus(b).is_nan(),
        a.plus(b).rank() >= 0,
        a.le(a.plus(b)),
        b.le(a.plus(b)),
{
    reveal(Double::spec_plus);
    let f = Format::Double;
    if a.is_finite() && b.is_finite() {
        lemma_sum_rank(a, b);
        let (va, vb) = (a.parts().value(f), b.parts().value(f));
        lemma_significand_bounds(f, a.parts().code as nat);
        lemma_significand_bounds(f, b.parts().code as nat);
        lemma_nearest_exact(f, 1, a.parts().code as nat);
        lemma_nearest_exact(f, 1, b.parts().code as nat);
        lemma_signed_nearest_monotone(f, va, va + vb, 1);
        lemma_signed_nearest_monotone(f, vb, va + vb, 1);
    }
}

/// A sum with a finite number is a number.
pub proof fn lemma_plus_is_number(a: Double, b: Double)
    requires
        a.is_finite(),
        !b.is_nan(),
    ensures
        !a.plus(b).is_nan(),
{
    reveal(Double::spec_plus);
    if b.is_finite() {
        lemma_sum_rank(a, b);
    }
}

/// A product of two numbers other than zero is a number.
pub proof fn lemma_times_is_number(a: Double, b: Double)
    requires
        !a.is_nan(),
        !b.is_nan(),
        a.rank() != 0,
        b.rank() != 0,
    ensures
        !a.times(b).is_nan(),
{
    reveal(Double::spec_times);
    lemma_product_fits(a.parts(), b.parts());
    let f = Format::Double;
    lemma_pow2_pos(f.scale());
    lemma_nearest_monotone(
        f,
        0,
        a.parts().magnitude(f) * b.parts().magnitude(f),
        pow2(f.scale()),
    );
}

/// A difference has the sign of how the two numbers stand to each other: nothing
/// is rounded to zero that is not zero.
pub proof fn lemma_minus_sign(a: Double, b: Double)
    requires
        a.is_finite(),
        b.is_finite(),
    ensures
        !a.minus(b).is_nan(),
        a.minus(b).rank() <= 0 <==> a.rank() <= b.rank(),
        a.minus(b).rank() >= 0 <==> a.rank() >= b.rank(),
{
    let f = Format::Double;
    let c = b.neg();
    assert(c.parts().code == b.parts().code && c.parts().negative != b.parts().negative);
    lemma_sum_rank(a, c);
    lemma_rank_orders_values(a, b);
    lemma_rank_orders_values(b, a);
    let exact = a.parts().value(f) + c.parts().value(f);
    assert(exact == a.parts().value(f) - b.parts().value(f));
    lemma_least_magnitude(f);
    lemma_nearest_zero_is_zero(f, 1);
    if exact > 0 {
        lemma_nearest_bounds(f, exact as nat, 1, 1);
    } else if exact < 0 {
        lemma_nearest_bounds(f, (-exact) as nat, 1, 1);
    }
}

/// The least code other than zero stands for one unit.
proof fn lemma_least_magnitude(f: Format)
    ensures
        magnitude(f, 1) == 1,
{
    lemma2_to64();
    let (s, w) = (significand(f, 1), pow2(exponent(f, 1)));
    assert(s * w == 1) by (nonlinear_arith)
        requires
            s == 1,
            w == 1,
    ;
}

/// A number less itself is zero.
pub proof fn lemma_minus_itself(a: Double)
    requires
        a.is_finite(),
    ensures
        a.minus(a) == Double::from_bits(0),
{
    reveal(Double::spec_plus);
    let c = a.neg();
    assert(c.parts().code == a.parts().code && c.parts().negative != a.parts().negative);
}

pub proof fn lemma_quotient_fits(a: Parts, b: Parts)
    requires
        a.fits(Format::Double),
        b.fits(Format::Double),
    ensures
        quotient(Format::Double, a, b).fits(Format::Double),
        Double::of_parts(quotient(Format::Double, a, b)).parts() == quotient(Format::Double, a, b),
{
    let f = Format::Double;
    if b.is_finite(f) && !b.is_zero() {
        lemma_significand_bounds(f, b.code as nat);
        lemma_nearest_monotone(f, 0, a.magnitude(f) * pow2(f.scale()), b.magnitude(f));
    }
}

/// The quotient of two numbers of the same sign is not below zero.
pub proof fn lemma_over_not_negative(a: Double, b: Double)
    requires
        a.parts().negative == b.parts().negative,
    ensures
        !a.over(b).parts().negative,
{
    reveal(Double::spec_over);
    lemma_quotient_fits(a.parts(), b.parts());
}

/// A finite number divided by another one than zero is a number.
pub proof fn lemma_over_is_number(a: Double, b: Double)
    requires
        a.is_finite(),
        !b.is_nan(),
        b.rank() != 0,
    ensures
        !a.over(b).is_nan(),
{
    reveal(Double::spec_over);
    let f = Format::Double;
    lemma_quotient_fits(a.parts(), b.parts());
    if b.is_finite() {
        lemma_significand_bounds(f, b.parts().code as nat);
        lemma_nearest_monotone(
            f,
            0,
            a.parts().magnitude(f) * pow2(f.scale()),
            b.parts().magnitude(f),
        );
    }
}

/// Dividing by the same number, above zero, keeps the order of numbers that are
/// not below zero.
pub proof fn lemma_over_monotone(a: Double, b: Double, c: Double)
    requires
        a.le(b),
        !a.parts().negative,
        !b.parts().negative,
        !c.parts().negative,
        !a.over(c).is_nan(),
        !b.over(c).is_nan(),
    ensures
        a.over(c).le(b.over(c)),
{
    reveal(Double::spec_over);
    let f = Format::Double;
    lemma_quotient_fits(a.parts(), c.parts());
    lemma_quotient_fits(b.parts(), c.parts());
    if c.is_finite() && c.parts().code != 0 && a.is_finite() && b.is_finite() {
        let (ma, mb, mc) = (
            a.parts().magnitude(f),
            b.parts().magnitude(f),
            c.parts().magnitude(f),
        );
        lemma_significand_bounds(f, c.parts().code as nat);
        if a.rank() < b.rank() {
            lemma_magnitude_monotone(f, a.parts().code as nat, b.parts().code as nat);
        }
        let w = pow2(f.scale());
        assert(ma * w <= mb * w) by (nonlinear_arith)
            requires
                ma <= mb,
        ;
        lemma_nearest_monotone(f, ma * w, mb * w, mc);
    } else if c.is_finite() && c.parts().code != 0 && a.is_finite() {
        lemma_significand_bounds(f, c.parts().code as nat);
        lemma_nearest_monotone(
            f,
            0,
            a.parts().magnitude(f) * pow2(f.scale()),
            c.parts().magnitude(f),
        );
    }
}

/// A product does not depend on the order of its factors.
pub proof fn lemma_times_commutes(a: Double, b: Double)
    ensures
        a.times(b) == b.times(a),
{
    reveal(Double::spec_times);
    let f = Format::Double;
    let (ma, mb) = (a.parts().magnitude(f), b.parts().magnitude(f));
    assert(ma * mb == mb * ma) by (nonlinear_arith);
}

/// A square is not below zero, and a number where its root is.
pub proof fn lemma_square(a: Double)
    requires
        !a.is_nan(),
    ensures
        !a.times(a).is_nan(),
        !a.times(a).parts().negative,
{
    reveal(Double::spec_times);
    let f = Format::Double;
    lemma_product_fits(a.parts(), a.parts());
    lemma_pow2_pos(f.scale());
    lemma_nearest_monotone(
        f,
        0,
        a.parts().magnitude(f) * a.parts().magnitude(f),
        pow2(f.scale()),
    );
}

/// Squares of numbers that are not below zero keep their order.
pub proof fn lemma_square_monotone(a: Double, b: Double)
    requires
        a.le(b),
        !a.parts().negative,
        !b.parts().negative,
    ensures
        a.times(a).le(b.times(b)),
{
    lemma_square(a);
    lemma_square(b);
    if b.is_finite() {
        lemma_finite_product_is_number(a, b);
        lemma_times_monotone(a, a, b);
        lemma_times_commutes(a, b);
        lemma_times_monotone(b, a, b);
    } else {
        reveal(Double::spec_times);
    }
}

/// A product of finite numbers is a number.
pub proof fn lemma_finite_product_is_number(a: Double, b: Double)
    requires
        a.is_finite(),
        b.is_finite(),
    ensures
        !a.times(b).is_nan(),
{
    reveal(Double::spec_times);
    let f = Format::Double;
    lemma_product_fits(a.parts(), b.parts());
    lemma_pow2_pos(f.scale());
    lemma_nearest_monotone(
        f,
        0,
        a.parts().magnitude(f) * b.parts().magnitude(f),
        pow2(f.scale()),
    );
}

/// Nothing of a finite number not below zero is nothing.
pub proof fn lemma_times_zero(a: Double)
    requires
        a.is_finite(),
        !a.parts().negative,
    ensures
        a.times(Double::from_bits(0)) == Double::from_bits(0),
{
    reveal(Double::spec_times);
    let f = Format::Double;
    let zero = Double::from_bits(0);
    lemma_significand_bounds(f, 0);
    lemma_pow2_pos(f.scale());
    lemma_nearest_zero_is_zero(f, pow2(f.scale()));
    let ma = a.parts().magnitude(f);
    assert(zero.parts().magnitude(f) == 0);
    assert(ma * 0 == 0);
}

/// Nothing added to nothing is nothing.
pub proof fn lemma_zero_plus_zero(a: Double)
    requires
        a.parts().code == 0,
    ensures
        a.plus(Double::from_bits(0)) == Double::from_bits(0),
{
    reveal(Double::spec_plus);
    lemma_significand_bounds(Format::Double, 0);
}

/// A NaN, or a number that is not below zero.
pub open spec fn not_below_zero(x: Double) -> bool {
    x.is_nan() || x.rank() >= 0
}

/// Sums of what is not below zero are not below zero.
pub proof fn lemma_sum_not_below_zero(a: Double, b: Double)
    requires
        not_below_zero(a),
        not_below_zero(b),
    ensures
        not_below_zero(a.plus(b)),
{
    if a.is_nan() || b.is_nan() {
        reveal(Double::spec_plus);
    } else {
        lemma_plus_not_negative(a, b);
    }
}

/// Products of what is not below zero are not below zero.
pub proof fn lemma_product_not_below_zero(a: Double, b: Double)
    requires
        not_below_zero(a),
        not_below_zero(b),
    ensures
        not_below_zero(a.times(b)),
{
    reveal(Double::spec_times);
    lemma_product_fits(a.parts(), b.parts());
    let f = Format::Double;
    if a.is_finite() && b.is_finite() && (a.parts().negative || b.parts().negative) {
        let (ma, mb) = (a.parts().magnitude(f), b.parts().magnitude(f));
        lemma_significand_bounds(f, 0);
        assert(ma * mb == 0) by (nonlinear_arith)
            requires
                ma == 0 || mb == 0,
        ;
        lemma_pow2_pos(f.scale());
        lemma_nearest_zero_is_zero(f, pow2(f.scale()));
    }
}

/// Quotients of what is not below zero by what is above are not below zero.
pub proof fn lemma_quotient_not_below_zero(a: Double, b: Double)
    requires
        not_below_zero(a),
        b.rank() > 0,
    ensures
        not_below_zero(a.over(b)),
{
    reveal(Double::spec_over);
    lemma_quotient_fits(a.parts(), b.parts());
    let f = Format::Double;
    if a.is_finite() && b.is_finite() && a.parts().negative {
        let (ma, w) = (a.parts().magnitude(f), pow2(f.scale()));
        lemma_significand_bounds(f, 0);
        lemma_significand_bounds(f, b.parts().code as nat);
        assert(ma * w == 0) by (nonlinear_arith)
            requires
                ma == 0,
        ;
        lemma_nearest_zero_is_zero(f, b.parts().magnitude(f));
    }
}

/// Nothing divided by a number above zero is nothing.
pub proof fn lemma_zero_over(b: Double)
    requires
        !b.is_nan(),
        b.rank() > 0,
    ensures
        Double::from_bits(0).over(b) == Double::from_bits(0),
{
    reveal(Double::spec_over);
    let f = Format::Double;
    if b.is_finite() {
        let w = pow2(f.scale());
        lemma_significand_bounds(f, 0);
        lemma_significand_bounds(f, b.parts().code as nat);
        assert(magnitude(f, 0) * w == 0) by (nonlinear_arith)
            requires
                magnitude(f, 0) == 0,
        ;
        lemma_nearest_zero_is_zero(f, b.parts().magnitude(f));
    }
}

/// The bit pattern of one, without its sign.
pub proof fn lemma_magnitude_of_one()
    ensures
        magnitude(Format::Double, 0x3ff0_0000_0000_0000) == pow2(1074),
{
    lemma2_to64_rest();
    lemma_pow2_adds(52, 1022);
}

/// One of a number is that number.
pub proof fn lemma_times_one(a: Double)
    requires
        !a.is_nan(),
    ensures
        a.times(Double::from_bits(0x3ff0_0000_0000_0000)) == a,
{
    reveal(Double::spec_times);
    let f = Format::Double;
    lemma_magnitude_of_one();
    lemma_pow2_pos(1074);
    if a.is_finite() {
        lemma_nearest_exact(f, pow2(1074), a.parts().code as nat);
    }
}

/// Conversion to binary32 keeps the order.
pub proof fn lemma_to_single_monotone(a: Double, b: Double)
    requires
        a.le(b),
    ensures
        a.to_single().le(b.to_single()),
{
    reveal(Double::spec_to_single);
    let (f, g) = (Format::Double, Format::Single);
    let (w, v) = (pow2(g.scale()), pow2(f.scale()));
    lemma_pow2_pos(f.scale());
    lemma_pow2_pos(g.scale());
    lemma_conversion_fits(a);
    lemma_conversion_fits(b);
    if a.is_finite() && b.is_finite() {
        let (ma, mb) = (a.parts().magnitude(f), b.parts().magnitude(f));
        lemma_rank_orders_values(b, a);
        if ma <= mb {
            assert(ma * w <= mb * w) by (nonlinear_arith)
                requires
                    ma <= mb,
            ;
            lemma_nearest_monotone(g, ma * w, mb * w, v);
        } else {
            assert(mb * w <= ma * w) by (nonlinear_arith)
                requires
                    mb <= ma,
            ;
            lemma_nearest_monotone(g, mb * w, ma * w, v);
        }
        if !a.parts().negative && b.parts().negative {
            lemma_significand_bounds(f, 0);
            assert(ma * w == 0 && mb * w == 0) by (nonlinear_arith)
                requires
                    ma == 0,
                    mb == 0,
            ;
            lemma_nearest_zero_is_zero(g, v);
        }
    }
}

proof fn lemma_conversion_fits(a: Double)
    ensures
        ({
            let p = converted(Format::Double, Format::Single, a.parts());
            &&& p.fits(Format::Single)
            &&& Single::of_parts(p).parts() == p
            &&& a.is_nan() <==> p.is_nan(Format::Single)
        }),
{
    let (f, g) = (Format::Double, Format::Single);
    lemma_pow2_pos(f.scale());
    lemma_nearest_monotone(g, 0, a.parts().magnitude(f) * pow2(g.scale()), pow2(f.scale()));
}

/// Nothing added to a number leaves its place in the order.
pub proof fn lemma_plus_zero(a: Double)
    requires
        a.is_finite(),
    ensures
        a.plus(Double::from_bits(0)).rank() == a.rank(),
{
    let f = Format::Double;
    lemma_sum_rank(a, Double::from_bits(0));
    lemma_significand_bounds(f, 0);
    lemma_significand_bounds(f, a.parts().code as nat);
    lemma_nearest_exact(f, 1, a.parts().code as nat);
}

/// A sum does not depend on the order of its terms.
pub proof fn lemma_plus_commutes(a: Double, b: Double)
    ensures
        a.plus(b) == b.plus(a),
{
    reveal(Double::spec_plus);
}

/// Taking the same number away keeps the order.
pub proof fn lemma_minus_monotone(a: Double, b: Double, c: Double)
    requires
        a.le(b),
        !a.minus(c).is_nan(),
        !b.minus(c).is_nan(),
    ensures
        a.minus(c).le(b.minus(c)),
{
    lemma_plus_commutes(a, c.neg());
    lemma_plus_commutes(b, c.neg());
    lemma_plus_monotone(c.neg(), a, b);
}

/// A number other than zero divided by itself is one.
pub proof fn lemma_over_itself(a: Double)
    requires
        a.is_finite(),
        a.rank() != 0,
    ensures
        a.over(a) == Double::from_bits(0x3ff0_0000_0000_0000),
{
    reveal(Double::spec_over);
    let f = Format::Double;
    let m = a.parts().magnitude(f);
    lemma_magnitude_of_one();
    lemma_significand_bounds(f, a.parts().code as nat);
    lemma_nearest_exact(f, m, 0x3ff0_0000_0000_0000);
    assert(m * pow2(1074) == pow2(1074) * m) by (nonlinear_arith);
}

/// Of two numbers above zero, the smaller one divided by the greater one is at
/// most one.
pub proof fn lemma_over_at_most_one(a: Double, b: Double)
    requires
        a.is_finite(),
        b.is_finite(),
        a.le(b),
        !a.parts().negative,
        b.rank() > 0,
    ensures
        a.over(b).is_finite(),
        !a.over(b).parts().negative,
        a.over(b).le(Double::from_bits(0x3ff0_0000_0000_0000)),
{
    lemma_over_is_number(a, b);
    lemma_over_not_negative(a, b);
    lemma_over_itself(b);
    lemma_over_monotone(a, b, b);
}

/// Nothing times a finite number is nothing.
pub proof fn lemma_zero_times(a: Double, b: Double)
    requires
        a.parts().code == 0,
        b.is_finite(),
    ensures
        a.times(b).parts().code == 0,
{
    reveal(Double::spec_times);
    let f = Format::Double;
    let (ma, mb) = (a.parts().magnitude(f), b.parts().magnitude(f));
    lemma_significand_bounds(f, 0);
    assert(ma * mb == 0) by (nonlinear_arith)
        requires
            ma == 0,
    ;
    lemma_pow2_pos(f.scale());
    lemma_nearest_zero_is_zero(f, pow2(f.scale()));
}

/// The root of a number that is not below zero is one too.
pub proof fn lemma_sqrt_is_number(a: Double)
    requires
        !a.is_nan(),
        a.rank() >= 0,
    ensures
        !a.sqrt().is_nan(),
        a.sqrt().rank() >= 0,
{
    reveal(Double::spec_sqrt);
}

/// Taking away a number that is not below zero never gives more.
pub proof fn lemma_minus_not_above(a: Double, b: Double)
    requires
        a.is_finite(),
        b.is_finite(),
        b.rank() >= 0,
        b.rank() <= a.rank(),
    ensures
        a.minus(b).is_finite(),
        a.minus(b).le(a),
{
    let f = Format::Double;
    let c = b.neg();
    assert(c.parts().code == b.parts().code && c.parts().negative != b.parts().negative);
    lemma_sum_rank(a, c);
    lemma_rank_orders_values(a, b);
    lemma_significand_bounds(f, a.parts().code as nat);
    lemma_significand_bounds(f, b.parts().code as nat);
    let (va, vb) = (a.parts().value(f), b.parts().value(f));
    lemma_nearest_exact(f, 1, a.parts().code as nat);
    lemma_signed_nearest_monotone(f, va - vb, va, 1);
    lemma_signed_nearest_monotone(f, 0, va - vb, 1);
    lemma_nearest_zero_is_zero(f, 1);
}

/// One divided by a number that is at least 1e-12 is finite.
pub proof fn lemma_inverse_is_finite(a: Double)
    requires
        Double::from_bits(PICO_1).le(a),
    ensures
        Double::from_bits(ONE).over(a).is_finite(),
{
    reveal(Double::spec_over);
    let f = Format::Double;
    if a.is_finite() {
        let (m, w) = (a.parts().magnitude(f), pow2(1074));
        // 2^-40 is below 1e-12, and 2^40 is finite
        let (low, top): (nat, nat) = (0x3d70_0000_0000_0000, 0x4270_0000_0000_0000);
        lemma2_to64_rest();
        lemma_pow2_pos(1074);
        lemma_magnitude_of_one();
        lemma_magnitude_monotone(f, low, PICO_1 as nat);
        if PICO_1 < a.parts().code {
            lemma_magnitude_monotone(f, PICO_1 as nat, a.parts().code as nat);
        }
        lemma_pow2_adds(52, 982);
        lemma_pow2_adds(52, 1062);
        lemma_pow2_adds(1034, 1114);
        lemma_pow2_adds(1074, 1074);
        lemma_pow2_pos(1114);
        assert(magnitude(f, low) == pow2(1034));
        assert(magnitude(f, top) == pow2(1114));
        assert(w * w <= magnitude(f, top) * m) by (nonlinear_arith)
            requires
                w * w == pow2(1034) * pow2(1114),
                magnitude(f, top) == pow2(1114),
                pow2(1034) <= m,
        ;
        lemma_nearest_bounds(f, w * w, m, top);
        lemma_quotient_fits(Double::from_bits(ONE).parts(), a.parts());
    }
}

/// A quotient rounds the same whatever it is extended by.
pub proof fn lemma_nearest_extended(f: Format, n: nat, d: nat, k: nat)
    requires
        d > 0,
        k > 0,
    ensures
        nearest(f, n * k, d * k) == nearest(f, n, d),
{
    lemma_quotient_extended(n, d, k);
    let e = excess(f, n / d);
    let w = pow2(e);
    lemma_pow2_pos(e);
    assert(d * w > 0) by (nonlinear_arith)
        requires
            d > 0,
            w > 0,
    ;
    assert((d * k) * w == (d * w) * k) by (nonlinear_arith);
    lemma_quotient_extended(n, d * w, k);
}

proof fn lemma_quotient_extended(n: nat, d: nat, k: nat)
    requires
        d > 0,
        k > 0,
    ensures
        (n * k) / (d * k) == n / d,
        round_half_even(n * k, d * k) == round_half_even(n, d),
{
    let (q, r) = (n / d, n % d);
    lemma_fundamental_div_mod(n as int, d as int);
    lemma_mod_bound(n as int, d as int);
    assert(d * k > 0 && n * k == q * (d * k) + r * k && 0 <= r * k < d * k) by (nonlinear_arith)
        requires
            d > 0,
            k > 0,
            n == d * q + r,
            0 <= r < d,
    ;
    lemma_fundamental_div_mod_converse((n * k) as int, (d * k) as int, q as int, (r * k) as int);
    assert((2 * (r * k) > d * k <==> 2 * r > d) && (2 * (r * k) == d * k <==> 2 * r == d))
        by (nonlinear_arith)
        requires
            k > 0,
    ;
}

/// A greater divisor gives no greater quotient.
pub proof fn lemma_nearest_antitone(f: Format, n: nat, c: nat, d: nat)
    requires
        0 < c <= d,
    ensures
        nearest(f, n, d) <= nearest(f, n, c),
{
    lemma_nearest_extended(f, n, d, c);
    lemma_nearest_extended(f, n, c, d);
    assert(n * c <= n * d) by (nonlinear_arith)
        requires
            c <= d,
    ;
    assert(d * c == c * d) by (nonlinear_arith);
    assert(c * d > 0) by (nonlinear_arith)
        requires
            c > 0,
            d > 0,
    ;
    lemma_nearest_monotone(f, n * c, n * d, c * d);
}

/// In binary32, dividing a number that is not below zero by a greater one, above
/// zero, gives no more.
pub proof fn lemma_single_over_antitone(a: Single, b: Single, c: Single)
    requires
        a.is_finite(),
        !a.parts().negative,
        b.is_finite(),
        c.is_finite(),
        b.rank() > 0,
        b.le(c),
    ensures
        a.over(c).le(a.over(b)),
{
    reveal(Single::spec_over);
    let f = Format::Single;
    let n = a.parts().magnitude(f) * pow2(f.scale());
    let (mb, mc) = (b.parts().magnitude(f), c.parts().magnitude(f));
    lemma_significand_bounds(f, b.parts().code as nat);
    if b.rank() < c.rank() {
        lemma_magnitude_monotone(f, b.parts().code as nat, c.parts().code as nat);
    }
    lemma_nearest_antitone(f, n, mb, mc);
    lemma_nearest_monotone(f, 0, n, mb);
}

/// In binary32, adding the same finite number, not below zero, keeps the order of
/// finite numbers that are not below zero.
pub proof fn lemma_single_plus_monotone(c: Single, a: Single, b: Single)
    requires
        c.is_finite(),
        a.is_finite(),
        b.is_finite(),
        !c.parts().negative,
        !a.parts().negative,
        !b.parts().negative,
        a.le(b),
    ensures
        c.plus(a).le(c.plus(b)),
        c.le(c.plus(a)),
{
    let f = Format::Single;
    let (mc, ma, mb) = (c.parts().magnitude(f), a.parts().magnitude(f), b.parts().magnitude(f));
    if a.rank() < b.rank() {
        lemma_magnitude_monotone(f, a.parts().code as nat, b.parts().code as nat);
    }
    lemma_single_sum(c, a);
    lemma_single_sum(c, b);
    lemma_nearest_monotone(f, mc, mc + ma, 1);
    lemma_nearest_monotone(f, mc + ma, mc + mb, 1);
    lemma_nearest_exact(f, 1, c.parts().code as nat);
    assert(mc * 1 == mc);
}

/// The binary32 sum of two finite numbers that are not below zero.
proof fn lemma_single_sum(a: Single, b: Single)
    requires
        a.is_finite(),
        b.is_finite(),
        !a.parts().negative,
        !b.parts().negative,
    ensures
        !a.plus(b).parts().negative,
        a.plus(b).parts().code == nearest(
            Format::Single,
            a.parts().magnitude(Format::Single) + b.parts().magnitude(Format::Single),
            1,
        ),
{
    reveal(Single::spec_plus);
    let f = Format::Single;
    let exact = a.parts().magnitude(f) + b.parts().magnitude(f);
    lemma_nearest_zero_is_zero(f, 1);
    lemma_nearest_monotone(f, 0, exact, 1);
}

/// Conversion to binary32 keeps the sign.
pub proof fn lemma_to_single_keeps_sign(a: Double)
    requires
        !a.is_nan(),
    ensures
        !a.to_single().is_nan(),
        a.to_single().parts().negative == a.parts().negative,
{
    reveal(Double::spec_to_single);
    lemma_conversion_fits(a);
}

/// One is one in binary32 too.
pub proof fn lemma_one_to_single()
    ensures
        Double::from_bits(ONE).to_single() == Single::from_bits(0x3f80_0000),
{
    reveal(Double::spec_to_single);
    let (f, g) = (Format::Double, Format::Single);
    lemma_magnitude_of_one();
    lemma2_to64();
    lemma_pow2_pos(1074);
    lemma_pow2_adds(23, 126);
    assert(magnitude(g, 0x3f80_0000) == pow2(149));
    lemma_nearest_exact(g, pow2(1074), 0x3f80_0000);
    assert(pow2(1074) * pow2(149) == pow2(149) * pow2(1074)) by (nonlinear_arith);
}

/// One and one is finite in binary32.
pub proof fn lemma_two_singles()
    ensures
        Single::from_bits(0x3f80_0000).plus(Single::from_bits(0x3f80_0000)) == Single::from_bits(
            0x4000_0000,
        ),
{
    reveal(Single::spec_plus);
    let g = Format::Single;
    lemma2_to64();
    lemma_pow2_adds(23, 126);
    lemma_pow2_adds(23, 127);
    lemma_pow2_adds(1, 149);
    lemma_pow2_pos(149);
    assert(magnitude(g, 0x3f80_0000) == pow2(149));
    assert(magnitude(g, 0x4000_0000) == pow2(150));
    lemma_nearest_exact(g, 1, 0x4000_0000);
}

/// A binary32 number converts to a binary64 number of the same value.
pub proof fn lemma_to_double_exact(a: Single)
    requires
        a.is_finite(),
    ensures
        a.to_double().is_finite(),
        a.to_double().parts().negative == a.parts().negative,
        a.to_double().parts().magnitude(Format::Double) * pow2(149) == a.parts().magnitude(
            Format::Single,
        ) * pow2(1074),
{
    reveal(Single::spec_to_double);
    let (f, g) = (Format::Single, Format::Double);
    let code = a.parts().code as nat;
    let (s, e) = (significand(f, code), exponent(f, code));
    let m = magnitude(f, code);
    lemma_significand_bounds(f, code);
    lemma_pow2_pos(149);
    lemma_pow2_pos(1074);
    if code == 0 {
        assert(m * pow2(1074) == 0) by (nonlinear_arith)
            requires
                m == 0,
        ;
        lemma_nearest_zero_is_zero(g, pow2(149));
        lemma_significand_bounds(g, 0);
        assert(magnitude(g, 0) * pow2(149) == 0) by (nonlinear_arith)
            requires
                magnitude(g, 0) == 0,
        ;
    } else {
        let b = bit_len(s);
        let r = (53 - b) as nat;
        lemma_bit_len_bounds(s);
        lemma_hidden_is_power(f);
        lemma_hidden_is_power(g);
        if b > 24 {
            lemma_pow2_le(24, (b - 1) as nat);
        }
        let k = b + e + 872;
        let w = pow2(r);
        let t = s * w;
        let h = g.hidden();
        lemma_pow2_adds((b - 1) as nat, r);
        lemma_pow2_adds(b, r);
        lemma_pow2_pos(r);
        assert(h <= t < 2 * h) by (nonlinear_arith)
            requires
                t == s * w,
                w > 0,
                pow2((b - 1) as nat) <= s < pow2(b),
                pow2((b - 1) as nat) * w == h,
                pow2(b) * w == 2 * h,
        ;
        assert(e <= 253) by {
            lemma_single_exponent(code);
        }
        let wide = k * h + t;
        assert(wide < g.infinity()) by (nonlinear_arith)
            requires
                k <= 1149,
                t < 2 * h,
                h == 0x10_0000_0000_0000,
                wide == k * h + t,
                g.infinity() == 0x7ff0_0000_0000_0000,
        ;
        assert(wide == (k + 1) * h + (t - h)) by (nonlinear_arith)
            requires
                wide == k * h + t,
        ;
        lemma_fundamental_div_mod_converse(wide as int, h as int, (k + 1) as int, t - h);
        assert(wide >= h) by (nonlinear_arith)
            requires
                wide == k * h + t,
                t >= h,
                h > 0,
        ;
        assert(exponent(g, wide) == k && significand(g, wide) == t);
        // the magnitude is the same number of units
        lemma_pow2_adds(r, k);
        assert(r + k == e + 925);
        lemma_pow2_adds(e + 925, 149);
        lemma_pow2_adds(e, 1074);
        assert(t * pow2(k) * pow2(149) == m * pow2(1074)) by (nonlinear_arith)
            requires
                t == s * w,
                m == s * pow2(e),
                w * pow2(k) == pow2(e + 925),
                pow2(e + 925) * pow2(149) == pow2(e + 1074),
                pow2(e) * pow2(1074) == pow2(e + 1074),
        {
            assert(t * pow2(k) == s * (w * pow2(k)));
            assert(t * pow2(k) * pow2(149) == s * (pow2(e + 925) * pow2(149)));
            assert(m * pow2(1074) == s * (pow2(e) * pow2(1074)));
        }
        lemma_nearest_exact(g, pow2(149), wide);
    }
}

/// How great the exponent of a finite binary32 number is.
pub proof fn lemma_single_exponent(code: nat)
    requires
        code < Format::Single.infinity(),
    ensures
        exponent(Format::Single, code) <= 253,
{
    let f = Format::Single;
    if code >= f.hidden() {
        lemma_div_is_ordered(code as int, 0x7f7f_ffff, 0x80_0000);
    }
}

/// A binary32 number that is converted to binary64 and back stays what it is.
pub proof fn lemma_single_survives_double(a: Single)
    requires
        !a.is_nan(),
    ensures
        !a.to_double().is_nan(),
        a.to_double().to_single() == a,
{
    reveal(Single::spec_to_double);
    reveal(Double::spec_to_single);
    if a.is_finite() {
        let d = a.to_double();
        lemma_to_double_exact(a);
        lemma_pow2_pos(1074);
        lemma_nearest_exact(Format::Single, pow2(1074), a.parts().code as nat);
        lemma_conversion_fits(d);
    }
}

/// The difference of two finite numbers that are not below zero is finite.
pub proof fn lemma_minus_is_finite(a: Double, b: Double)
    requires
        a.is_finite(),
        b.is_finite(),
        a.rank() >= 0,
        b.rank() >= 0,
    ensures
        a.minus(b).is_finite(),
{
    let f = Format::Double;
    let c = b.neg();
    assert(c.parts().code == b.parts().code && c.parts().negative != b.parts().negative);
    lemma_sum_rank(a, c);
    lemma_significand_bounds(f, 0);
    let (ma, mb) = (a.parts().magnitude(f), b.parts().magnitude(f));
    assert(a.parts().value(f) == ma && b.parts().value(f) == mb);
    lemma_nearest_exact(f, 1, a.parts().code as nat);
    lemma_nearest_exact(f, 1, b.parts().code as nat);
    lemma_nearest_zero_is_zero(f, 1);
    lemma_signed_nearest_monotone(f, ma - mb, ma as int, 1);
    lemma_signed_nearest_monotone(f, -(mb as int), ma - mb, 1);
}

/// Integers convert to finite numbers not below zero, and keep their order.
pub proof fn lemma_of_u64_monotone(a: u64, b: u64)
    requires
        a <= b,
    ensures
        Double::of_u64(b).is_finite(),
        !Double::of_u64(a).parts().negative,
        Double::of_u64(a).le(Double::of_u64(b)),
{
    reveal(Double::spec_of_u64);
    let f = Format::Double;
    let w = pow2(1074);
    // 2^64
    let top: nat = 0x43f0_0000_0000_0000;
    lemma2_to64();
    lemma2_to64_rest();
    lemma_pow2_adds(52, 1086);
    lemma_pow2_adds(64, 1074);
    assert(magnitude(f, top) == pow2(1138));
    assert(a * w <= b * w && b * w <= magnitude(f, top) * 1) by (nonlinear_arith)
        requires
            a <= b,
            b <= 0x1_0000_0000_0000_0000,
            magnitude(f, top) == 0x1_0000_0000_0000_0000 * w,
    ;
    lemma_nearest_monotone(f, (a * w) as nat, (b * w) as nat, 1);
    lemma_nearest_bounds(f, (b * w) as nat, 1, top);
}

/// The root of a finite number that is not below zero is finite.
pub proof fn lemma_sqrt_is_finite(a: Double)
    requires
        a.is_finite(),
        a.rank() >= 0,
    ensures
        a.sqrt().is_finite(),
{
    reveal(Double::spec_sqrt);
    if a.parts().code != 0 {
        let f = Format::Double;
        let code = a.parts().code as nat;
        let (s, e) = (significand(f, code), exponent(f, code));
        let n = a.parts().magnitude(f) * pow2(1074);
        let g = floor_root(n);
        lemma_significand_bounds(f, code);
        lemma_hidden_is_power(f);
        lemma_pow2_le(e, 2045);
        lemma_pow2_adds(53, 2045);
        lemma_pow2_adds(2098, 1074);
        lemma_pow2_adds(1586, 1586);
        lemma_pow2_pos(1586);
        lemma_pow2_pos(1074);
        assert(n < pow2(3172)) by (nonlinear_arith)
            requires
                n == (s * pow2(e)) * pow2(1074),
                s < pow2(53),
                pow2(e) <= pow2(2045),
                pow2(e) > 0,
                pow2(53) * pow2(2045) == pow2(2098),
                pow2(2098) * pow2(1074) == pow2(3172),
                pow2(1074) > 0,
        {
            assert(s * pow2(e) < pow2(53) * pow2(e));
            assert(pow2(53) * pow2(e) <= pow2(53) * pow2(2045));
            assert((s * pow2(e)) * pow2(1074) < pow2(2098) * pow2(1074));
        }
        lemma_floor_root(n);
        let top = pow2(1586);
        assert(g < top) by (nonlinear_arith)
            requires
                g * g <= n,
                n < top * top,
                g >= 0,
                top > 0,
        {
            if g >= top {
                assert(g * g >= top * top);
            }
        }
        let k = excess(f, g);
        if g > 0 {
            lemma_bit_len_bounds(g);
            if bit_len(g) > 1586 {
                lemma_pow2_le(1586, (bit_len(g) - 1) as nat);
            }
            // what is left of the root has no more bits than the precision
            lemma_pow2_pos(k);
            lemma_pow2_adds(53, k);
            lemma_pow2_le(bit_len(g), 53 + k);
            let (q, w) = (g / pow2(k), pow2(k));
            lemma_fundamental_div_mod(g as int, w as int);
            lemma_mod_bound(g as int, w as int);
            let r = g % w;
            assert(q < pow2(53)) by (nonlinear_arith)
                requires
                    g == w * q + r,
                    r >= 0,
                    g < pow2(53) * w,
                    w > 0,
            ;
        } else {
            lemma2_to64();
            assert(g / pow2(k) == 0);
        }
        assert(k <= 1533);
        let h = f.hidden();
        assert(k * h <= 1533 * h) by (nonlinear_arith)
            requires
                k <= 1533,
        ;
    }
}

/// Taking a number from a greater one, both of at least 2^-10, leaves at least
/// 2^-62: no less than the last place of the smaller one.
pub proof fn lemma_minus_leaves_a_place(a: Double, b: Double)
    requires
        a.is_finite(),
        b.lt(a),
        Double::from_bits(0x3f50_0000_0000_0000).le(b),
    ensures
        a.minus(b).is_finite(),
        Double::from_bits(0x3c10_0000_0000_0000).le(a.minus(b)),
{
    let f = Format::Double;
    let low: nat = 0x3f50_0000_0000_0000;
    let least: nat = 0x3c10_0000_0000_0000;
    let (x, y) = (a.parts().code as nat, b.parts().code as nat);
    let c = b.neg();
    assert(c.parts().code == b.parts().code && c.parts().negative != b.parts().negative);
    lemma_minus_is_finite(a, b);
    lemma_sum_rank(a, c);
    let (ex, ey) = (exponent(f, x), exponent(f, y));
    lemma_magnitude_monotone(f, y, x);
    if low < y {
        lemma_magnitude_monotone(f, low, y);
    }
    assert(exponent(f, low) == 1012);
    let w = pow2(1012);
    let i = significand(f, x) * pow2((ex - 1012) as nat);
    let j = significand(f, y) * pow2((ey - 1012) as nat);
    lemma_pow2_adds((ex - 1012) as nat, 1012);
    lemma_pow2_adds((ey - 1012) as nat, 1012);
    lemma_pow2_pos(1012);
    let (mx, my) = (magnitude(f, x), magnitude(f, y));
    assert(mx == i * w) by (nonlinear_arith)
        requires
            mx == significand(f, x) * pow2(ex),
            pow2(ex) == pow2((ex - 1012) as nat) * w,
            i == significand(f, x) * pow2((ex - 1012) as nat),
    ;
    assert(my == j * w) by (nonlinear_arith)
        requires
            my == significand(f, y) * pow2(ey),
            pow2(ey) == pow2((ey - 1012) as nat) * w,
            j == significand(f, y) * pow2((ey - 1012) as nat),
    ;
    assert(mx - my >= w) by (nonlinear_arith)
        requires
            mx == i * w,
            my == j * w,
            mx > my,
            w > 0,
    {
        assert(i > j);
        assert((i - j) * w >= w);
    }
    lemma2_to64_rest();
    lemma_pow2_adds(52, 960);
    assert(magnitude(f, least) == w);
    lemma_nearest_bounds(f, (mx - my) as nat, 1, least);
}

/// A quotient of at least 2^-62 by no more than 2^475 has a square above zero.
pub proof fn lemma_square_of_quotient_above_zero(a: Double, b: Double)
    requires
        a.is_finite(),
        Double::from_bits(0x3c10_0000_0000_0000).le(a),
        b.rank() > 0,
        b.le(Double::from_bits(0x5da0_0000_0000_0000)),
    ensures
        !a.over(b).times(a.over(b)).is_nan(),
        a.over(b).times(a.over(b)).rank() > 0,
{
    let f = Format::Double;
    // 2^-62, 2^475 and 2^-537
    let (low, top, least): (nat, nat, nat) = (
        0x3c10_0000_0000_0000,
        0x5da0_0000_0000_0000,
        0x1e60_0000_0000_0000,
    );
    let (x, y) = (a.parts().code as nat, b.parts().code as nat);
    let (ma, mb) = (magnitude(f, x), magnitude(f, y));
    if low < x {
        lemma_magnitude_monotone(f, low, x);
    }
    if y < top {
        lemma_magnitude_monotone(f, y, top);
    }
    lemma_significand_bounds(f, y);
    lemma2_to64_rest();
    lemma_pow2_adds(52, 960);
    lemma_pow2_adds(52, 1497);
    lemma_pow2_adds(52, 485);
    lemma_pow2_adds(1012, 1074);
    lemma_pow2_adds(537, 1549);
    lemma_pow2_adds(537, 537);
    lemma_pow2_pos(1074);
    lemma_pow2_pos(537);
    assert(magnitude(f, low) == pow2(1012));
    assert(magnitude(f, top) == pow2(1549));
    assert(magnitude(f, least) == pow2(537));
    let w = pow2(1074);
    assert(ma * w >= magnitude(f, least) * mb) by (nonlinear_arith)
        requires
            ma >= pow2(1012),
            mb <= pow2(1549),
            magnitude(f, least) == pow2(537),
            pow2(1012) * w == pow2(2086),
            pow2(537) * pow2(1549) == pow2(2086),
    {
        assert(ma * w >= pow2(1012) * w);
        assert(pow2(537) * mb <= pow2(537) * pow2(1549));
    }
    lemma_nearest_bounds(f, ma * w, mb, least);
    lemma_nearest_monotone(f, 0, ma * w, mb);
    let r = a.over(b);
    assert(r.parts().code >= least && !r.parts().negative && !r.is_nan()) by {
        reveal(Double::spec_over);
        lemma_quotient_fits(a.parts(), b.parts());
    }
    lemma_square(r);
    reveal(Double::spec_times);
    lemma_product_fits(r.parts(), r.parts());
    if r.is_finite() {
        let m = r.parts().magnitude(f);
        if least < r.parts().code {
            lemma_magnitude_monotone(f, least, r.parts().code as nat);
        }
        lemma_least_magnitude(f);
        assert(m * m >= magnitude(f, 1) * w) by (nonlinear_arith)
            requires
                m >= pow2(537),
                magnitude(f, 1) == 1,
                pow2(537) * pow2(537) == w,
        {
            assert(m * m >= pow2(537) * pow2(537));
        }
        lemma_nearest_bounds(f, m * m, w, 1);
    }
}

} // verus!
