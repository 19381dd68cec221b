use vstd::arithmetic::div_mod::lemma_fundamental_div_mod_converse;
use vstd::arithmetic::power2::{lemma_pow2_adds, lemma_pow2_pos, pow2};
use vstd::prelude::*;

use crate::float::double::Double;
use crate::float::exact::{
    lemma_exact_difference, lemma_exact_quotient, lemma_nothing_and, lemma_of_u64_exact,
    lemma_same_value, lemma_whole_sum,
};
use crate::float::format::{Format, bit_len, encoded, excess, magnitude};
use crate::float::laws::{lemma_encoded_magnitude, lemma_nearest_exact, lemma_product_fits};
use crate::float::root::{floor_root, lemma_floor_root, nearest_root};
use crate::float::rounding::{
    lemma_bit_len_bounds, lemma_bit_len_unique, lemma_hidden_is_power, lemma_pow2_le,
};
use crate::float::series::total_of;

verus! {

/// Whole numbers as binary64 numbers.
pub open spec fn whole(xs: Seq<u64>) -> Seq<Double> {
    xs.map_values(|x: u64| Double::of_u64(x))
}

/// The sum of whole numbers.
pub open spec fn sum_of(xs: Seq<u64>) -> nat
    decreases xs.len(),
{
    if xs.len() == 0 {
        0
    } else {
        sum_of(xs.drop_last()) + xs.last() as nat
    }
}

/// Whole numbers add up exactly.
pub proof fn lemma_total_of_whole_numbers(xs: Seq<u64>)
    requires
        sum_of(xs) < 0x20_0000_0000_0000,
    ensures
        total_of(whole(xs)).is_finite(),
        total_of(whole(xs)).rank() == Double::of_u64(sum_of(xs) as u64).rank(),
        sum_of(xs) > 0 ==> total_of(whole(xs)) == Double::of_u64(sum_of(xs) as u64),
    decreases xs.len(),
{
    lemma_of_u64_exact(sum_of(xs) as u64);
    if xs.len() > 0 {
        let rest = xs.drop_last();
        let (s, x) = (sum_of(rest) as u64, xs.last());
        lemma_total_of_whole_numbers(rest);
        assert(whole(xs).drop_last() =~= whole(rest));
        assert(whole(xs).last() == Double::of_u64(x));
        lemma_of_u64_exact(s);
        lemma_of_u64_exact(x);
        if s > 0 {
            lemma_whole_sum(s, x);
        } else {
            lemma_nothing_and(total_of(whole(rest)), Double::of_u64(x));
        }
    } else {
        assert(whole(xs) =~= Seq::<Double>::empty());
    }
}

/// A whole number of shares, evenly divided.
pub proof fn lemma_whole_quotient(n: u64, m: u64)
    requires
        0 < n,
        n * m < 0x20_0000_0000_0000,
        n < 0x20_0000_0000_0000,
        m < 0x20_0000_0000_0000,
    ensures
        Double::of_u64((n * m) as u64).over(Double::of_u64(n)) == Double::of_u64(m),
{
    let w = pow2(1074);
    lemma_of_u64_exact((n * m) as u64);
    lemma_of_u64_exact(n);
    lemma_of_u64_exact(m);
    assert(((n * m) * w) * w == (m * w) * (n * w)) by (nonlinear_arith);
    lemma_exact_quotient(
        Double::of_u64((n * m) as u64),
        Double::of_u64(n),
        Double::of_u64(m).parts().code as nat,
    );
    lemma_same_value(Double::of_u64((n * m) as u64).over(Double::of_u64(n)), Double::of_u64(m));
}

/// How far two whole numbers are apart.
pub open spec fn gap(x: u64, m: u64) -> nat {
    if x < m {
        (m - x) as nat
    } else {
        (x - m) as nat
    }
}

/// The square of the difference of two whole numbers.
pub proof fn lemma_squared_difference(x: u64, m: u64)
    requires
        x < 0x20_0000_0000_0000,
        m < 0x20_0000_0000_0000,
        gap(x, m) < 0x400_0000,
    ensures
        gap(x, m) * gap(x, m) < 0x20_0000_0000_0000,
        Double::of_u64(x).minus(Double::of_u64(m)).times(
            Double::of_u64(x).minus(Double::of_u64(m)),
        ) == Double::of_u64((gap(x, m) * gap(x, m)) as u64),
{
    let f = Format::Double;
    let w = pow2(1074);
    lemma_pow2_pos(1074);
    let k = gap(x, m);
    assert(k * k < 0x20_0000_0000_0000) by (nonlinear_arith)
        requires
            k < 0x400_0000,
    ;
    lemma_of_u64_exact(x);
    lemma_of_u64_exact(m);
    lemma_of_u64_exact(k as u64);
    lemma_of_u64_exact((k * k) as u64);
    let (a, b, c) = (Double::of_u64(x), Double::of_u64(m), Double::of_u64(k as u64));
    let code = c.parts().code as nat;
    assert(x * w - m * w == (x - m) * w && m * w - x * w == (m - x) * w) by (nonlinear_arith);
    assert(magnitude(f, code) == k * w);
    assert(a.parts().value(f) == x * w && b.parts().value(f) == m * w);
    if x < m {
        assert((m - x) * w == k * w);
    } else {
        assert((x - m) * w == k * w);
    }
    lemma_exact_difference(a, b, code);
    let d = a.minus(b);
    assert(d.parts().code == code);
    let e = Double::of_u64((k * k) as u64);
    assert((k * w) * (k * w) == ((k * k) * w) * w) by (nonlinear_arith);
    reveal(Double::spec_times);
    lemma_product_fits(d.parts(), d.parts());
    lemma_nearest_exact(f, w, e.parts().code as nat);
}

/// The root of the square of a whole number is that number.
pub proof fn lemma_root_of_square(d: u64)
    requires
        0 < d < 0x400_0000,
    ensures
        d * d < 0x20_0000_0000_0000,
        Double::of_u64((d * d) as u64).sqrt() == Double::of_u64(d),
{
    let f = Format::Double;
    let w = pow2(1074);
    lemma_pow2_pos(1074);
    assert(0 < d * d < 0x20_0000_0000_0000) by (nonlinear_arith)
        requires
            0 < d < 0x400_0000,
    ;
    let r = d * w;
    lemma_of_u64_exact((d * d) as u64);
    lemma_of_u64_exact(d);
    let n = (((d * d) * w) * w) as nat;
    assert(n == r * r && r > 0) by (nonlinear_arith)
        requires
            n == ((d * d) * w) * w,
            r == d * w,
            d > 0,
            w > 0,
    ;
    lemma_floor_root(n);
    let q = floor_root(n);
    assert(q == r) by (nonlinear_arith)
        requires
            q * q <= n,
            n < (q + 1) * (q + 1),
            n == r * r,
            q >= 0,
            r >= 0,
    {
        if q < r {
            assert((q + 1) * (q + 1) <= r * r);
        }
        if q > r {
            assert(q * q >= (r + 1) * (r + 1));
            assert((r + 1) * (r + 1) > r * r);
        }
    }
    // The digits of the root.
    let b = bit_len(d as nat);
    lemma_bit_len_bounds(d as nat);
    lemma_hidden_is_power(f);
    if b > 53 {
        lemma_pow2_le(53, (b - 1) as nat);
    }
    lemma_pow2_adds(b, 1074);
    lemma_pow2_adds((b - 1) as nat, 1074);
    assert(pow2((b + 1073) as nat) <= r < pow2(b + 1074)) by (nonlinear_arith)
        requires
            r == d * w,
            pow2((b - 1) as nat) <= d < pow2(b),
            pow2((b + 1073) as nat) == pow2((b - 1) as nat) * w,
            pow2(b + 1074) == pow2(b) * w,
            w > 0,
    ;
    lemma_bit_len_unique(r as nat, b + 1074);
    let k = excess(f, r as nat);
    assert(k == b + 1021);
    let u = pow2((53 - b) as nat);
    lemma_pow2_pos(k);
    lemma_pow2_pos((53 - b) as nat);
    lemma_pow2_adds((53 - b) as nat, k);
    let t = d * u;
    assert(r == t * pow2(k)) by (nonlinear_arith)
        requires
            r == d * w,
            w == u * pow2(k),
            t == d * u,
    ;
    lemma_fundamental_div_mod_converse(r as int, pow2(k) as int, t as int, 0);
    let midpoint = (2 * t + 1) * pow2(k);
    assert(4 * n < midpoint * midpoint) by (nonlinear_arith)
        requires
            n == r * r,
            r == t * pow2(k),
            midpoint == (2 * t + 1) * pow2(k),
            pow2(k) > 0,
            t >= 0,
    {
        assert(midpoint == 2 * r + pow2(k));
        assert(midpoint * midpoint > (2 * r) * (2 * r));
    }
    assert(nearest_root(f, n) == encoded(f, k, t as nat));
    lemma_pow2_adds(b, (53 - b) as nat);
    lemma_pow2_adds((b - 1) as nat, (53 - b) as nat);
    assert(f.hidden() <= t < 2 * f.hidden()) by (nonlinear_arith)
        requires
            t == d * u,
            pow2((b - 1) as nat) <= d < pow2(b),
            pow2(b) * u == 2 * f.hidden(),
            pow2((b - 1) as nat) * u == f.hidden(),
            u > 0,
    ;
    lemma_encoded_magnitude(f, k, t as nat);
    let code = encoded(f, k, t as nat);
    assert(k * f.hidden() <= 1100 * f.hidden()) by (nonlinear_arith)
        requires
            k <= 1100,
    ;
    assert(code < f.infinity());
    reveal(Double::spec_sqrt);
    let root = Double::of_u64((d * d) as u64).sqrt();
    assert(root.parts().code == code && !root.parts().negative);
    lemma_same_value(root, Double::of_u64(d));
}

} // verus!
