use vstd::arithmetic::div_mod::{
    lemma_fundamental_div_mod, lemma_fundamental_div_mod_converse, lemma_mod_bound,
};
use vstd::arithmetic::power2::{
    lemma2_to64, lemma2_to64_rest, lemma_pow2_adds, lemma_pow2_pos, lemma_pow2_unfold, pow2,
};
use vstd::prelude::*;

use crate::float::arithmetic::{lemma_significand_bounds, normalised, not_a_number, split};
use crate::float::format::{Format, Parts, bit_len, encoded, excess, nearest};
use crate::float::rounding::{
    lemma_bit_len_bounds, lemma_bit_len_unique, lemma_hidden_is_power, lemma_pow2_le,
    lemma_quotient_bit_len, lemma_round_at, power_of_two, round_scaled, stands_for,
};

verus! {

/// The integer part of the square root.
pub open spec fn floor_root(n: nat) -> nat
    decreases n,
{
    if n == 0 {
        0
    } else {
        let r = 2 * floor_root(n / 4);
        if (r + 1) * (r + 1) <= n {
            r + 1
        } else {
            r
        }
    }
}

/// The integer part of a root is the greatest integer whose square is no greater.
pub proof fn lemma_floor_root(n: nat)
    ensures
        floor_root(n) * floor_root(n) <= n,
        n < (floor_root(n) + 1) * (floor_root(n) + 1),
    decreases n,
{
    if n > 0 {
        let q = n / 4;
        lemma_floor_root(q);
        let s = floor_root(q);
        let r = 2 * s;
        assert(r * r == 4 * (s * s)) by (nonlinear_arith)
            requires
                r == 2 * s,
        ;
        assert((r + 2) * (r + 2) == 4 * ((s + 1) * (s + 1))) by (nonlinear_arith)
            requires
                r == 2 * s,
        ;
        assert(n < 4 * (q + 1));
        if (r + 1) * (r + 1) <= n {
            assert(floor_root(n) == r + 1);
            assert((floor_root(n) + 1) * (floor_root(n) + 1) == (r + 2) * (r + 2));
        } else {
            assert(floor_root(n) == r);
        }
    } else {
        let g = floor_root(n);
        assert(g * g == 0 && (g + 1) * (g + 1) == 1) by (nonlinear_arith)
            requires
                g == 0,
        ;
    }
}

/// The code of the number of the format nearest to the square root of `n` (in
/// units), ties going to the even significand.
pub open spec fn nearest_root(f: Format, n: nat) -> nat {
    let k = excess(f, floor_root(n));
    let q = floor_root(n) / pow2(k);
    let midpoint = (2 * q + 1) * pow2(k);
    let up = 4 * n > midpoint * midpoint || (4 * n == midpoint * midpoint && q % 2 == 1);
    encoded(f, k, if up { q + 1 } else { q })
}

/// IEEE 754 square root, rounding to nearest even.
pub open spec fn square_root(f: Format, a: Parts) -> Parts {
    if a.is_nan(f) {
        not_a_number(f)
    } else if a.is_zero() {
        a
    } else if a.negative {
        not_a_number(f)
    } else if a.is_infinite(f) {
        a
    } else {
        Parts {
            negative: false,
            code: nearest_root(f, a.magnitude(f) * pow2(f.scale())) as u64,
        }
    }
}

/// The integer part of the square root.
fn integer_root(n: u128) -> (r: u64)
    requires
        n < 0x4000_0000_0000_0000_0000_0000_0000_0000,
    ensures
        r == floor_root(n as nat),
        r < 0x8000_0000_0000_0000,
    decreases n,
{
    if n == 0 {
        0
    } else {
        let half = integer_root(n / 4);
        proof {
            lemma_floor_root(n as nat / 4);
            lemma_floor_root(n as nat);
            assert(half < 0x4000_0000_0000_0000) by (nonlinear_arith)
                requires
                    half * half <= n / 4,
                    n < 0x4000_0000_0000_0000_0000_0000_0000_0000,
            ;
            assert((2 * half + 1) * (2 * half + 1) <= 0x8000_0000_0000_0000 * 0x8000_0000_0000_0000)
                by (nonlinear_arith)
                requires
                    0 <= half < 0x4000_0000_0000_0000,
            ;
        }
        let r = 2 * half;
        if (r as u128 + 1) * (r as u128 + 1) <= n {
            r + 1
        } else {
            r
        }
    }
}

/// Rounding the root of `radicand * 4^e` looks at no more than the integer root
/// of the radicand and whether it is exact.
proof fn lemma_nearest_root(f: Format, radicand: nat, r: nat, e: nat, n: nat, d: nat)
    requires
        r == floor_root(radicand),
        r >= 2 * f.hidden(),
        stands_for(r, e as int, r * r != radicand, n, d),
    ensures
        nearest_root(f, radicand * pow2(2 * e)) == nearest(f, n, d),
{
    let p = f.precision();
    let l = bit_len(r);
    let remainder = r * r != radicand;
    let w = pow2(e);
    let big = radicand * pow2(2 * e);
    let g = floor_root(big);
    lemma_floor_root(radicand);
    lemma_hidden_is_power(f);
    lemma_bit_len_bounds(r);
    lemma_pow2_pos(e);
    lemma_pow2_adds(e, e);
    if l <= p {
        lemma_pow2_le(l, p);
    }
    let k = (l + e - p) as nat;
    lemma_quotient_bit_len(r, e as int, remainder, n, d);
    assert(excess(f, n / d) == k);
    lemma_round_at(r, e as int, remainder, n, d, k);
    // r * 2^e <= g < (r + 1) * 2^e
    lemma_floor_root(big);
    assert(r * w <= g) by (nonlinear_arith)
        requires
            r * r <= radicand,
            big == radicand * (w * w),
            big < (g + 1) * (g + 1),
            r >= 0,
            w > 0,
            g >= 0,
    {
        assert((r * w) * (r * w) == (r * r) * (w * w));
        assert((r * r) * (w * w) <= radicand * (w * w));
        if g + 1 <= r * w {
            assert((g + 1) * (g + 1) <= (r * w) * (r * w));
        }
    }
    assert(g < (r + 1) * w) by (nonlinear_arith)
        requires
            radicand < (r + 1) * (r + 1),
            big == radicand * (w * w),
            g * g <= big,
            r >= 0,
            w > 0,
            g >= 0,
    {
        assert(((r + 1) * w) * ((r + 1) * w) == ((r + 1) * (r + 1)) * (w * w));
        assert(radicand * (w * w) < ((r + 1) * (r + 1)) * (w * w));
        if g >= (r + 1) * w {
            assert(g * g >= ((r + 1) * w) * ((r + 1) * w));
        }
    }
    // digits of g
    lemma_pow2_adds((l - 1) as nat, e);
    lemma_pow2_adds(l, e);
    assert(pow2((l - 1) as nat) * w <= r * w) by (nonlinear_arith)
        requires
            pow2((l - 1) as nat) <= r,
            w > 0,
    ;
    assert((r + 1) * w <= pow2(l) * w) by (nonlinear_arith)
        requires
            r + 1 <= pow2(l),
            w > 0,
    ;
    assert((l + e - 1) as nat == (l - 1) as nat + e);
    lemma_bit_len_unique(g, l + e);
    assert(excess(f, g) == k);
    // split at bit k
    let j = (k - e) as nat;
    let s = pow2(j);
    lemma_pow2_unfold(j);
    let half = pow2((j - 1) as nat);
    lemma_pow2_pos((j - 1) as nat);
    lemma_pow2_adds(j, e);
    let t = r / s;
    let rest = r % s;
    lemma_fundamental_div_mod(r as int, s as int);
    lemma_mod_bound(r as int, s as int);
    let z = pow2(k);
    assert(z == s * w);
    assert(t * z <= g < t * z + z) by (nonlinear_arith)
        requires
            r == s * t + rest,
            0 <= rest,
            rest + 1 <= s,
            z == s * w,
            r * w <= g,
            g < (r + 1) * w,
            w > 0,
    {
        assert(r * w == t * z + rest * w);
        assert(rest * w >= 0);
        assert((rest + 1) * w <= s * w);
        assert((r + 1) * w == t * z + (rest + 1) * w);
    }
    lemma_pow2_pos(k);
    assert(g == z * t + (g - t * z)) by (nonlinear_arith);
    lemma_fundamental_div_mod_converse(g as int, z as int, t as int, g - t * z);
    // compare with the midpoint
    let c = (2 * t + 1) * half;
    let mid = (2 * t + 1) * z;
    assert(mid * mid == 4 * ((c * c) * (w * w))) by (nonlinear_arith)
        requires
            mid == (2 * t + 1) * z,
            z == s * w,
            s == 2 * half,
            c == (2 * t + 1) * half,
    {
        assert(mid == 2 * (c * w));
        assert((c * w) * (c * w) == (c * c) * (w * w));
    }
    assert(w * w > 0) by (nonlinear_arith)
        requires
            w > 0,
    ;
    assert(radicand * (w * w) > (c * c) * (w * w) <==> radicand > c * c) by (nonlinear_arith)
        requires
            w * w > 0,
    ;
    assert(radicand * (w * w) == (c * c) * (w * w) <==> radicand == c * c) by (nonlinear_arith)
        requires
            w * w > 0,
    ;
    assert(c == s * t + half) by (nonlinear_arith)
        requires
            c == (2 * t + 1) * half,
            s == 2 * half,
    ;
    if r > c {
        assert(radicand > c * c) by (nonlinear_arith)
            requires
                r * r <= radicand,
                r >= c + 1,
                c >= 0,
        ;
    } else if r < c {
        assert(radicand < c * c) by (nonlinear_arith)
            requires
                radicand < (r + 1) * (r + 1),
                r + 1 <= c,
                r >= 0,
        ;
    }
}

/// The square root of a number.
pub fn root_parts(f: Format, a: Parts) -> (r: Parts)
    requires
        a.fits(f),
    ensures
        r == square_root(f, a),
        r.fits(f),
{
    let infinity = f.infinity_code();
    if a.code > infinity {
        return Parts { negative: false, code: f.nan_code() };
    }
    if a.code == 0 {
        return a;
    }
    if a.negative {
        return Parts { negative: false, code: f.nan_code() };
    }
    if a.code == infinity {
        return a;
    }
    proof {
        lemma_significand_bounds(f, a.code as nat);
    }
    let (m, k) = split(f, a.code);
    let (mn, j) = normalised(f, m);
    let x: u32 = k + f.scale_bits() - j;
    let s: u32 = if x % 2 == 0 { 72 } else { 73 };
    let g = power_of_two(s);
    let ghost n = a.magnitude(f) * pow2(f.scale());
    proof {
        lemma2_to64();
        lemma2_to64_rest();
        lemma_pow2_adds(64, 8);
        lemma_pow2_adds(64, 9);
        assert(mn * g < 0x4000_0000_0000_0000_0000_0000_0000_0000) by (nonlinear_arith)
            requires
                0 <= mn < 0x20_0000_0000_0000,
                0 < g <= 0x200_0000_0000_0000_0000,
        ;
    }
    let radicand = mn as u128 * g;
    let r = integer_root(radicand);
    let e: u32 = (x - s) / 2;
    proof {
        // n == radicand * 4^e
        lemma_pow2_adds(k as nat, f.scale());
        lemma_pow2_adds(j as nat, x as nat);
        lemma_pow2_adds(s as nat, (2 * e) as nat);
        let wj = pow2(j as nat);
        let wx = pow2(x as nat);
        assert(n == radicand * pow2((2 * e) as nat)) by (nonlinear_arith)
            requires
                n == (m * pow2(k as nat)) * pow2(f.scale()),
                pow2(k as nat) * pow2(f.scale()) == wj * wx,
                wx == g * pow2((2 * e) as nat),
                mn == m * wj,
                radicand == mn * g,
        {
            assert(n == m * (pow2(k as nat) * pow2(f.scale())));
            assert(m * (wj * wx) == (m * wj) * wx);
            assert((m * wj) * (g * pow2((2 * e) as nat)) == (mn * g) * pow2((2 * e) as nat));
        }
        lemma_floor_root(radicand as nat);
        assert(r >= 2 * f.hidden()) by (nonlinear_arith)
            requires
                radicand < (r + 1) * (r + 1),
                radicand == mn * g,
                mn >= f.hidden(),
                g >= 0x100_0000_0000_0000_0000,
                0 < f.hidden() <= 0x10_0000_0000_0000,
                r >= 0,
        {
            let h = f.hidden() as int;
            if r < 2 * h {
                assert((r + 1) * (r + 1) <= (2 * h) * (2 * h));
                assert((2 * h) * (2 * h) == 4 * h * h);
                assert(4 * h * h <= 4 * h * 0x10_0000_0000_0000);
                assert(mn * g >= h * 0x100_0000_0000_0000_0000);
            }
        }
    }
    let inexact = r as u128 * r as u128 != radicand;
    // twice the root, plus one where it is not exact, over two
    let ghost wn: nat = (2 * r + if inexact { 1int } else { 0 }) as nat * pow2(e as nat);
    proof {
        lemma_pow2_pos(e as nat);
        let w = pow2(e as nat);
        assert(2 * w == w + w);
        assert(r * (2 * w) == 2 * r * w && (r + 1) * (2 * w) == (2 * r + 2) * w) by (nonlinear_arith);
        assert((2 * r) * w < (2 * r + 1) * w < (2 * r + 2) * w) by (nonlinear_arith)
            requires
                w > 0,
        ;
        assert(r * (2 * w) <= wn) by (nonlinear_arith)
            requires
                r * (2 * w) == 2 * r * w,
                inexact ==> wn == (2 * r + 1) * w,
                !inexact ==> wn == (2 * r) * w,
                w > 0,
        ;
        if inexact {
            assert(wn == (2 * r + 1) * w);
        } else {
            assert(wn == (2 * r) * w);
            assert(2 * r * w == (2 * r) * w);
        }
        assert(wn * pow2(0) == wn);
        assert(stands_for(r as nat, e as int, inexact, wn, 2));
        lemma_nearest_root(f, radicand as nat, r as nat, e as nat, wn, 2);
    }
    let code = round_scaled(f, r as u128, e as i32, inexact, Ghost(wn), Ghost(2));
    Parts { negative: false, code }
}

} // verus!
