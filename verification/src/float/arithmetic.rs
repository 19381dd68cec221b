use vstd::arithmetic::div_mod::{
    lemma_div_is_ordered, lemma_fundamental_div_mod, lemma_fundamental_div_mod_converse,
    lemma_mod_bound,
};
use vstd::arithmetic::power2::{
    lemma2_to64, lemma2_to64_rest, lemma_pow2_adds, lemma_pow2_pos, lemma_pow2_unfold, pow2,
};
use vstd::prelude::*;

use crate::float::format::{Format, Parts, exponent, magnitude, nearest, significand};
use crate::float::rounding::{
    lemma_pow2_le, power_of_two, round_scaled, stands_for,
};

verus! {

/// What an invalid operation gives.
pub open spec fn not_a_number(f: Format) -> Parts {
    Parts { negative: false, code: f.quiet_nan() as u64 }
}

pub open spec fn infinite(f: Format, negative: bool) -> Parts {
    Parts { negative, code: f.infinity() as u64 }
}

/// The number of the format nearest to `n / d` units, with the given sign.
pub open spec fn rounded(f: Format, negative: bool, n: nat, d: nat) -> Parts {
    Parts { negative, code: nearest(f, n, d) as u64 }
}

/// IEEE 754 addition, rounding to nearest even.
pub open spec fn sum(f: Format, a: Parts, b: Parts) -> Parts {
    if a.is_nan(f) || b.is_nan(f) {
        not_a_number(f)
    } else if a.is_infinite(f) {
        if b.is_infinite(f) && a.negative != b.negative {
            not_a_number(f)
        } else {
            a
        }
    } else if b.is_infinite(f) {
        b
    } else {
        let exact = a.value(f) + b.value(f);
        if exact == 0 {
            Parts { negative: a.negative && b.negative, code: 0 }
        } else if exact < 0 {
            rounded(f, true, (-exact) as nat, 1)
        } else {
            rounded(f, false, exact as nat, 1)
        }
    }
}

/// IEEE 754 multiplication, rounding to nearest even.
pub open spec fn product(f: Format, a: Parts, b: Parts) -> Parts {
    let negative = a.negative != b.negative;
    if a.is_nan(f) || b.is_nan(f) {
        not_a_number(f)
    } else if a.is_infinite(f) || b.is_infinite(f) {
        if a.is_zero() || b.is_zero() {
            not_a_number(f)
        } else {
            infinite(f, negative)
        }
    } else {
        rounded(f, negative, a.magnitude(f) * b.magnitude(f), pow2(f.scale()))
    }
}

/// IEEE 754 division, rounding to nearest even.
pub open spec fn quotient(f: Format, a: Parts, b: Parts) -> Parts {
    let negative = a.negative != b.negative;
    if a.is_nan(f) || b.is_nan(f) {
        not_a_number(f)
    } else if a.is_infinite(f) {
        if b.is_infinite(f) {
            not_a_number(f)
        } else {
            infinite(f, negative)
        }
    } else if b.is_infinite(f) {
        Parts { negative, code: 0 }
    } else if b.is_zero() {
        if a.is_zero() {
            not_a_number(f)
        } else {
            infinite(f, negative)
        }
    } else {
        rounded(f, negative, a.magnitude(f) * pow2(f.scale()), b.magnitude(f))
    }
}

/// The number of format `g` nearest to a number of format `f`.
pub open spec fn converted(f: Format, g: Format, a: Parts) -> Parts {
    if a.is_nan(f) {
        not_a_number(g)
    } else if a.is_infinite(f) {
        infinite(g, a.negative)
    } else {
        rounded(g, a.negative, a.magnitude(f) * pow2(g.scale()), pow2(f.scale()))
    }
}

/// The number of the format nearest to an integer.
pub open spec fn integer(f: Format, n: nat) -> Parts {
    rounded(f, false, n * pow2(f.scale()), 1)
}

/// The integer part of a finite magnitude.
pub open spec fn floor_of(f: Format, a: Parts) -> nat {
    a.magnitude(f) / pow2(f.scale())
}

/// The least integer that is no smaller than a finite magnitude.
pub open spec fn ceiling_of(f: Format, a: Parts) -> nat {
    if a.magnitude(f) % pow2(f.scale()) == 0 {
        floor_of(f, a)
    } else {
        floor_of(f, a) + 1
    }
}

/// What the significand and the exponent of a finite code are like.
pub proof fn lemma_significand_bounds(f: Format, code: nat)
    requires
        code < f.infinity(),
    ensures
        significand(f, code) < 2 * f.hidden(),
        exponent(f, code) > 0 ==> significand(f, code) >= f.hidden(),
        exponent(f, code) <= 2045,
        code == exponent(f, code) * f.hidden() + significand(f, code),
        significand(f, code) == 0 <==> code == 0,
        magnitude(f, code) == 0 <==> code == 0,
{
    let h = f.hidden() as int;
    lemma_fundamental_div_mod(code as int, h);
    lemma_mod_bound(code as int, h);
    let q = code as int / h;
    let s = significand(f, code);
    let w = pow2(exponent(f, code));
    lemma_pow2_pos(exponent(f, code));
    assert(s * w == 0 <==> s == 0) by (nonlinear_arith)
        requires
            w > 0,
    ;
    match f {
        Format::Single => {},
        Format::Double => {},
    }
}

/// A greater code stands for a greater magnitude.
pub proof fn lemma_magnitude_monotone(f: Format, a: nat, b: nat)
    requires
        a < b,
        b < f.infinity(),
    ensures
        magnitude(f, a) < magnitude(f, b),
        exponent(f, a) <= exponent(f, b),
{
    lemma_significand_bounds(f, a);
    lemma_significand_bounds(f, b);
    lemma_div_is_ordered(a as int, b as int, f.hidden() as int);
    let (ea, eb) = (exponent(f, a), exponent(f, b));
    let (sa, sb) = (significand(f, a), significand(f, b));
    let h = f.hidden();
    if b >= h {
        lemma_fundamental_div_mod(b as int, h as int);
    }
    assert(ea <= eb) by {
        if a >= h {
            assert(a as int / h as int <= b as int / h as int);
        } else if b >= h {
            assert(b as int / h as int >= 1) by {
                lemma_div_is_ordered(h as int, b as int, h as int);
                lemma_fundamental_div_mod_converse(h as int, h as int, 1, 0);
            }
        }
    }
    if ea == eb {
        lemma_pow2_pos(ea);
        assert(sa * pow2(ea) < sb * pow2(ea)) by (nonlinear_arith)
            requires
                sa < sb,
                pow2(ea) > 0,
        ;
    } else {
        lemma_pow2_le(ea + 1, eb);
        lemma_pow2_unfold(ea + 1);
        lemma_pow2_pos(ea);
        assert(sa * pow2(ea) < sb * pow2(eb)) by (nonlinear_arith)
            requires
                sa < 2 * h,
                sb >= h,
                h > 0,
                pow2(ea) > 0,
                2 * pow2(ea) <= pow2(eb),
        {
            assert(sa * pow2(ea) < 2 * h * pow2(ea));
            assert(h * (2 * pow2(ea)) <= h * pow2(eb));
            assert(h * pow2(eb) <= sb * pow2(eb));
        }
    }
}

/// Splits a finite code into significand and exponent.
pub fn split(f: Format, code: u64) -> (r: (u64, u32))
    requires
        code < f.infinity(),
    ensures
        r.0 == significand(f, code as nat),
        r.1 == exponent(f, code as nat),
        r.0 < 2 * f.hidden(),
        r.1 > 0 ==> r.0 >= f.hidden(),
        r.1 <= 2045,
{
    proof {
        lemma_significand_bounds(f, code as nat);
    }
    let h = f.hidden_bit();
    if code < h {
        (code, 0)
    } else {
        proof {
            lemma_div_is_ordered(h as int, code as int, h as int);
            lemma_fundamental_div_mod_converse(h as int, h as int, 1, 0);
        }
        (h + code % h, (code / h - 1) as u32)
    }
}

/// Rounds the sum or the difference of two finite magnitudes, the greater one first.
fn combine(f: Format, hi: u64, lo: u64, same_sign: bool) -> (code: u64)
    requires
        lo <= hi,
        hi < f.infinity(),
    ensures
        magnitude(f, lo as nat) <= magnitude(f, hi as nat),
        code == nearest(
            f,
            if same_sign {
                magnitude(f, hi as nat) + magnitude(f, lo as nat)
            } else {
                (magnitude(f, hi as nat) - magnitude(f, lo as nat)) as nat
            },
            1,
        ),
        code <= f.infinity(),
{
    let (mh, kh) = split(f, hi);
    let (ml, kl) = split(f, lo);
    proof {
        if lo < hi {
            lemma_magnitude_monotone(f, lo as nat, hi as nat);
        }
        lemma2_to64();
        lemma2_to64_rest();
    }
    let gap = kh - kl;
    let ghost n: nat = if same_sign {
        magnitude(f, hi as nat) + magnitude(f, lo as nat)
    } else {
        (magnitude(f, hi as nat) - magnitude(f, lo as nat)) as nat
    };
    let ghost wl = pow2(kl as nat);
    if gap <= 64 {
        let g = power_of_two(gap);
        proof {
            lemma_pow2_le(gap as nat, 64);
            assert(mh * g <= 0x20_0000_0000_0000 * 0x1_0000_0000_0000_0000) by (nonlinear_arith)
                requires
                    0 <= mh <= 0x20_0000_0000_0000,
                    0 <= g <= 0x1_0000_0000_0000_0000,
            ;
            lemma_pow2_adds(gap as nat, kl as nat);
            lemma_pow2_pos(kl as nat);
            assert(mh * pow2(kh as nat) == (mh * g) * wl) by (nonlinear_arith)
                requires
                    pow2(kh as nat) == g * wl,
            ;
            if !same_sign {
                assert(mh * g >= ml) by (nonlinear_arith)
                    requires
                        (mh * g) * wl >= ml * wl,
                        wl > 0,
                ;
            }
        }
        let x = mh as u128 * g;
        let m: u128 = if same_sign { x + ml as u128 } else { x - ml as u128 };
        proof {
            assert(n == m * wl) by (nonlinear_arith)
                requires
                    same_sign ==> m == x + ml && n == x * wl + ml * wl,
                    !same_sign ==> m == x - ml && n == x * wl - ml * wl,
            ;
            assert(n * 1 == m * (1 * wl));
            assert(stands_for(m as nat, kl as int, false, n, 1));
        }
        round_scaled(f, m, kl as i32, false, Ghost(n), Ghost(1))
    } else {
        let e: i32 = kh as i32 - 8;
        let x = mh as u128 * 256;
        let ghost we = pow2(e as nat);
        proof {
            lemma_pow2_adds(8, e as nat);
            assert(mh * pow2(kh as nat) == x * we) by (nonlinear_arith)
                requires
                    x == mh * 256,
                    pow2(kh as nat) == 256 * we,
            ;
            // the smaller magnitude is less than one step of 2^e
            lemma_pow2_adds(53, kl as nat);
            lemma_pow2_le((53 + kl) as nat, e as nat);
            lemma_pow2_pos(kl as nat);
            lemma_pow2_pos(e as nat);
            assert(ml * wl < we) by (nonlinear_arith)
                requires
                    ml < 0x20_0000_0000_0000,
                    0x20_0000_0000_0000 * wl <= we,
                    wl > 0,
            ;
            assert(ml * wl >= 0 && (ml > 0 ==> ml * wl > 0) && (ml == 0 ==> ml * wl == 0))
                by (nonlinear_arith)
                requires
                    ml >= 0,
                    wl > 0,
            ;
        }
        let m: u128 = if same_sign || ml == 0 { x } else { x - 1 };
        proof {
            assert((x + 1) * we == x * we + we) by (nonlinear_arith);
            assert((x - 1) * we == x * we - we) by (nonlinear_arith);
            assert(m * (1 * we) == m * we);
            assert((m + 1) * (1 * we) == (m + 1) * we);
            assert(stands_for(m as nat, e as int, ml != 0, n, 1));
        }
        round_scaled(f, m, e, ml != 0, Ghost(n), Ghost(1))
    }
}

/// Adds two numbers.
pub fn add_parts(f: Format, a: Parts, b: Parts) -> (r: Parts)
    requires
        a.fits(f),
        b.fits(f),
    ensures
        r == sum(f, a, b),
        r.fits(f),
{
    let infinity = f.infinity_code();
    if a.code > infinity || b.code > infinity {
        return Parts { negative: false, code: f.nan_code() };
    }
    if a.code == infinity {
        if b.code == infinity && a.negative != b.negative {
            return Parts { negative: false, code: f.nan_code() };
        }
        return a;
    }
    if b.code == infinity {
        return b;
    }
    let same = a.negative == b.negative;
    proof {
        lemma_significand_bounds(f, a.code as nat);
        lemma_significand_bounds(f, b.code as nat);
        if a.code < b.code {
            lemma_magnitude_monotone(f, a.code as nat, b.code as nat);
        }
        if b.code < a.code {
            lemma_magnitude_monotone(f, b.code as nat, a.code as nat);
        }
    }
    if a.code == b.code && !same {
        return Parts { negative: false, code: 0 };
    }
    if a.code == 0 && b.code == 0 {
        return a;
    }
    if a.code >= b.code {
        let code = combine(f, a.code, b.code, same);
        Parts { negative: a.negative, code }
    } else {
        let code = combine(f, b.code, a.code, same);
        Parts { negative: b.negative, code }
    }
}

/// Multiplies two numbers.
pub fn multiply_parts(f: Format, a: Parts, b: Parts) -> (r: Parts)
    requires
        a.fits(f),
        b.fits(f),
    ensures
        r == product(f, a, b),
        r.fits(f),
{
    let negative = a.negative != b.negative;
    let infinity = f.infinity_code();
    if a.code > infinity || b.code > infinity {
        return Parts { negative: false, code: f.nan_code() };
    }
    if a.code == infinity || b.code == infinity {
        if a.code == 0 || b.code == 0 {
            return Parts { negative: false, code: f.nan_code() };
        }
        return Parts { negative, code: infinity };
    }
    let (ma, ka) = split(f, a.code);
    let (mb, kb) = split(f, b.code);
    let u = f.scale_bits();
    proof {
        assert(ma * mb <= 0x20_0000_0000_0000 * 0x20_0000_0000_0000) by (nonlinear_arith)
            requires
                0 <= ma <= 0x20_0000_0000_0000,
                0 <= mb <= 0x20_0000_0000_0000,
        ;
    }
    let m = ma as u128 * mb as u128;
    let e: i32 = ka as i32 + kb as i32 - u as i32;
    let ghost n = a.magnitude(f) * b.magnitude(f);
    let ghost d = pow2(u as nat);
    proof {
        let up: nat = if e >= 0 { e as nat } else { 0 };
        let down: nat = if e >= 0 { 0 } else { (-e) as nat };
        lemma2_to64();
        lemma_pow2_pos(u as nat);
        lemma_pow2_adds(ka as nat, kb as nat);
        lemma_pow2_adds((ka + kb) as nat, down);
        lemma_pow2_adds(u as nat, up);
        assert(ka + kb + down == u + up);
        let (wa, wb) = (pow2(ka as nat), pow2(kb as nat));
        assert(n == m * (wa * wb)) by (nonlinear_arith)
            requires
                n == (ma * wa) * (mb * wb),
                m == ma * mb,
        ;
        assert(n * pow2(down) == m * (d * pow2(up))) by (nonlinear_arith)
            requires
                n == m * (wa * wb),
                (wa * wb) * pow2(down) == d * pow2(up),
        ;
        assert(stands_for(m as nat, e as int, false, n, d));
    }
    let code = round_scaled(f, m, e, false, Ghost(n), Ghost(d));
    Parts { negative, code }
}

/// Shifts a non-zero significand up until its highest bit is the hidden one.
pub fn normalised(f: Format, m: u64) -> (r: (u64, u32))
    requires
        0 < m < 2 * f.hidden(),
    ensures
        f.hidden() <= r.0 < 2 * f.hidden(),
        r.1 <= 53,
        r.0 == m * pow2(r.1 as nat),
{
    let h = f.hidden_bit();
    let mut x: u64 = m;
    let mut j: u32 = 0;
    proof {
        lemma2_to64();
        lemma2_to64_rest();
    }
    while x < h
        invariant
            0 < m,
            0 < x < 2 * h,
            h == f.hidden(),
            x == m * pow2(j as nat),
            j <= 53,
            pow2(53) == 0x20_0000_0000_0000,
        decreases 2 * h - x,
    {
        proof {
            assert(j < 53) by {
                if j == 53 {
                    assert(m * pow2(53) >= pow2(53)) by (nonlinear_arith)
                        requires
                            m >= 1,
                            pow2(53) >= 0,
                    ;
                }
            }
            lemma_pow2_unfold((j + 1) as nat);
            assert(m * (2 * pow2(j as nat)) == 2 * (m * pow2(j as nat))) by (nonlinear_arith);
        }
        x = x * 2;
        j = j + 1;
    }
    (x, j)
}

/// Divides two numbers.
pub fn divide_parts(f: Format, a: Parts, b: Parts) -> (r: Parts)
    requires
        a.fits(f),
        b.fits(f),
    ensures
        r == quotient(f, a, b),
        r.fits(f),
{
    let negative = a.negative != b.negative;
    let infinity = f.infinity_code();
    if a.code > infinity || b.code > infinity {
        return Parts { negative: false, code: f.nan_code() };
    }
    if a.code == infinity {
        if b.code == infinity {
            return Parts { negative: false, code: f.nan_code() };
        }
        return Parts { negative, code: infinity };
    }
    if b.code == infinity {
        return Parts { negative, code: 0 };
    }
    if b.code == 0 {
        if a.code == 0 {
            return Parts { negative: false, code: f.nan_code() };
        }
        return Parts { negative, code: infinity };
    }
    let ghost n = a.magnitude(f) * pow2(f.scale());
    let ghost d = b.magnitude(f);
    proof {
        lemma_significand_bounds(f, a.code as nat);
        lemma_significand_bounds(f, b.code as nat);
    }
    if a.code == 0 {
        proof {
            assert(n == 0) by (nonlinear_arith)
                requires
                    n == 0 * pow2(f.scale()),
            ;
            lemma2_to64();
            assert(stands_for(0, 0, false, n, d)) by {
                assert(0 * (d * pow2(0)) == 0) by (nonlinear_arith);
                assert(n * pow2(0) == 0) by (nonlinear_arith)
                    requires
                        n == 0,
                ;
            }
        }
        let code = round_scaled(f, 0, 0, false, Ghost(n), Ghost(d));
        return Parts { negative, code };
    }
    let (ma, ka) = split(f, a.code);
    let (mb, kb) = split(f, b.code);
    let (mn, j) = normalised(f, ma);
    let u = f.scale_bits();
    // 2^70
    let top = mn as u128 * 0x40_0000_0000_0000_0000;
    let q = top / mb as u128;
    let rest = top % mb as u128;
    let e: i32 = ka as i32 + u as i32 - j as i32 - kb as i32 - 70;
    proof {
        lemma2_to64();
        lemma2_to64_rest();
        lemma_pow2_adds(64, 6);
        lemma_fundamental_div_mod(top as int, mb as int);
        lemma_mod_bound(top as int, mb as int);
        let up: nat = if e >= 0 { e as nat } else { 0 };
        let down: nat = if e >= 0 { 0 } else { (-e) as nat };
        let w = pow2((kb + up) as nat);
        lemma_pow2_pos((kb + up) as nat);
        lemma_pow2_adds(kb as nat, up);
        lemma_pow2_adds(ka as nat, u as nat);
        lemma_pow2_adds((ka + u) as nat, down);
        assert(ka + u + down == kb + up + 70 + j);
        lemma_pow2_adds((kb + up) as nat, (70 + j) as nat);
        lemma_pow2_adds(70, j as nat);
        let wj = pow2(j as nat);
        let t = pow2(70);
        let x = pow2(ka as nat);
        let y = pow2(u as nat);
        let z = pow2(down);
        assert(n * z == top * w) by (nonlinear_arith)
            requires
                n == (ma * x) * y,
                (x * y) * z == w * (t * wj),
                top == mn * t,
                mn == ma * wj,
        {
            assert(n * z == ma * ((x * y) * z));
            assert(ma * (w * (t * wj)) == (ma * wj) * t * w);
        }
        assert(d * pow2(up) == mb * w) by (nonlinear_arith)
            requires
                d == mb * pow2(kb as nat),
                w == pow2(kb as nat) * pow2(up),
        ;
        assert(q * (mb * w) + rest * w == top * w) by (nonlinear_arith)
            requires
                top == mb * q + rest,
        ;
        assert((q + 1) * (mb * w) == q * (mb * w) + mb * w) by (nonlinear_arith);
        assert(0 <= rest * w < mb * w) by (nonlinear_arith)
            requires
                0 <= rest < mb,
                w > 0,
        ;
        assert(rest > 0 ==> rest * w > 0) by (nonlinear_arith)
            requires
                w > 0,
        ;
        assert(rest == 0 ==> rest * w == 0) by (nonlinear_arith);
        assert(stands_for(q as nat, e as int, rest != 0, n, d));
        assert(q >= 2 * f.hidden()) by (nonlinear_arith)
            requires
                top == mb * q + rest,
                rest < mb,
                0 < mb < 2 * f.hidden(),
                mn >= f.hidden(),
                top == mn * 0x40_0000_0000_0000_0000,
                f.hidden() <= 0x10_0000_0000_0000,
                f.hidden() > 0,
        {
            let h = f.hidden() as int;
            if q < 2 * h {
                assert(mb * q <= mb * (2 * h - 1));
                assert(top < mb * (2 * h));
                assert(mb * (2 * h) <= (2 * h) * (2 * h));
                assert((2 * h) * (2 * h) == 4 * h * h);
                assert(4 * h * h <= 4 * h * 0x10_0000_0000_0000);
                assert(top >= h * 0x40_0000_0000_0000_0000);
            }
        }
        assert(q <= top) by (nonlinear_arith)
            requires
                top == mb * q + rest,
                mb >= 1,
                rest >= 0,
                q >= 0,
        ;
    }
    let code = round_scaled(f, q, e, rest != 0, Ghost(n), Ghost(d));
    Parts { negative, code }
}

/// Converts a number from one format to another.
pub fn convert_parts(f: Format, g: Format, a: Parts) -> (r: Parts)
    requires
        a.fits(f),
    ensures
        r == converted(f, g, a),
        r.fits(g),
{
    if a.code > f.infinity_code() {
        return Parts { negative: false, code: g.nan_code() };
    }
    if a.code == f.infinity_code() {
        return Parts { negative: a.negative, code: g.infinity_code() };
    }
    let (m, k) = split(f, a.code);
    let (v, u) = (f.scale_bits(), g.scale_bits());
    let e: i32 = k as i32 + u as i32 - v as i32;
    let ghost n = a.magnitude(f) * pow2(u as nat);
    let ghost d = pow2(v as nat);
    proof {
        let up: nat = if e >= 0 { e as nat } else { 0 };
        let down: nat = if e >= 0 { 0 } else { (-e) as nat };
        lemma_pow2_pos(v as nat);
        lemma_pow2_adds(k as nat, u as nat);
        lemma_pow2_adds((k + u) as nat, down);
        lemma_pow2_adds(v as nat, up);
        assert(k + u + down == v + up);
        let (wk, wu) = (pow2(k as nat), pow2(u as nat));
        assert(n * pow2(down) == m * (d * pow2(up))) by (nonlinear_arith)
            requires
                n == (m * wk) * wu,
                (wk * wu) * pow2(down) == d * pow2(up),
        {
            assert(n * pow2(down) == m * ((wk * wu) * pow2(down)));
        }
        assert(stands_for(m as nat, e as int, false, n, d));
    }
    let code = round_scaled(g, m as u128, e, false, Ghost(n), Ghost(d));
    Parts { negative: a.negative, code }
}

/// Converts an integer.
pub fn integer_parts(f: Format, n: u64) -> (r: Parts)
    ensures
        r == integer(f, n as nat),
        r.fits(f),
{
    let u = f.scale_bits();
    let ghost x = n as nat * pow2(u as nat);
    proof {
        lemma2_to64();
        assert(x * 1 == n * (1 * pow2(u as nat)));
        assert(stands_for(n as nat, u as int, false, x, 1));
    }
    let code = round_scaled(f, n as u128, u as i32, false, Ghost(x), Ghost(1));
    Parts { negative: false, code }
}

/// The integer part of a finite magnitude and whether a fraction is left, both
/// capped at the range of the result.
fn integer_part(f: Format, code: u64) -> (r: (u64, bool))
    requires
        code < f.infinity(),
    ensures
        ({
            let n = magnitude(f, code as nat);
            let d = pow2(f.scale());
            if n / d > u64::MAX {
                r.0 == u64::MAX && !r.1
            } else {
                r.0 == n / d && r.1 == (n % d != 0)
            }
        }),
{
    let (m, k) = split(f, code);
    let u = f.scale_bits();
    let ghost n = magnitude(f, code as nat);
    let ghost d = pow2(u as nat);
    proof {
        lemma_pow2_pos(u as nat);
        lemma2_to64();
        lemma2_to64_rest();
    }
    if k >= u {
        let j = k - u;
        proof {
            lemma_pow2_adds(j as nat, u as nat);
            let g = pow2(j as nat);
            assert(n == d * (m * g) + 0) by (nonlinear_arith)
                requires
                    n == m * pow2(k as nat),
                    pow2(k as nat) == g * d,
            ;
            lemma_fundamental_div_mod_converse(n as int, d as int, (m * g) as int, 0);
        }
        if j >= 64 {
            proof {
                lemma_pow2_le(64, j as nat);
                assert(m * pow2(j as nat) >= 0x1_0000_0000_0000_0000) by (nonlinear_arith)
                    requires
                        m >= 1,
                        pow2(j as nat) >= 0x1_0000_0000_0000_0000,
                ;
            }
            return (u64::MAX, false);
        }
        let g = power_of_two(j);
        proof {
            lemma_pow2_le(j as nat, 64);
            assert(m * g <= 0x20_0000_0000_0000 * 0x1_0000_0000_0000_0000) by (nonlinear_arith)
                requires
                    0 <= m <= 0x20_0000_0000_0000,
                    0 <= g <= 0x1_0000_0000_0000_0000,
            ;
        }
        let x = m as u128 * g;
        if x > u64::MAX as u128 {
            (u64::MAX, false)
        } else {
            (x as u64, false)
        }
    } else {
        let j = u - k;
        let ghost w = pow2(k as nat);
        proof {
            lemma_pow2_adds(j as nat, k as nat);
            lemma_pow2_pos(k as nat);
            lemma_pow2_pos(j as nat);
            let s = pow2(j as nat);
            let q = m as nat / s;
            let r = m as nat % s;
            lemma_fundamental_div_mod(m as int, s as int);
            lemma_mod_bound(m as int, s as int);
            assert(n == d * q + r * w) by (nonlinear_arith)
                requires
                    n == m * w,
                    m == s * q + r,
                    d == s * w,
            ;
            assert(0 <= r * w < d && (r * w == 0 <==> r == 0)) by (nonlinear_arith)
                requires
                    0 <= r < s,
                    d == s * w,
                    w > 0,
            ;
            lemma_fundamental_div_mod_converse(n as int, d as int, q as int, (r * w) as int);
        }
        if j >= 64 {
            proof {
                lemma_pow2_le(64, j as nat);
                lemma_fundamental_div_mod_converse(m as int, pow2(j as nat) as int, 0, m as int);
            }
            (0, m != 0)
        } else {
            let s = power_of_two(j);
            proof {
                lemma_pow2_pos(j as nat);
                assert(m as nat / s as nat <= m) by (nonlinear_arith)
                    requires
                        s >= 1,
                ;
            }
            ((m as u128 / s) as u64, m as u128 % s != 0)
        }
    }
}

/// The integer that saturating truncation of a number to `u64` gives.
pub open spec fn truncated(f: Format, a: Parts) -> nat {
    if a.is_nan(f) || a.negative {
        0
    } else if a.is_infinite(f) || floor_of(f, a) > u64::MAX {
        u64::MAX as nat
    } else {
        floor_of(f, a)
    }
}

/// The integer that rounding a number up, and then saturating, gives in `u64`.
pub open spec fn raised(f: Format, a: Parts) -> nat {
    if a.is_nan(f) || a.negative {
        0
    } else if a.is_infinite(f) || ceiling_of(f, a) > u64::MAX {
        u64::MAX as nat
    } else {
        ceiling_of(f, a)
    }
}

/// Truncates a number to an integer, saturating.
pub fn truncate_parts(f: Format, a: Parts) -> (r: u64)
    requires
        a.fits(f),
    ensures
        r == truncated(f, a),
{
    if a.code > f.infinity_code() || a.negative {
        0
    } else if a.code == f.infinity_code() {
        u64::MAX
    } else {
        integer_part(f, a.code).0
    }
}

/// Rounds a number up to an integer, saturating.
pub fn raise_parts(f: Format, a: Parts) -> (r: u64)
    requires
        a.fits(f),
    ensures
        r == raised(f, a),
{
    if a.code > f.infinity_code() || a.negative {
        0
    } else if a.code == f.infinity_code() {
        u64::MAX
    } else {
        let (whole, fraction) = integer_part(f, a.code);
        if fraction && whole < u64::MAX {
            whole + 1
        } else {
            whole
        }
    }
}

} // verus!
