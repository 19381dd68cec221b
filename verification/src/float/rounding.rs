use vstd::arithmetic::div_mod::{
    lemma_fundamental_div_mod, lemma_fundamental_div_mod_converse, lemma_mod_bound,
};
use vstd::arithmetic::power2::{
    lemma2_to64, lemma2_to64_rest, lemma_pow2_adds, lemma_pow2_pos,
    lemma_pow2_strictly_increases, lemma_pow2_unfold,
    pow2,
};
use vstd::prelude::*;

use crate::float::format::{
    Format, bit_len, excess, nearest, round_half_even,
};

verus! {

/// A positive integer of `b` binary digits lies between two powers of two.
pub proof fn lemma_bit_len_bounds(n: nat)
    requires
        n > 0,
    ensures
        bit_len(n) > 0,
        pow2((bit_len(n) - 1) as nat) <= n < pow2(bit_len(n)),
    decreases n,
{
    lemma2_to64();
    if n > 1 {
        lemma_bit_len_bounds(n / 2);
        lemma_pow2_unfold(bit_len(n));
        lemma_pow2_unfold((bit_len(n) - 1) as nat);
    } else {
        assert(bit_len(n / 2) == 0);
    }
}

/// The powers of two around a positive integer determine its number of digits.
pub proof fn lemma_bit_len_unique(n: nat, b: nat)
    requires
        b > 0,
        pow2((b - 1) as nat) <= n < pow2(b),
    ensures
        bit_len(n) == b,
{
    lemma_pow2_pos((b - 1) as nat);
    lemma_bit_len_bounds(n);
    let l = bit_len(n);
    if l < b {
        lemma_pow2_le(l, (b - 1) as nat);
    } else if l > b {
        lemma_pow2_le(b, (l - 1) as nat);
    }
}

/// Powers of two grow with their exponents.
pub proof fn lemma_pow2_le(a: nat, b: nat)
    requires
        a <= b,
    ensures
        0 < pow2(a) <= pow2(b),
{
    lemma_pow2_pos(a);
    if a < b {
        lemma_pow2_strictly_increases(a, b);
    }
}

/// `m * 2^e`, or something strictly between it and `(m + 1) * 2^e` where there
/// is a remainder, is the quotient `n / d`.
pub open spec fn stands_for(m: nat, e: int, remainder: bool, n: nat, d: nat) -> bool {
    let up: nat = pow2(if e >= 0 { e as nat } else { 0 });
    let down: nat = pow2(if e >= 0 { 0 } else { (-e) as nat });
    &&& d > 0
    &&& if remainder {
        m * (d * up) < n * down < (m + 1) * (d * up)
    } else {
        n * down == m * (d * up)
    }
}

/// The integer part of the quotient has as many digits as `m` moved by `e` places.
pub proof fn lemma_quotient_bit_len(m: nat, e: int, remainder: bool, n: nat, d: nat)
    requires
        m > 0,
        stands_for(m, e, remainder, n, d),
    ensures
        bit_len(n / d) == if bit_len(m) + e > 0 {
            (bit_len(m) + e) as nat
        } else {
            0
        },
{
    let l = bit_len(m);
    let b: nat = if e >= 0 { e as nat } else { 0 };
    let a: nat = if e >= 0 { 0 } else { (-e) as nat };
    let up = pow2(b);
    let down = pow2(a);
    let u = d * up;
    lemma_bit_len_bounds(m);
    lemma_pow2_pos(a);
    lemma_pow2_pos(b);
    assert(u > 0) by (nonlinear_arith)
        requires
            d > 0,
            up > 0,
            u == d * up,
    ;
    // 2^(l-1) * u <= n * down < 2^l * u
    assert(pow2((l - 1) as nat) * u <= m * u) by (nonlinear_arith)
        requires
            pow2((l - 1) as nat) <= m,
            u > 0,
    ;
    assert((m + 1) * u <= pow2(l) * u) by (nonlinear_arith)
        requires
            m + 1 <= pow2(l),
            u > 0,
    ;
    assert(m * u < (m + 1) * u) by (nonlinear_arith)
        requires
            u > 0,
    ;
    assert(pow2((l - 1) as nat) * u <= n * down < pow2(l) * u);
    if l + e > 0 {
        let c = (l + e) as nat;
        lemma_pow2_adds(l, b);
        lemma_pow2_adds(c, a);
        assert(l + b == c + a);
        lemma_pow2_adds((l - 1) as nat, b);
        lemma_pow2_adds((c - 1) as nat, a);
        assert((l - 1) + b == (c - 1) + a);
        assert(n < pow2(c) * d) by (nonlinear_arith)
            requires
                n * down < pow2(l) * u,
                u == d * up,
                pow2(l) * up == pow2(c) * down,
                down > 0,
        {
            assert(pow2(l) * u == (pow2(c) * d) * down);
        }
        assert(pow2((c - 1) as nat) * d <= n) by (nonlinear_arith)
            requires
                pow2((l - 1) as nat) * u <= n * down,
                u == d * up,
                pow2((l - 1) as nat) * up == pow2((c - 1) as nat) * down,
                down > 0,
        {
            assert(pow2((l - 1) as nat) * u == (pow2((c - 1) as nat) * d) * down);
        }
        lemma_fundamental_div_mod(n as int, d as int);
        lemma_mod_bound(n as int, d as int);
        let q = n / d;
        let lo = pow2((c - 1) as nat);
        let hi = pow2(c);
        let r = n % d;
        assert(lo <= q < hi) by (nonlinear_arith)
            requires
                n == d * q + r,
                0 <= r < d,
                lo * d <= n < hi * d,
        ;
        lemma_bit_len_unique(q, c);
    } else {
        lemma_pow2_adds(l, b);
        lemma_pow2_le((l + b) as nat, a);
        assert(n < d) by (nonlinear_arith)
            requires
                n * down < pow2(l) * u,
                u == d * up,
                pow2(l) * up <= down,
                down > 0,
                d > 0,
        {
            assert(pow2(l) * u == (pow2(l) * up) * d);
            assert((pow2(l) * up) * d <= down * d);
        }
        lemma_fundamental_div_mod_converse(n as int, d as int, 0, n as int);
    }
}

/// `m` without its lowest `shift` bits, rounded to nearest, ties to even. A
/// remainder below `m` breaks a tie upwards.
pub open spec fn shifted(m: nat, shift: int, remainder: bool) -> nat {
    if shift <= 0 {
        m * pow2((-shift) as nat)
    } else {
        let s = pow2(shift as nat);
        let t = m / s;
        let r = m % s;
        if 2 * r > s || (2 * r == s && (remainder || t % 2 == 1)) {
            t + 1
        } else {
            t
        }
    }
}

/// Rounding the quotient at bit `k` looks at no more than `m` and the remainder flag.
pub proof fn lemma_round_at(m: nat, e: int, remainder: bool, n: nat, d: nat, k: nat)
    requires
        stands_for(m, e, remainder, n, d),
        remainder ==> k > e,
    ensures
        round_half_even(n, d * pow2(k)) == shifted(m, k - e, remainder),
{
    let b: nat = if e >= 0 { e as nat } else { 0 };
    let a: nat = if e >= 0 { 0 } else { (-e) as nat };
    let up = pow2(b);
    let down = pow2(a);
    let u = d * up;
    let dk = d * pow2(k);
    lemma_pow2_pos(a);
    lemma_pow2_pos(b);
    lemma_pow2_pos(k);
    assert(u > 0 && dk > 0) by (nonlinear_arith)
        requires
            d > 0,
            up > 0,
            pow2(k) > 0,
            u == d * up,
            dk == d * pow2(k),
    ;
    if k <= e {
        let g = pow2((e - k) as nat);
        lemma_pow2_adds((e - k) as nat, k);
        lemma2_to64();
        assert(n == dk * (m * g) + 0) by (nonlinear_arith)
            requires
                n * down == m * u,
                down == 1,
                u == d * up,
                up == g * pow2(k),
                dk == d * pow2(k),
        ;
        lemma_fundamental_div_mod_converse(n as int, dk as int, (m * g) as int, 0);
    } else {
        let s = pow2((k - e) as nat);
        lemma_pow2_pos((k - e) as nat);
        lemma_pow2_unfold((k - e) as nat);
        let half = pow2((k - e - 1) as nat);
        lemma_pow2_pos((k - e - 1) as nat);
        lemma_pow2_adds((k - e) as nat, b);
        lemma_pow2_adds(k, a);
        assert((k - e) + b == k + a);
        assert(dk * down == u * s) by (nonlinear_arith)
            requires
                dk == d * pow2(k),
                u == d * up,
                s * up == pow2(k) * down,
        ;
        let t = m / s;
        let r = m % s;
        lemma_fundamental_div_mod(m as int, s as int);
        lemma_mod_bound(m as int, s as int);
        let q = n / dk;
        let w = n % dk;
        lemma_fundamental_div_mod(n as int, dk as int);
        lemma_mod_bound(n as int, dk as int);
        // rho is what n * down has beyond m * u
        let rho = n * down - m * u;
        assert(0 <= rho < u && (rho == 0 <==> !remainder)) by {
            assert((m + 1) * u == m * u + u) by (nonlinear_arith);
        }
        assert((r + 1) * u <= s * u) by (nonlinear_arith)
            requires
                r + 1 <= s,
                u > 0,
        ;
        assert((r + 1) * u == r * u + u) by (nonlinear_arith);
        assert(r * u >= 0) by (nonlinear_arith)
            requires
                r >= 0,
                u > 0,
        ;
        assert(w * down == n * down - q * (dk * down)) by (nonlinear_arith)
            requires
                n == dk * q + w,
        ;
        assert(m * u == t * (u * s) + r * u) by (nonlinear_arith)
            requires
                m == s * t + r,
        ;
        // n * down = t * (u * s) + (r * u + rho), and also q * (u * s) + w * down
        assert(0 <= w * down < dk * down) by (nonlinear_arith)
            requires
                0 <= w < dk,
                down > 0,
        ;
        let z = u * s;
        assert(z > 0) by (nonlinear_arith)
            requires
                u > 0,
                s > 0,
                z == u * s,
        ;
        assert(s * u == z) by (nonlinear_arith)
            requires
                z == u * s,
        ;
        assert(n * down == t * z + (r * u + rho));
        assert(n * down == q * z + w * down);
        lemma_fundamental_div_mod_converse((n * down) as int, z as int, t as int, r * u + rho);
        lemma_fundamental_div_mod_converse((n * down) as int, z as int, q as int, (w * down) as int);
        assert(q == t);
        assert(w * down == r * u + rho);
        // compare 2w with dk by comparing 2(r*u + rho) with u*s
        assert(2 * (w * down) > dk * down <==> 2 * w > dk) by (nonlinear_arith)
            requires
                down > 0,
        ;
        assert(2 * (w * down) == dk * down <==> 2 * w == dk) by (nonlinear_arith)
            requires
                down > 0,
        ;
        assert(s == 2 * half);
        assert(z == 2 * (half * u)) by (nonlinear_arith)
            requires
                z == u * s,
                s == 2 * half,
        ;
        if r > half {
            assert(r * u >= half * u + u) by (nonlinear_arith)
                requires
                    r >= half + 1,
                    u > 0,
            ;
        } else if r < half {
            assert(r * u + u <= half * u) by (nonlinear_arith)
                requires
                    r + 1 <= half,
                    u > 0,
            ;
        }
    }
}


/// Two to the power `k`.
pub(crate) fn power_of_two(k: u32) -> (r: u128)
    requires
        k < 128,
    ensures
        r == pow2(k as nat),
{
    proof {
        lemma2_to64();
        lemma_power_127();
    }
    let mut r: u128 = 1;
    let mut i: u32 = 0;
    while i < k
        invariant
            i <= k < 128,
            r == pow2(i as nat),
            pow2(127) == 0x8000_0000_0000_0000_0000_0000_0000_0000,
        decreases k - i,
    {
        proof {
            lemma_pow2_unfold((i + 1) as nat);
            lemma_pow2_le((i + 1) as nat, 127);
        }
        r = r * 2;
        i = i + 1;
    }
    r
}

/// The power of two that is the weight of the highest bit of 128.
pub proof fn lemma_power_127()
    ensures
        pow2(127) == 0x8000_0000_0000_0000_0000_0000_0000_0000,
{
    lemma2_to64();
    lemma2_to64_rest();
    lemma_pow2_adds(63, 64);
    assert(0x8000_0000_0000_0000 * 0x1_0000_0000_0000_0000
        == 0x8000_0000_0000_0000_0000_0000_0000_0000) by (nonlinear_arith);
}

/// Number of binary digits of `m`.
pub(crate) fn digits(m: u128) -> (l: u32)
    ensures
        l == bit_len(m as nat),
        l <= 128,
{
    let mut rest: u128 = m;
    let mut l: u32 = 0;
    proof {
        lemma2_to64();
        assert(pow2(0) == 1);
        lemma_power_127();
        lemma_pow2_unfold(128);
    }
    while rest > 0
        invariant
            l + bit_len(rest as nat) == bit_len(m as nat),
            l <= 128,
            rest < pow2((128 - l) as nat),
            pow2(0) == 1,
        decreases rest,
    {
        proof {
            if l == 128 {
                assert(false);
            }
            lemma_pow2_unfold((128 - l) as nat);
        }
        rest = rest / 2;
        l = l + 1;
    }
    l
}

impl Format {
    /// Number of significant bits, the hidden one among them.
    pub fn precision_bits(self) -> (r: u32)
        ensures
            r == self.precision(),
    {
        match self {
            Format::Single => 24,
            Format::Double => 53,
        }
    }

    /// One is this power of two units.
    pub fn scale_bits(self) -> (r: u32)
        ensures
            r == self.scale(),
    {
        match self {
            Format::Single => 149,
            Format::Double => 1074,
        }
    }

    /// Weight of the hidden bit.
    pub fn hidden_bit(self) -> (r: u64)
        ensures
            r == self.hidden(),
    {
        match self {
            Format::Single => 0x80_0000,
            Format::Double => 0x10_0000_0000_0000,
        }
    }

    /// The code of infinity.
    pub fn infinity_code(self) -> (r: u64)
        ensures
            r == self.infinity(),
    {
        match self {
            Format::Single => 0x7f80_0000,
            Format::Double => 0x7ff0_0000_0000_0000,
        }
    }

    /// The code of the NaN that an invalid operation gives.
    pub fn nan_code(self) -> (r: u64)
        ensures
            r == self.quiet_nan(),
    {
        match self {
            Format::Single => 0x7fc0_0000,
            Format::Double => 0x7ff8_0000_0000_0000,
        }
    }
}

/// The hidden bit is the highest one of the precision.
pub proof fn lemma_hidden_is_power(f: Format)
    ensures
        f.hidden() == pow2((f.precision() - 1) as nat),
        2 * f.hidden() == pow2(f.precision()),
{
    lemma2_to64();
    lemma2_to64_rest();
    lemma_pow2_unfold(53);
    lemma_pow2_unfold(24);
}

/// Cuts `shift` bits off `m`, where at most `p` digits remain.
fn cut(m: u128, shift: i32, remainder: bool, Ghost(p): Ghost<nat>) -> (t: u64)
    requires
        m < 0x8000_0000_0000_0000_0000_0000_0000_0000,
        p <= 53,
        -100_000 <= shift <= 200_000,
        bit_len(m as nat) - shift <= p,
        m > 0,
    ensures
        t == shifted(m as nat, shift as int, remainder),
        t <= pow2(p),
{
    proof {
        lemma_bit_len_bounds(m as nat);
        lemma_power_127();
        lemma2_to64();
        lemma2_to64_rest();
        lemma_pow2_le(p, 53);
    }
    let ghost l = bit_len(m as nat);
    if shift <= 0 {
        proof {
            let j = (-shift) as nat;
            lemma_pow2_adds(l, j);
            lemma_pow2_le(l + j, p);
            lemma_pow2_pos(j);
            assert(m * pow2(j) < pow2(p)) by (nonlinear_arith)
                requires
                    m < pow2(l),
                    pow2(l) * pow2(j) <= pow2(p),
                    pow2(j) > 0,
            ;
        }
        let g = power_of_two((-shift) as u32);
        (m * g) as u64
    } else if shift >= 128 {
        proof {
            let s = pow2(shift as nat);
            lemma_pow2_le(128, shift as nat);
            lemma_pow2_unfold(128);
            lemma_fundamental_div_mod_converse(m as int, s as int, 0, m as int);
        }
        0
    } else {
        let s = power_of_two(shift as u32);
        proof {
            lemma_pow2_pos(shift as nat);
        }
        let q = m / s;
        let r = m % s;
        proof {
            lemma_pow2_adds(shift as nat, p);
            lemma_pow2_le(l, shift as nat + p);
            lemma_fundamental_div_mod(m as int, s as int);
            assert(q < pow2(p)) by (nonlinear_arith)
                requires
                    m == s * q + r,
                    r >= 0,
                    m < s * pow2(p),
                    s > 0,
            ;
        }
        let c = s - r;
        if r > c || (r == c && (remainder || q % 2 == 1)) {
            (q + 1) as u64
        } else {
            q as u64
        }
    }
}

/// Rounding zero gives zero.
proof fn lemma_nearest_zero(f: Format, d: nat)
    requires
        d > 0,
    ensures
        nearest(f, 0, d) == 0,
{
    lemma2_to64();
    lemma_fundamental_div_mod_converse(0, d as int, 0, 0);
    assert(excess(f, 0) == 0);
    assert(d * pow2(0) == d);
}

/// Rounds `m * 2^e` units (a little more where there is a remainder) to the format.
pub(crate) fn round_scaled(
    f: Format,
    m: u128,
    e: i32,
    remainder: bool,
    Ghost(n): Ghost<nat>,
    Ghost(d): Ghost<nat>,
) -> (code: u64)
    requires
        stands_for(m as nat, e as int, remainder, n, d),
        m < 0x8000_0000_0000_0000_0000_0000_0000_0000,
        remainder ==> m >= 2 * f.hidden(),
        -100_000 <= e <= 100_000,
    ensures
        code == nearest(f, n, d),
        code <= f.infinity(),
{
    proof {
        lemma_hidden_is_power(f);
    }
    if m == 0 {
        proof {
            let un = pow2(if e >= 0 { e as nat } else { 0 });
            let dn = pow2(if e >= 0 { 0 } else { (-e) as nat });
            lemma_pow2_pos(if e >= 0 { 0 } else { (-e) as nat });
            assert(n == 0) by (nonlinear_arith)
                requires
                    n * dn == 0 * (d * un),
                    dn > 0,
            ;
            lemma_nearest_zero(f, d);
        }
        return 0;
    }
    let l = digits(m);
    let p = f.precision_bits();
    let top: i32 = l as i32 + e - p as i32;
    let k: u32 = if top > 0 { top as u32 } else { 0 };
    proof {
        lemma_quotient_bit_len(m as nat, e as int, remainder, n, d);
        assert(k == excess(f, n / d));
        if remainder && l <= p {
            lemma_bit_len_bounds(m as nat);
            lemma_pow2_le(l as nat, p as nat);
        }
        lemma_round_at(m as nat, e as int, remainder, n, d, k as nat);
    }
    let t = cut(m, k as i32 - e, remainder, Ghost(p as nat));
    let h = f.hidden_bit();
    if k >= 2047 {
        proof {
            assert(k * h >= 2047 * h) by (nonlinear_arith)
                requires
                    k >= 2047,
                    h >= 0,
            ;
        }
        return f.infinity_code();
    }
    proof {
        assert(0 <= k * h <= 2046 * h) by (nonlinear_arith)
            requires
                0 <= k <= 2046,
                h >= 0,
        ;
    }
    let code = k as u64 * h + t;
    if code < f.infinity_code() {
        code
    } else {
        f.infinity_code()
    }
}

} // verus!
