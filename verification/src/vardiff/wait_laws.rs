use vstd::arithmetic::div_mod::{lemma_fundamental_div_mod, lemma_mod_bound};
use vstd::arithmetic::power2::{
    lemma2_to64, lemma2_to64_rest, lemma_pow2_adds, lemma_pow2_pos, pow2,
};
use vstd::prelude::*;

use crate::float::arithmetic::{
    ceiling_of, lemma_magnitude_monotone, lemma_significand_bounds, raised,
};
use crate::float::double::Double;
use crate::float::exact::{
    lemma_exact_code, lemma_exact_quotient, lemma_magnitude_of_sixty, lemma_of_u64_exact,
    lemma_same_value,
};
use crate::float::format::{Format, Parts, magnitude, nearest};
use crate::float::laws::{
    lemma_nearest_antitone, lemma_nearest_bounds, lemma_nearest_exact, lemma_nearest_monotone,
};
use crate::float::numbers::SIXTY;
use crate::float::single::Single;
use crate::vardiff::classic::VardiffState;
use crate::vardiff::filter_laws::{lemma_minutes_code, lemma_wide_magnitude, wide_magnitude};

verus! {

/// Rounding up never passes an integer.
proof fn lemma_raised_bounds(a: Parts, n: u64)
    requires
        !a.negative,
        !a.is_nan(Format::Single),
    ensures
        a.is_finite(Format::Single) && a.magnitude(Format::Single) <= n * pow2(149) ==> raised(
            Format::Single,
            a,
        ) <= n,
        a.is_infinite(Format::Single) || a.magnitude(Format::Single) >= n * pow2(149) ==> raised(
            Format::Single,
            a,
        ) >= n,
{
    let f = Format::Single;
    let w = pow2(149);
    let m = a.magnitude(f);
    lemma_pow2_pos(149);
    lemma_fundamental_div_mod(m as int, w as int);
    lemma_mod_bound(m as int, w as int);
    let (q, r) = (m / w, m % w);
    if m <= n * w {
        assert(ceiling_of(f, a) <= n) by (nonlinear_arith)
            requires
                m == w * q + r,
                0 <= r < w,
                m <= n * w,
                ceiling_of(f, a) == (if r == 0 { q } else { q + 1 }),
        ;
    }
    if m >= n * w {
        assert(ceiling_of(f, a) >= n) by (nonlinear_arith)
            requires
                m == w * q + r,
                0 <= r < w,
                m >= n * w,
                ceiling_of(f, a) == (if r == 0 { q } else { q + 1 }),
        ;
    }
}

/// How many units six is.
proof fn lemma_magnitude_of_six()
    ensures
        magnitude(Format::Single, 0x40c0_0000) == 6 * pow2(149),
{
    lemma2_to64();
    lemma_pow2_adds(22, 128);
    lemma_pow2_adds(1, 149);
    assert(magnitude(Format::Single, 0x40c0_0000) == 0xc0_0000 * pow2(128));
}

/// The seconds to wait, before they are rounded up: six times the least interval, over
/// the shares wanted per minute.
proof fn lemma_quotient_of_wait(state: VardiffState, shares_per_minute: Single, least: (nat, nat))
    requires
        3 * least.0 < 0x100_0000,
        least.1 <= 40,
        state.params.min_interval_secs == least.0 * pow2(least.1),
        shares_per_minute.is_finite(),
        Single::from_bits(0x3400_0000).le(shares_per_minute),
    ensures
        ({
            let rate = shares_per_minute.parts().magnitude(Format::Single);
            let wait = 6 * state.params.min_interval_secs * pow2(149);
            let code = nearest(Format::Single, (wait * pow2(149)) as nat, rate);
            &&& rate > 0
            &&& code <= Format::Single.infinity()
            &&& state.min_elapsed_secs(shares_per_minute) == raised(
                Format::Single,
                Parts { negative: false, code: code as u64 },
            )
        }),
{
    reveal(Single::spec_of_u64);
    reveal(Single::spec_times);
    reveal(Single::spec_over);
    reveal(Single::spec_ceil_to_u64);
    let f = Format::Single;
    let w = pow2(149);
    lemma_pow2_pos(149);
    let i = state.params.min_interval_secs as nat;
    let (j, k) = least;
    // The interval, and six times the interval, are numbers of the format.
    let a = lemma_exact_code(f, j, k + 149);
    lemma_pow2_adds(k, 149);
    assert(j * pow2(k + 149) == i * w) by (nonlinear_arith)
        requires
            i == j * pow2(k),
            pow2(k + 149) == pow2(k) * w,
    ;
    lemma_nearest_exact(f, 1, a);
    assert((i * w) * 1 == i * w);
    let interval = Single::of_u64(state.params.min_interval_secs);
    assert(interval.parts().code == a && !interval.parts().negative);
    let six = Single::from_bits(0x40c0_0000);
    lemma_magnitude_of_six();
    let b = lemma_exact_code(f, 3 * j, k + 150);
    lemma_pow2_adds(k + 149, 1);
    lemma2_to64();
    assert((3 * j) * pow2(k + 150) == 6 * (i * w)) by (nonlinear_arith)
        requires
            j * pow2(k + 149) == i * w,
            pow2(k + 150) == pow2(k + 149) * 2,
    ;
    assert((i * w) * (6 * w) == (6 * (i * w)) * w) by (nonlinear_arith);
    lemma_nearest_exact(f, w, b);
    let product = interval.times(six);
    assert(product.parts().code == b && !product.parts().negative);
    let rate = shares_per_minute.parts().magnitude(f);
    lemma_significand_bounds(f, shares_per_minute.parts().code as nat);
    let x = (6 * (i * w)) * w;
    let wait = 6 * i * w;
    assert(x == wait * w) by (nonlinear_arith)
        requires
            x == (6 * (i * w)) * w,
            wait == 6 * i * w,
    ;
    lemma_nearest_monotone(f, x, x, rate);
    let quotient = product.over(shares_per_minute);
    assert(quotient.parts().code == nearest(f, x, rate) && !quotient.parts().negative);
    assert(quotient.parts() == Parts { negative: false, code: nearest(f, x, rate) as u64 });
}

/// The wait follows the setting and the rate. Six times the least interval, over the
/// shares wanted per minute, is the number of seconds to wait: an attempt is due
/// once more seconds have passed than some number that is no smaller than that, and
/// not yet where no more have passed than some number that is no greater.
///
/// The least interval and the number of seconds are `least.0` times two to the power
/// of `least.1`, and `secs.0` times two to the power of `secs.1`.
pub proof fn lemma_wait_follows_the_setting(
    state: VardiffState,
    shares_per_minute: Single,
    now: u64,
    least: (nat, nat),
    secs: (nat, nat),
)
    requires
        3 * least.0 < 0x100_0000,
        secs.0 < 0x100_0000,
        least.1 <= 40,
        secs.1 <= 40,
        state.params.min_interval_secs == least.0 * pow2(least.1),
        secs.0 * pow2(secs.1) <= u64::MAX,
        shares_per_minute.is_finite(),
        // 2^-23
        Single::from_bits(0x3400_0000).le(shares_per_minute),
    ensures
        ({
            let n = secs.0 * pow2(secs.1);
            let rate = shares_per_minute.parts().magnitude(Format::Single);
            let wait = 6 * state.params.min_interval_secs * pow2(149);
            &&& n * rate >= wait && now > state.timestamp_of_last_update + n ==> state.due(
                shares_per_minute,
                now,
            ) is Some
            &&& n * rate <= wait && now <= state.timestamp_of_last_update + n ==> state.due(
                shares_per_minute,
                now,
            ) is None
        }),
{
    let f = Format::Single;
    let w = pow2(149);
    lemma_pow2_pos(149);
    lemma_quotient_of_wait(state, shares_per_minute, least);
    let n = (secs.0 * pow2(secs.1)) as u64;
    let c = lemma_exact_code(f, secs.0, secs.1 + 149);
    lemma_pow2_adds(secs.1, 149);
    assert(secs.0 * pow2(secs.1 + 149) == n * w) by (nonlinear_arith)
        requires
            n == secs.0 * pow2(secs.1),
            pow2(secs.1 + 149) == pow2(secs.1) * w,
    ;
    let rate = shares_per_minute.parts().magnitude(f);
    let wait = 6 * state.params.min_interval_secs * w;
    let (x, y) = ((wait * w) as nat, (n * w) * rate);
    assert((n * rate >= wait ==> x <= y) && (n * rate <= wait ==> y <= x)) by (nonlinear_arith)
        requires
            x == wait * w,
            y == (n * w) * rate,
            w > 0,
    {
        assert(y == (n * rate) * w);
    }
    lemma_nearest_bounds(f, x, rate, c);
    let q = nearest(f, x, rate);
    if n * rate >= wait && q < c {
        lemma_magnitude_monotone(f, q, c);
    }
    if n * rate <= wait && c < q && q < f.infinity() {
        lemma_magnitude_monotone(f, c, q);
    }
    lemma_raised_bounds(Parts { negative: false, code: q as u64 }, n);
}

/// The wait is rounded up to whole seconds: where it is no less than some number above
/// `secs`, an attempt is not due `secs` and one seconds after the last update.
pub proof fn lemma_wait_is_rounded_up(
    state: VardiffState,
    shares_per_minute: Single,
    now: u64,
    least: (nat, nat),
    above: Single,
    secs: u64,
)
    requires
        3 * least.0 < 0x100_0000,
        least.1 <= 40,
        state.params.min_interval_secs == least.0 * pow2(least.1),
        shares_per_minute.is_finite(),
        // 2^-23
        Single::from_bits(0x3400_0000).le(shares_per_minute),
        above.is_finite(),
        above.parts().magnitude(Format::Single) > secs * pow2(149),
        above.parts().magnitude(Format::Single) * shares_per_minute.parts().magnitude(
            Format::Single,
        ) <= 6 * state.params.min_interval_secs * pow2(149) * pow2(149),
        secs < u64::MAX,
        now <= state.timestamp_of_last_update + secs + 1,
    ensures
        state.due(shares_per_minute, now) is None,
{
    let f = Format::Single;
    let w = pow2(149);
    lemma_pow2_pos(149);
    lemma_quotient_of_wait(state, shares_per_minute, least);
    let rate = shares_per_minute.parts().magnitude(f);
    let x = (6 * state.params.min_interval_secs * w * w) as nat;
    let c = above.parts().code as nat;
    lemma_nearest_bounds(f, x, rate, c);
    let q = nearest(f, x, rate);
    if c < q && q < f.infinity() {
        lemma_magnitude_monotone(f, c, q);
    }
    let parts = Parts { negative: false, code: q as u64 };
    if q < f.infinity() {
        let m = parts.magnitude(f);
        lemma_fundamental_div_mod(m as int, w as int);
        lemma_mod_bound(m as int, w as int);
        let (a, r) = (m / w, m % w);
        assert(ceiling_of(f, parts) >= secs + 1) by (nonlinear_arith)
            requires
                m == w * a + r,
                0 <= r < w,
                m > secs * w,
                ceiling_of(f, parts) == (if r == 0 { a } else { a + 1 }),
        ;
    }
}

/// At six shares per minute the wait is the least interval that is set, for every
/// interval whose triple binary32 holds: an attempt is due just where more seconds
/// have passed.
pub proof fn lemma_wait_at_six_shares_per_minute(
    state: VardiffState,
    now: u64,
    least: (nat, nat),
)
    requires
        3 * least.0 < 0x100_0000,
        least.1 <= 40,
        state.params.min_interval_secs == least.0 * pow2(least.1),
    ensures
        state.due(Single::from_bits(0x40c0_0000), now) is Some <==> now
            > state.timestamp_of_last_update + state.params.min_interval_secs,
{
    lemma_magnitude_of_six();
    let i = state.params.min_interval_secs;
    assert(i * (6 * pow2(149)) == 6 * i * pow2(149)) by (nonlinear_arith);
    lemma_wait_follows_the_setting(state, Single::from_bits(0x40c0_0000), now, least, least);
}

/// A longer interval that is set never makes an attempt due earlier, nor does a lower
/// rate, whatever they are; and what is due once stays due.
pub proof fn lemma_wait_is_monotone(
    state: VardiffState,
    other: VardiffState,
    slower: Single,
    faster: Single,
    now: u64,
    later: u64,
)
    requires
        state.timestamp_of_last_update == other.timestamp_of_last_update,
        state.params.min_interval_secs <= other.params.min_interval_secs,
        slower.le(faster),
        faster.is_finite(),
        now <= later,
    ensures
        other.due(slower, now) is Some ==> state.due(faster, later) is Some,
{
    reveal(Single::spec_ceil_to_u64);
    let six = Single::from_bits(0x40c0_0000);
    let (i, j) = (state.params.min_interval_secs, other.params.min_interval_secs);
    let (x, y) = (Single::of_u64(i).times(six), Single::of_u64(j).times(six));
    lemma_six_intervals(i);
    lemma_six_intervals(j);
    lemma_six_intervals_monotone(i, j);
    let epsilon = Single::from_bits(0x3400_0000);
    let (fast, slow) = (faster.max(epsilon), slower.max(epsilon));
    assert(slow.le(fast) && !slow.parts().negative && slow.parts().code > 0);
    lemma_quotients_in_order(x, y, slow, fast);
    lemma_raised_monotone(x.over(fast).parts(), y.over(slow).parts());
}

/// Six times a longer interval is no smaller.
proof fn lemma_six_intervals_monotone(i: u64, j: u64)
    requires
        i <= j,
    ensures
        Single::of_u64(i).times(Single::from_bits(0x40c0_0000)).parts().code <= Single::of_u64(
            j,
        ).times(Single::from_bits(0x40c0_0000)).parts().code,
{
    lemma_six_intervals(i);
    lemma_six_intervals(j);
    reveal(Single::spec_of_u64);
    reveal(Single::spec_times);
    let f = Format::Single;
    let w = pow2(149);
    lemma_pow2_pos(149);
    let (a, b) = (Single::of_u64(i), Single::of_u64(j));
    assert(i * w <= j * w) by (nonlinear_arith)
        requires
            i <= j,
    ;
    lemma_nearest_monotone(f, (i * w) as nat, (j * w) as nat, 1);
    let (ca, cb) = (a.parts().code as nat, b.parts().code as nat);
    if ca < cb {
        lemma_magnitude_monotone(f, ca, cb);
    }
    let (ma, mb) = (magnitude(f, ca), magnitude(f, cb));
    assert(ma * (6 * w) <= mb * (6 * w)) by (nonlinear_arith)
        requires
            ma <= mb,
    ;
    lemma_magnitude_of_six();
    lemma_nearest_monotone(f, ma * (6 * w), mb * (6 * w), w);
}

/// Less over more is no greater than more over less.
proof fn lemma_quotients_in_order(x: Single, y: Single, slow: Single, fast: Single)
    requires
        x.is_finite(),
        y.is_finite(),
        !x.parts().negative,
        !y.parts().negative,
        x.parts().code <= y.parts().code,
        fast.is_finite(),
        !slow.parts().negative,
        !fast.parts().negative,
        0 < slow.parts().code <= fast.parts().code,
    ensures
        !x.over(fast).parts().negative,
        !y.over(slow).parts().negative,
        x.over(fast).parts().code <= y.over(slow).parts().code <= Format::Single.infinity(),
{
    reveal(Single::spec_over);
    let f = Format::Single;
    let w = pow2(149);
    let (cx, cy) = (x.parts().code as nat, y.parts().code as nat);
    if cx < cy {
        lemma_magnitude_monotone(f, cx, cy);
    }
    let (mx, my) = (magnitude(f, cx), magnitude(f, cy));
    assert(mx * w <= my * w) by (nonlinear_arith)
        requires
            mx <= my,
    ;
    let (cs, cf) = (slow.parts().code as nat, fast.parts().code as nat);
    lemma_significand_bounds(f, cs);
    lemma_significand_bounds(f, cf);
    if cs < cf {
        lemma_magnitude_monotone(f, cs, cf);
    }
    lemma_nearest_monotone(f, mx * w, my * w, magnitude(f, cf));
    lemma_nearest_antitone(f, my * w, magnitude(f, cs), magnitude(f, cf));
    lemma_nearest_monotone(f, my * w, my * w, magnitude(f, cs));
}

/// Six times an interval is a finite number.
proof fn lemma_six_intervals(i: u64)
    ensures
        Single::of_u64(i).is_finite(),
        !Single::of_u64(i).parts().negative,
        Single::of_u64(i).times(Single::from_bits(0x40c0_0000)).is_finite(),
        !Single::of_u64(i).times(Single::from_bits(0x40c0_0000)).parts().negative,
{
    reveal(Single::spec_of_u64);
    reveal(Single::spec_times);
    let f = Format::Single;
    let w = pow2(149);
    lemma_pow2_pos(149);
    lemma2_to64();
    lemma_pow2_adds(64, 149);
    lemma_pow2_adds(213, 3);
    let top = lemma_exact_code(f, 1, 213);
    let higher = lemma_exact_code(f, 1, 216);
    assert(i * w <= pow2(213)) by (nonlinear_arith)
        requires
            i <= pow2(64),
            pow2(213) == pow2(64) * w,
    ;
    lemma_nearest_bounds(f, (i * w) as nat, 1, top);
    let a = Single::of_u64(i);
    let ca = a.parts().code as nat;
    if ca < top {
        lemma_magnitude_monotone(f, ca, top);
    }
    lemma_magnitude_of_six();
    let m = magnitude(f, ca);
    assert(m * (6 * w) <= pow2(216) * w) by (nonlinear_arith)
        requires
            m <= pow2(213),
            pow2(216) == pow2(213) * 8,
    ;
    lemma_nearest_bounds(f, m * (6 * w), w, higher);
}

/// A greater number is rounded up to no smaller integer.
proof fn lemma_raised_monotone(a: Parts, b: Parts)
    requires
        !a.negative,
        !b.negative,
        a.code <= b.code,
        b.code <= Format::Single.infinity(),
    ensures
        raised(Format::Single, a) <= raised(Format::Single, b),
{
    let f = Format::Single;
    if b.is_finite(f) && raised(f, b) < u64::MAX {
        if a.code < b.code {
            lemma_magnitude_monotone(f, a.code as nat, b.code as nat);
        }
        let n = raised(f, b) as u64;
        let w = pow2(149);
        let m = b.magnitude(f);
        lemma_pow2_pos(149);
        lemma_fundamental_div_mod(m as int, w as int);
        lemma_mod_bound(m as int, w as int);
        let (q, r) = (m / w, m % w);
        assert(m <= n * w) by (nonlinear_arith)
            requires
                m == w * q + r,
                0 <= r < w,
                n == (if r == 0 { q } else { q + 1 }),
        ;
        lemma_raised_bounds(a, n);
    }
}

/// The interval that is looked back on is the time since the last update: its seconds,
/// and over whole minutes those minutes. The rate is the one that is wanted, and a
/// tiny one where less is.
pub proof fn lemma_what_an_attempt_looks_back_on(
    state: VardiffState,
    shares_per_minute: Single,
    now: u64,
)
    requires
        state.due(shares_per_minute, now) is Some,
    ensures
        ({
            let interval = state.due(shares_per_minute, now)->0;
            &&& state.timestamp_of_last_update + interval.elapsed_secs == now
            &&& forall|minutes: u64|
                interval.elapsed_secs == 60 * minutes && 60 * minutes < 0x20_0000_0000_0000
                    ==> interval.exposure_minutes == #[trigger] Double::of_u64(minutes)
            &&& shares_per_minute.is_finite() && Single::from_bits(0x3400_0000).le(
                shares_per_minute,
            ) ==> {
                &&& interval.target_share_rate.is_finite()
                &&& !interval.target_share_rate.parts().negative
                &&& interval.target_share_rate.parts().magnitude(Format::Double) == wide_magnitude(
                    shares_per_minute,
                )
            }
            // 2^-23
            &&& !shares_per_minute.ge(Single::from_bits(0x3400_0000)) ==> interval.target_share_rate
                == Double::from_bits(0x3e80_0000_0000_0000)
        }),
{
    let interval = state.due(shares_per_minute, now)->0;
    let elapsed = Double::of_u64(interval.elapsed_secs);
    let sixty = Double::from_bits(SIXTY);
    assert forall|minutes: u64|
        interval.elapsed_secs == 60 * minutes && 60 * minutes
            < 0x20_0000_0000_0000 implies interval.exposure_minutes == #[trigger] Double::of_u64(
        minutes,
    ) by {
        let w = pow2(1074);
        lemma_of_u64_exact(interval.elapsed_secs);
        lemma_of_u64_exact(minutes);
        lemma_magnitude_of_sixty();
        assert(((60 * minutes) * w) * w == (minutes * w) * (60 * w)) by (nonlinear_arith);
        lemma_exact_quotient(elapsed, sixty, Double::of_u64(minutes).parts().code as nat);
    }
    if shares_per_minute.is_finite() {
        lemma_wide_magnitude(shares_per_minute);
    }
    if !shares_per_minute.ge(Single::from_bits(0x3400_0000)) {
        let least = Single::from_bits(0x3400_0000);
        let wide = Double::from_bits(0x3e80_0000_0000_0000);
        lemma_wide_magnitude(least);
        lemma2_to64_rest();
        lemma_pow2_adds(23, 103);
        lemma_pow2_adds(126, 925);
        lemma_pow2_adds(52, 999);
        assert(wide.parts().magnitude(Format::Double) == 0x10_0000_0000_0000 * pow2(999));
        assert(least.parts().magnitude(Format::Single) == 0x80_0000 * pow2(103));
        lemma2_to64();
        lemma_same_value(least.to_double(), wide);
    }
}

/// The minutes that are looked back on are the elapsed seconds over sixty, correctly
/// rounded.
pub proof fn lemma_minutes_are_correctly_rounded(
    state: VardiffState,
    shares_per_minute: Single,
    now: u64,
)
    requires
        state.due(shares_per_minute, now) is Some,
        now - state.timestamp_of_last_update < 0x20_0000_0000_0000,
    ensures
        state.due(shares_per_minute, now)->0.exposure_minutes.parts().code == nearest(
            Format::Double,
            ((now - state.timestamp_of_last_update) * pow2(1074)) as nat,
            60,
        ),
{
    lemma_minutes_code((now - state.timestamp_of_last_update) as u64);
}

} // verus!
