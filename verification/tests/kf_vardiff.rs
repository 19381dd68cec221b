use vardiff::float::double::Double;
use vardiff::float::single::Single;
use vardiff::vardiff::kf_vardiff::{self as kf, VardiffState};

fn double(x: f64) -> Double {
    Double::from_bits(x.to_bits())
}

fn single(x: f32) -> Single {
    Single::from_bits(x.to_bits())
}

fn num(x: Double) -> f64 {
    f64::from_bits(x.bits)
}

fn exp(x: Double) -> Double {
    double(num(x).exp())
}

/// Attempts an update with the exponentials that the state asks for.
fn attempt(state: &mut VardiffState, hashrate: f32, spm: f32, now: u64) -> Option<f32> {
    let (h, s) = (single(hashrate), single(spm));
    let prior_ratio = exp(state.prior_exponent());
    let lower_bound_ratio = exp(state.lower_bound_exponent(s, now, prior_ratio));
    state
        .try_vardiff(h, s, now, now + 1, prior_ratio, lower_bound_ratio)
        .map(|x| f32::from_bits(x.bits))
}

/// The same controller in the machine's own arithmetic.
struct Machine {
    shares: u32,
    timestamp: u64,
    min_hashrate: f64,
    theta: f64,
    variance: f64,
    z: f64,
    off: f64,
    full: f64,
}

impl Machine {
    fn new(min_hashrate: f32, now: u64) -> Machine {
        Machine {
            shares: 0,
            timestamp: now,
            min_hashrate: (min_hashrate as f64).max(1.0),
            theta: 0.0,
            variance: 1.5,
            z: 0.13,
            off: 0.14,
            full: 0.36,
        }
    }

    fn effective_z(&self) -> f64 {
        let u = self.variance.max(0.0).sqrt();
        let off = self.off.max(0.0);
        let full = self.full.max(off + 1e-12);
        if u <= off {
            0.0
        } else if u >= full {
            self.z
        } else {
            self.z * ((u - off) / (full - off))
        }
    }

    fn attempt(&mut self, hashrate: f32, spm: f32, now: u64) -> Option<f32> {
        let elapsed = now.saturating_sub(self.timestamp);
        if elapsed <= 15 {
            return None;
        }
        let current = (hashrate as f64).max(self.min_hashrate).max(1.0);
        let target = (spm as f64).max(0.0) * (elapsed as f64 / 60.0);
        let observed = self.shares as f64;
        self.shares = 0;
        self.timestamp = now + 1;
        if target <= 0.0 {
            return None;
        }
        let target = target.max(1e-12);
        let prior = (self.variance + 0.004).max(1e-18);
        let expected = target * self.theta.clamp(-50.0, 50.0).exp();
        let posterior = 1.0 / (1.0 / prior + expected.max(1e-12));
        let step = (posterior * (observed.max(0.0) - expected)).clamp(-9.5, 9.5);
        self.theta = (self.theta + step).clamp(-50.0, 50.0);
        self.variance = posterior.max(1e-18);
        let sigma = self.variance.max(0.0).sqrt();
        let low = (self.theta - self.effective_z() * sigma).clamp(-50.0, 50.0);
        let proposed = current * low.clamp(-50.0, 50.0).exp();
        let proposed = if proposed.is_finite() {
            proposed.max(self.min_hashrate).max(1.0)
        } else {
            current
        };
        let lower = (current * (1.0 - 300.0)).max(self.min_hashrate).max(1.0);
        let upper = (current * (1.0 + 300.0)).max(self.min_hashrate).max(1.0);
        let clamped = proposed.clamp(lower, upper);
        if (clamped / current - 1.0).abs() >= 0.30 {
            self.theta = 0.0;
            Some(clamped as f32)
        } else {
            None
        }
    }
}

#[test]
fn constants_are_the_numbers_that_they_name() {
    let pairs = [
        (kf::DEFAULT_INITIAL_LOG_RATIO_VARIANCE, 1.5),
        (kf::DEFAULT_PROCESS_VARIANCE, 0.004),
        (kf::DEFAULT_MAX_LOG_RATIO_STEP, 9.5),
        (kf::DEFAULT_MAX_RELATIVE_HASHRATE_CHANGE, 300.0),
        (kf::DEFAULT_MIN_UPDATE_RELATIVE_CHANGE, 0.30),
        (kf::DEFAULT_LOWER_BOUND_Z, 0.13),
        (kf::DEFAULT_LOWER_BOUND_UNCERTAINTY_OFF, 0.14),
        (kf::DEFAULT_LOWER_BOUND_UNCERTAINTY_FULL, 0.36),
        (kf::MIN_LOG_RATIO, -50.0),
        (kf::MAX_LOG_RATIO, 50.0),
        (kf::TINY, 1e-12),
        (kf::MIN_VARIANCE, 1e-18),
        (kf::SECS_PER_MINUTE, 60.0),
    ];
    for (bits, x) in pairs {
        assert_eq!(bits, f64::to_bits(x), "{x}");
    }
    assert_eq!(kf::DEFAULT_MIN_HASHRATE, 1.0f32.to_bits());
}

#[test]
fn a_new_state_has_the_defaults() {
    let state = VardiffState::new(1000);
    assert_eq!(state.last_update_timestamp(), 1000);
    assert_eq!(state.shares_since_last_update(), 0);
    assert_eq!(state.min_allowed_hashrate(), single(1.0));
    assert_eq!(num(state.log_ratio), 0.0);
    assert_eq!(num(state.log_ratio_variance), 1.5);
    let state = VardiffState::new_with_clock(single(2500.0), 7);
    assert_eq!(state.min_allowed_hashrate(), single(2500.0));
    assert_eq!(state.last_update_timestamp(), 7);
}

#[test]
fn the_minimum_hashrate_is_at_least_one() {
    for (asked, got) in [(0.25f32, 1.0f32), (-4.0, 1.0), (f32::NAN, 1.0), (1.0, 1.0), (1.5, 1.5), (3e30, 3e30)] {
        let state = VardiffState::new_with_min(single(asked), 0);
        assert_eq!(state.min_allowed_hashrate(), single(got), "{asked}");
    }
}

#[test]
fn shares_are_counted_up_to_the_maximum() {
    let mut state = VardiffState::new(0);
    state.increment_shares_since_last_update();
    state.add_shares(41);
    assert_eq!(state.shares_since_last_update(), 42);
    state.set_shares_since_last_update(u32::MAX - 1);
    state.add_shares(1);
    state.increment_shares_since_last_update();
    state.add_shares(7);
    assert_eq!(state.shares_since_last_update(), u32::MAX);
    state.reset_counter(55);
    assert_eq!(state.shares_since_last_update(), 0);
    assert_eq!(state.last_update_timestamp(), 55);
    state.set_timestamp_of_last_update(56);
    assert_eq!(state.last_update_timestamp(), 56);
}

#[test]
fn an_early_attempt_changes_nothing() {
    for now in [0, 99, 100, 101, 115] {
        let mut state = VardiffState::new(100);
        state.add_shares(9);
        let before = format!("{state:?}");
        assert_eq!(attempt(&mut state, 100.0, 6.0, now), None);
        assert_eq!(format!("{state:?}"), before);
    }
    let mut state = VardiffState::new(100);
    state.add_shares(9);
    attempt(&mut state, 100.0, 6.0, 116);
    assert_eq!(state.shares_since_last_update(), 0);
    assert_eq!(state.last_update_timestamp(), 117);
}

#[test]
fn no_wanted_shares_only_reset_the_counter() {
    for spm in [0.0f32, -3.0, f32::NAN] {
        let mut state = VardiffState::new(0);
        state.add_shares(9);
        let (ratio, variance) = (state.log_ratio, state.log_ratio_variance);
        assert_eq!(attempt(&mut state, 100.0, spm, 60), None);
        assert_eq!(state.shares_since_last_update(), 0);
        assert_eq!(state.last_update_timestamp(), 61);
        assert_eq!((state.log_ratio, state.log_ratio_variance), (ratio, variance));
    }
}

#[test]
fn an_update_resets_the_ratio_and_keeps_the_variance() {
    let mut state = VardiffState::new(0);
    state.add_shares(60);
    let update = attempt(&mut state, 1000.0, 6.0, 60).expect("ten times the shares");
    assert!(update > 1300.0);
    assert_eq!(num(state.log_ratio), 0.0);
    let posterior = 1.0 / (1.0 / (1.5 + 0.004) + 6.0f64);
    assert_eq!(num(state.log_ratio_variance), posterior);
}

#[test]
fn no_shares_lower_the_hashrate_to_the_minimum_at_most() {
    let mut state = VardiffState::new_with_min(single(900.0), 0);
    let mut hashrate = 1000.0f32;
    let mut now = 0;
    for _ in 0..50 {
        now += 61;
        if let Some(update) = attempt(&mut state, hashrate, 6.0, now) {
            assert!(update >= 900.0);
            hashrate = update;
        }
        assert!(num(state.log_ratio).abs() <= 50.0);
        assert!(num(state.log_ratio_variance) >= 1e-18);
    }
}

#[test]
fn the_policy_clamps_and_decides() {
    let state = VardiffState::new(0);
    let decide = |proposed: f64, current: f64| {
        state
            .apply_update_policy(double(proposed), double(current))
            .map(num)
    };
    assert_eq!(decide(1300.0, 1000.0), Some(1300.0));
    assert_eq!(decide(1299.0, 1000.0), None);
    assert_eq!(decide(700.0, 1000.0), Some(700.0).filter(|_| (0.7f64 - 1.0).abs() >= 0.30));
    assert_eq!(decide(500.0, 1000.0), Some(500.0));
    assert_eq!(decide(f64::INFINITY, 1000.0), None);
    assert_eq!(decide(f64::NAN, 1000.0), None);
    assert_eq!(decide(1e12, 1000.0), Some(1000.0 * 301.0));
    assert_eq!(decide(0.0, 1000.0), Some(1.0));
    assert_eq!(decide(0.0, 0.0), None);
}

#[test]
fn the_lower_bound_closes_up_with_confidence() {
    let mut state = VardiffState::new(0);
    let z_at = |state: &mut VardiffState, sigma: f64| {
        state.log_ratio_variance = double(sigma * sigma);
        num(state.effective_lower_bound_z())
    };
    assert_eq!(z_at(&mut state, 0.05), 0.0);
    assert_eq!(z_at(&mut state, 0.5), 0.13);
    let middle = z_at(&mut state, 0.25);
    assert!(middle > 0.0 && middle < 0.13);
    let u = (0.25f64 * 0.25).sqrt();
    assert_eq!(middle, 0.13 * ((u - 0.14) / (0.36 - 0.14)));
    state.log_ratio_variance = double(-1.0);
    assert_eq!(num(state.effective_lower_bound_z()), 0.0);
}

#[test]
fn more_shares_never_lower_the_ratio() {
    let mut last = f64::NEG_INFINITY;
    for shares in 0..60 {
        let mut state = VardiffState::new(0);
        let ratio = exp(state.prior_exponent());
        let got = num(state.update_expkf(double(shares as f64), double(12.0), ratio));
        assert!(got >= last);
        last = got;
    }
}

#[test]
fn more_shares_never_lower_the_hashrate() {
    for min in [1.0f32, 900.0] {
        let (mut bound, mut hashrate, mut updates) = (f64::NEG_INFINITY, 0.0f32, 0);
        for shares in 0..200 {
            let mut state = VardiffState::new_with_min(single(min), 0);
            state.add_shares(shares);
            let prior_ratio = exp(state.prior_exponent());
            let exponent = num(state.lower_bound_exponent(single(6.0), 120, prior_ratio));
            assert!(exponent >= bound);
            bound = exponent;
            if let Some(update) = attempt(&mut state, 1000.0, 6.0, 120) {
                assert!(update >= hashrate);
                hashrate = update;
                updates += 1;
            }
        }
        assert!(updates > 50);
    }
}

#[test]
fn whole_runs_match_the_machine() {
    let mut seed = 0x2545_f491_4f6c_dd1du64;
    for run in 0..40u32 {
        let min = [0.5f32, 1.0, 1e6, 3e12][run as usize % 4];
        let spm = [6.0f32, 12.0, 0.7, 60.0, 0.0][run as usize % 5];
        let mut state = VardiffState::new_with_clock(single(min), 10);
        let mut machine = Machine::new(min, 10);
        let mut hashrate = 1e6f32;
        let mut now = 10;
        for _ in 0..60 {
            seed ^= seed << 13;
            seed ^= seed >> 7;
            seed ^= seed << 17;
            now += seed % 90;
            let shares = (seed >> 20) as u32 % 40;
            state.add_shares(shares);
            machine.shares += shares;
            let got = attempt(&mut state, hashrate, spm, now);
            let want = machine.attempt(hashrate, spm, now);
            assert_eq!(got.map(f32::to_bits), want.map(f32::to_bits));
            assert_eq!(num(state.log_ratio).to_bits(), machine.theta.to_bits());
            assert_eq!(num(state.log_ratio_variance).to_bits(), machine.variance.to_bits());
            assert_eq!(state.shares_since_last_update(), machine.shares);
            assert_eq!(state.last_update_timestamp(), machine.timestamp);
            if let Some(update) = got {
                hashrate = update;
            }
        }
    }
}
