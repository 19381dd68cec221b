use vardiff::float::double::Double;
use vardiff::float::numbers;
use vardiff::float::series::{greatest, lowered, total};
use vardiff::float::single::Single;

fn double(x: f64) -> Double {
    Double::from_bits(x.to_bits())
}

fn single(x: f32) -> Single {
    Single::from_bits(x.to_bits())
}

fn same_double(got: Double, want: f64, what: &str) {
    if want.is_nan() {
        assert!(got.is_nan(), "{what}: {:016x} is no NaN", got.bits);
    } else {
        assert_eq!(got.bits, want.to_bits(), "{what}: want {want:e}");
    }
}

fn same_single(got: Single, want: f32, what: &str) {
    if want.is_nan() {
        assert!(got.is_nan(), "{what}: {:08x} is no NaN", got.bits);
    } else {
        assert_eq!(got.bits, want.to_bits(), "{what}: want {want:e}");
    }
}

/// A generator for test inputs.
struct Stream(u64);

impl Stream {
    fn next(&mut self) -> u64 {
        self.0 ^= self.0 << 13;
        self.0 ^= self.0 >> 7;
        self.0 ^= self.0 << 17;
        self.0
    }
}

fn special_doubles() -> Vec<f64> {
    let mut out = vec![
        0.0,
        1.0,
        2.0,
        3.0,
        0.1,
        0.5,
        1.5,
        10.0,
        1e-9,
        1e9,
        1e308,
        1e-308,
        f64::MAX,
        f64::MIN_POSITIVE,
        f64::EPSILON,
        f64::INFINITY,
        f64::from_bits(1),
        f64::from_bits(2),
        f64::from_bits(3),
        f64::from_bits(0x000f_ffff_ffff_ffff),
        f64::from_bits(0x0010_0000_0000_0001),
        f64::from_bits(0x3fef_ffff_ffff_ffff),
        f64::from_bits(0x3ff0_0000_0000_0001),
        f64::from_bits(0x7fef_ffff_ffff_fffe),
        f64::from_bits(0x4340_0000_0000_0000),
        f64::from_bits(0x4340_0000_0000_0001),
        f64::NAN,
    ];
    let negated: Vec<f64> = out.iter().map(|x| -x).collect();
    out.extend(negated);
    out
}

fn doubles(count: usize, seed: u64) -> Vec<f64> {
    let mut stream = Stream(seed);
    let mut out = special_doubles();
    for i in 0..count {
        let bits = stream.next();
        // numbers near one as well as numbers of every size
        let x = if i % 2 == 0 {
            f64::from_bits(bits)
        } else {
            f64::from_bits((bits & 0x800f_ffff_ffff_ffff) | ((0x3f0 + (bits >> 52) % 0x1f) << 52))
        };
        out.push(x);
    }
    out
}

fn special_singles() -> Vec<f32> {
    let mut out = vec![
        0.0,
        1.0,
        2.0,
        3.0,
        0.1,
        0.5,
        6.0,
        100.0,
        1e38,
        1e-38,
        f32::MAX,
        f32::MIN_POSITIVE,
        f32::EPSILON,
        f32::INFINITY,
        f32::from_bits(1),
        f32::from_bits(2),
        f32::from_bits(0x007f_ffff),
        f32::from_bits(0x0080_0001),
        f32::from_bits(0x3f7f_ffff),
        f32::from_bits(0x3f80_0001),
        f32::NAN,
    ];
    let negated: Vec<f32> = out.iter().map(|x| -x).collect();
    out.extend(negated);
    out
}

fn singles(count: usize, seed: u64) -> Vec<f32> {
    let mut stream = Stream(seed);
    let mut out = special_singles();
    for _ in 0..count {
        out.push(f32::from_bits(stream.next() as u32));
    }
    out
}

#[test]
fn double_arithmetic_is_that_of_the_machine() {
    let values = doubles(150, 0x1234_5678_9abc_def1);
    for &a in &values {
        for &b in &values {
            let (x, y) = (double(a), double(b));
            same_double(x.plus(y), a + b, &format!("{a:e} + {b:e}"));
            same_double(x.minus(y), a - b, &format!("{a:e} - {b:e}"));
            same_double(x.times(y), a * b, &format!("{a:e} * {b:e}"));
            same_double(x.over(y), a / b, &format!("{a:e} / {b:e}"));
        }
    }
}

#[test]
fn single_arithmetic_is_that_of_the_machine() {
    let values = singles(150, 0x0fed_cba9_8765_4321);
    for &a in &values {
        for &b in &values {
            let (x, y) = (single(a), single(b));
            same_single(x.plus(y), a + b, &format!("{a:e} + {b:e}"));
            same_single(x.minus(y), a - b, &format!("{a:e} - {b:e}"));
            same_single(x.times(y), a * b, &format!("{a:e} * {b:e}"));
            same_single(x.over(y), a / b, &format!("{a:e} / {b:e}"));
        }
    }
}

#[test]
fn comparisons_are_those_of_the_machine() {
    for &a in &special_doubles() {
        for &b in &special_doubles() {
            let (x, y) = (double(a), double(b));
            assert_eq!(x.lt(y), a < b, "{a:e} < {b:e}");
            assert_eq!(x.le(y), a <= b, "{a:e} <= {b:e}");
            assert_eq!(x.gt(y), a > b, "{a:e} > {b:e}");
            assert_eq!(x.ge(y), a >= b, "{a:e} >= {b:e}");
            // of the two zeros either may come out
            if !(a == 0.0 && b == 0.0) {
                same_double(x.max(y), a.max(b), "max");
                same_double(x.min(y), a.min(b), "min");
            }
        }
        assert_eq!(double(a).is_nan(), a.is_nan());
        assert_eq!(double(a).is_finite(), a.is_finite());
        same_double(double(a).neg(), -a, "neg");
        same_double(double(a).abs(), a.abs(), "abs");
        same_double(
            double(a).clamp(double(-1.5), double(2.5)),
            a.clamp(-1.5, 2.5),
            "clamp",
        );
    }
    for &a in &special_singles() {
        for &b in &special_singles() {
            let (x, y) = (single(a), single(b));
            assert_eq!(x.lt(y), a < b, "{a:e} < {b:e}");
            assert_eq!(x.le(y), a <= b, "{a:e} <= {b:e}");
            assert_eq!(x.gt(y), a > b, "{a:e} > {b:e}");
            assert_eq!(x.ge(y), a >= b, "{a:e} >= {b:e}");
            if !(a == 0.0 && b == 0.0) {
                same_single(x.max(y), a.max(b), "max");
                same_single(x.min(y), a.min(b), "min");
            }
        }
        assert_eq!(single(a).is_nan(), a.is_nan());
        assert_eq!(single(a).is_finite(), a.is_finite());
        same_single(single(a).neg(), -a, "neg");
        same_single(single(a).abs(), a.abs(), "abs");
        same_single(
            single(a).clamp(single(-1.5), single(2.5)),
            a.clamp(-1.5, 2.5),
            "clamp",
        );
    }
}

#[test]
fn roots_are_those_of_the_machine() {
    for a in doubles(3000, 77) {
        same_double(double(a).sqrt(), a.sqrt(), &format!("sqrt {a:e}"));
    }
    for n in 0..2000u32 {
        let a = n as f64;
        same_double(double(a * a).sqrt(), a, "square");
    }
}

#[test]
fn conversions_are_those_of_the_machine() {
    for a in doubles(4000, 99) {
        same_single(double(a).to_single(), a as f32, &format!("{a:e} as f32"));
    }
    // halfway between two binary32 numbers, and next to that
    for bits in [0x3f80_0000u32, 0x3f80_0001, 0x0000_0001, 0x7f7f_ffff, 0x0080_0000] {
        let low = f32::from_bits(bits) as f64;
        let high = f32::from_bits(bits + 1) as f64;
        let middle = if high.is_finite() { (low + high) / 2.0 } else { low * (1.0 + 3e-8) };
        for x in [
            middle,
            f64::from_bits(middle.to_bits() + 1),
            f64::from_bits(middle.to_bits() - 1),
        ] {
            same_single(double(x).to_single(), x as f32, &format!("{x:e} as f32"));
            same_single(double(-x).to_single(), -x as f32, &format!("{x:e} as f32"));
        }
    }
    for a in singles(4000, 101) {
        same_double(single(a).to_double(), a as f64, &format!("{a:e} as f64"));
        assert_eq!(single(a).trunc_to_u32(), a as u32, "{a:e} as u32");
        assert_eq!(single(a).ceil_to_u64(), a.ceil() as u64, "{a:e} rounded up");
    }
    for a in [0.0f32, 0.25, 0.5, 1.0, 1.5, 5.999, 6.0, 299.1, 1e9, 4294967040.0, 4294967296.0, 1e19, 2e19] {
        assert_eq!(single(a).trunc_to_u32(), a as u32, "{a:e} as u32");
        assert_eq!(single(a).ceil_to_u64(), a.ceil() as u64, "{a:e} rounded up");
    }
    for n in [0u64, 1, 2, 3, 59, 60, 300, 1 << 24, (1 << 24) + 1, (1 << 53) + 1, (1 << 53) + 3, u64::MAX] {
        same_double(Double::of_u64(n), n as f64, "u64 as f64");
        same_single(Single::of_u64(n), n as f32, "u64 as f32");
    }
    let mut stream = Stream(5);
    for _ in 0..3000 {
        let n = stream.next() >> (stream.next() % 64);
        same_double(Double::of_u64(n), n as f64, "u64 as f64");
        same_single(Single::of_u64(n), n as f32, "u64 as f32");
    }
}

#[test]
fn singles_survive_a_trip_through_double() {
    for a in singles(4000, 7) {
        if !a.is_nan() {
            assert_eq!(single(a).to_double().to_single(), single(a));
        }
    }
}

#[test]
fn series_are_added_up_from_their_start() {
    let values = [0.1, 0.2, 0.3, 1e16, -1e16, 0.4];
    let held: Vec<Double> = values.iter().map(|&x| double(x)).collect();
    same_double(total(&held), values.iter().sum::<f64>(), "sum");
    assert_eq!(total(&Vec::new()).bits, (-0.0f64).to_bits());
    same_double(
        greatest(&held),
        values.iter().copied().fold(f64::NEG_INFINITY, f64::max),
        "greatest",
    );
    assert_eq!(greatest(&Vec::new()).bits, f64::NEG_INFINITY.to_bits());
    let nan = vec![double(f64::NAN), double(-2.0), double(f64::NAN)];
    same_double(greatest(&nan), -2.0, "greatest beside NaNs");
    let less = lowered(&held, double(0.1));
    for (got, x) in less.iter().zip(values) {
        same_double(*got, x - 0.1, "lowered");
    }
}

#[test]
fn named_numbers_are_the_numbers_that_they_name() {
    let pairs = [
        (numbers::ZERO, 0.0),
        (numbers::HALF, 0.5),
        (numbers::THREE_QUARTERS, 0.75),
        (numbers::ONE, 1.0),
        (numbers::ONE_AND_A_HALF, 1.5),
        (numbers::TWO, 2.0),
        (numbers::TWO_AND_A_HALF, 2.5),
        (numbers::THREE, 3.0),
        (numbers::FOUR, 4.0),
        (numbers::FIVE, 5.0),
        (numbers::SIX, 6.0),
        (numbers::EIGHT, 8.0),
        (numbers::TEN, 10.0),
        (numbers::TWENTY_FIVE, 25.0),
        (numbers::THIRTY, 30.0),
        (numbers::SIXTY, 60.0),
        (numbers::EIGHTY, 80.0),
        (numbers::HUNDRED_TWENTY, 120.0),
        (numbers::HUNDRED_SIXTY, 160.0),
        (numbers::FOUR_HUNDRED_TWENTY, 420.0),
        (numbers::PICO_1, 1e-12),
        (numbers::NANO_1, 1e-9),
        (numbers::MICRO_1, 1e-6),
        (numbers::MICRO_100, 0.0001),
        (numbers::MILLI_1, 0.001),
        (numbers::MILLI_2, 0.002),
        (numbers::MILLI_5, 0.005),
        (numbers::CENTI_1, 0.01),
        (numbers::CENTI_2, 0.02),
        (numbers::CENTI_3, 0.03),
        (numbers::CENTI_5, 0.05),
        (numbers::CENTI_8, 0.08),
        (numbers::CENTI_10, 0.10),
        (numbers::MINUS_CENTI_1, -0.01),
        (numbers::MINUS_CENTI_3, -0.03),
        (numbers::MINUS_CENTI_5, -0.05),
    ];
    for (bits, x) in pairs {
        assert_eq!(bits, f64::to_bits(x), "{x}");
    }
}

#[test]
fn order_of_differences_and_products() {
    let values = doubles(60, 11);
    for &a in &values {
        for &b in &values {
            let (x, y) = (double(a), double(b));
            if a.is_finite() && b.is_finite() {
                // nothing but zero is rounded to zero by a subtraction
                assert_eq!(x.minus(y).le(double(0.0)), a <= b);
            }
            if a <= b && a.is_sign_positive() && b.is_sign_positive() {
                assert!(x.times(x).le(y.times(y)));
                assert!(x.to_single().le(y.to_single()));
            }
        }
    }
}
