use vstd::prelude::*;

use crate::text::{chars_of, decimal_of, part, starts_with};

verus! {

/// What a character counts as a digit in some radix up to sixteen.
pub open spec fn spec_digit_value(c: char, radix: u64) -> Option<u64> {
    let n = c as int;
    let value = if 0x30 <= n <= 0x39 {
        n - 0x30
    } else if 0x61 <= n <= 0x66 {
        n - 0x61 + 10
    } else if 0x41 <= n <= 0x46 {
        n - 0x41 + 10
    } else {
        16
    };
    if value < radix {
        Some(value as u64)
    } else {
        None
    }
}

/// What a character counts as a digit in some radix up to sixteen.
#[verifier::when_used_as_spec(spec_digit_value)]
pub fn digit_value(c: char, radix: u64) -> (r: Option<u64>)
    requires
        radix <= 16,
    ensures
        r == digit_value(c, radix),
{
    let n = c as u32;
    let value: u64 = if 0x30 <= n && n <= 0x39 {
        (n - 0x30) as u64
    } else if 0x61 <= n && n <= 0x66 {
        (n - 0x61 + 10) as u64
    } else if 0x41 <= n && n <= 0x46 {
        (n - 0x41 + 10) as u64
    } else {
        16
    };
    if value < radix {
        Some(value)
    } else {
        None
    }
}

/// All characters are digits.
pub open spec fn all_digits(s: Seq<char>, radix: u64) -> bool {
    forall|i: int| 0 <= i < s.len() ==> digit_value(#[trigger] s[i], radix) is Some
}

/// The number that digits stand for.
pub open spec fn number_of(s: Seq<char>, radix: u64) -> nat
    decreases s.len(),
{
    if s.len() == 0 {
        0
    } else {
        let digit = match digit_value(s.last(), radix) {
            Some(d) => d as nat,
            None => 0,
        };
        number_of(s.drop_last(), radix) * radix as nat + digit
    }
}

/// A text without a plus sign at its start.
pub open spec fn without_plus(s: Seq<char>) -> Seq<char> {
    if s.len() > 0 && s[0] == '+' {
        s.drop_first()
    } else {
        s
    }
}

/// The unsigned number that a text stands for: digits, which may have a plus sign
/// before them, up to some greatest number.
pub open spec fn unsigned_of(s: Seq<char>, radix: u64, greatest: u64) -> Option<u64> {
    let digits = without_plus(s);
    if digits.len() > 0 && all_digits(digits, radix) && number_of(digits, radix) <= greatest {
        Some(number_of(digits, radix) as u64)
    } else {
        None
    }
}

/// More digits make no smaller number.
proof fn lemma_number_grows(s: Seq<char>, n: int, radix: u64)
    requires
        0 <= n <= s.len(),
        radix > 0,
    ensures
        number_of(s.take(n), radix) <= number_of(s, radix),
    decreases s.len() - n,
{
    if n == s.len() {
        assert(s.take(n) =~= s);
    } else {
        lemma_number_grows(s, n + 1, radix);
        assert(s.take(n + 1).drop_last() =~= s.take(n));
        let x = number_of(s.take(n), radix);
        assert(x <= x * radix) by (nonlinear_arith)
            requires
                radix > 0,
                x >= 0,
        ;
    }
}

/// Reads an unsigned number.
pub fn parse_unsigned(chars: &Vec<char>, radix: u64, greatest: u64) -> (r: Option<u64>)
    requires
        0 < radix <= 16,
    ensures
        r == unsigned_of(chars@, radix, greatest),
{
    let n = chars.len();
    let from: usize = if n > 0 && chars[0] == '+' { 1 } else { 0 };
    let ghost digits = without_plus(chars@);
    proof {
        assert(digits =~= chars@.subrange(from as int, n as int));
    }
    if from == n {
        return None;
    }
    let mut value: u64 = 0;
    let mut i: usize = from;
    proof {
        assert(digits.take(0) =~= Seq::<char>::empty());
    }
    while i < n
        invariant
            from <= i <= n == chars@.len(),
            0 < radix <= 16,
            digits == without_plus(chars@),
            digits == chars@.subrange(from as int, n as int),
            forall|j: int|
                0 <= j < i - from ==> digit_value(#[trigger] digits[j], radix) is Some,
            value == number_of(digits.take(i - from), radix),
            value <= greatest,
        ensures
            i == n,
        decreases n - i,
    {
        let ghost at = i - from;
        proof {
            assert(digits[at] == chars@[i as int]);
            assert(digits.take(at + 1).drop_last() =~= digits.take(at));
            lemma_number_grows(digits, at + 1, radix);
        }
        match digit_value(chars[i], radix) {
            None => {
                return None;
            },
            Some(d) => {
                proof {
                    assert(0 <= value * radix <= 0xffff_ffff_ffff_ffff * 16) by (nonlinear_arith)
                        requires
                            0 <= value <= 0xffff_ffff_ffff_ffff,
                            0 <= radix <= 16,
                    ;
                }
                let wide: u128 = value as u128 * radix as u128 + d as u128;
                if wide > greatest as u128 {
                    return None;
                }
                value = wide as u64;
            },
        }
        i = i + 1;
    }
    proof {
        assert(digits.take(n - from) =~= digits);
    }
    Some(value)
}

/// The seed that a text stands for: a hexadecimal number behind `0x` or `0X`, or
/// a decimal one.
pub open spec fn seed_of(s: Seq<char>) -> Option<u64> {
    if "0x"@.is_prefix_of(s) || "0X"@.is_prefix_of(s) {
        unsigned_of(s.skip(2), 16, u64::MAX)
    } else {
        unsigned_of(s, 10, u64::MAX)
    }
}

/// The seed that a setting gives, or a default where there is none or it is no
/// number.
pub fn seed_or(setting: Option<&str>, default: u64) -> (r: u64)
    ensures
        setting is None ==> r == default,
        setting matches Some(text) ==> r == match seed_of(text@) {
            Some(seed) => seed,
            None => default,
        },
{
    let text = match setting {
        Some(text) => text,
        None => {
            return default;
        },
    };
    let chars = chars_of(text);
    proof {
        reveal_strlit("0x");
        reveal_strlit("0X");
    }
    let parsed = if starts_with(&chars, "0x") || starts_with(&chars, "0X") {
        let digits = part(&chars, 2, chars.len());
        proof {
            assert(digits@ =~= chars@.skip(2));
        }
        parse_unsigned(&digits, 16, u64::MAX)
    } else {
        parse_unsigned(&chars, 10, u64::MAX)
    };
    match parsed {
        Some(seed) => seed,
        None => default,
    }
}

/// The count that a setting gives, or a default where there is none or it is no
/// number.
pub fn count_or(setting: Option<&str>, default: usize) -> (r: usize)
    ensures
        setting is None ==> r == default,
        setting matches Some(text) ==> r == match unsigned_of(text@, 10, usize::MAX as u64) {
            Some(count) => count as usize,
            None => default,
        },
{
    let text = match setting {
        Some(text) => text,
        None => {
            return default;
        },
    };
    match parse_unsigned(&chars_of(text), 10, usize::MAX as u64) {
        Some(count) => count as usize,
        None => default,
    }
}

/// The character of a digit of a radix up to sixteen.
pub open spec fn digit_char(n: nat) -> char {
    (if n < 10 {
        0x30 + n
    } else {
        0x57 + n
    }) as u8 as char
}

/// A number written out in decimal, or in hexadecimal.
pub open spec fn written(n: nat, hexadecimal: bool) -> Seq<char>
    decreases n,
{
    if hexadecimal {
        if n < 16 {
            seq![digit_char(n)]
        } else {
            written(n / 16, true).push(digit_char(n % 16))
        }
    } else if n < 10 {
        seq![digit_char(n)]
    } else {
        written(n / 10, false).push(digit_char(n % 10))
    }
}

/// A number that is written out is all digits, and these stand for the number.
proof fn lemma_written(n: nat, hexadecimal: bool)
    ensures
        written(n, hexadecimal).len() > 0,
        all_digits(written(n, hexadecimal), if hexadecimal { 16 } else { 10 }),
        number_of(written(n, hexadecimal), if hexadecimal { 16 } else { 10 }) == n,
    decreases n,
{
    let s = written(n, hexadecimal);
    let radix: u64 = if hexadecimal { 16 } else { 10 };
    let d = n % radix as nat;
    assert(digit_value(digit_char(d), radix) == Some(d as u64));
    if n < radix {
        assert(s.drop_last() =~= Seq::<char>::empty());
        assert(number_of(s.drop_last(), radix) == 0);
    } else {
        let q = n / radix as nat;
        lemma_written(q, hexadecimal);
        assert(s.drop_last() =~= written(q, hexadecimal));
        assert forall|i: int| 0 <= i < s.len() implies digit_value(
            #[trigger] s[i],
            radix,
        ) is Some by {
            if i < s.len() - 1 {
                assert(s[i] == written(q, hexadecimal)[i]);
            }
        }
    }
}

/// A seed that is written out in decimal, or in hexadecimal behind `0x` or `0X`, is read
/// back.
pub proof fn lemma_seeds_are_read_back(seed: u64)
    ensures
        seed_of(written(seed as nat, false)) == Some(seed),
        seed_of("0x"@ + written(seed as nat, true)) == Some(seed),
        seed_of("0X"@ + written(seed as nat, true)) == Some(seed),
{
    reveal_strlit("0x");
    reveal_strlit("0X");
    let (decimal, hex) = (written(seed as nat, false), written(seed as nat, true));
    lemma_written(seed as nat, false);
    lemma_written(seed as nat, true);
    assert(digit_value(decimal[0], 10) is Some && digit_value(hex[0], 16) is Some);
    assert(!"0x"@.is_prefix_of(decimal) && !"0X"@.is_prefix_of(decimal)) by {
        if decimal.len() >= 2 {
            assert(digit_value(decimal[1], 10) is Some);
            assert("0x"@[1] == 'x' && "0X"@[1] == 'X');
            assert(decimal.subrange(0, 2)[1] == decimal[1]);
        }
    }
    let (lower, upper) = ("0x"@ + hex, "0X"@ + hex);
    assert(lower.subrange(0, 2) =~= "0x"@);
    assert(upper.subrange(0, 2) =~= "0X"@);
    assert(lower.skip(2) =~= hex);
    assert(upper.skip(2) =~= hex);
}

/// A number that is written out in decimal is read back, up to the greatest that is
/// allowed, with a plus sign before it or without.
pub proof fn lemma_numbers_are_read_back(n: u64, greatest: u64)
    ensures
        unsigned_of(written(n as nat, false), 10, greatest) == if n <= greatest {
            Some(n)
        } else {
            None
        },
        unsigned_of(seq!['+'] + written(n as nat, false), 10, greatest) == if n <= greatest {
            Some(n)
        } else {
            None
        },
{
    let s = written(n as nat, false);
    lemma_written(n as nat, false);
    assert(digit_value(s[0], 10) is Some);
    assert((seq!['+'] + s).drop_first() =~= s);
}

/// Numbers are printed as they are written out in decimal.
pub proof fn lemma_decimals_are_written(n: nat)
    ensures
        decimal_of(n) == written(n, false),
    decreases n,
{
    if n >= 10 {
        lemma_decimals_are_written(n / 10);
    }
}

} // verus!
