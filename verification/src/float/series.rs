use vstd::prelude::*;

use crate::float::double::Double;

verus! {

/// -0.0, which adding anything to leaves it as it is
pub const NEGATIVE_ZERO: u64 = 0x8000_0000_0000_0000;

pub const NEGATIVE_INFINITY: u64 = 0xfff0_0000_0000_0000;

/// The sum of a series, added up from its start.
pub open spec fn total_of(s: Seq<Double>) -> Double
    decreases s.len(),
{
    if s.len() == 0 {
        Double::from_bits(NEGATIVE_ZERO)
    } else {
        total_of(s.drop_last()).plus(s.last())
    }
}

/// The greatest member of a series; NaNs do not count.
pub open spec fn greatest_of(s: Seq<Double>) -> Double
    decreases s.len(),
{
    if s.len() == 0 {
        Double::from_bits(NEGATIVE_INFINITY)
    } else {
        greatest_of(s.drop_last()).max(s.last())
    }
}

/// A series with the same number taken from each member.
pub open spec fn lowered_by(s: Seq<Double>, x: Double) -> Seq<Double> {
    s.map_values(|v: Double| v.minus(x))
}

/// Adds up a series from its start.
pub fn total(values: &Vec<Double>) -> (r: Double)
    ensures
        r == total_of(values@),
{
    let mut acc = Double::from_bits(NEGATIVE_ZERO);
    let mut i: usize = 0;
    while i < values.len()
        invariant
            i <= values.len(),
            acc == total_of(values@.take(i as int)),
        decreases values.len() - i,
    {
        acc = acc.plus(values[i]);
        proof {
            assert(values@.take(i + 1).drop_last() =~= values@.take(i as int));
        }
        i = i + 1;
    }
    proof {
        assert(values@.take(i as int) =~= values@);
    }
    acc
}

/// The greatest member of a series.
pub fn greatest(values: &Vec<Double>) -> (r: Double)
    ensures
        r == greatest_of(values@),
{
    let mut acc = Double::from_bits(NEGATIVE_INFINITY);
    let mut i: usize = 0;
    while i < values.len()
        invariant
            i <= values.len(),
            acc == greatest_of(values@.take(i as int)),
        decreases values.len() - i,
    {
        acc = acc.max(values[i]);
        proof {
            assert(values@.take(i + 1).drop_last() =~= values@.take(i as int));
        }
        i = i + 1;
    }
    proof {
        assert(values@.take(i as int) =~= values@);
    }
    acc
}

/// Takes the same number from each member of a series.
pub fn lowered(values: &Vec<Double>, x: Double) -> (r: Vec<Double>)
    ensures
        r@ == lowered_by(values@, x),
{
    let mut out: Vec<Double> = Vec::new();
    let mut i: usize = 0;
    while i < values.len()
        invariant
            i <= values.len(),
            out@ == lowered_by(values@.take(i as int), x),
        decreases values.len() - i,
    {
        out.push(values[i].minus(x));
        proof {
            assert(lowered_by(values@.take(i + 1), x) =~= lowered_by(values@.take(i as int), x).push(
                values@[i as int].minus(x),
            ));
        }
        i = i + 1;
    }
    proof {
        assert(values@.take(i as int) =~= values@);
    }
    out
}

} // verus!
