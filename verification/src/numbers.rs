//! Columns of numbers.

use vstd::prelude::*;

use crate::text;
use crate::text::{decimal, join3};

verus! {

/// The sum of the values.
pub open spec fn total(values: Seq<u64>) -> nat
    decreases values.len(),
{
    if values.len() == 0 {
        0
    } else {
        total(values.drop_last()) + values.last() as nat
    }
}

/// Adds up values.
pub fn sum_of(values: &[u64]) -> (sum: u128)
    ensures
        sum == total(values@),
        sum <= values@.len() * 0xffff_ffff_ffff_ffff,
{
    let mut sum: u128 = 0;
    let mut i: usize = 0;
    while i < values.len()
        invariant
            i <= values.len(),
            sum == total(values@.take(i as int)),
            sum <= i * 0xffff_ffff_ffff_ffff,
        decreases values.len() - i,
    {
        assert(values@.take(i + 1).drop_last() =~= values@.take(i as int));
        sum = sum + values[i] as u128;
        i += 1;
    }
    assert(values@.take(values@.len() as int) =~= values@);
    sum
}

/// Sizes as 64-bit numbers.
pub open spec fn widened(sizes: Seq<usize>) -> Seq<u64> {
    sizes.map_values(|n: usize| n as u64)
}

/// Sizes as 64-bit numbers.
pub fn widen(sizes: &[usize]) -> (wide: Vec<u64>)
    ensures
        wide@ == widened(sizes@),
{
    let mut wide: Vec<u64> = Vec::new();
    let mut i: usize = 0;
    while i < sizes.len()
        invariant
            i <= sizes.len(),
            wide@ == widened(sizes@).take(i as int),
        decreases sizes.len() - i,
    {
        wide.push(sizes[i] as u64);
        assert(wide@ =~= widened(sizes@).take(i + 1));
        i += 1;
    }
    assert(wide@ =~= widened(sizes@));
    wide
}

/// The mean of the values, rounded down; zero of no values.
pub open spec fn mean(values: Seq<u64>) -> nat {
    if values.len() == 0 {
        0
    } else {
        total(values) / values.len()
    }
}

/// The mean of values, rounded down; zero of no values.
pub fn mean_of(values: &[u64]) -> (result: u64)
    ensures
        result == mean(values@),
{
    if values.len() == 0 {
        return 0;
    }
    let sum = sum_of(values);
    let n = values.len() as u128;
    let quotient: u128 = sum / n;
    proof {
        let q = quotient as int;
        let s = sum as int;
        let k = n as int;
        let m: int = 0xffff_ffff_ffff_ffff;
        assert(s <= k * m);
        assert(q <= m) by (nonlinear_arith)
            requires
                q == s / k,
                s <= k * m,
                k > 0,
        ;
    }
    quotient as u64
}

/// The smallest of the values; zero of no values.
pub open spec fn smallest(values: Seq<u64>) -> u64
    decreases values.len(),
{
    if values.len() == 0 {
        0
    } else if values.len() == 1 {
        values[0]
    } else {
        let rest = smallest(values.drop_last());
        if values.last() < rest {
            values.last()
        } else {
            rest
        }
    }
}

/// The largest of the values; zero of no values.
pub open spec fn largest(values: Seq<u64>) -> u64
    decreases values.len(),
{
    if values.len() == 0 {
        0
    } else {
        let rest = largest(values.drop_last());
        if values.last() > rest {
            values.last()
        } else {
            rest
        }
    }
}

/// The mean lies between the smallest and the largest value, and both
/// occur.
pub proof fn mean_lies_between(values: Seq<u64>)
    requires
        values.len() > 0,
    ensures
        smallest(values) <= mean(values) <= largest(values),
        values.contains(smallest(values)),
        values.contains(largest(values)),
        forall|i: int|
            0 <= i < values.len() ==> smallest(values) <= #[trigger] values[i] <= largest(values),
{
    bounds_hold(values);
    let n = values.len() as int;
    let t = total(values) as int;
    let lo = smallest(values) as int;
    let hi = largest(values) as int;
    assert(lo <= t / n <= hi) by (nonlinear_arith)
        requires
            n > 0,
            lo * n <= t <= hi * n,
    ;
}

/// The bounds of the values, and of their sum.
proof fn bounds_hold(values: Seq<u64>)
    requires
        values.len() > 0,
    ensures
        smallest(values) * values.len() <= total(values) <= largest(values) * values.len(),
        values.contains(smallest(values)),
        values.contains(largest(values)),
        forall|i: int|
            0 <= i < values.len() ==> smallest(values) <= #[trigger] values[i] <= largest(values),
    decreases values.len(),
{
    let rest = values.drop_last();
    let last = values.last();
    assert(values[values.len() - 1] == last);
    if values.len() == 1 {
        assert(rest =~= Seq::empty());
        assert(values[0] == last);
        assert(total(rest) == 0);
        assert(largest(rest) == 0);
    } else {
        bounds_hold(rest);
        let a = rest.index_of(smallest(rest));
        let b = rest.index_of(largest(rest));
        assert(values[a] == smallest(rest));
        assert(values[b] == largest(rest));
        assert forall|i: int| 0 <= i < values.len() implies smallest(values)
            <= #[trigger] values[i] <= largest(values) by {
            if i < rest.len() {
                assert(values[i] == rest[i]);
            }
        }
        let n = rest.len() as int;
        let lo = smallest(values) as int;
        let hi = largest(values) as int;
        let lo0 = smallest(rest) as int;
        let hi0 = largest(rest) as int;
        assert(lo * n <= lo0 * n && hi0 * n <= hi * n) by (nonlinear_arith)
            requires
                lo <= lo0,
                hi0 <= hi,
                n >= 0,
        ;
        assert(lo * (n + 1) == lo * n + lo && hi * (n + 1) == hi * n + hi) by (nonlinear_arith);
    }
}

/// "mean 56, min 33, max 132" for a column of values.
pub open spec fn range_text(values: Seq<u64>) -> Seq<char> {
    "mean "@ + text::decimal_digits(mean(values)) + ", min "@ + text::decimal_digits(
        smallest(values) as nat,
    ) + ", max "@ + text::decimal_digits(largest(values) as nat)
}

/// Describes a column of values.
pub fn describe_range(values: &[u64]) -> (described: String)
    ensures
        described@ == range_text(values@),
{
    let mut low: u64 = 0;
    let mut high: u64 = 0;
    let mut i: usize = 0;
    while i < values.len()
        invariant
            i <= values.len(),
            low == smallest(values@.take(i as int)),
            high == largest(values@.take(i as int)),
        decreases values.len() - i,
    {
        assert(values@.take(i + 1).drop_last() =~= values@.take(i as int));
        if i == 0 || values[i] < low {
            low = values[i];
        }
        if values[i] > high {
            high = values[i];
        }
        i += 1;
    }
    assert(values@.take(values@.len() as int) =~= values@);
    let mut described = join3("mean ", decimal(mean_of(values) as u128).as_str(), ", min ");
    described.append(decimal(low as u128).as_str());
    described.append(", max ");
    described.append(decimal(high as u128).as_str());
    described
}

/// Sums go piece by piece, and the sum of one value is that value.
pub proof fn sums_add_up(a: Seq<u64>, b: Seq<u64>, value: u64)
    ensures
        total(a + b) == total(a) + total(b),
        total(seq![value]) == value,
        total(Seq::<u64>::empty()) == 0,
    decreases b.len(),
{
    assert(seq![value].drop_last() =~= seq![]);
    assert(total(seq![value].drop_last()) == 0);
    if b.len() == 0 {
        assert(a + b =~= a);
    } else {
        sums_add_up(a, b.drop_last(), value);
        assert((a + b).drop_last() =~= a + b.drop_last());
    }
}

/// The mean is the largest whole number that, taken once for each value, is no
/// more than their sum. No values have zeros for mean, smallest and largest.
pub proof fn mean_is_rounded_down(values: Seq<u64>)
    ensures
        values.len() > 0 ==> mean(values) * values.len() <= total(values) < (mean(values) + 1)
            * values.len(),
        values.len() == 0 ==> mean(values) == 0 && smallest(values) == 0 && largest(values) == 0,
{
    if values.len() > 0 {
        let n = values.len() as int;
        let t = total(values) as int;
        let m = mean(values) as int;
        assert(m * n <= t < (m + 1) * n) by (nonlinear_arith)
            requires
                n > 0,
                m == t / n,
        ;
    }
}

/// The description of a column names its mean, its smallest and its largest
/// value.
pub proof fn columns_are_described(values: Seq<u64>, low: u64, high: u64, middle: nat)
    requires
        values.contains(low),
        values.contains(high),
        forall|i: int| 0 <= i < values.len() ==> low <= #[trigger] values[i] <= high,
        middle * values.len() <= total(values) < (middle + 1) * values.len(),
    ensures
        range_text(values) == "mean "@ + text::decimal_digits(middle) + ", min "@
            + text::decimal_digits(low as nat) + ", max "@ + text::decimal_digits(high as nat),
{
    let i = values.index_of(low);
    assert(values[i] == low);
    mean_lies_between(values);
    mean_is_rounded_down(values);
    assert(values[values.index_of(smallest(values))] == smallest(values));
    assert(values[values.index_of(largest(values))] == largest(values));
    let n = values.len() as int;
    let t = total(values) as int;
    let a = middle as int;
    let b = mean(values) as int;
    assert(a == b) by (nonlinear_arith)
        requires
            n > 0,
            a * n <= t < (a + 1) * n,
            b * n <= t < (b + 1) * n,
    ;
}

/// Sizes keep their values and their order.
pub proof fn widening_keeps_the_values(sizes: Seq<usize>)
    ensures
        widened(sizes).len() == sizes.len(),
        forall|i: int| 0 <= i < sizes.len() ==> #[trigger] widened(sizes)[i] == sizes[i],
{
}

} // verus!
