//! Statistics of a collection of response sizes: count, total, median and
//! 99th percentile.

use vstd::prelude::*;
use vstd::relations::sorted_by;
use vstd::relations::total_ordering;
use vstd::seq_lib::lemma_sorted_unique;

verus! {

/// The sum of the values.
pub open spec fn sum_of(values: Seq<u64>) -> nat
    decreases values.len(),
{
    if values.len() == 0 {
        0
    } else {
        sum_of(values.drop_last()) + values.last() as nat
    }
}

/// The order by which sizes are sorted.
pub open spec fn by_value() -> spec_fn(u64, u64) -> bool {
    |a: u64, b: u64| a <= b
}

/// No value is followed by a smaller one.
pub open spec fn is_ascending(values: Seq<u64>) -> bool {
    forall|i: int, j: int| 0 <= i <= j < values.len() ==> values[i] <= values[j]
}

/// The values in ascending order, each as often as it occurs in `values`.
pub open spec fn ascending(values: Seq<u64>) -> Seq<u64> {
    values.sort_by(by_value())
}

/// The index at which the median of `count` sorted values stands: the middle
/// one, and the upper of the two middle ones when `count` is even.
pub open spec fn median_index(count: nat) -> nat {
    count / 2
}

/// The index at which the 99th percentile of `count` sorted values stands:
/// 99 hundredths of `count`, rounded down, and never beyond the last value.
pub open spec fn p99_index(count: nat) -> nat {
    let floor = count * 99 / 100;
    if floor < count {
        floor
    } else {
        (count - 1) as nat
    }
}

/// The value at `index` of `sorted`, or `None` when `sorted` is empty.
pub open spec fn value_at(sorted: Seq<u64>, index: nat) -> Option<u64> {
    if sorted.len() == 0 {
        None
    } else {
        Some(sorted[index as int])
    }
}

/// `ascending(values)` is ascending and holds exactly the values of
/// `values`.
pub proof fn lemma_ascending(values: Seq<u64>)
    ensures
        is_ascending(ascending(values)),
        ascending(values).to_multiset() == values.to_multiset(),
        ascending(values).len() == values.len(),
{
    assert(total_ordering(by_value()));
    values.lemma_sort_by_ensures(by_value());
    let sorted = ascending(values);
    assert forall|i: int, j: int| 0 <= i <= j < sorted.len() implies sorted[i] <= sorted[j] by {
        if i < j {
            assert(by_value()(sorted[i], sorted[j]));
        }
    }
    sorted.to_multiset_ensures();
    values.to_multiset_ensures();
}

/// There is one way only to put values in ascending order.
pub proof fn lemma_ascending_unique(values: Seq<u64>, sorted: Seq<u64>)
    requires
        is_ascending(sorted),
        sorted.to_multiset() == values.to_multiset(),
    ensures
        sorted == ascending(values),
{
    lemma_ascending(values);
    assert(total_ordering(by_value()));
    assert(sorted_by(sorted, by_value()));
    assert(sorted_by(ascending(values), by_value()));
    lemma_sorted_unique(sorted, ascending(values), by_value());
}

/// Both indices stand within the values, and the 99th-percentile index is
/// 99 hundredths of the count, rounded down.
pub proof fn lemma_indices_in_range(count: nat)
    requires
        count > 0,
    ensures
        median_index(count) < count,
        p99_index(count) < count,
        p99_index(count) == count * 99 / 100,
        median_index(count) <= p99_index(count),
{
}

/// The sum of a prefix grows by the value that follows it.
proof fn lemma_sum_of_take(values: Seq<u64>, n: int)
    requires
        0 <= n < values.len(),
    ensures
        sum_of(values.take(n + 1)) == sum_of(values.take(n)) + values[n],
{
    assert(values.take(n + 1).drop_last() == values.take(n));
}

/// Sorts the values in ascending order.
///
/// Calls `<[u64]>::sort` of std, and nothing is proved of it here. What is
/// taken for granted is that afterwards the vector is in ascending order and
/// holds the same values as before, each as often as before.
#[verifier::external_body]
fn sort_ascending(values: &mut Vec<u64>)
    ensures
        is_ascending(final(values)@),
        final(values)@.to_multiset() == old(values)@.to_multiset(),
{
    values.sort();
}

/// The values in ascending order.
pub fn sorted(values: Vec<u64>) -> (sorted: Vec<u64>)
    ensures
        sorted@ == ascending(values@),
{
    let mut sorted = values;
    sort_ascending(&mut sorted);
    proof {
        lemma_ascending_unique(values@, sorted@);
    }
    sorted
}

/// The sum of the values.
pub fn total(values: &Vec<u64>) -> (sum: u128)
    ensures
        sum == sum_of(values@),
{
    let mut sum: u128 = 0;
    let mut at: usize = 0;
    while at < values.len()
        invariant
            at <= values.len(),
            sum == sum_of(values@.take(at as int)),
            sum <= at * 0xffff_ffff_ffff_ffff,
        decreases values.len() - at,
    {
        proof {
            lemma_sum_of_take(values@, at as int);
            assert((at + 1) * 0xffff_ffff_ffff_ffff == at * 0xffff_ffff_ffff_ffff
                + 0xffff_ffff_ffff_ffff) by (nonlinear_arith);
            assert((at + 1) * 0xffff_ffff_ffff_ffff <= u128::MAX) by (nonlinear_arith)
                requires
                    at + 1 <= 0x1_0000_0000_0000_0000,
            ;
        }
        sum = sum + values[at] as u128;
        at = at + 1;
    }
    assert(values@.take(at as int) == values@);
    sum
}

/// The median of values that are sorted: the one at index `len / 2`, or
/// `None` when there is no value.
pub fn median(sorted: &Vec<u64>) -> (median: Option<u64>)
    ensures
        median == value_at(sorted@, median_index(sorted@.len())),
{
    if sorted.len() == 0 {
        None
    } else {
        Some(sorted[sorted.len() / 2])
    }
}

/// The 99th percentile of values that are sorted: the one at index
/// `len * 99 / 100`, or `None` when there is no value.
pub fn p99(sorted: &Vec<u64>) -> (p99: Option<u64>)
    ensures
        p99 == value_at(sorted@, p99_index(sorted@.len())),
{
    let count: usize = sorted.len();
    if count == 0 {
        None
    } else {
        let floor: u128 = count as u128 * 99 / 100;
        let index: usize = if floor < count as u128 {
            floor as usize
        } else {
            count - 1
        };
        Some(sorted[index])
    }
}

/// What is known of the sizes of a non-empty collection of responses.
///
/// The mean of the sizes is `total / count`.
#[derive(Debug, Clone, Copy, PartialEq, Eq, Structural)]
pub struct SizeStats {
    /// How many sizes there are.
    pub count: usize,
    /// The sum of the sizes.
    pub total: u128,
    /// The size in the middle of the sorted sizes.
    pub median: u64,
    /// The size at 99 hundredths of the sorted sizes.
    pub p99: u64,
}

impl SizeStats {
    /// These are the statistics of `sizes`.
    pub open spec fn describes(self, sizes: Seq<u64>) -> bool {
        &&& sizes.len() > 0
        &&& self.count == sizes.len()
        &&& self.total == sum_of(sizes)
        &&& self.median == ascending(sizes)[median_index(sizes.len()) as int]
        &&& self.p99 == ascending(sizes)[p99_index(sizes.len()) as int]
    }

    /// The statistics of `sizes`, or `None` when there is no size: of an
    /// empty collection the mean, the median and the 99th percentile are
    /// undefined.
    pub fn from_sizes(sizes: Vec<u64>) -> (stats: Option<SizeStats>)
        ensures
            match stats {
                Some(stats) => stats.describes(sizes@),
                None => sizes@.len() == 0,
            },
    {
        let count: usize = sizes.len();
        let total: u128 = total(&sizes);
        proof {
            lemma_ascending(sizes@);
        }
        let ordered = sorted(sizes);
        match (median(&ordered), p99(&ordered)) {
            (Some(median), Some(p99)) => Some(SizeStats { count, total, median, p99 }),
            _ => None,
        }
    }
}

} // verus!
