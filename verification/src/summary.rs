//! What the summary of a sequence of log records is: the mathematical
//! definitions that the statistics are held to, and the laws that follow
//! from them.

use crate::failures::is_most_failing;
use crate::failures::lemma_most_failing_unique;
use crate::nginx_log::has_outcome;
use crate::nginx_log::lemma_sizes_with_outcome_push;
use crate::nginx_log::sizes_of;
use crate::nginx_log::sizes_with_outcome;
use crate::nginx_log::NginxLogLine;
use vstd::prelude::*;

verus! {

/// Holds of the records that were answered with status `code`.
pub open spec fn has_status(code: u16) -> spec_fn(NginxLogLine) -> bool {
    |line: NginxLogLine| line.response == code
}

/// How many records were answered with status `code`.
pub open spec fn occurrences(records: Seq<NginxLogLine>, code: u16) -> nat {
    records.filter(has_status(code)).len()
}

/// The number of records per status code, for the codes that occur.
pub open spec fn status_counts_of(records: Seq<NginxLogLine>) -> Map<u16, nat> {
    Map::new(|code: u16| occurrences(records, code) > 0, |code: u16| occurrences(records, code))
}

/// The counts of a map of machine integers, as natural numbers.
pub open spec fn as_counts(counts: Map<u16, usize>) -> Map<u16, nat> {
    Map::new(|code: u16| counts.contains_key(code), |code: u16| counts[code] as nat)
}

/// The sum of the counts of the status codes below `bound`.
pub open spec fn total_below(counts: Map<u16, nat>, bound: nat) -> nat
    decreases bound,
{
    if bound == 0 {
        0
    } else {
        let code = (bound - 1) as u16;
        total_below(counts, (bound - 1) as nat) + if counts.contains_key(code) {
            counts[code]
        } else {
            0
        }
    }
}

/// The sum of the counts of all status codes.
pub open spec fn total_of(counts: Map<u16, nat>) -> nat {
    total_below(counts, 0x1_0000)
}

/// Holds of the failed records that asked for `endpoint`.
pub open spec fn fails_at(endpoint: Seq<char>) -> spec_fn(NginxLogLine) -> bool {
    |line: NginxLogLine| line.failed() && line.endpoint_view() == endpoint
}

/// How many failed records asked for `endpoint`.
pub open spec fn failures_at(records: Seq<NginxLogLine>, endpoint: Seq<char>) -> nat {
    records.filter(fails_at(endpoint)).len()
}

/// The number of failed records per endpoint, for the endpoints that have
/// any.
pub open spec fn failures_of(records: Seq<NginxLogLine>) -> Map<Seq<char>, nat> {
    Map::new(
        |endpoint: Seq<char>| failures_at(records, endpoint) > 0,
        |endpoint: Seq<char>| failures_at(records, endpoint),
    )
}

/// Some record has failed.
pub open spec fn any_failed(records: Seq<NginxLogLine>) -> bool {
    exists|i: int| 0 <= i < records.len() && (#[trigger] records[i]).failed()
}

/// `endpoint` is the endpoint with the most failed requests. Of several
/// endpoints with as many failures it is the first in lexicographic order,
/// and it is `"/"` when no request has failed.
pub open spec fn is_failingest_endpoint(records: Seq<NginxLogLine>, endpoint: Seq<char>) -> bool {
    if any_failed(records) {
        is_most_failing(failures_of(records), endpoint)
    } else {
        endpoint == seq!['/']
    }
}

/// Some record has a response of at least one byte.
pub open spec fn any_bytes(records: Seq<NginxLogLine>) -> bool {
    exists|i: int| 0 <= i < records.len() && (#[trigger] records[i]).bytes > 0
}

/// The record at `index` has the largest response, which is not empty, and
/// every record before it has a smaller one.
pub open spec fn is_first_largest(records: Seq<NginxLogLine>, index: int) -> bool {
    &&& 0 <= index < records.len()
    &&& records[index].bytes > 0
    &&& forall|i: int|
        0 <= i < records.len() ==> (#[trigger] records[i]).bytes <= records[index].bytes
    &&& forall|i: int| 0 <= i < index ==> (#[trigger] records[i]).bytes < records[index].bytes
}

/// `endpoint` is the endpoint of the first record with the largest response,
/// and it is empty when no response has any byte.
pub open spec fn is_largest_endpoint(records: Seq<NginxLogLine>, endpoint: Seq<char>) -> bool {
    if any_bytes(records) {
        exists|index: int| #[trigger]
            is_first_largest(records, index) && endpoint == records[index].endpoint_view()
    } else {
        endpoint == Seq::<char>::empty()
    }
}

/// One more record adds one to the count of its status code.
pub proof fn lemma_status_counts_push(records: Seq<NginxLogLine>, line: NginxLogLine)
    ensures
        occurrences(records, line.response) <= records.len(),
        status_counts_of(records.push(line)) == status_counts_of(records).insert(
            line.response,
            occurrences(records, line.response) + 1,
        ),
{
    records.lemma_filter_len(has_status(line.response));
    assert forall|code: u16|
        occurrences(records.push(line), code) == occurrences(records, code) + if code
            == line.response {
            1nat
        } else {
            0nat
        } by {
        records.lemma_filter_push(line, has_status(code));
    }
    assert(status_counts_of(records.push(line)) =~= status_counts_of(records).insert(
        line.response,
        occurrences(records, line.response) + 1,
    ));
}

/// One more record adds one to the failures of its endpoint if it has
/// failed, and changes nothing otherwise.
pub proof fn lemma_failures_push(records: Seq<NginxLogLine>, line: NginxLogLine)
    ensures
        failures_at(records, line.endpoint_view()) <= records.len(),
        failures_of(records.push(line)) == if line.failed() {
            failures_of(records).insert(
                line.endpoint_view(),
                failures_at(records, line.endpoint_view()) + 1,
            )
        } else {
            failures_of(records)
        },
{
    records.lemma_filter_len(fails_at(line.endpoint_view()));
    assert forall|endpoint: Seq<char>|
        failures_at(records.push(line), endpoint) == failures_at(records, endpoint) + if fails_at(
            endpoint,
        )(line) {
            1nat
        } else {
            0nat
        } by {
        records.lemma_filter_push(line, fails_at(endpoint));
    }
    if line.failed() {
        assert(failures_of(records.push(line)) =~= failures_of(records).insert(
            line.endpoint_view(),
            failures_at(records, line.endpoint_view()) + 1,
        ));
    } else {
        assert(failures_of(records.push(line)) =~= failures_of(records));
    }
}

/// An endpoint has failures exactly when some record has failed.
pub proof fn lemma_failures_of_any_failed(records: Seq<NginxLogLine>)
    ensures
        any_failed(records) <==> exists|endpoint: Seq<char>| #[trigger]
            failures_of(records).contains_key(endpoint),
{
    if any_failed(records) {
        let i = choose|i: int| 0 <= i < records.len() && (#[trigger] records[i]).failed();
        let endpoint = records[i].endpoint_view();
        records.lemma_filter_contains(fails_at(endpoint), i);
        assert(failures_of(records).contains_key(endpoint));
    }
    if exists|endpoint: Seq<char>| #[trigger] failures_of(records).contains_key(endpoint) {
        let endpoint = choose|endpoint: Seq<char>| #[trigger]
            failures_of(records).contains_key(endpoint);
        let failed = records.filter(fails_at(endpoint));
        records.lemma_filter_pred(fails_at(endpoint), 0);
        assert(failed.contains(failed[0]));
        records.lemma_filter_contains_rev(fails_at(endpoint), failed[0]);
        let i = choose|i: int| 0 <= i < records.len() && records[i] == failed[0];
        assert(records[i].failed());
    }
}

/// Without any code below the bound the total is 0.
proof fn lemma_total_below_none(counts: Map<u16, nat>, bound: nat)
    requires
        bound <= 0x1_0000,
        forall|code: u16| code < bound ==> !counts.contains_key(code),
    ensures
        total_below(counts, bound) == 0,
    decreases bound,
{
    if bound > 0 {
        lemma_total_below_none(counts, (bound - 1) as nat);
    }
}

/// Setting the count of one code changes the total by as much as that count
/// changes.
proof fn lemma_total_below_insert(counts: Map<u16, nat>, code: u16, count: nat, bound: nat)
    requires
        bound <= 0x1_0000,
    ensures
        total_below(counts.insert(code, count), bound) == total_below(counts, bound) + if code
            < bound {
            count - if counts.contains_key(code) {
                counts[code]
            } else {
                0
            }
        } else {
            0
        },
    decreases bound,
{
    if bound > 0 {
        lemma_total_below_insert(counts, code, count, (bound - 1) as nat);
    }
}

/// The counts of the status codes add up to the number of records.
pub proof fn lemma_status_counts_total(records: Seq<NginxLogLine>)
    ensures
        total_of(status_counts_of(records)) == records.len(),
    decreases records.len(),
{
    if records.len() == 0 {
        assert forall|code: u16| !status_counts_of(records).contains_key(code) by {
            records.lemma_filter_len(has_status(code));
        }
        lemma_total_below_none(status_counts_of(records), 0x1_0000);
    } else {
        let before = records.drop_last();
        let line = records.last();
        assert(records == before.push(line));
        lemma_status_counts_total(before);
        lemma_status_counts_push(before, line);
        lemma_total_below_insert(
            status_counts_of(before),
            line.response,
            occurrences(before, line.response) + 1,
            0x1_0000,
        );
    }
}

/// Every record is either successful or failed, never both, so the
/// successful and the failed records together are as many as all records,
/// and their sizes together are the sizes of all records.
pub proof fn lemma_partition(records: Seq<NginxLogLine>)
    ensures
        forall|i: int|
            0 <= i < records.len() ==> (#[trigger] records[i]).successful() != records[i].failed(),
        sizes_of(records).len() == records.len(),
        sizes_with_outcome(records, false).len() + sizes_with_outcome(records, true).len()
            == records.len(),
        sizes_with_outcome(records, false).to_multiset().add(
            sizes_with_outcome(records, true).to_multiset(),
        ) == sizes_of(records).to_multiset(),
    decreases records.len(),
{
    broadcast use vstd::seq_lib::group_to_multiset_ensures;

    if records.len() == 0 {
        records.lemma_filter_len(has_outcome(true));
        records.lemma_filter_len(has_outcome(false));
        assert(sizes_with_outcome(records, false) =~= Seq::empty());
        assert(sizes_with_outcome(records, true) =~= Seq::empty());
        assert(sizes_of(records) =~= Seq::empty());
        assert(sizes_with_outcome(records, false).to_multiset().add(
            sizes_with_outcome(records, true).to_multiset(),
        ) =~= sizes_of(records).to_multiset());
    } else {
        let before = records.drop_last();
        let line = records.last();
        assert(records == before.push(line));
        lemma_partition(before);
        lemma_sizes_with_outcome_push(before, line, false);
        lemma_sizes_with_outcome_push(before, line, true);
        assert(sizes_of(records) =~= sizes_of(before).push(line.bytes));
        assert(sizes_with_outcome(records, false).to_multiset().add(
            sizes_with_outcome(records, true).to_multiset(),
        ) =~= sizes_of(records).to_multiset());
    }
}

/// At most one record is the first with the largest response.
pub proof fn lemma_first_largest_unique(records: Seq<NginxLogLine>, first: int, second: int)
    requires
        is_first_largest(records, first),
        is_first_largest(records, second),
    ensures
        first == second,
{
}

/// The records determine their largest endpoint.
pub proof fn lemma_largest_endpoint_unique(
    records: Seq<NginxLogLine>,
    first: Seq<char>,
    second: Seq<char>,
)
    requires
        is_largest_endpoint(records, first),
        is_largest_endpoint(records, second),
    ensures
        first == second,
{
    if any_bytes(records) {
        let i = choose|index: int| #[trigger]
            is_first_largest(records, index) && first == records[index].endpoint_view();
        let j = choose|index: int| #[trigger]
            is_first_largest(records, index) && second == records[index].endpoint_view();
        lemma_first_largest_unique(records, i, j);
    }
}

/// The records determine their failingest endpoint.
pub proof fn lemma_failingest_endpoint_unique(
    records: Seq<NginxLogLine>,
    first: Seq<char>,
    second: Seq<char>,
)
    requires
        is_failingest_endpoint(records, first),
        is_failingest_endpoint(records, second),
    ensures
        first == second,
{
    if any_failed(records) {
        lemma_most_failing_unique(failures_of(records), first, second);
    }
}

} // verus!
