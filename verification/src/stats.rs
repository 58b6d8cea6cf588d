//! Statistics about an Nginx log.

use crate::failures::EndpointFailures;
use crate::nginx_log::sizes_of;
use crate::nginx_log::sizes_with_outcome;
use crate::nginx_log::NginxLog;
use crate::nginx_log::NginxLogLine;
use crate::sizes::SizeStats;
use crate::summary::any_bytes;
use crate::summary::any_failed;
use crate::summary::as_counts;
use crate::summary::fails_at;
use crate::summary::failures_at;
use crate::summary::failures_of;
use crate::summary::has_status;
use crate::summary::is_failingest_endpoint;
use crate::summary::is_first_largest;
use crate::summary::is_largest_endpoint;
use crate::summary::lemma_failingest_endpoint_unique;
use crate::summary::lemma_failures_of_any_failed;
use crate::summary::lemma_failures_push;
use crate::summary::lemma_largest_endpoint_unique;
use crate::summary::lemma_partition;
use crate::summary::lemma_status_counts_push;
use crate::summary::lemma_status_counts_total;
use crate::summary::occurrences;
use crate::summary::status_counts_of;
use crate::summary::total_of;
use std::collections::BTreeMap;
use vstd::prelude::*;

verus! {

/// Represents statistics about an Nginx log
///
/// # Contains
///
/// * `status_count` - A map of status codes to the number of times they were returned
/// * `all_requests` - The sizes of the responses to all requests
/// * `successful_requests` - The sizes of the responses to successful requests
/// * `failed_requests` - The sizes of the responses to failed requests
/// * `largest_endpoint` - The endpoint that returned the largest response
/// * `failingest_endpoint` - The endpoint that returned the most failed responses
///
/// Of requests of a kind that the log does not hold, the mean, the median and
/// the 99th percentile of the sizes are undefined: the field is `None`.
pub struct LogStats {
    pub status_count: BTreeMap<u16, usize>,
    pub all_requests: Option<SizeStats>,
    pub successful_requests: Option<SizeStats>,
    pub failed_requests: Option<SizeStats>,
    pub largest_endpoint: String,
    pub failingest_endpoint: String,
}

/// `stats` are the statistics of `sizes`: `None` when there is no size.
pub open spec fn describes_sizes(stats: Option<SizeStats>, sizes: Seq<u64>) -> bool {
    match stats {
        Some(stats) => stats.describes(sizes),
        None => sizes.len() == 0,
    }
}

/// How many sizes the statistics are about.
pub open spec fn count_of(stats: Option<SizeStats>) -> nat {
    match stats {
        Some(stats) => stats.count as nat,
        None => 0,
    }
}

/// The number of records per status code.
pub fn status_counts(log: &NginxLog) -> (counts: BTreeMap<u16, usize>)
    ensures
        as_counts(counts@) == status_counts_of(log@),
        total_of(as_counts(counts@)) == log@.len(),
{
    let mut counts: BTreeMap<u16, usize> = BTreeMap::new();
    let mut at: usize = 0;
    assert(as_counts(counts@) =~= status_counts_of(log@.take(0))) by {
        assert forall|code: u16| occurrences(log@.take(0), code) == 0 by {
            log@.take(0).lemma_filter_len(has_status(code));
        }
    }
    while at < log.0.len()
        invariant
            at <= log.0.len(),
            as_counts(counts@) == status_counts_of(log@.take(at as int)),
        decreases log.0.len() - at,
    {
        let code: u16 = log.0[at].response;
        let seen: usize = match counts.get(&code) {
            Some(count) => *count,
            None => 0,
        };
        proof {
            lemma_status_counts_push(log@.take(at as int), log@[at as int]);
            assert(log@.take(at as int).push(log@[at as int]) == log@.take(at + 1));
            assert(status_counts_of(log@.take(at as int)).contains_key(code)
                == counts@.contains_key(code));
            if counts@.contains_key(code) {
                assert(as_counts(counts@)[code] == counts@[code]);
            }
            assert(seen == occurrences(log@.take(at as int), code));
        }
        let ghost before = counts@;
        counts.insert(code, seen + 1);
        at = at + 1;
        assert(as_counts(counts@) =~= as_counts(before).insert(code, (seen + 1) as nat));
    }
    proof {
        assert(log@.take(at as int) == log@);
        lemma_status_counts_total(log@);
    }
    counts
}

/// The first record with the largest response, or `None` when no response
/// has any byte.
pub fn largest_record(log: &NginxLog) -> (largest: Option<usize>)
    ensures
        match largest {
            Some(index) => is_first_largest(log@, index as int),
            None => !any_bytes(log@),
        },
{
    let mut largest: Option<usize> = None;
    let mut most: u64 = 0;
    let mut at: usize = 0;
    while at < log.0.len()
        invariant
            at <= log.0.len(),
            forall|i: int| 0 <= i < at ==> (#[trigger] log@[i]).bytes <= most,
            match largest {
                Some(index) => {
                    &&& index < at
                    &&& log@[index as int].bytes == most
                    &&& most > 0
                    &&& forall|i: int| 0 <= i < index ==> (#[trigger] log@[i]).bytes < most
                },
                None => most == 0,
            },
        decreases log.0.len() - at,
    {
        if log.0[at].bytes > most {
            most = log.0[at].bytes;
            largest = Some(at);
        }
        at = at + 1;
    }
    largest
}

/// The endpoint of the first record with the largest response; empty when no
/// response has any byte.
pub fn largest_endpoint(log: &NginxLog) -> (endpoint: String)
    ensures
        is_largest_endpoint(log@, endpoint@),
{
    match largest_record(log) {
        Some(index) => {
            assert(log@[index as int].bytes > 0);
            log.0[index].endpoint()
        },
        None => String::new(),
    }
}

/// The number of failed requests per endpoint.
pub fn endpoint_failures(log: &NginxLog) -> (failures: EndpointFailures)
    ensures
        failures.wf(),
        failures@ == failures_of(log@),
{
    let mut failures = EndpointFailures::new();
    let mut at: usize = 0;
    assert(failures@ =~= failures_of(log@.take(0))) by {
        assert forall|endpoint: Seq<char>| failures_at(log@.take(0), endpoint) == 0 by {
            log@.take(0).lemma_filter_len(fails_at(endpoint));
        }
    }
    while at < log.0.len()
        invariant
            at <= log.0.len(),
            failures.wf(),
            failures@ == failures_of(log@.take(at as int)),
        decreases log.0.len() - at,
    {
        proof {
            lemma_failures_push(log@.take(at as int), log@[at as int]);
            assert(log@.take(at as int).push(log@[at as int]) == log@.take(at + 1));
        }
        if log.0[at].is_failed() {
            failures.add(log.0[at].endpoint());
        }
        at = at + 1;
    }
    assert(log@.take(at as int) == log@);
    failures
}

/// The endpoint with the most failed requests. Of several endpoints with as
/// many failures the first in lexicographic order is returned, and `"/"` when
/// no request has failed.
pub fn failingest_endpoint(log: &NginxLog) -> (endpoint: String)
    ensures
        is_failingest_endpoint(log@, endpoint@),
{
    let failures = endpoint_failures(log);
    proof {
        reveal_strlit("/");
        lemma_failures_of_any_failed(log@);
    }
    match failures.most_failing() {
        Some(endpoint) => {
            assert(failures_of(log@).contains_key(endpoint@));
            assert(any_failed(log@));
            endpoint
        },
        None => {
            assert(forall|e: Seq<char>| !failures_of(log@).contains_key(e));
            assert(!any_failed(log@));
            let root = "/".to_owned();
            assert(root@ == seq!['/']);
            root
        },
    }
}

impl LogStats {
    /// These are the statistics of `records`.
    pub open spec fn summarizes(&self, records: Seq<NginxLogLine>) -> bool {
        &&& as_counts(self.status_count@) == status_counts_of(records)
        &&& describes_sizes(self.all_requests, sizes_of(records))
        &&& describes_sizes(self.successful_requests, sizes_with_outcome(records, false))
        &&& describes_sizes(self.failed_requests, sizes_with_outcome(records, true))
        &&& is_largest_endpoint(records, self.largest_endpoint@)
        &&& is_failingest_endpoint(records, self.failingest_endpoint@)
    }

    /// Creates a new LogStats from an NginxLog
    ///
    /// # Arguments
    ///
    /// * `log` - The NginxLog to generate statistics from
    ///
    /// # Returns
    ///
    /// A new LogStats instance
    pub fn from_nginx_log(log: &NginxLog) -> (stats: Self)
        ensures
            stats.summarizes(log@),
            total_of(as_counts(stats.status_count@)) == log@.len(),
            count_of(stats.all_requests) == log@.len(),
            count_of(stats.successful_requests) + count_of(stats.failed_requests) == log@.len(),
    {
        proof {
            lemma_partition(log@);
        }
        LogStats {
            status_count: status_counts(log),
            all_requests: SizeStats::from_sizes(log.sizes()),
            successful_requests: SizeStats::from_sizes(log.sizes_with_outcome(false)),
            failed_requests: SizeStats::from_sizes(log.sizes_with_outcome(true)),
            largest_endpoint: largest_endpoint(log),
            failingest_endpoint: failingest_endpoint(log),
        }
    }
}

/// The records determine their statistics: two summaries of the same records
/// agree in every part.
pub proof fn lemma_summary_unique(records: Seq<NginxLogLine>, first: LogStats, second: LogStats)
    requires
        first.summarizes(records),
        second.summarizes(records),
    ensures
        first.status_count@ == second.status_count@,
        first.all_requests == second.all_requests,
        first.successful_requests == second.successful_requests,
        first.failed_requests == second.failed_requests,
        first.largest_endpoint@ == second.largest_endpoint@,
        first.failingest_endpoint@ == second.failingest_endpoint@,
{
    lemma_largest_endpoint_unique(records, first.largest_endpoint@, second.largest_endpoint@);
    lemma_failingest_endpoint_unique(
        records,
        first.failingest_endpoint@,
        second.failingest_endpoint@,
    );
    let a = first.status_count@;
    let b = second.status_count@;
    assert(a =~= b) by {
        assert forall|code: u16|
            (#[trigger] a.contains_key(code)) == b.contains_key(code) && (a.contains_key(code)
                ==> a[code] == b[code]) by {
            assert(as_counts(a).contains_key(code) == a.contains_key(code));
            assert(as_counts(b).contains_key(code) == b.contains_key(code));
            if a.contains_key(code) {
                assert(as_counts(a)[code] == a[code]);
                assert(as_counts(b)[code] == b[code]);
            }
        }
    }
}

} // verus!
