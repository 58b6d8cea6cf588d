//! The records of an Nginx access log.

use crate::endpoint::endpoint;
use crate::endpoint::endpoint_of;
use vstd::prelude::*;

verus! {

/// The lowest status code that counts as a failed request.
pub const FAILURE_STATUS: u16 = 400;

/// Represents a single line in an Nginx log file
#[derive(Debug, Clone)]
pub struct NginxLogLine {
    pub time: String,
    pub remote_ip: String,
    pub remote_user: String,
    pub request: String,
    pub response: u16,
    pub bytes: u64,
    pub referrer: String,
    pub agent: String,
}

/// Represents an entire Nginx log file: its lines, in the order of the file
pub struct NginxLog(pub Vec<NginxLogLine>);

impl NginxLogLine {
    /// A request has failed when its status code is 400 or above.
    pub open spec fn failed(self) -> bool {
        self.response >= FAILURE_STATUS
    }

    /// A request was successful when its status code is below 400.
    pub open spec fn successful(self) -> bool {
        self.response < FAILURE_STATUS
    }

    /// The endpoint that the request asked for.
    pub open spec fn endpoint_view(self) -> Seq<char> {
        endpoint_of(self.request@)
    }

    /// Tells whether the request has failed.
    pub fn is_failed(&self) -> (failed: bool)
        ensures
            failed == self.failed(),
    {
        self.response >= FAILURE_STATUS
    }

    /// The endpoint that the request asked for: the second
    /// whitespace-delimited token of the request line, or `"/"` when the
    /// line has fewer than two tokens.
    pub fn endpoint(&self) -> (e: String)
        ensures
            e@ == self.endpoint_view(),
    {
        endpoint(self.request.as_str())
    }
}

impl View for NginxLog {
    type V = Seq<NginxLogLine>;

    open spec fn view(&self) -> Seq<NginxLogLine> {
        self.0@
    }
}

/// Holds of the failed records (`failed == true`) or of the successful ones
/// (`failed == false`).
pub open spec fn has_outcome(failed: bool) -> spec_fn(NginxLogLine) -> bool {
    |line: NginxLogLine|
        if failed {
            line.failed()
        } else {
            line.successful()
        }
}

/// The response sizes of the records, in the order of the records.
pub open spec fn sizes_of(records: Seq<NginxLogLine>) -> Seq<u64> {
    Seq::new(records.len(), |i: int| records[i].bytes)
}

/// The response sizes of the failed records (`failed == true`) or of the
/// successful ones (`failed == false`), in the order of the records.
pub open spec fn sizes_with_outcome(records: Seq<NginxLogLine>, failed: bool) -> Seq<u64> {
    sizes_of(records.filter(has_outcome(failed)))
}

/// One more record adds its size where its outcome is the one asked for.
pub proof fn lemma_sizes_with_outcome_push(
    records: Seq<NginxLogLine>,
    line: NginxLogLine,
    failed: bool,
)
    ensures
        sizes_with_outcome(records.push(line), failed) == if has_outcome(failed)(line) {
            sizes_with_outcome(records, failed).push(line.bytes)
        } else {
            sizes_with_outcome(records, failed)
        },
{
    records.lemma_filter_push(line, has_outcome(failed));
    if has_outcome(failed)(line) {
        assert(sizes_of(records.filter(has_outcome(failed)).push(line)) =~= sizes_of(
            records.filter(has_outcome(failed)),
        ).push(line.bytes));
    }
}

impl NginxLog {
    /// The response sizes of all records, in the order of the records.
    pub fn sizes(&self) -> (sizes: Vec<u64>)
        ensures
            sizes@ == sizes_of(self@),
    {
        let mut sizes: Vec<u64> = Vec::new();
        let mut at: usize = 0;
        while at < self.0.len()
            invariant
                at <= self.0.len(),
                sizes@ == sizes_of(self@.take(at as int)),
            decreases self.0.len() - at,
        {
            sizes.push(self.0[at].bytes);
            at = at + 1;
            assert(sizes@ =~= sizes_of(self@.take(at as int)));
        }
        assert(self@.take(at as int) == self@);
        sizes
    }

    /// The response sizes of the failed records (`failed == true`) or of the
    /// successful ones (`failed == false`), in the order of the records.
    pub fn sizes_with_outcome(&self, failed: bool) -> (sizes: Vec<u64>)
        ensures
            sizes@ == sizes_with_outcome(self@, failed),
    {
        let mut sizes: Vec<u64> = Vec::new();
        let mut at: usize = 0;
        assert(self@.take(0).filter(has_outcome(failed)) =~= Seq::empty()) by {
            self@.take(0).lemma_filter_len(has_outcome(failed));
        }
        while at < self.0.len()
            invariant
                at <= self.0.len(),
                sizes@ == sizes_with_outcome(self@.take(at as int), failed),
            decreases self.0.len() - at,
        {
            proof {
                lemma_sizes_with_outcome_push(self@.take(at as int), self@[at as int], failed);
                assert(self@.take(at as int).push(self@[at as int]) == self@.take(at + 1));
            }
            if self.0[at].is_failed() == failed {
                sizes.push(self.0[at].bytes);
            }
            at = at + 1;
        }
        assert(self@.take(at as int) == self@);
        sizes
    }
}

} // verus!
