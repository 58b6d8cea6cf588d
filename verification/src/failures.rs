//! A tally of failed requests per endpoint, kept in ascending order of the
//! endpoints.

use crate::lexical::lemma_lex_le_antisymmetric;
use crate::lexical::lemma_lex_lt_irreflexive;
use crate::lexical::lemma_lex_lt_total;
use crate::lexical::lemma_lex_lt_transitive;
use crate::lexical::lex_le;
use crate::lexical::lex_lt;
use crate::lexical::str_lt;
use vstd::prelude::*;

verus! {

/// Counts failed requests per endpoint.
///
/// The endpoints are held in strictly ascending lexicographic order, so each
/// occurs once, and each has a count of at least 1.
pub struct EndpointFailures {
    endpoints: Vec<String>,
    counts: Vec<usize>,
}

/// `endpoint` has the most failures in `failures`; where several endpoints
/// have as many, it is the one that comes first in lexicographic order.
pub open spec fn is_most_failing(failures: Map<Seq<char>, nat>, endpoint: Seq<char>) -> bool {
    &&& failures.contains_key(endpoint)
    &&& forall|other: Seq<char>| #[trigger]
        failures.contains_key(other) ==> failures[other] <= failures[endpoint]
    &&& forall|other: Seq<char>| #[trigger]
        failures.contains_key(other) && failures[other] == failures[endpoint] ==> lex_le(
            endpoint,
            other,
        )
}

/// At most one endpoint has the most failures.
pub proof fn lemma_most_failing_unique(
    failures: Map<Seq<char>, nat>,
    first: Seq<char>,
    second: Seq<char>,
)
    requires
        is_most_failing(failures, first),
        is_most_failing(failures, second),
    ensures
        first == second,
{
    lemma_lex_le_antisymmetric(first, second);
}

impl View for EndpointFailures {
    type V = Map<Seq<char>, nat>;

    /// The number of failures of each endpoint that has any.
    closed spec fn view(&self) -> Map<Seq<char>, nat> {
        Map::new(
            |e: Seq<char>| self.keys().contains(e),
            |e: Seq<char>| self.counts[self.keys().index_of(e)] as nat,
        )
    }
}

impl EndpointFailures {
    /// The endpoints on record, in the order in which they are held.
    spec fn keys(&self) -> Seq<Seq<char>> {
        Seq::new(self.endpoints.len() as nat, |i: int| self.endpoints[i]@)
    }

    /// The endpoints are strictly ascending and every count is positive.
    pub closed spec fn wf(&self) -> bool {
        &&& self.endpoints.len() == self.counts.len()
        &&& forall|i: int, j: int|
            0 <= i < j < self.keys().len() ==> lex_lt(
                #[trigger] self.keys()[i],
                #[trigger] self.keys()[j],
            )
        &&& forall|i: int| 0 <= i < self.counts.len() ==> #[trigger] self.counts[i] > 0
    }

    /// The number of failures of `endpoint`: 0 when it is not on record.
    pub open spec fn count(&self, endpoint: Seq<char>) -> nat {
        if self@.contains_key(endpoint) {
            self@[endpoint]
        } else {
            0
        }
    }

    /// Each endpoint on record is found at its own position, with its count;
    /// nothing else is on record.
    proof fn lemma_view(&self)
        requires
            self.wf(),
        ensures
            forall|i: int|
                0 <= i < self.keys().len() ==> self@.contains_key(#[trigger] self.keys()[i])
                    && self@[self.keys()[i]] == self.counts[i],
            forall|e: Seq<char>| #[trigger]
                self@.contains_key(e) ==> self.keys().contains(e) && self@[e] > 0,
    {
        assert forall|i: int| 0 <= i < self.keys().len() implies self@.contains_key(
            #[trigger] self.keys()[i],
        ) && self@[self.keys()[i]] == self.counts[i] by {
            lemma_lex_lt_irreflexive(self.keys()[i]);
        }
    }

    /// A tally without any failure.
    pub fn new() -> (tally: Self)
        ensures
            tally.wf(),
            tally@ == Map::<Seq<char>, nat>::empty(),
    {
        let tally = EndpointFailures { endpoints: Vec::new(), counts: Vec::new() };
        assert(tally@ =~= Map::<Seq<char>, nat>::empty());
        tally
    }

    /// The position of the first endpoint on record that does not come before
    /// `endpoint`.
    fn position(&self, endpoint: &str) -> (p: usize)
        requires
            self.wf(),
        ensures
            p <= self.keys().len(),
            forall|i: int| 0 <= i < p ==> lex_lt(#[trigger] self.keys()[i], endpoint@),
            forall|i: int|
                p <= i < self.keys().len() ==> !lex_lt(#[trigger] self.keys()[i], endpoint@),
    {
        let mut low: usize = 0;
        let mut high: usize = self.endpoints.len();
        while low < high
            invariant
                self.wf(),
                low <= high <= self.keys().len(),
                self.keys().len() == self.endpoints.len(),
                forall|i: int| 0 <= i < low ==> lex_lt(#[trigger] self.keys()[i], endpoint@),
                forall|i: int|
                    high <= i < self.keys().len() ==> !lex_lt(#[trigger] self.keys()[i], endpoint@),
            decreases high - low,
        {
            let middle: usize = low + (high - low) / 2;
            assert(self.keys()[middle as int] == self.endpoints[middle as int]@);
            if str_lt(self.endpoints[middle].as_str(), endpoint) {
                assert forall|i: int| 0 <= i < middle + 1 implies lex_lt(
                    #[trigger] self.keys()[i],
                    endpoint@,
                ) by {
                    if i < middle {
                        lemma_lex_lt_transitive(
                            self.keys()[i],
                            self.keys()[middle as int],
                            endpoint@,
                        );
                    }
                }
                low = middle + 1;
            } else {
                assert forall|i: int| middle <= i < self.keys().len() implies !lex_lt(
                    #[trigger] self.keys()[i],
                    endpoint@,
                ) by {
                    if i > middle && lex_lt(self.keys()[i], endpoint@) {
                        lemma_lex_lt_transitive(
                            self.keys()[middle as int],
                            self.keys()[i],
                            endpoint@,
                        );
                    }
                }
                high = middle;
            }
        }
        low
    }

    /// Records one more failure of `endpoint`.
    pub fn add(&mut self, endpoint: String)
        requires
            old(self).wf(),
            old(self).count(endpoint@) < usize::MAX,
        ensures
            final(self).wf(),
            final(self)@ == old(self)@.insert(endpoint@, old(self).count(endpoint@) + 1),
    {
        let p = self.position(endpoint.as_str());
        proof {
            self.lemma_view();
        }
        let ghost before = *self;
        if p < self.endpoints.len() && self.endpoints[p] == endpoint {
            assert(self.keys()[p as int] == endpoint@);
            let seen: usize = self.counts[p];
            self.counts.set(p, seen + 1);
            proof {
                assert(self.keys() =~= before.keys());
                assert(self.wf());
                self.lemma_view();
                assert(self@ =~= before@.insert(endpoint@, before.count(endpoint@) + 1)) by {
                    assert forall|e: Seq<char>| #[trigger]
                        self@.contains_key(e) implies self@[e] == (if e == endpoint@ {
                        before.count(endpoint@) + 1
                    } else {
                        before@[e]
                    }) by {
                        let i = self.keys().index_of(e);
                        assert(self.keys()[i] == e);
                    }
                }
            }
        } else {
            proof {
                if p < self.keys().len() {
                    assert(self.keys()[p as int] == self.endpoints[p as int]@);
                    lemma_lex_lt_total(endpoint@, self.keys()[p as int]);
                }
                assert(!before.keys().contains(endpoint@)) by {
                    if before.keys().contains(endpoint@) {
                        let i = before.keys().index_of(endpoint@);
                        lemma_lex_lt_irreflexive(endpoint@);
                        if i > p {
                            lemma_lex_lt_transitive(
                                endpoint@,
                                before.keys()[p as int],
                                before.keys()[i],
                            );
                        }
                    }
                }
            }
            self.endpoints.insert(p, endpoint);
            self.counts.insert(p, 1);
            proof {
                assert(self.keys() =~= before.keys().insert(p as int, endpoint@));
                assert forall|i: int, j: int| 0 <= i < j < self.keys().len() implies lex_lt(
                    #[trigger] self.keys()[i],
                    #[trigger] self.keys()[j],
                ) by {
                    if i == p {
                        assert(self.keys()[j] == before.keys()[j - 1]);
                        if j - 1 > p {
                            lemma_lex_lt_transitive(
                                endpoint@,
                                before.keys()[p as int],
                                before.keys()[j - 1],
                            );
                        }
                    } else if j == p {
                        assert(self.keys()[i] == before.keys()[i]);
                    } else {
                        let bi = if i < p { i } else { i - 1 };
                        let bj = if j < p { j } else { j - 1 };
                        assert(self.keys()[i] == before.keys()[bi]);
                        assert(self.keys()[j] == before.keys()[bj]);
                    }
                }
                assert(self.wf());
                self.lemma_view();
                assert(self@ =~= before@.insert(endpoint@, before.count(endpoint@) + 1)) by {
                    assert(self.keys()[p as int] == endpoint@);
                    assert forall|e: Seq<char>| #[trigger]
                        before@.contains_key(e) implies self@.contains_key(e) && (e != endpoint@
                        ==> self@[e] == before@[e]) by {
                        let i = before.keys().index_of(e);
                        assert(before.keys()[i] == e);
                        let ni = if i < p { i } else { i + 1 };
                        assert(self.keys()[ni] == e);
                    }
                    assert forall|e: Seq<char>| #[trigger]
                        self@.contains_key(e) implies e == endpoint@ || before@.contains_key(e) by {
                        let i = self.keys().index_of(e);
                        assert(self.keys()[i] == e);
                        if i != p {
                            let bi = if i < p { i } else { i - 1 };
                            assert(before.keys()[bi] == e);
                        }
                    }
                }
            }
        }
    }

    /// The number of failures on record for `endpoint`.
    pub fn failures_at(&self, endpoint: &str) -> (failures: usize)
        requires
            self.wf(),
        ensures
            failures == self.count(endpoint@),
    {
        let p = self.position(endpoint);
        proof {
            self.lemma_view();
        }
        // The endpoint at `p` does not come before `endpoint`: it is
        // `endpoint` unless it comes after it.
        if p < self.endpoints.len() && !str_lt(endpoint, self.endpoints[p].as_str()) {
            proof {
                assert(self.keys()[p as int] == self.endpoints[p as int]@);
                lemma_lex_lt_total(endpoint@, self.keys()[p as int]);
            }
            self.counts[p]
        } else {
            proof {
                if self.keys().contains(endpoint@) {
                    let i = self.keys().index_of(endpoint@);
                    lemma_lex_lt_irreflexive(endpoint@);
                    if i > p {
                        assert(self.keys()[p as int] == self.endpoints[p as int]@);
                        lemma_lex_lt_transitive(endpoint@, self.keys()[p as int], self.keys()[i]);
                    }
                }
            }
            0
        }
    }

    /// The endpoint with the most failures, or `None` when there is no
    /// failure on record. Where several endpoints have as many failures, the
    /// one that comes first in lexicographic order is returned.
    pub fn most_failing(&self) -> (worst: Option<String>)
        requires
            self.wf(),
        ensures
            match worst {
                Some(endpoint) => is_most_failing(self@, endpoint@),
                None => self@ == Map::<Seq<char>, nat>::empty(),
            },
    {
        proof {
            self.lemma_view();
        }
        if self.endpoints.len() == 0 {
            assert(self@ =~= Map::<Seq<char>, nat>::empty());
            return None;
        }
        let mut best: usize = 0;
        let mut at: usize = 1;
        while at < self.endpoints.len()
            invariant
                self.wf(),
                self.endpoints.len() == self.counts.len(),
                best < at <= self.endpoints.len(),
                forall|i: int| 0 <= i < at ==> self.counts[i] <= self.counts[best as int],
                forall|i: int| 0 <= i < best ==> self.counts[i] < self.counts[best as int],
            decreases self.endpoints.len() - at,
        {
            if self.counts[at] > self.counts[best] {
                best = at;
            }
            at = at + 1;
        }
        let worst = self.endpoints[best].clone();
        proof {
            assert(self.keys()[best as int] == worst@);
            assert forall|other: Seq<char>| #[trigger]
                self@.contains_key(other) implies self@[other] <= self@[worst@] && (self@[other]
                == self@[worst@] ==> lex_le(worst@, other)) by {
                let i = self.keys().index_of(other);
                assert(self.keys()[i] == other);
            }
        }
        Some(worst)
    }
}

} // verus!
