//! The shape of the search backend's answers.

use crate::search_facets::{RawFacetBucket, RawFacetKey};
use crate::text::same_text;
use vstd::prelude::*;

verus! {

/// One matching row with its rank.
#[derive(Debug, Clone, PartialEq, Eq)]
pub struct RawSearchResultHit<T> {
    pub _source: T,
    pub _score: u64,
}

/// The matching rows of an answer.
#[derive(Debug, Clone, PartialEq, Eq)]
pub struct RawSearchResultHits<T> {
    pub hits: Vec<RawSearchResultHit<T>>,
    pub total: u64,
    pub total_relation: String,
}

/// One bucket of an aggregation.
#[derive(Debug, Clone, PartialEq, Eq)]
pub struct RawSearchResultAggregationBucket {
    pub key: RawFacetKey,
    pub _duplicate_count: u64,
    pub doc_count: u64,
}

/// The buckets of one aggregation.
#[derive(Debug, Clone, PartialEq, Eq)]
pub struct RawSearchResultAggregation {
    pub buckets: Vec<RawSearchResultAggregationBucket>,
}

/// An answer of the search backend: rows, and aggregations by name.
#[derive(Debug, Clone, PartialEq, Eq)]
pub struct RawSarchResult<T> {
    pub hits: RawSearchResultHits<T>,
    pub timed_out: bool,
    pub took: u64,
    pub aggregations: Option<Vec<(String, RawSearchResultAggregation)>>,
}

/// The place of the first aggregation named `name` among `aggregations`,
/// or their number where none has that name.
pub open spec fn aggregation_place(
    aggregations: Seq<(String, RawSearchResultAggregation)>,
    name: Seq<char>,
) -> int
    decreases aggregations.len(),
{
    if aggregations.len() == 0 {
        0
    } else if aggregations[0].0@ == name {
        0
    } else {
        1 + aggregation_place(aggregations.skip(1), name)
    }
}

/// The buckets of the aggregation `name` with their distinct-document
/// counts, in the backend's order; none where the answer has no such
/// aggregation.
pub open spec fn named_buckets<T>(answer: RawSarchResult<T>, name: Seq<char>) -> Seq<
    RawFacetBucket,
> {
    match answer.aggregations {
        None => Seq::empty(),
        Some(aggregations) => {
            let place = aggregation_place(aggregations@, name);
            if place < aggregations@.len() {
                aggregations@[place].1.buckets@.map_values(
                    |b: RawSearchResultAggregationBucket|
                        RawFacetBucket { key: b.key, doc_count: b.doc_count },
                )
            } else {
                Seq::empty()
            }
        },
    }
}

/// Entries with other names in front do not change which entry is found.
proof fn lemma_aggregation_place(
    aggregations: Seq<(String, RawSearchResultAggregation)>,
    name: Seq<char>,
    k: int,
)
    requires
        0 <= k <= aggregations.len(),
        forall|i: int| 0 <= i < k ==> (#[trigger] aggregations[i]).0@ != name,
    ensures
        aggregation_place(aggregations, name) == k + aggregation_place(aggregations.skip(k), name),
    decreases k,
{
    if k == 0 {
        assert(aggregations.skip(0) =~= aggregations);
    } else {
        lemma_aggregation_place(aggregations.skip(1), name, k - 1);
        assert(aggregations.skip(1).skip(k - 1) =~= aggregations.skip(k));
    }
}

/// The buckets of the aggregation `name` of `answer`.
pub fn aggregation_buckets<T>(answer: &RawSarchResult<T>, name: &str) -> (buckets: Vec<
    RawFacetBucket,
>)
    ensures
        buckets@ == named_buckets(*answer, name@),
{
    let mut buckets: Vec<RawFacetBucket> = Vec::new();
    match &answer.aggregations {
        None => {},
        Some(aggregations) => {
            let mut k: usize = 0;
            while k < aggregations.len() && !same_text(aggregations[k].0.as_str(), name)
                invariant
                    k <= aggregations.len(),
                    forall|i: int| 0 <= i < k ==> (#[trigger] aggregations@[i]).0@ != name@,
                decreases aggregations.len() - k,
            {
                k += 1;
            }
            proof {
                lemma_aggregation_place(aggregations@, name@, k as int);
                if k < aggregations.len() {
                    assert(aggregations@.skip(k as int)[0] == aggregations@[k as int]);
                }
            }
            if k < aggregations.len() {
                let found = &aggregations[k].1.buckets;
                let ghost wanted = named_buckets(*answer, name@);
                let mut j: usize = 0;
                while j < found.len()
                    invariant
                        j <= found.len(),
                        wanted.len() == found@.len(),
                        forall|i: int|
                            0 <= i < found@.len() ==> wanted[i] == (RawFacetBucket {
                                key: (#[trigger] found@[i]).key,
                                doc_count: found@[i].doc_count,
                            }),
                        buckets@ == wanted.take(j as int),
                    decreases found.len() - j,
                {
                    let key = match &found[j].key {
                        RawFacetKey::Text(s) => RawFacetKey::Text(s.clone()),
                        RawFacetKey::Number(n) => RawFacetKey::Number(*n),
                        RawFacetKey::Other => RawFacetKey::Other,
                    };
                    buckets.push(RawFacetBucket { key, doc_count: found[j].doc_count });
                    proof {
                        assert(buckets@ =~= wanted.take(j + 1));
                    }
                    j += 1;
                }
                proof {
                    assert(wanted.take(found.len() as int) =~= wanted);
                }
            }
        },
    }
    buckets
}

} // verus!
