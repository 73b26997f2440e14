use vstd::prelude::*;

use crate::aggregate::AggregateStats;
use crate::graph::RatingSample;
use crate::stats::{EntityStatistics, anomalous_against_history, classify};

verus! {

/// Why an operation against the sample store could not be completed.
#[derive(Debug)]
pub enum ServiceError {
    /// No storage address is configured.
    ConfigurationMissing,
    /// Connecting to, querying or writing the store failed; the store's own words.
    StorageUnavailable(String),
}

/// The answer to one ingest call: a status text and the verdict.
#[derive(Debug)]
pub struct InteractionResponse {
    pub status: String,
    pub is_anomaly: bool,
}

impl ServiceError {
    /// A human-readable diagnostic, never empty.
    pub fn describe(&self) -> (r: String)
        ensures
            r@.len() > 0,
    {
        match self {
            ServiceError::ConfigurationMissing => {
                let r = String::from_str("storage address is not configured");
                proof {
                    reveal_strlit("storage address is not configured");
                }
                r
            },
            ServiceError::StorageUnavailable(msg) => {
                let mut r = String::from_str("storage unavailable: ");
                proof {
                    reveal_strlit("storage unavailable: ");
                }
                r.append(msg.as_str());
                r
            },
        }
    }
}

/// The verdict of the incremental path on a new `rating`, judged against the
/// ratings `history` that its source has issued.
pub fn ingest_verdict(history: &Vec<i32>, rating: i32) -> (r: bool)
    requires
        history.len() < u32::MAX,
    ensures
        r == anomalous_against_history(rating as int, history@),
{
    let stats = EntityStatistics::from_ratings(history);
    classify(rating, &stats)
}

/// Turns the outcome of an ingest into its always-populated answer: the
/// verdict with status "Anomaly" or "Normal", or, on any failure, a verdict of
/// normal and a status that carries the diagnostic.
pub fn ingest_response(outcome: Result<bool, ServiceError>) -> (r: InteractionResponse)
    ensures
        outcome == Ok::<bool, ServiceError>(true) ==> r.is_anomaly && r.status@ == "Anomaly"@,
        outcome == Ok::<bool, ServiceError>(false) ==> !r.is_anomaly && r.status@ == "Normal"@,
        outcome is Err ==> !r.is_anomaly && r.status@.len() > 0,
{
    proof {
        reveal_strlit("Anomaly");
        reveal_strlit("Normal");
    }
    match outcome {
        Ok(is_anomaly) => {
            let status = if is_anomaly {
                String::from_str("Anomaly")
            } else {
                String::from_str("Normal")
            };
            InteractionResponse { status, is_anomaly }
        },
        Err(e) => {
            let mut status = String::from_str("Error processing interaction: ");
            let detail = e.describe();
            status.append(detail.as_str());
            InteractionResponse { status, is_anomaly: false }
        },
    }
}

/// The counts of a batch run, or all zeros where the run failed.
pub fn stats_or_zero(outcome: Result<AggregateStats, ServiceError>) -> (r: AggregateStats)
    ensures
        outcome is Ok ==> r == outcome->Ok_0,
        outcome is Err ==> r == (AggregateStats { total: 0, normal: 0, anomalous: 0 }),
{
    match outcome {
        Ok(s) => s,
        Err(_) => AggregateStats::zero(),
    }
}

/// The listed samples, or none where the listing failed.
pub fn samples_or_empty(outcome: Result<Vec<RatingSample>, ServiceError>) -> (r: Vec<RatingSample>)
    ensures
        outcome is Ok ==> r@ == outcome->Ok_0@,
        outcome is Err ==> r@.len() == 0,
{
    match outcome {
        Ok(v) => v,
        Err(_) => Vec::new(),
    }
}

} // verus!
