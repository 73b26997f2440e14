use vstd::prelude::*;

use crate::aggregate::{AggregateStats, aggregate};
use crate::graph::{BaselinePolicy, MAX_SAMPLES, RatingSample, batch_verdict, count_where};
use crate::ingest::ingest_verdict;
use crate::stats::anomalous_against_history;

verus! {

/// The marker stored with every new sample: not yet determined.
pub const UNDETERMINED: i16 = 0;

/// The sample that an append of these values stores.
pub open spec fn stored_sample(source: i32, target: i32, rating: i32, timestamp: i64) -> RatingSample {
    RatingSample { source, target, rating, timestamp, anomaly: UNDETERMINED }
}

/// The ratings that `source` issued in `samples`, in order.
pub open spec fn ratings_issued_by(samples: Seq<RatingSample>, source: i32) -> Seq<i32>
    decreases samples.len(),
{
    if samples.len() == 0 {
        Seq::empty()
    } else {
        let prev = ratings_issued_by(samples.drop_last(), source);
        if samples.last().source == source {
            prev.push(samples.last().rating)
        } else {
            prev
        }
    }
}

proof fn lemma_issued_len(samples: Seq<RatingSample>, source: i32)
    ensures
        ratings_issued_by(samples, source).len() <= samples.len(),
    decreases samples.len(),
{
    if samples.len() > 0 {
        lemma_issued_len(samples.drop_last(), source);
    }
}

/// An append-only log of samples held in memory.
pub struct SampleLog {
    samples: Vec<RatingSample>,
}

impl View for SampleLog {
    type V = Seq<RatingSample>;

    closed spec fn view(&self) -> Seq<RatingSample> {
        self.samples@
    }
}

/// Appending a sample and listing the log gives back the earlier samples
/// unchanged, followed by one that carries the source, target, rating and
/// timestamp as they were submitted, with the undetermined marker.
pub proof fn lemma_append_round_trip(
    log: Seq<RatingSample>,
    source: i32,
    target: i32,
    rating: i32,
    timestamp: i64,
)
    ensures
        log.push(stored_sample(source, target, rating, timestamp)).drop_last() == log,
        ({
            let last = log.push(stored_sample(source, target, rating, timestamp)).last();
            &&& last.source == source
            &&& last.target == target
            &&& last.rating == rating
            &&& last.timestamp == timestamp
            &&& last.anomaly == UNDETERMINED
        }),
{
    assert(log.push(stored_sample(source, target, rating, timestamp)).drop_last() =~= log);
}

impl SampleLog {
    /// An empty log.
    pub fn new() -> (r: SampleLog)
        ensures
            r@ == Seq::<RatingSample>::empty(),
    {
        SampleLog { samples: Vec::new() }
    }

    /// The number of stored samples.
    pub fn len(&self) -> (r: usize)
        ensures
            r == self@.len(),
    {
        self.samples.len()
    }

    /// Stores a new sample with the undetermined marker at the end of the log.
    pub fn append(&mut self, source: i32, target: i32, rating: i32, timestamp: i64)
        ensures
            final(self)@ == old(self)@.push(stored_sample(source, target, rating, timestamp)),
    {
        self.samples.push(RatingSample { source, target, rating, timestamp, anomaly: UNDETERMINED });
    }

    /// Every stored sample, in order of arrival.
    pub fn list_all(&self) -> (r: Vec<RatingSample>)
        ensures
            r@ == self@,
    {
        let mut out: Vec<RatingSample> = Vec::new();
        let mut i: usize = 0;
        while i < self.samples.len()
            invariant
                i <= self.samples@.len(),
                out@ == self.samples@.take(i as int),
            decreases self.samples@.len() - i,
        {
            out.push(self.samples[i]);
            i = i + 1;
            assert(out@ =~= self.samples@.take(i as int));
        }
        assert(self.samples@.take(i as int) =~= self.samples@);
        out
    }

    /// The ratings that `source` has issued, in order of arrival.
    pub fn ratings_by_source(&self, source: i32) -> (r: Vec<i32>)
        ensures
            r@ == ratings_issued_by(self@, source),
    {
        let mut out: Vec<i32> = Vec::new();
        let mut i: usize = 0;
        assert(self.samples@.take(0) =~= Seq::<RatingSample>::empty());
        while i < self.samples.len()
            invariant
                i <= self.samples@.len(),
                out@ == ratings_issued_by(self.samples@.take(i as int), source),
            decreases self.samples@.len() - i,
        {
            assert(self.samples@.take(i as int + 1).drop_last() =~= self.samples@.take(i as int));
            if self.samples[i].source == source {
                out.push(self.samples[i].rating);
            }
            i = i + 1;
        }
        assert(self.samples@.take(i as int) =~= self.samples@);
        out
    }

    /// The incremental path: stores the new sample first, whatever its verdict,
    /// then judges its rating against every rating its source has issued, the
    /// new one included. The verdict is not written back to the log.
    pub fn ingest(&mut self, source: i32, target: i32, rating: i32, timestamp: i64) -> (r: bool)
        requires
            old(self)@.len() < MAX_SAMPLES,
        ensures
            final(self)@ == old(self)@.push(stored_sample(source, target, rating, timestamp)),
            r == anomalous_against_history(rating as int, ratings_issued_by(final(self)@, source)),
    {
        self.append(source, target, rating, timestamp);
        let history = self.ratings_by_source(source);
        proof {
            lemma_issued_len(self@, source);
        }
        ingest_verdict(&history, rating)
    }

    /// The batch path over the whole log.
    pub fn aggregate(&self, policy: BaselinePolicy) -> (r: AggregateStats)
        requires
            self@.len() <= MAX_SAMPLES,
        ensures
            r.total == self@.len(),
            r.anomalous == count_where(self@, |x: RatingSample| batch_verdict(self@, policy, x)),
            r.normal + r.anomalous == r.total,
    {
        aggregate(&self.samples, policy)
    }
}

} // verus!
