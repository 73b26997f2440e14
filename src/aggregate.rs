use std::collections::HashMap;
use vstd::prelude::*;

use crate::graph::{
    BaselinePolicy, InteractionGraph, MAX_SAMPLES, RatingSample, baseline, batch_verdict,
    count_where, edges_count_where, ratings_of_entity, groups_count_where, lemma_count_where_bound,
    lemma_edges_count_prefix, lemma_edges_count_step, lemma_groups_count_prefix,
    lemma_groups_count_step, sample_of,
};
use crate::stats::{EntityStatistics, Quotient, classify};

verus! {

/// Corpus-wide counts of one batch run.
#[derive(Clone, Copy, Debug, PartialEq, Eq, Structural)]
pub struct AggregateStats {
    pub total: u32,
    pub normal: u32,
    pub anomalous: u32,
}

impl AggregateStats {
    /// The all-zero result, which also stands in for a run that failed.
    pub fn zero() -> (r: AggregateStats)
        ensures
            r == (AggregateStats { total: 0, normal: 0, anomalous: 0 }),
    {
        AggregateStats { total: 0, normal: 0, anomalous: 0 }
    }

    /// The share of anomalous interactions, `anomalous / total`, or `0 / 1`
    /// where there are none.
    pub fn ratio(&self) -> (r: Quotient)
        ensures
            self.total == 0 ==> r == (Quotient { numer: 0, denom: 1 }),
            self.total > 0 ==> r == (Quotient {
                numer: self.anomalous as i128,
                denom: self.total as u128,
            }),
    {
        if self.total == 0 {
            Quotient { numer: 0, denom: 1 }
        } else {
            Quotient { numer: self.anomalous as i128, denom: self.total as u128 }
        }
    }
}

/// The baseline held for `e`, or the empty one.
fn baseline_for(stats: &HashMap<i32, EntityStatistics>, e: i32) -> (r: EntityStatistics)
    ensures
        r == baseline(stats@, e),
{
    broadcast use vstd::std_specs::hash::group_hash_axioms;

    match stats.get(&e) {
        Some(s) => *s,
        None => EntityStatistics::new(),
    }
}

/// Classifies every sample against baselines built from all of `samples`, and
/// counts the verdicts: `total` is the number of samples, `anomalous` the
/// number judged anomalous under `policy`, and `normal` the rest.
pub fn aggregate(samples: &Vec<RatingSample>, policy: BaselinePolicy) -> (r: AggregateStats)
    requires
        samples.len() <= MAX_SAMPLES,
    ensures
        r.total == samples.len(),
        r.anomalous == count_where(samples@, |x: RatingSample| batch_verdict(samples@, policy, x)),
        r.normal + r.anomalous == r.total,
{
    let graph = InteractionGraph::build(samples);
    let ghost f = |x: RatingSample| batch_verdict(samples@, policy, x);
    let ghost t = |x: RatingSample| true;
    let ghost adj = graph.adjacency@;
    proof {
        lemma_count_where_bound(samples@, f);
        lemma_count_where_bound(samples@, t);
        assert(groups_count_where(adj, f) == count_where(samples@, f));
        assert(groups_count_where(adj, t) == count_where(samples@, t));
        assert(adj.take(0) =~= Seq::<crate::graph::SourceEdges>::empty());
    }
    let mut total: u32 = 0;
    let mut anomalous: u32 = 0;
    let mut gi: usize = 0;
    while gi < graph.adjacency.len()
        invariant
            samples.len() <= MAX_SAMPLES,
            graph.holds(samples@),
            forall|x: RatingSample| #[trigger] f(x) == batch_verdict(samples@, policy, x),
            forall|x: RatingSample| #[trigger] t(x),
            adj == graph.adjacency@,
            gi <= adj.len(),
            groups_count_where(adj, f) <= samples.len(),
            groups_count_where(adj, t) <= samples.len(),
            total == groups_count_where(adj.take(gi as int), t),
            anomalous == groups_count_where(adj.take(gi as int), f),
        decreases adj.len() - gi,
    {
        let group = &graph.adjacency[gi];
        let source_stats = baseline_for(&graph.stats, group.source);
        assert(source_stats == baseline(graph.stats@, group.source));
        let mut k: usize = 0;
        assert(group.edges@.take(0) =~= Seq::<crate::graph::Edge>::empty());
        while k < group.edges.len()
            invariant
                samples.len() <= MAX_SAMPLES,
                graph.holds(samples@),
                forall|x: RatingSample| #[trigger] f(x) == batch_verdict(samples@, policy, x),
                forall|x: RatingSample| #[trigger] t(x),
                adj == graph.adjacency@,
                gi < adj.len(),
                *group == adj[gi as int],
                source_stats == baseline(graph.stats@, group.source),
                k <= group.edges.len(),
                groups_count_where(adj, f) <= samples.len(),
                groups_count_where(adj, t) <= samples.len(),
                total == groups_count_where(adj.take(gi as int), t) + edges_count_where(
                    group.source,
                    group.edges@.take(k as int),
                    t,
                ),
                anomalous == groups_count_where(adj.take(gi as int), f) + edges_count_where(
                    group.source,
                    group.edges@.take(k as int),
                    f,
                ),
            decreases group.edges.len() - k,
        {
            let e = group.edges[k];
            let ghost x = sample_of(group.source, e);
            proof {
                lemma_edges_count_step(group.source, group.edges@, k as int, t);
                lemma_edges_count_step(group.source, group.edges@, k as int, f);
                lemma_edges_count_prefix(group.source, group.edges@, k as int + 1, t);
                lemma_edges_count_prefix(group.source, group.edges@, k as int + 1, f);
                lemma_groups_count_step(adj, gi as int, t);
                lemma_groups_count_step(adj, gi as int, f);
                lemma_groups_count_prefix(adj, gi as int + 1, t);
                lemma_groups_count_prefix(adj, gi as int + 1, f);
                assert(baseline(graph.stats@, x.source).wf());
                assert(baseline(graph.stats@, x.target).wf());
                assert(baseline(graph.stats@, x.source).summarizes(
                    ratings_of_entity(samples@, x.source),
                ));
                assert(baseline(graph.stats@, x.target).summarizes(
                    ratings_of_entity(samples@, x.target),
                ));
            }
            let mut verdict = classify(e.rating, &source_stats);
            if !verdict {
                match policy {
                    BaselinePolicy::SourceOnly => {},
                    BaselinePolicy::SourceAndTarget => {
                        let target_stats = baseline_for(&graph.stats, e.target);
                        verdict = classify(e.rating, &target_stats);
                    },
                }
            }
            assert(verdict == batch_verdict(samples@, policy, x));
            total = total + 1;
            if verdict {
                anomalous = anomalous + 1;
            }
            k = k + 1;
        }
        proof {
            lemma_groups_count_step(adj, gi as int, t);
            lemma_groups_count_step(adj, gi as int, f);
            assert(group.edges@.take(k as int) =~= group.edges@);
        }
        gi = gi + 1;
    }
    proof {
        assert(adj.take(gi as int) =~= adj);
    }
    AggregateStats { total, normal: total - anomalous, anomalous }
}

} // verus!
