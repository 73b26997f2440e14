use std::collections::HashMap;
use vstd::prelude::*;

use crate::stats::{EntityStatistics, anomalous_against_history};

verus! {

/// Interactions beyond this many are not taken in one run: a self-rating folds
/// its rating into one baseline twice, and a baseline counts in `u32`.
pub const MAX_SAMPLES: usize = 0x7fff_ffff;

/// One stored interaction: `source` gave `target` the rating `rating`.
#[derive(Clone, Copy, Debug, PartialEq, Eq, Structural)]
pub struct RatingSample {
    pub source: i32,
    pub target: i32,
    /// In thousandths (see `RATING_SCALE`).
    pub rating: i32,
    /// Seconds since the epoch, assigned when the sample was stored.
    pub timestamp: i64,
    /// The marker stored with the sample; written as 0 ("undetermined") and
    /// never updated from a computed verdict.
    pub anomaly: i16,
}

/// An outgoing edge of a source entity.
#[derive(Clone, Copy, Debug, PartialEq, Eq, Structural)]
pub struct Edge {
    pub target: i32,
    pub rating: i32,
    pub timestamp: i64,
    pub anomaly: i16,
}

/// The outgoing edges of one source entity, in order of arrival.
#[derive(Debug)]
pub struct SourceEdges {
    pub source: i32,
    pub edges: Vec<Edge>,
}

/// Which baselines an edge is judged against.
#[derive(Clone, Copy, Debug, PartialEq, Eq, Structural)]
pub enum BaselinePolicy {
    /// Against its source's statistics only.
    SourceOnly,
    /// Anomalous where its source's or its target's statistics call it so.
    SourceAndTarget,
}

/// The sample that an edge of `source` stands for.
pub open spec fn sample_of(source: i32, e: Edge) -> RatingSample {
    RatingSample {
        source,
        target: e.target,
        rating: e.rating,
        timestamp: e.timestamp,
        anomaly: e.anomaly,
    }
}

/// The ratings folded into entity `e`'s baseline by a batch run over
/// `samples`: each sample's rating once where `e` is its source and once where
/// `e` is its target.
pub open spec fn ratings_of_entity(samples: Seq<RatingSample>, e: i32) -> Seq<i32>
    decreases samples.len(),
{
    if samples.len() == 0 {
        Seq::empty()
    } else {
        let prev = ratings_of_entity(samples.drop_last(), e);
        let x = samples.last();
        let once = if x.source == e {
            prev.push(x.rating)
        } else {
            prev
        };
        if x.target == e {
            once.push(x.rating)
        } else {
            once
        }
    }
}

/// How many of `samples` satisfy `f`.
pub open spec fn count_where(samples: Seq<RatingSample>, f: spec_fn(RatingSample) -> bool) -> nat
    decreases samples.len(),
{
    if samples.len() == 0 {
        0
    } else {
        count_where(samples.drop_last(), f) + if f(samples.last()) {
            1nat
        } else {
            0nat
        }
    }
}

/// How many edges of `source` stand for a sample that satisfies `f`.
pub open spec fn edges_count_where(
    source: i32,
    edges: Seq<Edge>,
    f: spec_fn(RatingSample) -> bool,
) -> nat
    decreases edges.len(),
{
    if edges.len() == 0 {
        0
    } else {
        edges_count_where(source, edges.drop_last(), f) + if f(sample_of(source, edges.last())) {
            1nat
        } else {
            0nat
        }
    }
}

/// How many edges of all groups stand for a sample that satisfies `f`.
pub open spec fn groups_count_where(groups: Seq<SourceEdges>, f: spec_fn(RatingSample) -> bool) -> nat
    decreases groups.len(),
{
    if groups.len() == 0 {
        0
    } else {
        groups_count_where(groups.drop_last(), f) + edges_count_where(
            groups.last().source,
            groups.last().edges@,
            f,
        )
    }
}

/// The baseline held for `e`, or the empty one.
pub open spec fn baseline(m: Map<i32, EntityStatistics>, e: i32) -> EntityStatistics {
    if m.contains_key(e) {
        m[e]
    } else {
        EntityStatistics { sum: 0, sum_sq: 0, count: 0 }
    }
}

/// Every entity's baseline in `m` holds exactly its ratings in `samples`.
pub open spec fn baselines_of(m: Map<i32, EntityStatistics>, samples: Seq<RatingSample>) -> bool {
    forall|e: i32|
        #![trigger baseline(m, e)]
        baseline(m, e).wf() && baseline(m, e).summarizes(ratings_of_entity(samples, e))
}

/// The batch verdict on one sample of `samples`, judged against baselines built
/// from all of `samples`.
pub open spec fn batch_verdict(
    samples: Seq<RatingSample>,
    policy: BaselinePolicy,
    x: RatingSample,
) -> bool {
    anomalous_against_history(x.rating as int, ratings_of_entity(samples, x.source)) || (policy
        == BaselinePolicy::SourceAndTarget && anomalous_against_history(
        x.rating as int,
        ratings_of_entity(samples, x.target),
    ))
}

proof fn lemma_entity_ratings_len(samples: Seq<RatingSample>, e: i32)
    ensures
        ratings_of_entity(samples, e).len() <= 2 * samples.len(),
    decreases samples.len(),
{
    if samples.len() > 0 {
        lemma_entity_ratings_len(samples.drop_last(), e);
    }
}

pub proof fn lemma_count_where_bound(samples: Seq<RatingSample>, f: spec_fn(RatingSample) -> bool)
    ensures
        count_where(samples, f) <= samples.len(),
        (forall|x: RatingSample| #[trigger] f(x)) ==> count_where(samples, f) == samples.len(),
    decreases samples.len(),
{
    if samples.len() > 0 {
        lemma_count_where_bound(samples.drop_last(), f);
    }
}

pub proof fn lemma_edges_count_prefix(
    source: i32,
    edges: Seq<Edge>,
    k: int,
    f: spec_fn(RatingSample) -> bool,
)
    requires
        0 <= k <= edges.len(),
    ensures
        edges_count_where(source, edges.take(k), f) <= edges_count_where(source, edges, f),
    decreases edges.len(),
{
    if k < edges.len() {
        assert(edges.drop_last().take(k) =~= edges.take(k));
        lemma_edges_count_prefix(source, edges.drop_last(), k, f);
    } else {
        assert(edges.take(k) =~= edges);
    }
}

pub proof fn lemma_groups_count_prefix(groups: Seq<SourceEdges>, k: int, f: spec_fn(RatingSample) -> bool)
    requires
        0 <= k <= groups.len(),
    ensures
        groups_count_where(groups.take(k), f) <= groups_count_where(groups, f),
    decreases groups.len(),
{
    if k < groups.len() {
        assert(groups.drop_last().take(k) =~= groups.take(k));
        lemma_groups_count_prefix(groups.drop_last(), k, f);
    } else {
        assert(groups.take(k) =~= groups);
    }
}

pub proof fn lemma_groups_count_step(groups: Seq<SourceEdges>, k: int, f: spec_fn(RatingSample) -> bool)
    requires
        0 <= k < groups.len(),
    ensures
        groups_count_where(groups.take(k + 1), f) == groups_count_where(groups.take(k), f)
            + edges_count_where(groups[k].source, groups[k].edges@, f),
{
    assert(groups.take(k + 1).drop_last() =~= groups.take(k));
}

pub proof fn lemma_edges_count_step(source: i32, edges: Seq<Edge>, k: int, f: spec_fn(RatingSample) -> bool)
    requires
        0 <= k < edges.len(),
    ensures
        edges_count_where(source, edges.take(k + 1), f) == edges_count_where(
            source,
            edges.take(k),
            f,
        ) + if f(sample_of(source, edges[k])) {
            1nat
        } else {
            0nat
        },
{
    assert(edges.take(k + 1).drop_last() =~= edges.take(k));
}

proof fn lemma_groups_count_update(
    groups: Seq<SourceEdges>,
    j: int,
    g: SourceEdges,
    e: Edge,
    f: spec_fn(RatingSample) -> bool,
)
    requires
        0 <= j < groups.len(),
        g.source == groups[j].source,
        g.edges@ == groups[j].edges@.push(e),
    ensures
        groups_count_where(groups.update(j, g), f) == groups_count_where(groups, f) + if f(
            sample_of(g.source, e),
        ) {
            1nat
        } else {
            0nat
        },
    decreases groups.len(),
{
    assert(g.edges@.drop_last() =~= groups[j].edges@);
    if j == groups.len() - 1 {
        assert(groups.update(j, g).drop_last() =~= groups.drop_last());
    } else {
        lemma_groups_count_update(groups.drop_last(), j, g, e, f);
        assert(groups.update(j, g).drop_last() =~= groups.drop_last().update(j, g));
    }
}

proof fn lemma_groups_count_push(
    groups: Seq<SourceEdges>,
    g: SourceEdges,
    e: Edge,
    f: spec_fn(RatingSample) -> bool,
)
    requires
        g.edges@ == seq![e],
    ensures
        groups_count_where(groups.push(g), f) == groups_count_where(groups, f) + if f(
            sample_of(g.source, e),
        ) {
            1nat
        } else {
            0nat
        },
{
    assert(groups.push(g).drop_last() =~= groups);
    assert(g.edges@.drop_last() =~= Seq::<Edge>::empty());
    assert(edges_count_where(g.source, g.edges@.drop_last(), f) == 0);
    assert(g.edges@.last() == e);
}

/// Folds `rating` into the baseline of `e`, which it creates where it is missing.
fn fold_into(stats: &mut HashMap<i32, EntityStatistics>, e: i32, rating: i32)
    requires
        baseline(old(stats)@, e).wf(),
        baseline(old(stats)@, e).count < u32::MAX,
    ensures
        baseline(final(stats)@, e).wf(),
        forall|s: Seq<i32>|
            baseline(old(stats)@, e).summarizes(s) ==> #[trigger] baseline(
                final(stats)@,
                e,
            ).summarizes(s.push(rating)),
        forall|k: i32| k != e ==> #[trigger] baseline(final(stats)@, k) == baseline(old(stats)@, k),
{
    broadcast use vstd::std_specs::hash::group_hash_axioms;

    let mut current = match stats.get(&e) {
        Some(s) => *s,
        None => EntityStatistics::new(),
    };
    current.update(rating);
    stats.insert(e, current);
}

/// An interaction graph: each source's outgoing edges, and a baseline per
/// entity built from every rating it gave or received.
pub struct InteractionGraph {
    pub adjacency: Vec<SourceEdges>,
    pub stats: HashMap<i32, EntityStatistics>,
}

impl InteractionGraph {
    /// The graph holds the samples `samples`: its edges stand for them one for
    /// one, and its baselines are built from all of them.
    pub open spec fn holds(&self, samples: Seq<RatingSample>) -> bool {
        &&& forall|f: spec_fn(RatingSample) -> bool| #[trigger]
            groups_count_where(self.adjacency@, f) == count_where(samples, f)
        &&& baselines_of(self.stats@, samples)
        &&& forall|j: int, k: int|
            0 <= j < k < self.adjacency@.len() ==> self.adjacency@[j].source
                != self.adjacency@[k].source
    }

    /// Builds the graph from a full scan of `samples`, in one pass.
    pub fn build(samples: &Vec<RatingSample>) -> (g: InteractionGraph)
        requires
            samples.len() <= MAX_SAMPLES,
        ensures
            g.holds(samples@),
    {
        broadcast use vstd::std_specs::hash::group_hash_axioms;

        let mut adjacency: Vec<SourceEdges> = Vec::new();
        let mut index: HashMap<i32, usize> = HashMap::new();
        let mut stats: HashMap<i32, EntityStatistics> = HashMap::new();
        let mut i: usize = 0;
        assert(samples@.take(0) =~= Seq::<RatingSample>::empty());
        while i < samples.len()
            invariant
                i <= samples.len() <= MAX_SAMPLES,
                forall|f: spec_fn(RatingSample) -> bool| #[trigger]
                    groups_count_where(adjacency@, f) == count_where(samples@.take(i as int), f),
                baselines_of(stats@, samples@.take(i as int)),
                forall|k: i32|
                    #[trigger] index@.contains_key(k) ==> index@[k] < adjacency@.len()
                        && adjacency@[index@[k] as int].source == k,
                forall|j: int|
                    0 <= j < adjacency@.len() ==> #[trigger] index@.contains_key(
                        adjacency@[j].source,
                    ) && index@[adjacency@[j].source] == j,
            decreases samples.len() - i,
        {
            let x = samples[i];
            let ghost prefix = samples@.take(i as int);
            let ghost next = samples@.take(i as int + 1);
            assert(next =~= prefix.push(x));
            assert(next.drop_last() =~= prefix);
            let edge = Edge {
                target: x.target,
                rating: x.rating,
                timestamp: x.timestamp,
                anomaly: x.anomaly,
            };
            assert(sample_of(x.source, edge) == x);
            let ghost before = adjacency@;
            match index.get(&x.source) {
                Some(j) => {
                    let j = *j;
                    adjacency[j].edges.push(edge);
                    assert forall|f: spec_fn(RatingSample) -> bool| #[trigger]
                        groups_count_where(adjacency@, f) == count_where(next, f) by {
                        lemma_groups_count_update(before, j as int, adjacency@[j as int], edge, f);
                        assert(adjacency@ =~= before.update(j as int, adjacency@[j as int]));
                    }
                },
                None => {
                    let mut edges: Vec<Edge> = Vec::new();
                    edges.push(edge);
                    index.insert(x.source, adjacency.len());
                    adjacency.push(SourceEdges { source: x.source, edges });
                    assert forall|f: spec_fn(RatingSample) -> bool| #[trigger]
                        groups_count_where(adjacency@, f) == count_where(next, f) by {
                        lemma_groups_count_push(before, adjacency@.last(), edge, f);
                        assert(adjacency@ =~= before.push(adjacency@.last()));
                    }
                },
            }
            let ghost m0 = stats@;
            proof {
                lemma_entity_ratings_len(prefix, x.source);
                lemma_entity_ratings_len(prefix, x.target);
                assert(baseline(m0, x.source).wf());
                assert(baseline(m0, x.target).wf());
            }
            fold_into(&mut stats, x.source, x.rating);
            let ghost m1 = stats@;
            proof {
                if x.target != x.source {
                    assert(baseline(m1, x.target) == baseline(m0, x.target));
                } else {
                    assert(baseline(m0, x.source).summarizes(ratings_of_entity(prefix, x.source)));
                    assert(baseline(m1, x.source).summarizes(
                        ratings_of_entity(prefix, x.source).push(x.rating),
                    ));
                }
            }
            fold_into(&mut stats, x.target, x.rating);
            assert forall|e: i32| #![trigger baseline(stats@, e)]
                baseline(stats@, e).wf() && baseline(stats@, e).summarizes(
                    ratings_of_entity(next, e),
                ) by {
                assert(baseline(m0, e).summarizes(ratings_of_entity(prefix, e)));
                assert(baseline(m0, e).wf());
                if e != x.source && e != x.target {
                    assert(baseline(m1, e) == baseline(m0, e));
                } else if e == x.source && e != x.target {
                    assert(baseline(m1, e).summarizes(ratings_of_entity(prefix, e).push(x.rating)));
                } else if e != x.source && e == x.target {
                    assert(baseline(m1, e) == baseline(m0, e));
                } else {
                    assert(baseline(m1, e).summarizes(ratings_of_entity(prefix, e).push(x.rating)));
                }
            }
            i = i + 1;
        }
        assert(samples@.take(i as int) =~= samples@);
        assert forall|j: int, k: int|
            0 <= j < k < adjacency@.len() implies adjacency@[j].source != adjacency@[k].source by {
            assert(index@.contains_key(adjacency@[j].source));
            assert(index@.contains_key(adjacency@[k].source));
        }
        InteractionGraph { adjacency, stats }
    }
}

} // verus!
