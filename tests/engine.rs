use trust_anomaly::aggregate::{aggregate, AggregateStats};
use trust_anomaly::graph::{BaselinePolicy, InteractionGraph, RatingSample};
use trust_anomaly::ingest::{
    ingest_response, ingest_verdict, samples_or_empty, stats_or_zero, ServiceError,
};
use trust_anomaly::log::SampleLog;
use trust_anomaly::stats::{classify, EntityStatistics, Quotient, StatsError};

fn stats_of(ratings: &[i32]) -> EntityStatistics {
    let mut s = EntityStatistics::new();
    for r in ratings {
        s.update(*r);
    }
    s
}

fn sample(source: i32, target: i32, rating: i32) -> RatingSample {
    RatingSample { source, target, rating, timestamp: 1_700_000_000, anomaly: 0 }
}

#[test]
fn update_accumulates_sums_and_count() {
    let s = stats_of(&[1500, -2500, 4000]);
    assert_eq!(s.sum, 3000);
    assert_eq!(s.sum_sq, 1500 * 1500 + 2500 * 2500 + 4000 * 4000);
    assert_eq!(s.count, 3);
    assert_eq!(EntityStatistics::from_ratings(&vec![1500, -2500, 4000]), s);
}

#[test]
fn empty_statistics_fail() {
    let s = EntityStatistics::new();
    assert_eq!(s.mean(), Err(StatsError::EmptyStatistics));
    assert_eq!(s.variance(), Err(StatsError::EmptyStatistics));
    assert_eq!(s.std_dev(), Err(StatsError::EmptyStatistics));
}

#[test]
fn mean_variance_and_std_dev_are_exact() {
    let s = stats_of(&[4000, 6000]);
    assert_eq!(s.mean(), Ok(Quotient { numer: 10000, denom: 2 }));
    // count² · variance = 2 · 52e6 − 1e8 = 4e6, over count² = 4: variance 1e6.
    assert_eq!(s.variance(), Ok(Quotient { numer: 4_000_000, denom: 4 }));
    assert_eq!(s.std_dev(), Ok(1000));
    // Ratings 0, 0, 1000: σ = √(2/9) · 1000 ≈ 471.4.
    assert_eq!(stats_of(&[0, 0, 1000]).std_dev(), Ok(471));
}

#[test]
fn single_sample_std_dev_is_zero() {
    for r in [0, 1, -1, 2500, -7_000_000, i32::MAX, i32::MIN] {
        let s = stats_of(&[r]);
        assert_eq!(s.std_dev(), Ok(0));
        assert_eq!(s.variance(), Ok(Quotient { numer: 0, denom: 1 }));
    }
}

#[test]
fn fold_order_does_not_matter() {
    let a = stats_of(&[1000, -3000, 7500, 7500, 0]);
    let b = stats_of(&[7500, 0, 1000, 7500, -3000]);
    assert_eq!(a, b);
    assert_eq!(a.mean(), b.mean());
    assert_eq!(a.std_dev(), b.std_dev());
}

#[test]
fn classify_is_deterministic() {
    let s = stats_of(&[1000, 2000, 9000]);
    for r in [-5000, 0, 1000, 8000, 20000] {
        assert_eq!(classify(r, &s), classify(r, &s));
    }
}

#[test]
fn fixed_threshold_without_spread() {
    let s = stats_of(&[0]);
    assert!(classify(3000, &s));
    assert!(classify(-3000, &s));
    assert!(!classify(2000, &s));
    assert!(!classify(-2000, &s));
    // Identical history: no spread either.
    assert!(!classify(1500, &stats_of(&[5000, 5000, 5000])));
    // No history at all.
    assert!(classify(2001, &EntityStatistics::new()));
}

#[test]
fn two_sigma_rule_with_spread() {
    let s = stats_of(&[4000, 6000]);
    assert!(classify(7500, &s));
    assert!(!classify(6500, &s));
    assert!(!classify(7000, &s));
    assert!(classify(2500, &s));
}

#[test]
fn aggregate_of_nothing_is_zero() {
    let r = aggregate(&vec![], BaselinePolicy::SourceOnly);
    assert_eq!(r, AggregateStats { total: 0, normal: 0, anomalous: 0 });
    assert_eq!(r.ratio(), Quotient { numer: 0, denom: 1 });
}

fn outlier_dataset() -> Vec<RatingSample> {
    let mut v = Vec::new();
    for t in 2..11 {
        v.push(sample(1, t, 0));
    }
    v.push(sample(1, 11, 10000));
    v
}

#[test]
fn aggregate_counts_one_outlier() {
    let samples = outlier_dataset();
    let r = aggregate(&samples, BaselinePolicy::SourceOnly);
    assert_eq!(r, AggregateStats { total: 10, normal: 9, anomalous: 1 });
    assert_eq!(r.normal + r.anomalous, r.total);
    assert_eq!(r.ratio(), Quotient { numer: 1, denom: 10 });
}

#[test]
fn aggregate_target_policy_can_add_verdicts() {
    let samples = vec![sample(7, 20, 1000), sample(7, 21, 3000)];
    let only = aggregate(&samples, BaselinePolicy::SourceOnly);
    assert_eq!(only, AggregateStats { total: 2, normal: 2, anomalous: 0 });
    let both = aggregate(&samples, BaselinePolicy::SourceAndTarget);
    assert_eq!(both, AggregateStats { total: 2, normal: 1, anomalous: 1 });
}

#[test]
fn aggregate_totals_always_add_up() {
    let mut samples = Vec::new();
    let mut seed: i64 = 17;
    for _ in 0..200 {
        seed = (seed * 1_103_515_245 + 12_345) % 2_147_483_648;
        let source = (seed % 7) as i32;
        let target = ((seed / 7) % 9) as i32;
        let rating = ((seed / 63) % 20001) as i32 - 10000;
        samples.push(sample(source, target, rating));
    }
    for policy in [BaselinePolicy::SourceOnly, BaselinePolicy::SourceAndTarget] {
        let r = aggregate(&samples, policy);
        assert_eq!(r.total, 200);
        assert_eq!(r.normal + r.anomalous, r.total);
    }
}

#[test]
fn self_rating_counts_twice_in_baseline() {
    let g = InteractionGraph::build(&vec![sample(5, 5, 1500), sample(5, 6, 500)]);
    let s = g.stats.get(&5).unwrap();
    assert_eq!(s.count, 3);
    assert_eq!(s.sum, 3500);
    assert_eq!(g.stats.get(&6).unwrap().count, 1);
    assert_eq!(g.adjacency.len(), 1);
    assert_eq!(g.adjacency[0].edges.len(), 2);
    assert_eq!(g.adjacency[0].edges[1].target, 6);
}

#[test]
fn graph_groups_edges_by_source_in_order() {
    let g = InteractionGraph::build(&vec![
        sample(1, 2, 100),
        sample(3, 1, 200),
        sample(1, 4, 300),
    ]);
    assert_eq!(g.adjacency.len(), 2);
    assert_eq!(g.adjacency[0].source, 1);
    assert_eq!(g.adjacency[0].edges.len(), 2);
    assert_eq!(g.adjacency[0].edges[1].rating, 300);
    assert_eq!(g.adjacency[1].source, 3);
    assert_eq!(g.stats.get(&1).unwrap().count, 3);
}

#[test]
fn ingest_verdict_uses_history() {
    assert!(!ingest_verdict(&vec![4000, 6000], 6500));
    assert!(ingest_verdict(&vec![4000, 6000], 7500));
    assert!(ingest_verdict(&vec![], 2500));
}

#[test]
fn ingest_response_reports_verdicts() {
    let a = ingest_response(Ok(true));
    assert_eq!(a.status, "Anomaly");
    assert!(a.is_anomaly);
    let n = ingest_response(Ok(false));
    assert_eq!(n.status, "Normal");
    assert!(!n.is_anomaly);
}

#[test]
fn ingest_with_storage_down_fails_open() {
    let r = ingest_response(Err(ServiceError::StorageUnavailable("connection refused".to_string())));
    assert!(!r.is_anomaly);
    assert!(!r.status.is_empty());
    assert!(r.status.contains("connection refused"));
    let c = ingest_response(Err(ServiceError::ConfigurationMissing));
    assert!(!c.is_anomaly);
    assert!(!c.status.is_empty());
}

#[test]
fn failed_runs_degrade_to_empty_answers() {
    let z = stats_or_zero(Err(ServiceError::ConfigurationMissing));
    assert_eq!(z, AggregateStats::zero());
    let s = AggregateStats { total: 3, normal: 2, anomalous: 1 };
    assert_eq!(stats_or_zero(Ok(s)), s);
    let e = samples_or_empty(Err(ServiceError::StorageUnavailable("down".to_string())));
    assert!(e.is_empty());
    assert_eq!(samples_or_empty(Ok(vec![sample(1, 2, 3)])), vec![sample(1, 2, 3)]);
}

#[test]
fn log_round_trip_preserves_fields() {
    let mut log = SampleLog::new();
    log.append(1, 2, -1500, 1_700_000_001);
    log.append(3, 3, 9000, 1_700_000_002);
    let all = log.list_all();
    assert_eq!(all.len(), 2);
    assert_eq!(
        all[0],
        RatingSample { source: 1, target: 2, rating: -1500, timestamp: 1_700_000_001, anomaly: 0 }
    );
    assert_eq!(
        all[1],
        RatingSample { source: 3, target: 3, rating: 9000, timestamp: 1_700_000_002, anomaly: 0 }
    );
}

#[test]
fn log_ingest_counts_the_new_row_and_keeps_marker() {
    let mut log = SampleLog::new();
    // First rating: judged against itself alone, so by its magnitude.
    assert!(log.ingest(1, 2, 3000, 10));
    assert!(!log.ingest(1, 3, 1000, 11));
    assert!(!log.ingest(2, 3, 1000, 12));
    assert_eq!(log.ratings_by_source(1), vec![3000, 1000]);
    assert!(log.list_all().iter().all(|s| s.anomaly == 0));
    assert_eq!(log.len(), 3);
    let r = log.aggregate(BaselinePolicy::SourceOnly);
    assert_eq!(r, AggregateStats { total: 3, normal: 3, anomalous: 0 });
}
