use swindex::maintenance::{
    ClusterDrift, DriftReport, MaintenanceAction, MaintenancePolicy, NeverRebalance,
};

#[test]
fn never_rebalance_always_returns_empty_actions() {
    let policy = NeverRebalance;

    let mut drift = DriftReport::default();
    assert!(policy.decide(&drift).is_empty());

    drift.per_cluster.insert(0, ClusterDrift { generation: 0, delta_inserts: 1000 });
    drift.per_cluster.insert(7, ClusterDrift { generation: 3, delta_inserts: 42 });
    assert!(policy.decide(&drift).is_empty());
}

#[test]
fn drift_report_summaries() {
    let mut drift = DriftReport::default();
    drift.per_cluster.insert(0, ClusterDrift { generation: 0, delta_inserts: 10 });
    drift.per_cluster.insert(1, ClusterDrift { generation: 0, delta_inserts: 25 });
    drift.per_cluster.insert(2, ClusterDrift { generation: 1, delta_inserts: 0 });

    assert_eq!(drift.cluster_count(), 3);
    assert_eq!(drift.total_inserts(), 35);
}

#[test]
fn drift_report_counts_the_largest_cluster_and_the_largest_count() {
    let mut drift = DriftReport::default();
    assert_eq!(drift.total_inserts(), 0);
    assert_eq!(drift.cluster_count(), 0);
    drift.per_cluster.insert(u32::MAX, ClusterDrift { generation: 0, delta_inserts: u32::MAX });
    drift.per_cluster.insert(0, ClusterDrift { generation: 0, delta_inserts: 1 });
    assert_eq!(drift.total_inserts(), 0x1_0000_0000);
}

#[test]
fn maintenance_action_variants_compile() {
    let _ = MaintenanceAction::DoNothing;
}
