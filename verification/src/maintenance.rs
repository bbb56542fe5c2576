//! Bookkeeping for the upkeep of an index.
//!
//! Inserts make clusters drift from what a fresh build would find. A
//! [`DriftReport`] says by how much, and a [`MaintenancePolicy`] decides what to do
//! about it.
use crate::distinct::lemma_orderly;
use crate::sums::sum;
use std::collections::BTreeMap;
use vstd::prelude::*;
use vstd::std_specs::cmp::OrdSpec;
use vstd::std_specs::iter::IteratorSpec;

verus! {

/// What a policy may decide.
#[derive(Debug, Clone, Copy, PartialEq, Eq, Structural)]
#[non_exhaustive]
pub enum MaintenanceAction {
    /// Nothing needs to be done now.
    DoNothing,
}

/// The drift of one cluster.
#[derive(Debug, Clone, Copy, PartialEq, Eq, Structural)]
pub struct ClusterDrift {
    /// How often the cluster has been rebuilt.
    pub generation: u64,
    /// How many nodes were inserted into it since.
    pub delta_inserts: u32,
}

impl Default for ClusterDrift {
    fn default() -> (drift: Self)
        ensures
            drift == (ClusterDrift { generation: 0, delta_inserts: 0 }),
    {
        ClusterDrift { generation: 0, delta_inserts: 0 }
    }
}

/// What an index knows about the inserts since its clusters were built.
#[derive(Debug, Clone)]
pub struct DriftReport {
    /// The drift of each cluster.
    pub per_cluster: BTreeMap<u32, ClusterDrift>,
}

impl Default for DriftReport {
    fn default() -> (report: Self)
        ensures
            report.per_cluster@ == Map::<u32, ClusterDrift>::empty(),
    {
        DriftReport { per_cluster: BTreeMap::new() }
    }
}

/// The inserts into each cluster, by cluster; 0 for a cluster that is not tracked.
pub open spec fn inserts_by_cluster(m: Map<u32, ClusterDrift>) -> spec_fn(int) -> int {
    |c: int| if m.contains_key(c as u32) { m[c as u32].delta_inserts as int } else { 0 }
}

/// The number of clusters that a report can track.
pub const CLUSTER_LIMIT: u64 = 0x1_0000_0000;

/// The inserts of consecutive clusters without inserts add nothing.
proof fn lemma_no_inserts(f: spec_fn(int) -> int, lo: nat, hi: nat)
    requires
        lo <= hi,
        forall|c: int| lo <= c < hi ==> #[trigger] f(c) == 0,
    ensures
        sum(hi, f) == sum(lo, f),
    decreases hi,
{
    if lo < hi {
        lemma_no_inserts(f, lo, (hi - 1) as nat);
        assert(f(hi - 1) == 0);
    }
}

/// No sum of inserts exceeds what a machine integer holds.
proof fn lemma_inserts_bounded(m: Map<u32, ClusterDrift>, k: nat)
    requires
        k <= CLUSTER_LIMIT,
    ensures
        0 <= sum(k, inserts_by_cluster(m)) <= k * 0xffff_ffff,
    decreases k,
{
    if k > 0 {
        lemma_inserts_bounded(m, (k - 1) as nat);
    }
}

/// The entries of a report in the order of the clusters.
pub fn drift_entries(m: &BTreeMap<u32, ClusterDrift>) -> (entries: Vec<(u32, ClusterDrift)>)
    ensures
        entries@.len() == m@.len(),
        forall|i: int, j: int|
            0 <= i < j < entries@.len() ==> (#[trigger] entries@[i]).0 < (#[trigger] entries@[j]).0,
        forall|i: int|
            0 <= i < entries@.len() ==> m@.contains_key((#[trigger] entries@[i]).0)
                && m@[entries@[i].0] == entries@[i].1,
        forall|c: u32| #[trigger]
            m@.contains_key(c) ==> exists|i: int|
                0 <= i < entries@.len() && (#[trigger] entries@[i]).0 == c,
{
    broadcast use vstd::std_specs::btree::group_btree_axioms;

    proof {
        lemma_orderly();
    }
    let entry_iter = m.iter();
    let ghost given = entry_iter.remaining();
    let ghost keys = given.map_values(|kv: (&u32, &ClusterDrift)| *kv.0);
    proof {
        assert(vstd::std_specs::btree::increasing_seq(keys));
        assert forall|i: int, j: int| 0 <= i < j < given.len() implies *given[i].0
            < *given[j].0 by {
            assert(keys[i].cmp_spec(&keys[j]) is Less);
        }
        assert forall|v: u32| #[trigger] m@.contains_key(v) implies exists|i: int|
            0 <= i < given.len() && *(#[trigger] given[i]).0 == v by {
            assert(given.contains((&v, &m@[v])));
        }
    }
    let mut entries: Vec<(u32, ClusterDrift)> = Vec::new();
    for kv in it: entry_iter
        invariant
            it.seq() == given,
            entries@.len() == it.index(),
            forall|i: int|
                0 <= i < entries@.len() ==> (#[trigger] entries@[i]).0 == *given[i].0
                    && entries@[i].1 == *given[i].1,
    {
        entries.push((*kv.0, *kv.1));
    }
    proof {
        assert forall|c: u32| #[trigger] m@.contains_key(c) implies exists|i: int|
            0 <= i < entries@.len() && (#[trigger] entries@[i]).0 == c by {
            let i = choose|i: int| 0 <= i < given.len() && *(#[trigger] given[i]).0 == c;
            assert(entries@[i].0 == c);
        }
    }
    entries
}

impl DriftReport {
    /// The inserts into all clusters together.
    pub fn total_inserts(&self) -> (total: u64)
        ensures
            total == sum(CLUSTER_LIMIT as nat, inserts_by_cluster(self.per_cluster@)),
    {
        let entries = drift_entries(&self.per_cluster);
        let ghost m = self.per_cluster@;
        let ghost f = inserts_by_cluster(m);
        let mut total: u64 = 0;
        let mut i: usize = 0;
        let ghost mut hi: nat = 0;
        while i < entries.len()
            invariant
                i <= entries.len(),
                m == self.per_cluster@,
                f == inserts_by_cluster(m),
                forall|a: int, b: int|
                    0 <= a < b < entries@.len() ==> (#[trigger] entries@[a]).0 < (
                    #[trigger] entries@[b]).0,
                forall|a: int|
                    0 <= a < entries@.len() ==> m.contains_key((#[trigger] entries@[a]).0)
                        && m[entries@[a].0] == entries@[a].1,
                forall|c: u32| #[trigger]
                    m.contains_key(c) ==> exists|a: int|
                        0 <= a < entries@.len() && (#[trigger] entries@[a]).0 == c,
                hi == (if i == 0 {
                    0nat
                } else {
                    (entries@[i - 1].0 + 1) as nat
                }),
                total == sum(hi, f),
            decreases entries.len() - i,
        {
            let (c, drift) = entries[i];
            proof {
                assert forall|x: int| hi <= x < c implies #[trigger] f(x) == 0 by {
                    if m.contains_key(x as u32) {
                        let a = choose|a: int|
                            0 <= a < entries@.len() && (#[trigger] entries@[a]).0 == x as u32;
                        if a < i {
                            if a < i - 1 {
                                assert(entries@[a].0 < entries@[i - 1].0);
                            }
                        } else if a > i {
                            assert(entries@[i as int].0 < entries@[a].0);
                        }
                        assert(false);
                    }
                }
                if i > 0 {
                    assert(entries@[i - 1].0 < entries@[i as int].0);
                }
                lemma_no_inserts(f, hi, c as nat);
                lemma_inserts_bounded(m, (c + 1) as nat);
                assert(m.contains_key(entries@[i as int].0));
                hi = (c + 1) as nat;
            }
            total += drift.delta_inserts as u64;
            i += 1;
        }
        proof {
            assert forall|x: int| hi <= x < CLUSTER_LIMIT implies #[trigger] f(x) == 0 by {
                if m.contains_key(x as u32) {
                    let a = choose|a: int|
                        0 <= a < entries@.len() && (#[trigger] entries@[a]).0 == x as u32;
                    if a < i - 1 {
                        assert(entries@[a].0 < entries@[i - 1].0);
                    }
                    assert(false);
                }
            }
            lemma_no_inserts(f, hi, CLUSTER_LIMIT as nat);
        }
        total
    }

    /// The number of clusters tracked.
    pub fn cluster_count(&self) -> (n: usize)
        ensures
            n == self.per_cluster@.len(),
    {
        drift_entries(&self.per_cluster).len()
    }
}

/// What upkeep did.
#[derive(Debug, Clone)]
pub struct MaintenanceReport {
    /// The actions taken, in order.
    pub actions_taken: Vec<MaintenanceAction>,
}

impl Default for MaintenanceReport {
    fn default() -> (report: Self)
        ensures
            report.actions_taken@ == Seq::<MaintenanceAction>::empty(),
    {
        MaintenanceReport { actions_taken: Vec::new() }
    }
}

/// Decides what to do about drift.
pub trait MaintenancePolicy {
    /// The actions to take, in order. None means that nothing is needed.
    fn decide(&self, drift: &DriftReport) -> Vec<MaintenanceAction>;
}

/// The policy that never does anything.
#[derive(Debug, Clone, Copy)]
pub struct NeverRebalance;

impl Default for NeverRebalance {
    fn default() -> (policy: Self) {
        NeverRebalance
    }
}

impl MaintenancePolicy for NeverRebalance {
    fn decide(&self, drift: &DriftReport) -> (actions: Vec<MaintenanceAction>)
        ensures
            actions@ == Seq::<MaintenanceAction>::empty(),
    {
        Vec::new()
    }
}

} // verus!
