//! Regions: communities of clusters.
use crate::community::{cluster_regions, regions_from_clusters};
use crate::graph::Graph;
use crate::partition::{members, Partition};
use vstd::prelude::*;

verus! {

/// The region of every cluster.
#[derive(Debug)]
pub struct RegionGraph {
    cluster_to_region: Partition,
}

impl View for RegionGraph {
    type V = Partition;

    closed spec fn view(&self) -> Partition {
        self.cluster_to_region
    }
}

impl RegionGraph {
    /// The regions are a partition of the clusters.
    pub open spec fn wf(&self) -> bool {
        self@.wf()
    }

    /// The regions of a clustering, with the default seed.
    pub fn build(graph: &Graph, clusters: &Partition) -> (regions: Self)
        requires
            graph.wf(),
            clusters.wf(),
            clusters@.len() == graph.ids().len(),
        ensures
            regions.wf(),
            regions@@ == cluster_regions(graph.weights(), clusters@, clusters.count(), 42),
            regions@@.len() == clusters.count(),
    {
        Self::build_seeded(graph, clusters, 42)
    }

    /// The regions of a clustering, with the given seed.
    pub fn build_seeded(graph: &Graph, clusters: &Partition, seed: u64) -> (regions: Self)
        requires
            graph.wf(),
            clusters.wf(),
            clusters@.len() == graph.ids().len(),
        ensures
            regions.wf(),
            regions@@ == cluster_regions(graph.weights(), clusters@, clusters.count(), seed),
            regions@@.len() == clusters.count(),
    {
        RegionGraph { cluster_to_region: regions_from_clusters(graph, clusters, seed) }
    }

    /// The region of a cluster, if there is such a cluster.
    pub fn region_of_cluster(&self, cluster_id: usize) -> (r: Option<usize>)
        ensures
            r == (if cluster_id < self@@.len() {
                Some(self@@[cluster_id as int])
            } else {
                None
            }),
    {
        if cluster_id >= self.cluster_to_region.node_count() {
            None
        } else {
            Some(self.cluster_to_region.community_of(cluster_id))
        }
    }

    /// The number of regions.
    pub fn region_count(&self) -> (n: usize)
        ensures
            n == self@.count(),
    {
        self.cluster_to_region.community_count()
    }

    /// The number of clusters.
    pub fn cluster_count(&self) -> (n: usize)
        ensures
            n == self@@.len(),
    {
        self.cluster_to_region.node_count()
    }

    /// The clusters of each region, ascending.
    pub fn clusters_by_region(&self) -> (buckets: Vec<Vec<usize>>)
        requires
            self.wf(),
        ensures
            buckets@.len() == self@.count(),
            forall|r: int|
                0 <= r < self@.count() ==> (#[trigger] buckets@[r])@ == members(
                    self@@,
                    r,
                    self@@.len(),
                ),
    {
        self.cluster_to_region.buckets()
    }

    /// The region of every cluster, in cluster order.
    pub fn iter_assignments(&self) -> (regions: Vec<usize>)
        ensures
            regions@ == self@@,
    {
        self.cluster_to_region.iter()
    }
}

} // verus!
