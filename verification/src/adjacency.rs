//! The cluster graph is complete.
//!
//! Every edge between nodes of different clusters is counted in the cluster graph, once
//! from each of its ends, and no other is.
use crate::community::is_cluster_list;
use crate::modularity::{
    block_weight, coarse, degrees, labels_below, lemma_coarse_degree, lemma_coarse_symmetric,
    lemma_weight_to_unique, volume, weight_into, weights_into, within,
};
use crate::sums::{
    lemma_list_sum_by_target, lemma_sum_add, lemma_sum_by_group, lemma_sum_ext, lemma_sum_scale,
    lemma_sum_update, lemma_weight_to_absent, sum, weight_to,
};
use crate::tally::names;
use crate::weighted::{degree_of, list_total, symmetric};
use vstd::prelude::*;

verus! {

/// The weight from node `u` to the nodes of other clusters.
pub open spec fn outward(m: Seq<Seq<int>>, labels: Seq<usize>) -> spec_fn(int) -> int {
    |u: int| degree_of(m, u) - weight_into(m, labels, u, labels[u] as int)
}

/// The totals of some lists.
pub open spec fn totals(lists: Seq<Seq<(usize, u64)>>) -> spec_fn(int) -> int {
    |c: int| list_total(lists[c])
}

/// The total of a list is the sum of its weights by target.
proof fn lemma_list_total_by_target(list: Seq<(usize, u64)>, k: nat)
    requires
        forall|i: int| 0 <= i < list.len() ==> (#[trigger] list[i]).0 < k,
    ensures
        list_total(list) == sum(k, |v: int| weight_to(list, v)),
{
    let one = |v: int| 1int;
    lemma_list_sum_by_target(list, k, one);
    lemma_sum_ext(k, |v: int| weight_to(list, v) * one(v), |v: int| weight_to(list, v));
}

/// The list of a cluster holds the weight of the cluster to the others.
proof fn lemma_cluster_list_total(
    list: Seq<(usize, u64)>,
    m: Seq<Seq<int>>,
    labels: Seq<usize>,
    k: nat,
    c: int,
)
    requires
        symmetric(m),
        labels.len() == m.len(),
        labels_below(labels, k),
        k <= usize::MAX,
        0 <= c < k,
        is_cluster_list(list, m, labels, k, c),
    ensures
        list_total(list) == volume(m, labels, c) - block_weight(m, labels, c, c),
{
    lemma_list_total_by_target(list, k);
    let f = |v: int| weight_to(list, v);
    let g = |v: int| coarse(m, labels, k)[c][v];
    assert forall|d: int| 0 <= d < k && d != c implies #[trigger] f(d) == g(d) by {
        let x = d as usize;
        assert(g(d) == block_weight(m, labels, c, d));
        lemma_coarse_symmetric(m, labels, k);
        assert(coarse(m, labels, k)[c][d] >= 0);
        if names(list, x) {
            let i = choose|i: int| 0 <= i < list.len() && (#[trigger] list[i]).0 == x;
            lemma_weight_to_unique(list, i);
        } else {
            assert(block_weight(m, labels, c, x as int) <= 0);
            lemma_weight_to_absent(list, d);
        }
    }
    assert(f(c) == 0) by {
        if names(list, c as usize) {
            let i = choose|i: int| 0 <= i < list.len() && (#[trigger] list[i]).0 == c as usize;
            assert(list[i].0 != c);
        }
        lemma_weight_to_absent(list, c);
    }
    lemma_sum_update(k, f, g, c);
    lemma_coarse_degree(m, labels, k, c);
    assert(g(c) == block_weight(m, labels, c, c));
    lemma_sum_ext(k, g, |v: int| coarse(m, labels, k)[c][v]);
    assert(coarse(m, labels, k).len() == k);
}

/// The weights in the cluster graph add up to the weight that leaves each node for
/// another cluster: every edge between clusters, once from each end.
pub proof fn law_cluster_lists_complete(
    m: Seq<Seq<int>>,
    labels: Seq<usize>,
    k: nat,
    lists: Seq<Seq<(usize, u64)>>,
)
    requires
        symmetric(m),
        labels.len() == m.len(),
        labels_below(labels, k),
        k <= usize::MAX,
        lists.len() == k,
        forall|c: int| 0 <= c < k ==> is_cluster_list(#[trigger] lists[c], m, labels, k, c),
    ensures
        sum(k, totals(lists)) == sum(m.len(), outward(m, labels)),
{
    let n = m.len();
    let group = |u: int| labels[u] as int;
    assert forall|u: int| 0 <= u < n implies 0 <= #[trigger] group(u) < k by {
        assert(labels[u] < k);
    }
    let out = outward(m, labels);
    lemma_sum_by_group(n, k, group, out);
    let by_group = |c: int| sum(n, |u: int| if group(u) == c { out(u) } else { 0 });
    assert forall|c: int| 0 <= c < k implies #[trigger] totals(lists)(c) == by_group(c) by {
        lemma_cluster_list_total(lists[c], m, labels, k, c);
        let a = within(labels, c, degrees(m));
        let b = within(labels, c, weights_into(m, labels, c));
        let inner = |u: int| if group(u) == c { out(u) } else { 0 };
        let minus = |u: int| -1 * b(u);
        lemma_sum_scale(n, b, -1);
        let both = |u: int| a(u) + minus(u);
        lemma_sum_add(n, a, minus);
        assert forall|u: int| 0 <= u < n implies #[trigger] inner(u) == both(u) by {}
        lemma_sum_ext(n, inner, both);
    }
    lemma_sum_ext(k, totals(lists), by_group);
}

} // verus!
