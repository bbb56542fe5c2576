//! Community detection: multi-level Louvain and Leiden.
//!
//! Both alternate local moving with coarsening. Louvain coarsens by the moved
//! partition itself. Leiden first refines that partition, coarsens by the
//! refinement, and lets the next level start from the moved partition.
//!
//! All of it is a function of the graph and the seed.
use crate::cohesion::{
    connected, law_leiden_connected, law_pieces_connected, law_pieces_inside,
    lemma_renumber_connected, pieces, split,
};
use crate::graph::Graph;
use crate::modularity::{
    block_weight, coarse, labels_below, lemma_block_weight_symmetric, lemma_weight_to_unique,
};
use crate::moving::{
    law_moved_labels_occur, law_moved_respects, law_moved_without_edges, move_nodes, moved,
    occur_in,
};
use crate::partition::{
    count_up, label_count, law_renumber_keeps_communities, lemma_labels, lemma_renumber_at,
    renumber, singletons, Partition,
};
use crate::sums::{lemma_weight_to_absent, weight_to};
use crate::tally::{ascending, names};
use crate::weighted::{entries_valid, matrix, symmetric, twice_total, WeightedGraph};
use vstd::prelude::*;

verus! {

/// The labeling of `n` nodes that puts all of them together.
pub open spec fn together(n: nat) -> Seq<usize> {
    Seq::new(n, |i: int| 0usize)
}

/// The seed of the generator for the next level or phase.
pub open spec fn next_seed(seed: u64) -> u64 {
    seed.wrapping_add(0x9E37_79B9_7F4A_7C15)
}

/// The labels that local moving reaches from `initial`, without any restriction.
pub open spec fn local_moving(m: Seq<Seq<int>>, initial: Seq<usize>, seed: u64) -> Seq<usize> {
    moved(m, initial, together(m.len()), label_count(together(m.len())), seed, 64)
}

/// The refinement of the partition `p`: each node starts alone and may join only
/// communities inside its own part of `p`, and the communities that this comes to are
/// divided into their connected pieces.
pub open spec fn refined(m: Seq<Seq<int>>, p: Seq<usize>, seed: u64) -> Seq<usize> {
    renumber(pieces(m, moved(m, singletons(m.len()), p, label_count(p), seed, 32)))
}

/// The labels of the nodes of the first graph after at most `left` levels of Louvain, where
/// `composed` gives the node of the current graph that each one belongs to.
pub open spec fn louvain_from(
    m: Seq<Seq<int>>,
    composed: Seq<usize>,
    seed: u64,
    left: nat,
) -> Seq<usize>
    decreases left,
{
    if left == 0 {
        composed
    } else {
        let p = renumber(local_moving(m, singletons(m.len()), seed));
        let k = label_count(p);
        let after = Seq::new(composed.len(), |i: int| p[composed[i] as int]);
        if k == m.len() {
            composed
        } else if k <= 1 {
            after
        } else {
            louvain_from(coarse(m, p, k), after, next_seed(seed), (left - 1) as nat)
        }
    }
}

/// The partition that Louvain finds.
pub open spec fn louvain_labels(m: Seq<Seq<int>>, seed: u64) -> Seq<usize> {
    renumber(louvain_from(m, singletons(m.len()), seed, 32))
}

/// For each of `k` communities of the refinement `r`, the label under `p` of its
/// first member.
pub open spec fn inherited(p: Seq<usize>, r: Seq<usize>, k: nat) -> Seq<usize> {
    Seq::new(k, |c: int| p[r.index_of_first(c as usize)->0])
}

/// The labels of the nodes of the first graph after at most `left` levels of Leiden, where
/// `at` gives the node of the current graph that each one belongs to, `initial`
/// the labels from which local moving starts, and `composed` the result so far.
pub open spec fn leiden_from(
    m: Seq<Seq<int>>,
    initial: Seq<usize>,
    at: Seq<usize>,
    composed: Seq<usize>,
    seed: u64,
    left: nat,
) -> Seq<usize>
    decreases left,
{
    if left == 0 {
        composed
    } else {
        let p = renumber(local_moving(m, initial, seed));
        let found = Seq::new(at.len(), |i: int| p[at[i] as int]);
        let r = refined(m, p, next_seed(seed));
        let k = label_count(r);
        if label_count(p) == m.len() || k <= 1 {
            found
        } else {
            leiden_from(
                coarse(m, r, k),
                inherited(p, r, k),
                Seq::new(at.len(), |i: int| r[at[i] as int]),
                found,
                next_seed(next_seed(seed)),
                (left - 1) as nat,
            )
        }
    }
}

/// The partition that Leiden finds: the connected pieces of the communities that its
/// levels come to.
pub open spec fn leiden_labels(m: Seq<Seq<int>>, seed: u64) -> Seq<usize> {
    let one = singletons(m.len());
    renumber(pieces(m, leiden_from(m, one, one, one, seed, 32)))
}

/// Every node has a label after any number of levels.
pub proof fn lemma_leiden_from_len(
    m: Seq<Seq<int>>,
    initial: Seq<usize>,
    at: Seq<usize>,
    composed: Seq<usize>,
    seed: u64,
    left: nat,
)
    requires
        at.len() == composed.len(),
    ensures
        leiden_from(m, initial, at, composed, seed, left).len() == composed.len(),
    decreases left,
{
    if left > 0 {
        let p = renumber(local_moving(m, initial, seed));
        let found = Seq::new(at.len(), |i: int| p[at[i] as int]);
        let r = refined(m, p, next_seed(seed));
        let k = label_count(r);
        lemma_leiden_from_len(
            coarse(m, r, k),
            inherited(p, r, k),
            Seq::new(at.len(), |i: int| r[at[i] as int]),
            found,
            next_seed(next_seed(seed)),
            (left - 1) as nat,
        );
    }
}

/// Local moving from the labels `initial`, which may be any. No label is new.
pub fn local_moving_from(graph: &WeightedGraph, initial: Vec<usize>, seed: u64) -> (labels: Vec<
    usize,
>)
    requires
        graph.wf(),
        initial@.len() == graph@.len(),
    ensures
        labels@ == local_moving(graph@, initial@, seed),
        labels@.len() == graph@.len(),
        forall|i: int| 0 <= i < labels@.len() ==> initial@.contains(#[trigger] labels@[i]),
{
    let n: usize = graph.node_count();
    let mut zeros: Vec<usize> = Vec::new();
    let mut i: usize = 0;
    while i < n
        invariant
            i <= n,
            zeros@ =~= together(i as nat),
        decreases n - i,
    {
        zeros.push(0);
        i += 1;
    }
    let all = Partition::new(zeros);
    proof {
        lemma_together(n as nat);
    }
    move_nodes(graph, initial, &all, seed, 64)
}

/// Every label that local moving gives occurs among those that it starts from.
pub proof fn law_local_moving_labels_occur(m: Seq<Seq<int>>, initial: Seq<usize>, seed: u64)
    requires
        symmetric(m),
        initial.len() == m.len() <= usize::MAX,
    ensures
        occur_in(local_moving(m, initial, seed), initial),
{
    let all = together(m.len());
    law_moved_labels_occur(m, initial, all, label_count(all), seed, 64);
}

/// In a graph without weight local moving gives back what it starts from.
pub proof fn law_local_moving_without_edges(m: Seq<Seq<int>>, initial: Seq<usize>, seed: u64)
    requires
        symmetric(m),
        twice_total(m) == 0,
        initial.len() == m.len() <= usize::MAX,
    ensures
        local_moving(m, initial, seed) == initial,
{
    let all = together(m.len());
    law_moved_without_edges(m, initial, all, label_count(all), seed, 64);
}

/// Putting all nodes together is a partition.
proof fn lemma_together(n: nat)
    requires
        n <= usize::MAX,
    ensures
        renumber(together(n)) == together(n),
{
    let t = together(n);
    assert forall|i: int| 0 <= i < n implies renumber(t)[i] == t[i] by {
        lemma_renumber_at(t, i);
        crate::distinct::lemma_distinct(t);
        let d = crate::distinct::distinct(t);
        assert forall|j: int| 0 <= j < d.len() implies d[j] == 0 by {
            assert(d.contains(d[j]));
            assert(t.contains(d[j]));
        }
        assert(d[0] == d[renumber(t)[i] as int]);
    }
    assert(renumber(t) =~= t);
}

/// Local moving from single nodes.
pub fn louvain_one_level(graph: &WeightedGraph, seed: u64) -> (labels: Vec<usize>)
    requires
        graph.wf(),
    ensures
        labels@ == local_moving(graph@, singletons(graph@.len()), seed),
        labels@.len() == graph@.len(),
        labels_below(labels@, graph@.len()),
{
    local_moving_from(graph, count_up(graph.node_count()), seed)
}

/// The refinement of a partition. Its communities are connected and lie inside those of
/// the partition.
pub fn refine_partition(graph: &WeightedGraph, p: &Partition, seed: u64) -> (r: Partition)
    requires
        graph.wf(),
        p.wf(),
        p@.len() == graph@.len(),
    ensures
        r.wf(),
        r@ == refined(graph@, p@, seed),
        r@.len() == graph@.len(),
        connected(graph@, r@),
        forall|i: int, j: int|
            0 <= i < r@.len() && 0 <= j < r@.len() && #[trigger] r@[i] == #[trigger] r@[j]
                ==> p@[i] == p@[j],
{
    let labels = move_nodes(graph, count_up(graph.node_count()), p, seed, 32);
    let r = Partition::new(split(graph, &labels));
    proof {
        graph.lemma_wf();
        law_refined_connected(graph@, p@, seed);
        assert forall|i: int, j: int|
            0 <= i < r@.len() && 0 <= j < r@.len() && #[trigger] r@[i] == #[trigger] r@[
                j
            ] implies p@[i] == p@[j] by {
            law_refined_inside(graph@, p@, seed, i, j);
        }
    }
    r
}

/// The labels `p` looked up through `at`.
fn look_up(p: &Partition, at: &Vec<usize>) -> (labels: Vec<usize>)
    requires
        labels_below(at@, p@.len()),
    ensures
        labels@ == Seq::new(at@.len(), |i: int| p@[at@[i] as int]),
{
    let mut labels: Vec<usize> = Vec::new();
    let mut i: usize = 0;
    while i < at.len()
        invariant
            i <= at.len(),
            labels_below(at@, p@.len()),
            labels@ =~= Seq::new(i as nat, |j: int| p@[at@[j] as int]),
        decreases at.len() - i,
    {
        labels.push(p.community_of(at[i]));
        i += 1;
    }
    labels
}

/// Louvain with the default seed.
pub fn louvain(graph: &Graph) -> (p: Partition)
    requires
        graph.wf(),
    ensures
        p.wf(),
        p@ == louvain_labels(graph.weights(), 42),
        p@.len() == graph.ids().len(),
{
    louvain_seeded(graph, 42)
}

/// Louvain with the given seed.
pub fn louvain_seeded(graph: &Graph, seed: u64) -> (p: Partition)
    requires
        graph.wf(),
    ensures
        p.wf(),
        p@ == louvain_labels(graph.weights(), seed),
        p@.len() == graph.ids().len(),
{
    let n: usize = graph.node_count();
    proof {
        graph.lemma_wf();
    }
    let mut wg = WeightedGraph::from_graph(graph);
    let mut composed: Vec<usize> = count_up(n);
    let mut state: u64 = seed;
    let mut left: usize = 32;
    let ghost goal = louvain_from(wg@, composed@, state, 32);
    while left > 0
        invariant
            wg.wf(),
            composed@.len() == n == graph.ids().len(),
            labels_below(composed@, wg@.len()),
            goal == louvain_from(wg@, composed@, state, left as nat),
            renumber(goal) == louvain_labels(graph.weights(), seed),
        decreases left,
    {
        let level = Partition::new(louvain_one_level(&wg, state));
        state = state.wrapping_add(0x9E37_79B9_7F4A_7C15);
        proof {
            level.lemma_wf();
        }
        if level.community_count() == wg.node_count() {
            return Partition::new(composed);
        }
        composed = look_up(&level, &composed);
        if level.community_count() <= 1 {
            return Partition::new(composed);
        }
        wg = wg.aggregate(&level);
        left -= 1;
    }
    Partition::new(composed)
}

/// Leiden with the default seed.
pub fn leiden(graph: &Graph) -> (p: Partition)
    requires
        graph.wf(),
    ensures
        p.wf(),
        p@ == leiden_labels(graph.weights(), 42),
        connected(graph.weights(), p@),
        p@.len() == graph.ids().len(),
{
    leiden_seeded(graph, 42)
}

/// Leiden with the given seed.
pub fn leiden_seeded(graph: &Graph, seed: u64) -> (p: Partition)
    requires
        graph.wf(),
    ensures
        p.wf(),
        p@ == leiden_labels(graph.weights(), seed),
        connected(graph.weights(), p@),
        p@.len() == graph.ids().len(),
{
    proof {
        graph.lemma_wf();
    }
    leiden_on_weighted(WeightedGraph::from_graph(graph), seed)
}

/// The labels under `p` that the communities of its refinement `r` inherit.
fn inherit(p: &Partition, r: &Partition) -> (initial: Vec<usize>)
    requires
        r.wf(),
        p@.len() == r@.len(),
    ensures
        initial@ == inherited(p@, r@, r.count()),
{
    let k: usize = r.community_count();
    let n: usize = r.node_count();
    let mut initial: Vec<usize> = Vec::new();
    let mut u: usize = 0;
    proof {
        r.lemma_wf();
        lemma_first_appearances(r@, 0);
    }
    while u < n
        invariant
            u <= n == r@.len() == p@.len(),
            r.wf(),
            k == r.count(),
            initial@.len() == label_count(r@.take(u as int)),
            initial@.len() <= k,
            forall|c: int|
                0 <= c < initial@.len() ==> #[trigger] initial@[c] == p@[r@.index_of_first(
                    c as usize,
                )->0],
        decreases n - u,
    {
        proof {
            lemma_first_appearances(r@, u as int);
            lemma_first_appearances(r@, u + 1);
        }
        if r.community_of(u) == initial.len() {
            initial.push(p.community_of(u));
        }
        u += 1;
    }
    proof {
        assert(r@.take(u as int) =~= r@);
        assert(initial@ =~= inherited(p@, r@, r.count()));
    }
    initial
}

/// In a partition a node either repeats an earlier label or has the next one.
proof fn lemma_first_appearances(labels: Seq<usize>, u: int)
    requires
        labels == renumber(labels),
        labels.len() <= usize::MAX,
        0 <= u <= labels.len(),
    ensures
        label_count(labels.take(u)) <= label_count(labels),
        u < labels.len() ==> labels[u] <= label_count(labels.take(u)),
        u < labels.len() ==> label_count(labels.take(u + 1)) == label_count(labels.take(u)) + (
        if labels[u] == label_count(labels.take(u)) {
            1int
        } else {
            0int
        }),
        u < labels.len() && labels[u] == label_count(labels.take(u))
            ==> labels.index_of_first(labels[u]) == Some(u),
    decreases u,
{
    crate::partition::lemma_prefix_labels(labels, u);
    if u < labels.len() {
        crate::partition::lemma_prefix_labels(labels, u + 1);
        if labels[u] == label_count(labels.take(u)) {
            assert forall|j: int| 0 <= j < u implies labels[j] != labels[u] by {
                assert(labels.take(u)[j] == labels[j]);
            }
            labels.index_of_first_ensures(labels[u]);
            assert(labels.contains(labels[u]));
        }
    }
}

/// The labels of the nodes after all levels of Leiden.
fn leiden_levels(graph: &WeightedGraph, seed: u64) -> (labels: Vec<usize>)
    requires
        graph.wf(),
    ensures
        labels@ == leiden_from(
            graph@,
            singletons(graph@.len()),
            singletons(graph@.len()),
            singletons(graph@.len()),
            seed,
            32,
        ),
        labels@.len() == graph@.len(),
{
    let n: usize = graph.node_count();
    let mut level: Option<WeightedGraph> = None;
    let mut initial: Vec<usize> = count_up(n);
    let mut at: Vec<usize> = count_up(n);
    let mut composed: Vec<usize> = count_up(n);
    let mut state: u64 = seed;
    let mut left: usize = 32;
    let ghost goal = leiden_from(graph@, initial@, at@, composed@, state, 32);
    while left > 0
        invariant
            graph.wf(),
            level is Some ==> level->0.wf(),
            initial@.len() == level_weights(level, *graph).len(),
            at@.len() == n == composed@.len() == graph@.len(),
            labels_below(at@, level_weights(level, *graph).len()),
            goal == leiden_from(
                level_weights(level, *graph),
                initial@,
                at@,
                composed@,
                state,
                left as nat,
            ),
            goal == leiden_from(
                graph@,
                singletons(graph@.len()),
                singletons(graph@.len()),
                singletons(graph@.len()),
                seed,
                32,
            ),
        decreases left,
    {
        let wg: &WeightedGraph = match &level {
            Some(g) => g,
            None => graph,
        };
        let p = Partition::new(local_moving_from(wg, initial, state));
        state = state.wrapping_add(0x9E37_79B9_7F4A_7C15);
        composed = look_up(&p, &at);
        if p.community_count() == wg.node_count() {
            return composed;
        }
        let r = refine_partition(wg, &p, state);
        state = state.wrapping_add(0x9E37_79B9_7F4A_7C15);
        proof {
            p.lemma_wf();
            r.lemma_wf();
        }
        if r.community_count() <= 1 {
            return composed;
        }
        at = look_up(&r, &at);
        initial = inherit(&p, &r);
        let next = wg.aggregate(&r);
        level = Some(next);
        left -= 1;
    }
    composed
}

/// The weights of the graph of the current level.
spec fn level_weights(level: Option<WeightedGraph>, graph: WeightedGraph) -> Seq<Seq<int>> {
    match level {
        Some(g) => g@,
        None => graph@,
    }
}

/// Leiden on a weighted graph.
pub fn leiden_on_weighted(graph: WeightedGraph, seed: u64) -> (p: Partition)
    requires
        graph.wf(),
    ensures
        p.wf(),
        p@ == leiden_labels(graph@, seed),
        connected(graph@, p@),
        p@.len() == graph@.len(),
{
    proof {
        graph.lemma_wf();
        law_leiden_connected(graph@, seed);
    }
    let labels = leiden_levels(&graph, seed);
    Partition::new(split(&graph, &labels))
}

/// A refinement never crosses the partition that it refines: nodes together in it
/// were together before.
pub proof fn law_refined_inside(m: Seq<Seq<int>>, p: Seq<usize>, seed: u64, i: int, j: int)
    requires
        symmetric(m),
        p.len() == m.len() <= usize::MAX,
        0 <= i < m.len(),
        0 <= j < m.len(),
        refined(m, p, seed)[i] == refined(m, p, seed)[j],
    ensures
        p[i] == p[j],
{
    let rel = |x: int, y: int| p[x] == p[y];
    let raw = moved(m, singletons(m.len()), p, label_count(p), seed, 32);
    law_moved_respects(m, singletons(m.len()), p, label_count(p), seed, 32, rel);
    law_renumber_keeps_communities(pieces(m, raw), i, j);
    law_pieces_inside(m, raw, i, j);
}

/// The communities of a refinement are connected, and numbered as a partition of as many
/// nodes.
pub proof fn law_refined_connected(m: Seq<Seq<int>>, p: Seq<usize>, seed: u64)
    requires
        symmetric(m),
        p.len() == m.len() <= usize::MAX,
    ensures
        connected(m, refined(m, p, seed)),
        refined(m, p, seed).len() == m.len(),
        refined(m, p, seed) == renumber(refined(m, p, seed)),
{
    let raw = moved(m, singletons(m.len()), p, label_count(p), seed, 32);
    law_moved_respects(
        m,
        singletons(m.len()),
        p,
        label_count(p),
        seed,
        32,
        |x: int, y: int| p[x] == p[y],
    );
    law_pieces_connected(m, raw);
    lemma_renumber_connected(m, pieces(m, raw));
}

/// A list that holds every number below `c` has at least `c` places.
proof fn lemma_pigeonhole(s: Seq<usize>, c: nat)
    requires
        c <= usize::MAX,
        forall|x: usize| x < c ==> #[trigger] s.contains(x),
    ensures
        c <= s.len(),
    decreases c,
{
    if c > 0 {
        let last = (c - 1) as usize;
        assert(s.contains(last));
        let i = choose|i: int| 0 <= i < s.len() && s[i] == last;
        let t = s.remove(i);
        assert forall|x: usize| x < c - 1 implies #[trigger] t.contains(x) by {
            assert(s.contains(x));
            let j = choose|j: int| 0 <= j < s.len() && s[j] == x;
            if j < i {
                assert(t[j] == x);
            } else {
                assert(t[j - 1] == x);
            }
        }
        lemma_pigeonhole(t, (c - 1) as nat);
    }
}

/// The labels that a refinement inherits are no more than its communities.
pub proof fn lemma_inherited_below(m: Seq<Seq<int>>, p: Seq<usize>, seed: u64)
    requires
        symmetric(m),
        p.len() == m.len() <= usize::MAX,
        p == renumber(p),
    ensures
        labels_below(
            inherited(p, refined(m, p, seed), label_count(refined(m, p, seed))),
            label_count(refined(m, p, seed)),
        ),
{
    law_refined_connected(m, p, seed);
    let r = refined(m, p, seed);
    let k = label_count(r);
    lemma_labels(p);
    lemma_labels(r);
    let s = inherited(p, r, k);
    assert forall|x: usize| x < label_count(p) implies #[trigger] s.contains(x) by {
        assert(p.contains((x as int) as usize));
        let u = choose|u: int| 0 <= u < p.len() && p[u] == x;
        let c = r[u];
        r.index_of_first_ensures(c);
        assert(r.contains(c));
        let f = r.index_of_first(c)->0;
        law_refined_inside(m, p, seed, f, u);
        assert(s[c as int] == x);
    }
    lemma_pigeonhole(s, label_count(p));
    assert forall|c: int| 0 <= c < s.len() implies (#[trigger] s[c]) < k by {
        r.index_of_first_ensures(c as usize);
        assert(r.contains(c as usize));
    }
}

/// `list` holds the neighbors of cluster `c` in the cluster graph: every other
/// cluster with an edge between them, ascending, with the weight between them.
pub open spec fn is_cluster_list(
    list: Seq<(usize, u64)>,
    m: Seq<Seq<int>>,
    labels: Seq<usize>,
    k: nat,
    c: int,
) -> bool {
    &&& ascending(list)
    &&& forall|i: int|
        0 <= i < list.len() ==> (#[trigger] list[i]).0 < k && list[i].0 != c && list[i].1
            == block_weight(m, labels, c, list[i].0 as int)
    &&& forall|d: usize|
        d < k && d != c ==> (#[trigger] names(list, d) <==> block_weight(m, labels, c, d as int)
            > 0)
}

/// The cluster graph: for each cluster the clusters that it has edges to, with the
/// weight between them.
pub fn cluster_adjacency(graph: &Graph, partition: &Partition) -> (adj: Vec<Vec<(usize, u64)>>)
    requires
        graph.wf(),
        partition.wf(),
        partition@.len() == graph.ids().len(),
    ensures
        adj@.len() == partition.count(),
        forall|c: int|
            0 <= c < partition.count() ==> is_cluster_list(
                (#[trigger] adj@[c])@,
                graph.weights(),
                partition@,
                partition.count(),
                c,
            ),
{
    let k: usize = partition.community_count();
    let ghost m = graph.weights();
    let ghost labels = partition@;
    proof {
        graph.lemma_wf();
        partition.lemma_wf();
    }
    let big = graph.body().aggregate(partition);
    proof {
        big.lemma_wf();
    }
    let mut adj: Vec<Vec<(usize, u64)>> = Vec::new();
    let mut c: usize = 0;
    while c < k
        invariant
            c <= k,
            big.wf(),
            big.sorted(),
            big@ == coarse(m, labels, k as nat),
            k == big@.len() == big.lists().len(),
            forall|x: int| 0 <= x < k ==> entries_valid(#[trigger] big.lists()[x], k as nat),
            big@ == matrix(big.lists()),
            adj@.len() == c,
            forall|x: int|
                0 <= x < c ==> is_cluster_list((#[trigger] adj@[x])@, m, labels, k as nat, x),
        decreases k - c,
    {
        let list = big.neighbors(c);
        assert(entries_valid(big.lists()[c as int], k as nat));
        assert(ascending(big.lists()[c as int]));
        let mut kept: Vec<(usize, u64)> = Vec::new();
        let mut i: usize = 0;
        while i < list.len()
            invariant
                i <= list.len(),
                entries_valid(list@, k as nat),
                ascending(list@),
                ascending(kept@),
                forall|a: int, b: int|
                    0 <= a < kept@.len() && i <= b < list@.len() ==> (#[trigger] kept@[a]).0 < (
                    #[trigger] list@[b]).0,
                forall|a: int|
                    0 <= a < kept@.len() ==> (#[trigger] kept@[a]).0 != c && list@.contains(
                        kept@[a],
                    ),
                forall|b: int|
                    0 <= b < i && (#[trigger] list@[b]).0 != c ==> names(kept@, list@[b].0),
            decreases list.len() - i,
        {
            let (d, w) = list[i];
            let ghost before = kept@;
            if d != c {
                kept.push((d, w));
            }
            proof {
                assert(list@.contains(list@[i as int]));
                assert forall|b: int| 0 <= b < i + 1 && (#[trigger] list@[b]).0 != c implies names(
                    kept@,
                    list@[b].0,
                ) by {
                    if b < i {
                        assert(names(before, list@[b].0));
                        let a = choose|a: int|
                            0 <= a < before.len() && (#[trigger] before[a]).0 == list@[b].0;
                        assert(kept@[a].0 == list@[b].0);
                    } else {
                        assert(kept@[before.len() as int].0 == list@[b].0);
                    }
                }
            }
            i += 1;
        }
        proof {
            let big_list = big.lists()[c as int];
            assert forall|a: int| 0 <= a < kept@.len() implies (#[trigger] kept@[a]).0 < k
                && kept@[a].0 != c && kept@[a].1 == block_weight(
                m,
                labels,
                c as int,
                kept@[a].0 as int,
            ) by {
                assert(list@.contains(kept@[a]));
                let b = choose|b: int| 0 <= b < list@.len() && list@[b] == kept@[a];
                lemma_weight_to_unique(list@, b);
                assert(big@[c as int][list@[b].0 as int] == weight_to(big_list, list@[b].0 as int));
            }
            assert forall|d: usize| d < k && d != c implies (#[trigger] names(kept@, d)
                <==> block_weight(m, labels, c as int, d as int) > 0) by {
                assert(big@[c as int][d as int] == weight_to(big_list, d as int));
                if names(kept@, d) {
                    let a = choose|a: int| 0 <= a < kept@.len() && (#[trigger] kept@[a]).0 == d;
                    assert(list@.contains(kept@[a]));
                    let b = choose|b: int| 0 <= b < list@.len() && list@[b] == kept@[a];
                    lemma_weight_to_unique(list@, b);
                }
                if block_weight(m, labels, c as int, d as int) > 0 {
                    if !names(list@, d) {
                        lemma_weight_to_absent(list@, d as int);
                    }
                    let b = choose|b: int| 0 <= b < list@.len() && (#[trigger] list@[b]).0 == d;
                    assert(names(kept@, list@[b].0));
                }
            }
        }
        adj.push(kept);
        c += 1;
    }
    adj
}

/// The weight between two clusters is the same in both of their lists.
pub proof fn law_cluster_lists_symmetric(
    m: Seq<Seq<int>>,
    labels: Seq<usize>,
    k: nat,
    lists: Seq<Seq<(usize, u64)>>,
    c: usize,
    d: usize,
    w: u64,
)
    requires
        symmetric(m),
        lists.len() == k,
        forall|x: int| 0 <= x < k ==> is_cluster_list(#[trigger] lists[x], m, labels, k, x),
        c < k,
        lists[c as int].contains((d, w)),
    ensures
        d < k,
        lists[d as int].contains((c, w)),
{
    let here = lists[c as int];
    assert(is_cluster_list(here, m, labels, k, c as int));
    let i = choose|i: int| 0 <= i < here.len() && here[i] == (d, w);
    assert(here[i].0 < k);
    assert(names(here, d)) by {
        assert(here[i].0 == d);
    }
    let there = lists[d as int];
    assert(is_cluster_list(there, m, labels, k, d as int));
    lemma_block_weight_symmetric(m, labels, c as int, d as int);
    assert(names(there, c));
    let j = choose|j: int| 0 <= j < there.len() && (#[trigger] there[j]).0 == c;
    assert(there[j] == (c, w));
}

/// The regions of a clustering: the communities of the cluster graph, or a single
/// region for a single cluster.
pub open spec fn cluster_regions(
    m: Seq<Seq<int>>,
    labels: Seq<usize>,
    k: nat,
    seed: u64,
) -> Seq<usize> {
    leiden_labels(coarse(m, labels, k), seed)
}

/// Groups clusters into regions by running Leiden on the cluster graph.
pub fn regions_from_clusters(graph: &Graph, partition: &Partition, seed: u64) -> (p: Partition)
    requires
        graph.wf(),
        partition.wf(),
        partition@.len() == graph.ids().len(),
    ensures
        p.wf(),
        p@ == cluster_regions(graph.weights(), partition@, partition.count(), seed),
        p@.len() == partition.count(),
{
    proof {
        graph.lemma_wf();
    }
    leiden_on_weighted(graph.body().aggregate(partition), seed)
}

} // verus!
