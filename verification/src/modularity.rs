//! Modularity of a partition, and the coarsening that preserves it.
//!
//! All weights are integers, so modularity is an exact fraction: its denominator
//! is the square of twice the total weight.
use crate::graph::Graph;
use crate::partition::{singletons, Partition};
use crate::sums::{
    lemma_list_sum_by_target, lemma_list_sum_push_indicator, lemma_sum_add, lemma_sum_by_group,
    lemma_sum_ext, lemma_sum_nonneg, lemma_sum_prefix_le, lemma_sum_scale, lemma_sum_single,
    lemma_sum_swap, lemma_sum_zero, lemma_weight_to_absent, lemma_weight_to_positive,
    lemma_weight_to_push, list_sum, sum, weight_to,
};
use crate::tally::{ascending, names, tally};
use crate::weighted::{
    degree_of, entries_valid, lemma_degree_is_list_total, lemma_list_total_prefix,
    lemma_list_total_push, list_total, lists_of, matrix, symmetric, twice_total, WeightedGraph,
    MAX_TOTAL_WEIGHT,
};
use vstd::prelude::*;

verus! {

/// `f`, restricted to the nodes labeled `c`.
pub open spec fn within(labels: Seq<usize>, c: int, f: spec_fn(int) -> int) -> spec_fn(int) -> int {
    |u: int| if labels[u] == c { f(u) } else { 0 }
}

/// The weights between node `u` and the others.
pub open spec fn row(m: Seq<Seq<int>>, u: int) -> spec_fn(int) -> int {
    |v: int| m[u][v]
}

/// The weight between node `u` and the nodes labeled `d`.
pub open spec fn weight_into(m: Seq<Seq<int>>, labels: Seq<usize>, u: int, d: int) -> int {
    sum(m.len(), within(labels, d, row(m, u)))
}

/// For each node, the weight between it and the nodes labeled `d`.
pub open spec fn weights_into(m: Seq<Seq<int>>, labels: Seq<usize>, d: int) -> spec_fn(int) -> int {
    |u: int| weight_into(m, labels, u, d)
}

/// The weight between the nodes labeled `c` and the nodes labeled `d`.
pub open spec fn block_weight(m: Seq<Seq<int>>, labels: Seq<usize>, c: int, d: int) -> int {
    sum(m.len(), within(labels, c, weights_into(m, labels, d)))
}

/// The degrees of the nodes.
pub open spec fn degrees(m: Seq<Seq<int>>) -> spec_fn(int) -> int {
    |u: int| degree_of(m, u)
}

/// The sum of the degrees of the nodes labeled `c`.
pub open spec fn volume(m: Seq<Seq<int>>, labels: Seq<usize>, c: int) -> int {
    sum(m.len(), within(labels, c, degrees(m)))
}

/// The contribution of community `c` to modularity, times the square of twice the
/// total weight.
pub open spec fn modularity_term(m: Seq<Seq<int>>, labels: Seq<usize>, c: int) -> int {
    block_weight(m, labels, c, c) * twice_total(m) - volume(m, labels, c) * volume(m, labels, c)
}

/// The modularity of a labeling with `k` labels, times the square of twice the
/// total weight.
pub open spec fn scaled_modularity(m: Seq<Seq<int>>, labels: Seq<usize>, k: nat) -> int {
    sum(k, |c: int| modularity_term(m, labels, c))
}

/// The graph whose nodes are the `k` communities of a labeling: the weight
/// between two of them is the weight between their members, and the weight inside
/// one is its self-loop.
pub open spec fn coarse(m: Seq<Seq<int>>, labels: Seq<usize>, k: nat) -> Seq<Seq<int>> {
    Seq::new(k, |c: int| Seq::new(k, |d: int| block_weight(m, labels, c, d)))
}

/// An exact fraction.
#[derive(Debug, Clone, Copy, PartialEq, Eq, Structural)]
pub struct Ratio {
    pub numerator: i128,
    pub denominator: i128,
}

/// Every label is below `k`.
pub open spec fn labels_below(labels: Seq<usize>, k: nat) -> bool {
    forall|i: int| 0 <= i < labels.len() ==> (#[trigger] labels[i]) < k
}

pub proof fn lemma_degree_nonneg(m: Seq<Seq<int>>, u: int)
    requires
        symmetric(m),
        0 <= u < m.len(),
    ensures
        degree_of(m, u) >= 0,
{
    lemma_sum_nonneg(m.len(), |v: int| m[u][v]);
}

/// The parts of a sum that belong to each of `k` labels add up to the whole.
proof fn lemma_within_total(labels: Seq<usize>, k: nat, f: spec_fn(int) -> int)
    requires
        labels_below(labels, k),
    ensures
        sum(k, |c: int| sum(labels.len(), within(labels, c, f))) == sum(labels.len(), f),
{
    let n = labels.len();
    let group = |v: int| labels[v] as int;
    lemma_sum_by_group(n, k, group, f);
    let stated = |c: int| sum(n, within(labels, c, f));
    let grouped = |c: int| sum(n, |i: int| if group(i) == c { f(i) } else { 0 });
    assert forall|c: int| 0 <= c < k implies #[trigger] stated(c) == grouped(c) by {
        lemma_sum_ext(n, within(labels, c, f), |i: int| if group(i) == c { f(i) } else { 0 });
    }
    lemma_sum_ext(k, stated, grouped);
}

/// The weights from a node into all communities add up to its degree.
pub proof fn lemma_weight_into_total(m: Seq<Seq<int>>, labels: Seq<usize>, k: nat, u: int)
    requires
        labels.len() == m.len(),
        labels_below(labels, k),
    ensures
        sum(k, |d: int| weight_into(m, labels, u, d)) == degree_of(m, u),
{
    lemma_within_total(labels, k, row(m, u));
    lemma_sum_ext(
        k,
        |d: int| weight_into(m, labels, u, d),
        |c: int| sum(labels.len(), within(labels, c, row(m, u))),
    );
    lemma_sum_ext(m.len(), row(m, u), |v: int| m[u][v]);
}

/// The volumes of all communities add up to twice the total weight.
pub proof fn lemma_volume_total(m: Seq<Seq<int>>, labels: Seq<usize>, k: nat)
    requires
        labels.len() == m.len(),
        labels_below(labels, k),
    ensures
        sum(k, |c: int| volume(m, labels, c)) == twice_total(m),
{
    lemma_within_total(labels, k, degrees(m));
    lemma_sum_ext(
        k,
        |c: int| volume(m, labels, c),
        |c: int| sum(labels.len(), within(labels, c, degrees(m))),
    );
    lemma_sum_ext(m.len(), degrees(m), |u: int| degree_of(m, u));
}

/// The degree of a community in the coarse graph is its volume.
pub proof fn lemma_coarse_degree(m: Seq<Seq<int>>, labels: Seq<usize>, k: nat, c: int)
    requires
        labels.len() == m.len(),
        labels_below(labels, k),
        0 <= c < k,
    ensures
        degree_of(coarse(m, labels, k), c) == volume(m, labels, c),
{
    let n = m.len();
    let cell = |u: int, d: int| within(labels, c, weights_into(m, labels, d))(u);
    lemma_sum_swap(n, k, cell);
    let columns = |d: int| sum(n, |u: int| cell(u, d));
    let entries = |d: int| coarse(m, labels, k)[c][d];
    assert forall|d: int| 0 <= d < k implies #[trigger] columns(d) == entries(d) by {
        lemma_sum_ext(n, |u: int| cell(u, d), within(labels, c, weights_into(m, labels, d)));
    }
    lemma_sum_ext(k, columns, entries);
    let rows = |u: int| sum(k, |d: int| cell(u, d));
    let owned = within(labels, c, degrees(m));
    assert forall|u: int| 0 <= u < n implies #[trigger] rows(u) == owned(u) by {
        if labels[u] == c {
            lemma_weight_into_total(m, labels, k, u);
            lemma_sum_ext(k, |d: int| cell(u, d), |d: int| weight_into(m, labels, u, d));
        } else {
            lemma_sum_zero(k, |d: int| cell(u, d));
        }
    }
    lemma_sum_ext(n, rows, owned);
}

/// Coarsening keeps the total weight.
pub proof fn law_coarse_keeps_total(m: Seq<Seq<int>>, labels: Seq<usize>, k: nat)
    requires
        labels.len() == m.len(),
        labels_below(labels, k),
    ensures
        twice_total(coarse(m, labels, k)) == twice_total(m),
{
    let big = coarse(m, labels, k);
    assert forall|c: int| 0 <= c < k implies #[trigger] degree_of(big, c) == volume(
        m,
        labels,
        c,
    ) by {
        lemma_coarse_degree(m, labels, k, c);
    }
    lemma_sum_ext(k, |c: int| degree_of(big, c), |c: int| volume(m, labels, c));
    lemma_volume_total(m, labels, k);
}

/// The weight between two communities is the same from either side.
pub proof fn lemma_block_weight_symmetric(m: Seq<Seq<int>>, labels: Seq<usize>, c: int, d: int)
    requires
        symmetric(m),
    ensures
        0 <= block_weight(m, labels, c, d) == block_weight(m, labels, d, c),
{
    let n = m.len();
    let cell = |u: int, v: int| if labels[u] == c && labels[v] == d { m[u][v] } else { 0 };
    lemma_sum_swap(n, n, cell);
    let rows = |u: int| sum(n, |v: int| cell(u, v));
    let forward = within(labels, c, weights_into(m, labels, d));
    assert forall|u: int| 0 <= u < n implies #[trigger] rows(u) == forward(u) && forward(u)
        >= 0 by {
        if labels[u] == c {
            lemma_sum_ext(n, |v: int| cell(u, v), within(labels, d, row(m, u)));
            lemma_sum_nonneg(n, within(labels, d, row(m, u)));
        } else {
            lemma_sum_zero(n, |v: int| cell(u, v));
        }
    }
    lemma_sum_ext(n, rows, forward);
    assert forall|u: int| 0 <= u < n implies #[trigger] forward(u) >= 0 by {
        assert(rows(u) == forward(u));
    }
    lemma_sum_nonneg(n, forward);
    let columns = |v: int| sum(n, |u: int| cell(u, v));
    let backward = within(labels, d, weights_into(m, labels, c));
    assert forall|v: int| 0 <= v < n implies #[trigger] columns(v) == backward(v) by {
        if labels[v] == d {
            lemma_sum_ext(n, |u: int| cell(u, v), within(labels, c, row(m, v)));
        } else {
            lemma_sum_zero(n, |u: int| cell(u, v));
        }
    }
    lemma_sum_ext(n, columns, backward);
}

pub proof fn lemma_coarse_symmetric(m: Seq<Seq<int>>, labels: Seq<usize>, k: nat)
    requires
        symmetric(m),
    ensures
        symmetric(coarse(m, labels, k)),
{
    assert forall|c: int, d: int| 0 <= c < k && 0 <= d < k implies 0 <= #[trigger] coarse(
        m,
        labels,
        k,
    )[c][d] == coarse(m, labels, k)[d][c] by {
        lemma_block_weight_symmetric(m, labels, c, d);
    }
}

/// Coarsening preserves modularity exactly: a partition of a graph scores what the
/// partition of its coarse graph into single nodes scores.
pub proof fn law_coarse_keeps_modularity(m: Seq<Seq<int>>, labels: Seq<usize>, k: nat)
    requires
        labels.len() == m.len(),
        labels_below(labels, k),
        k <= usize::MAX,
    ensures
        scaled_modularity(coarse(m, labels, k), singletons(k), k) == scaled_modularity(
            m,
            labels,
            k,
        ),
        twice_total(coarse(m, labels, k)) == twice_total(m),
{
    let big = coarse(m, labels, k);
    let one = singletons(k);
    law_coarse_keeps_total(m, labels, k);
    assert forall|c: int| 0 <= c < k implies #[trigger] modularity_term(big, one, c)
        == modularity_term(m, labels, c) by {
        lemma_coarse_degree(m, labels, k, c);
        lemma_sum_single(k, within(one, c, degrees(big)), c);
        lemma_sum_single(k, within(one, c, row(big, c)), c);
        lemma_sum_single(k, within(one, c, weights_into(big, one, c)), c);
    }
    lemma_sum_ext(k, |c: int| modularity_term(big, one, c), |c: int| modularity_term(m, labels, c));
}

/// 1 for the nodes labeled `d`, 0 for the others.
pub open spec fn indicator(labels: Seq<usize>, d: int) -> spec_fn(int) -> int {
    |v: int| if labels[v] == d { 1int } else { 0int }
}

/// The weight between a node and the nodes labeled `d`, read off its list.
proof fn lemma_weight_into_list(
    lists: Seq<Seq<(usize, u64)>>,
    labels: Seq<usize>,
    u: int,
    d: int,
)
    requires
        0 <= u < lists.len(),
        entries_valid(lists[u], lists.len()),
    ensures
        weight_into(matrix(lists), labels, u, d) == list_sum(lists[u], indicator(labels, d)),
{
    let n = lists.len();
    let f = indicator(labels, d);
    lemma_list_sum_by_target(lists[u], n, f);
    lemma_sum_ext(
        n,
        |v: int| weight_to(lists[u], v) * f(v),
        within(labels, d, row(matrix(lists), u)),
    );
}

/// Appends to `out` the entries of `list` with each target replaced by its label.
fn relabel_into(
    list: &Vec<(usize, u64)>,
    labels: &Partition,
    k: usize,
    out: &mut Vec<(usize, u64)>,
)
    requires
        entries_valid(list@, labels@.len()),
        labels_below(labels@, k as nat),
        entries_valid(old(out)@, k as nat),
    ensures
        entries_valid(final(out)@, k as nat),
        forall|d: int| #[trigger]
            weight_to(final(out)@, d) == weight_to(old(out)@, d) + list_sum(
                list@,
                indicator(labels@, d),
            ),
{
    let mut i: usize = 0;
    assert(list@.take(0) =~= Seq::empty());
    while i < list.len()
        invariant
            i <= list.len(),
            entries_valid(list@, labels@.len()),
            labels_below(labels@, k as nat),
            entries_valid(out@, k as nat),
            forall|d: int| #[trigger]
                weight_to(out@, d) == weight_to(old(out)@, d) + list_sum(
                    list@.take(i as int),
                    indicator(labels@, d),
                ),
        decreases list.len() - i,
    {
        let (v, w) = list[i];
        let c: usize = labels.community_of(v);
        let ghost before = out@;
        out.push((c, w));
        proof {
            let e = list@[i as int];
            let front = list@.take(i as int);
            assert(list@.take(i + 1) =~= front.push(e));
            assert forall|d: int| #[trigger] weight_to(out@, d) == weight_to(old(out)@, d)
                + list_sum(list@.take(i + 1), indicator(labels@, d)) by {
                lemma_weight_to_push(before, (c, w), d);
                lemma_list_sum_push_indicator(front, e, indicator(labels@, d));
                assert(weight_to(before, d) == weight_to(old(out)@, d) + list_sum(
                    front,
                    indicator(labels@, d),
                ));
            }
        }
        i += 1;
    }
    assert(list@.take(i as int) =~= list@);
}

/// A list has the same matrix row as its tally.
proof fn lemma_tally_row(list: Seq<(usize, u64)>, entries: Seq<(usize, u64)>, v: int)
    requires
        0 <= v <= usize::MAX,
        ascending(entries),
        forall|i: int|
            0 <= i < entries.len() ==> (#[trigger] entries[i]).1 == weight_to(
                list,
                entries[i].0 as int,
            ),
        forall|x: usize| names(list, x) <==> names(entries, x),
    ensures
        weight_to(entries, v) == weight_to(list, v),
{
    if names(entries, v as usize) {
        let i = choose|i: int| 0 <= i < entries.len() && (#[trigger] entries[i]).0 == v as usize;
        lemma_weight_to_unique(entries, i);
    } else {
        assert(!names(list, v as usize));
        lemma_weight_to_absent(entries, v);
        lemma_weight_to_absent(list, v);
    }
}

/// In an ascending list a key receives the weight of its one entry.
pub proof fn lemma_weight_to_unique(entries: Seq<(usize, u64)>, i: int)
    requires
        ascending(entries),
        0 <= i < entries.len(),
    ensures
        weight_to(entries, entries[i].0 as int) == entries[i].1,
    decreases entries.len(),
{
    let front = entries.drop_last();
    let v = entries[i].0 as int;
    if i == entries.len() - 1 {
        lemma_weight_to_absent(front, v);
    } else {
        lemma_weight_to_unique(front, i);
        assert(entries[i].0 < entries[entries.len() - 1].0);
    }
}

impl WeightedGraph {
    /// Every list is in ascending order of its targets.
    pub open spec fn sorted(&self) -> bool {
        forall|u: int| 0 <= u < self.lists().len() ==> ascending(#[trigger] self.lists()[u])
    }

    /// The graph of a [`Graph`], without the identifiers.
    pub fn from_graph(g: &Graph) -> (wg: Self)
        requires
            g.wf(),
        ensures
            wg.wf(),
            wg@ == g.weights(),
            wg.lists() == g.lists(),
    {
        let body = g.body();
        let n: usize = body.node_count();
        proof {
            body.lemma_wf();
        }
        let mut adj: Vec<Vec<(usize, u64)>> = Vec::new();
        let mut u: usize = 0;
        while u < n
            invariant
                u <= n,
                n == body@.len() == body.lists().len(),
                adj@.len() == u,
                forall|x: int| 0 <= x < u ==> (#[trigger] adj@[x])@ == body.lists()[x],
            decreases n - u,
        {
            adj.push(copy_list(body.neighbors(u)));
            u += 1;
        }
        proof {
            assert(lists_of(adj@) =~= body.lists());
            assert forall|x: int| 0 <= x < adj@.len() implies entries_valid(
                #[trigger] adj@[x]@,
                adj@.len(),
            ) by {
                assert(entries_valid(body.lists()[x], body@.len()));
            }
        }
        WeightedGraph::from_lists(adj)
    }

    /// Collapses each community into one node.
    pub fn aggregate(&self, partition: &Partition) -> (g: Self)
        requires
            self.wf(),
            partition.wf(),
            partition@.len() == self@.len(),
        ensures
            g.wf(),
            g@ == coarse(self@, partition@, partition.count()),
            g.sorted(),
    {
        let k: usize = partition.community_count();
        let n: usize = self.node_count();
        let ghost m = self@;
        let ghost labels = partition@;
        proof {
            self.lemma_wf();
            partition.lemma_wf();
        }
        let mut raw: Vec<Vec<(usize, u64)>> = Vec::new();
        let mut c: usize = 0;
        while c < k
            invariant
                c <= k,
                raw@.len() == c,
                forall|x: int| 0 <= x < c ==> (#[trigger] raw@[x])@ == Seq::<(usize, u64)>::empty(),
            decreases k - c,
        {
            raw.push(Vec::new());
            c += 1;
        }
        let mut u: usize = 0;
        while u < n
            invariant
                u <= n,
                n == self@.len() == labels.len() == self.lists().len(),
                k == partition.count(),
                m == self@,
                m == matrix(self.lists()),
                labels == partition@,
                labels_below(labels, k as nat),
                forall|x: int|
                    0 <= x < n ==> entries_valid(#[trigger] self.lists()[x], n as nat),
                raw@.len() == k,
                forall|x: int| 0 <= x < k ==> entries_valid((#[trigger] raw@[x])@, k as nat),
                forall|x: int, d: int|
                    0 <= x < k ==> #[trigger] weight_to(raw@[x]@, d) == sum(
                        u as nat,
                        within(labels, x, weights_into(m, labels, d)),
                    ),
            decreases n - u,
        {
            let cu: usize = partition.community_of(u);
            let ghost before = raw@;
            assert(entries_valid(self.lists()[u as int], n as nat));
            relabel_into(self.neighbors(u), partition, k, &mut raw[cu]);
            proof {
                assert forall|x: int| 0 <= x < k implies entries_valid(
                    (#[trigger] raw@[x])@,
                    k as nat,
                ) by {
                    if x != cu {
                        assert(raw@[x] == before[x]);
                    }
                }
                assert forall|x: int, d: int| 0 <= x < k implies #[trigger] weight_to(raw@[x]@, d)
                    == sum((u + 1) as nat, within(labels, x, weights_into(m, labels, d))) by {
                    let f = within(labels, x, weights_into(m, labels, d));
                    assert(weight_to(before[x]@, d) == sum(u as nat, f));
                    if x == cu {
                        lemma_weight_into_list(self.lists(), labels, u as int, d);
                        assert(f(u as int) == weight_into(m, labels, u as int, d));
                    } else {
                        assert(raw@[x] == before[x]);
                        assert(f(u as int) == 0);
                    }
                }
            }
            u += 1;
        }
        let ghost big = coarse(m, labels, k as nat);
        proof {
            lemma_coarse_symmetric(m, labels, k as nat);
            law_coarse_keeps_total(m, labels, k as nat);
            assert(matrix(lists_of(raw@)) =~= big) by {
                assert forall|x: int| 0 <= x < k implies matrix(lists_of(raw@))[x] =~= big[x] by {
                    assert forall|d: int| 0 <= d < k implies matrix(lists_of(raw@))[x][d]
                        == big[x][d] by {
                        assert(weight_to(raw@[x]@, d) == block_weight(m, labels, x, d));
                    }
                }
            }
        }
        let mut adj: Vec<Vec<(usize, u64)>> = Vec::new();
        let mut c: usize = 0;
        while c < k
            invariant
                c <= k,
                k == raw@.len(),
                big == matrix(lists_of(raw@)),
                symmetric(big),
                twice_total(big) <= MAX_TOTAL_WEIGHT,
                forall|x: int| 0 <= x < k ==> entries_valid((#[trigger] raw@[x])@, k as nat),
                adj@.len() == c,
                forall|x: int| 0 <= x < c ==> entries_valid((#[trigger] adj@[x])@, k as nat),
                forall|x: int| 0 <= x < c ==> ascending((#[trigger] adj@[x])@),
                forall|x: int, d: int|
                    0 <= x < c && 0 <= d < k ==> #[trigger] weight_to(adj@[x]@, d) == weight_to(
                        raw@[x]@,
                        d,
                    ),
            decreases k - c,
        {
            proof {
                assert(lists_of(raw@)[c as int] == raw@[c as int]@);
                lemma_degree_is_list_total(lists_of(raw@), c as int);
                lemma_degrees_below_total(big, c as int);
            }
            let entries = tally(&raw[c]);
            proof {
                let list = raw@[c as int]@;
                assert(entries_valid(list, k as nat));
                assert forall|i: int| 0 <= i < entries@.len() implies (#[trigger] entries@[i]).0 < k
                    && entries@[i].1 > 0 by {
                    assert(names(entries@, entries@[i].0));
                    assert(names(list, entries@[i].0));
                    let j = choose|j: int|
                        0 <= j < list.len() && (#[trigger] list[j]).0 == entries@[i].0;
                    lemma_weight_to_positive(list, j);
                }
                assert forall|d: int| 0 <= d < k implies #[trigger] weight_to(entries@, d)
                    == weight_to(list, d) by {
                    lemma_tally_row(list, entries@, d);
                }
            }
            adj.push(entries);
            c += 1;
        }
        proof {
            assert(matrix(lists_of(adj@)) =~= big) by {
                assert forall|x: int| 0 <= x < k implies matrix(lists_of(adj@))[x] =~= big[x] by {
                    assert forall|d: int| 0 <= d < k implies matrix(lists_of(adj@))[x][d]
                        == big[x][d] by {
                        assert(weight_to(adj@[x]@, d) == weight_to(raw@[x]@, d));
                    }
                }
            }
        }
        let g = WeightedGraph::from_lists(adj);
        assert forall|x: int| 0 <= x < g.lists().len() implies ascending(
            #[trigger] g.lists()[x],
        ) by {
            assert(g.lists()[x] == adj@[x]@);
        }
        g
    }
}

/// No degree exceeds the sum of all degrees.
pub proof fn lemma_degrees_below_total(m: Seq<Seq<int>>, u: int)
    requires
        symmetric(m),
        0 <= u < m.len(),
    ensures
        0 <= degree_of(m, u) <= twice_total(m),
{
    let f = |x: int| degree_of(m, x);
    assert forall|x: int| 0 <= x < m.len() implies #[trigger] f(x) >= 0 by {
        lemma_degree_nonneg(m, x);
    }
    crate::sums::lemma_sum_term_le(m.len(), f, u);
}

/// A copy of an adjacency list.
pub fn copy_list(list: &Vec<(usize, u64)>) -> (copy: Vec<(usize, u64)>)
    ensures
        copy@ == list@,
{
    let mut copy: Vec<(usize, u64)> = Vec::new();
    let mut i: usize = 0;
    while i < list.len()
        invariant
            i <= list.len(),
            copy@ == list@.take(i as int),
        decreases list.len() - i,
    {
        copy.push(list[i]);
        assert(list@.take(i + 1) =~= list@.take(i as int).push(list@[i as int]));
        i += 1;
    }
    assert(list@.take(i as int) =~= list@);
    copy
}

/// Modularity is the weight inside communities, scaled, less the squared volumes.
proof fn lemma_modularity_split(m: Seq<Seq<int>>, labels: Seq<usize>, k: nat)
    requires
        labels.len() == m.len(),
        labels_below(labels, k),
    ensures
        scaled_modularity(m, labels, k) == twice_total(m) * sum(
            m.len(),
            |u: int| weight_into(m, labels, u, labels[u] as int),
        ) - sum(k, |c: int| volume(m, labels, c) * volume(m, labels, c)),
{
    let t = twice_total(m);
    let inside = |c: int| block_weight(m, labels, c, c);
    let squares = |c: int| volume(m, labels, c) * volume(m, labels, c);
    let minus = |c: int| -1 * squares(c);
    let scaled = |c: int| t * inside(c);
    lemma_sum_scale(k, inside, t);
    lemma_sum_scale(k, squares, -1);
    lemma_sum_add(k, scaled, minus);
    assert forall|c: int| 0 <= c < k implies #[trigger] modularity_term(m, labels, c) == scaled(c)
        + minus(c) by {
        assert(t * inside(c) == inside(c) * t) by (nonlinear_arith);
    }
    lemma_sum_ext(k, |c: int| modularity_term(m, labels, c), |c: int| scaled(c) + minus(c));
    lemma_sum_ext(k, scaled, |i: int| t * inside(i));
    lemma_sum_ext(k, minus, |i: int| -1 * squares(i));
    let own = |u: int| weight_into(m, labels, u, labels[u] as int);
    lemma_within_total(labels, k, own);
    assert forall|c: int| 0 <= c < k implies #[trigger] inside(c) == sum(
        labels.len(),
        within(labels, c, own),
    ) by {
        lemma_sum_ext(
            m.len(),
            within(labels, c, weights_into(m, labels, c)),
            within(labels, c, own),
        );
    }
    lemma_sum_ext(k, inside, |c: int| sum(labels.len(), within(labels, c, own)));
}

/// The modularity of a partition of a weighted graph, 0 for a graph without edges.
pub fn modularity_internal(graph: &WeightedGraph, partition: &Partition) -> (q: Ratio)
    requires
        graph.wf(),
        partition.wf(),
        partition@.len() == graph@.len(),
    ensures
        twice_total(graph@) == 0 ==> q == (Ratio { numerator: 0, denominator: 1 }),
        twice_total(graph@) > 0 ==> q.numerator == scaled_modularity(
            graph@,
            partition@,
            partition.count(),
        ) && q.denominator == twice_total(graph@) * twice_total(graph@) > 0,
{
    let twice_m: u64 = graph.twice_total_weight();
    if twice_m == 0 {
        return Ratio { numerator: 0, denominator: 1 };
    }
    let ghost m = graph@;
    let ghost labels = partition@;
    let k: usize = partition.community_count();
    let n: usize = graph.node_count();
    let ghost own = |u: int| weight_into(m, labels, u, labels[u] as int);
    proof {
        graph.lemma_wf();
        partition.lemma_wf();
        lemma_volume_total(m, labels, k as nat);
        assert forall|u: int| 0 <= u < n implies 0 <= #[trigger] own(u) <= degree_of(m, u) by {
            lemma_own_below_degree(m, labels, u);
        }
        crate::sums::lemma_sum_le(n as nat, own, |u: int| degree_of(m, u));
    }
    let mut inside: u64 = 0;
    let mut volumes: Vec<u64> = Vec::new();
    let mut c: usize = 0;
    while c < k
        invariant
            c <= k,
            volumes@.len() == c,
            forall|x: int| 0 <= x < c ==> #[trigger] volumes@[x] == 0,
        decreases k - c,
    {
        volumes.push(0);
        c += 1;
    }
    let mut u: usize = 0;
    while u < n
        invariant
            u <= n,
            graph.wf(),
            m == graph@,
            labels == partition@,
            n == m.len() == labels.len(),
            k == partition.count(),
            labels_below(labels, k as nat),
            symmetric(m),
            twice_total(m) == twice_m <= MAX_TOTAL_WEIGHT,
            own == (|u: int| weight_into(m, labels, u, labels[u] as int)),
            forall|x: int| 0 <= x < n ==> 0 <= #[trigger] own(x) <= degree_of(m, x),
            sum(n as nat, own) <= twice_m,
            inside == sum(u as nat, own),
            volumes@.len() == k,
            forall|x: int|
                0 <= x < k ==> #[trigger] volumes@[x] == sum(
                    u as nat,
                    within(labels, x, degrees(m)),
                ),
        decreases n - u,
    {
        let cu: usize = partition.community_of(u);
        let d: u64 = graph.degree(u);
        let ghost f = within(labels, cu as int, degrees(m));
        proof {
            assert forall|x: int| 0 <= x < n implies #[trigger] f(x) >= 0 by {
                lemma_degree_nonneg(m, x);
            }
            lemma_sum_prefix_le((u + 1) as nat, n as nat, f);
            lemma_volume_below_total(m, labels, cu as int);
            lemma_sum_prefix_le((u + 1) as nat, n as nat, own);
        }
        let ghost before = volumes@;
        volumes.set(cu, volumes[cu] + d);
        proof {
            assert forall|x: int| 0 <= x < k implies #[trigger] volumes@[x] == sum(
                (u + 1) as nat,
                within(labels, x, degrees(m)),
            ) by {
                assert(before[x] == sum(u as nat, within(labels, x, degrees(m))));
            }
        }
        let w: u64 = weight_inside(graph, partition, u);
        inside += w;
        u += 1;
    }
    let ghost vol = |c: int| volume(m, labels, c);
    let ghost squares = |c: int| volume(m, labels, c) * volume(m, labels, c);
    let mut spread: u128 = 0;
    let mut c: usize = 0;
    proof {
        assert forall|x: int| 0 <= x < k implies #[trigger] vol(x) >= 0 by {
            lemma_volume_below_total(m, labels, x);
        }
        lemma_sum_ext(k as nat, vol, |c: int| volume(m, labels, c));
    }
    while c < k
        invariant
            c <= k,
            k == volumes@.len(),
            vol == (|c: int| volume(m, labels, c)),
            squares == (|c: int| volume(m, labels, c) * volume(m, labels, c)),
            forall|x: int| 0 <= x < k ==> #[trigger] volumes@[x] == volume(m, labels, x),
            forall|x: int| 0 <= x < k ==> #[trigger] vol(x) >= 0,
            sum(k as nat, vol) == twice_m <= MAX_TOTAL_WEIGHT,
            spread == sum(c as nat, squares),
            spread <= sum(c as nat, vol) * sum(c as nat, vol),
        decreases k - c,
    {
        let v: u128 = volumes[c] as u128;
        proof {
            lemma_sum_prefix_le((c + 1) as nat, k as nat, vol);
            lemma_sum_prefix_le(c as nat, k as nat, vol);
            let s = sum(c as nat, vol);
            assert(vol(c as int) == v);
            assert(s >= 0) by {
                lemma_sum_nonneg(c as nat, vol);
            }
            assert(s * s + v * v <= (s + v) * (s + v)) by (nonlinear_arith)
                requires
                    s >= 0,
                    v >= 0,
            ;
            assert((s + v) * (s + v) <= 0x1000_0000_0000_0000 * 0x1000_0000_0000_0000)
                by (nonlinear_arith)
                requires
                    0 <= s + v <= 0x1000_0000_0000_0000,
            ;
            assert(v * v <= 0x1000_0000_0000_0000 * 0x1000_0000_0000_0000) by (nonlinear_arith)
                requires
                    0 <= v <= 0x1000_0000_0000_0000,
            ;
            assert(squares(c as int) == v * v);
        }
        spread += v * v;
        c += 1;
    }
    proof {
        lemma_modularity_split(m, labels, k as nat);
        lemma_sum_ext(n as nat, own, |u: int| weight_into(m, labels, u, labels[u] as int));
        lemma_sum_ext(k as nat, squares, |c: int| volume(m, labels, c) * volume(m, labels, c));
        assert(twice_m * inside == inside * twice_m) by (nonlinear_arith);
        assert(0 < twice_m * twice_m <= 0x1000_0000_0000_0000 * 0x1000_0000_0000_0000)
            by (nonlinear_arith)
            requires
                0 < twice_m <= 0x1000_0000_0000_0000,
        ;
        assert(0 <= inside * twice_m <= twice_m * twice_m) by (nonlinear_arith)
            requires
                0 <= inside <= twice_m,
        ;
        assert(sum(k as nat, vol) * sum(k as nat, vol) == twice_m * twice_m);
    }
    Ratio {
        numerator: inside as i128 * twice_m as i128 - spread as i128,
        denominator: twice_m as i128 * twice_m as i128,
    }
}

/// The weight between node `u` and the other members of its community, and its
/// self-loop.
fn weight_inside(graph: &WeightedGraph, partition: &Partition, u: usize) -> (w: u64)
    requires
        graph.wf(),
        partition@.len() == graph@.len(),
        u < graph@.len(),
    ensures
        w == weight_into(graph@, partition@, u as int, partition@[u as int] as int),
{
    let cu: usize = partition.community_of(u);
    let list = graph.neighbors(u);
    let ghost f = indicator(partition@, cu as int);
    proof {
        graph.lemma_wf();
        assert(entries_valid(graph.lists()[u as int], graph@.len()));
        lemma_degree_is_list_total(graph.lists(), u as int);
        lemma_degrees_below_total(graph@, u as int);
    }
    let mut w: u64 = 0;
    let mut i: usize = 0;
    while i < list.len()
        invariant
            i <= list.len(),
            entries_valid(list@, partition@.len()),
            f == indicator(partition@, cu as int),
            list_total(list@) <= MAX_TOTAL_WEIGHT,
            w == list_sum(list@.take(i as int), f),
            w <= list_total(list@.take(i as int)),
        decreases list.len() - i,
    {
        let (v, x) = list[i];
        proof {
            let front = list@.take(i as int);
            assert(list@.take(i + 1) =~= front.push(list@[i as int]));
            lemma_list_sum_push_indicator(front, list@[i as int], f);
            lemma_list_total_push(front, list@[i as int]);
            lemma_list_total_prefix(list@, i + 1);
        }
        if partition.community_of(v) == cu {
            w += x;
        }
        i += 1;
    }
    proof {
        assert(list@.take(i as int) =~= list@);
        lemma_weight_into_list(graph.lists(), partition@, u as int, cu as int);
    }
    w
}

proof fn lemma_own_below_degree(m: Seq<Seq<int>>, labels: Seq<usize>, u: int)
    requires
        symmetric(m),
        0 <= u < m.len(),
    ensures
        0 <= weight_into(m, labels, u, labels[u] as int) <= degree_of(m, u),
{
    let c = labels[u] as int;
    let f = within(labels, c, row(m, u));
    lemma_sum_nonneg(m.len(), f);
    crate::sums::lemma_sum_le(m.len(), f, |v: int| m[u][v]);
}

/// No community has more volume than the whole graph.
pub proof fn lemma_volume_below_total(m: Seq<Seq<int>>, labels: Seq<usize>, c: int)
    requires
        symmetric(m),
    ensures
        0 <= volume(m, labels, c) <= twice_total(m),
{
    let f = within(labels, c, degrees(m));
    let g = |u: int| degree_of(m, u);
    assert forall|u: int| 0 <= u < m.len() implies 0 <= #[trigger] f(u) <= g(u) by {
        lemma_degree_nonneg(m, u);
    }
    lemma_sum_nonneg(m.len(), f);
    crate::sums::lemma_sum_le(m.len(), f, g);
}

/// The modularity of a partition of a graph: the fraction of the weight that falls
/// inside communities, less the fraction expected at random with the same degrees.
pub fn modularity(graph: &Graph, partition: &Partition) -> (q: Ratio)
    requires
        graph.wf(),
        partition.wf(),
        partition@.len() == graph.ids().len(),
    ensures
        twice_total(graph.weights()) == 0 ==> q == (Ratio { numerator: 0, denominator: 1 }),
        twice_total(graph.weights()) > 0 ==> q.numerator == scaled_modularity(
            graph.weights(),
            partition@,
            partition.count(),
        ) && q.denominator == twice_total(graph.weights()) * twice_total(graph.weights()) > 0,
{
    proof {
        graph.lemma_wf();
    }
    modularity_internal(graph.body(), partition)
}

} // verus!
