//! Communities and connected components.
//!
//! Nodes without a path between them are never put into one community: a community
//! stays inside every class of every equivalence that holds between neighbors.
use crate::cohesion::{law_leiden_connected, relates_mates};
use crate::community::{
    leiden_labels, local_moving, louvain_from, louvain_labels, next_seed, together,
};
use crate::modularity::{block_weight, coarse, labels_below, lemma_coarse_symmetric, row, within};
use crate::moving::{equivalence, law_moved_respects, relates_neighbors, respects};
use crate::partition::{
    label_count, law_renumber_keeps_communities, lemma_labels, lemma_renumber, renumber, singletons,
};
use crate::sums::lemma_sum_positive_term;
use crate::weighted::symmetric;
use vstd::prelude::*;

verus! {

/// Communities `c` and `d` hold nodes that `rel` relates.
pub open spec fn lifted(labels: Seq<usize>, rel: spec_fn(int, int) -> bool) -> spec_fn(
    int,
    int,
) -> bool {
    |c: int, d: int|
        exists|i: int, j: int|
            0 <= i < labels.len() && 0 <= j < labels.len() && labels[i] == c && labels[j] == d
                && #[trigger] rel(i, j)
}

/// Neighbors are related, whatever their labels.
pub open spec fn links_related(m: Seq<Seq<int>>, rel: spec_fn(int, int) -> bool) -> bool {
    forall|u: int, v: int|
        0 <= u < m.len() && 0 <= v < m.len() && #[trigger] m[u][v] > 0 ==> rel(u, v)
}

/// A relation between neighbors carries over to the communities of a partition that
/// respects it.
proof fn lemma_lifted(m: Seq<Seq<int>>, p: Seq<usize>, rel: spec_fn(int, int) -> bool)
    requires
        symmetric(m),
        p.len() == m.len() <= usize::MAX,
        p == renumber(p),
        equivalence(m.len(), rel),
        links_related(m, rel),
        respects(p, rel),
    ensures
        equivalence(label_count(p), lifted(p, rel)),
        links_related(coarse(m, p, label_count(p)), lifted(p, rel)),
        forall|i: int, j: int|
            0 <= i < p.len() && 0 <= j < p.len() && lifted(p, rel)(
                (#[trigger] p[i]) as int,
                (#[trigger] p[j]) as int,
            ) ==> rel(i, j),
{
    let n = m.len();
    let k = label_count(p);
    let up = lifted(p, rel);
    lemma_labels(p);
    assert forall|c: int| 0 <= c < k implies #[trigger] up(c, c) by {
        assert(p.contains(c as usize));
        let i = choose|i: int| 0 <= i < p.len() && p[i] == c as usize;
        assert(rel(i, i));
    }
    assert forall|c: int, d: int| 0 <= c < k && 0 <= d < k && #[trigger] up(c, d) implies up(
        d,
        c,
    ) by {
        let (i, j) = choose|i: int, j: int|
            0 <= i < p.len() && 0 <= j < p.len() && p[i] == c && p[j] == d && #[trigger] rel(i, j);
        assert(rel(j, i));
    }
    assert forall|c: int, d: int, e: int|
        0 <= c < k && 0 <= d < k && 0 <= e < k && #[trigger] up(c, d) && #[trigger] up(
            d,
            e,
        ) implies up(c, e) by {
        let (i, j) = choose|i: int, j: int|
            0 <= i < p.len() && 0 <= j < p.len() && p[i] == c && p[j] == d && #[trigger] rel(i, j);
        let (g, h) = choose|g: int, h: int|
            0 <= g < p.len() && 0 <= h < p.len() && p[g] == d && p[h] == e && #[trigger] rel(g, h);
        assert(p[j] == p[g]);
        assert(rel(j, g));
        assert(rel(i, g));
        assert(rel(i, h));
    }
    let big = coarse(m, p, k);
    assert forall|c: int, d: int|
        0 <= c < big.len() && 0 <= d < big.len() && #[trigger] big[c][d] > 0 implies up(c, d) by {
        assert(big[c][d] == block_weight(m, p, c, d));
        let outer = within(p, c, crate::modularity::weights_into(m, p, d));
        let i = lemma_sum_positive_term(n, outer);
        assert(p[i] == c);
        let inner = within(p, d, row(m, i));
        let j = lemma_sum_positive_term(n, inner);
        assert(p[j] == d);
        assert(m[i][j] > 0);
        assert(rel(i, j));
    }
    assert forall|i: int, j: int|
        0 <= i < p.len() && 0 <= j < p.len() && up(
            (#[trigger] p[i]) as int,
            (#[trigger] p[j]) as int,
        ) implies rel(i, j) by {
        let (g, h) = choose|g: int, h: int|
            0 <= g < p.len() && 0 <= h < p.len() && p[g] == p[i] as int && p[h] == p[j] as int
                && #[trigger] rel(g, h);
        assert(p[i] == p[g] && p[h] == p[j]);
        assert(rel(i, g));
        assert(rel(h, j));
        assert(rel(i, h));
    }
}

/// Renumbering keeps what a labeling respects.
proof fn lemma_renumber_respects(raw: Seq<usize>, rel: spec_fn(int, int) -> bool)
    requires
        raw.len() <= usize::MAX,
        respects(raw, rel),
    ensures
        respects(renumber(raw), rel),
        renumber(raw).len() == raw.len(),
        renumber(renumber(raw)) == renumber(raw),
{
    lemma_renumber(raw);
    let p = renumber(raw);
    assert forall|i: int, j: int|
        0 <= i < p.len() && 0 <= j < p.len() && #[trigger] p[i] == #[trigger] p[j] implies rel(
        i,
        j,
    ) by {
        law_renumber_keeps_communities(raw, i, j);
        assert(raw[i] == raw[j]);
    }
}

/// Single nodes respect every equivalence.
proof fn lemma_singletons_respect(n: nat, rel: spec_fn(int, int) -> bool)
    requires
        n <= usize::MAX,
        equivalence(n, rel),
    ensures
        respects(singletons(n), rel),
{
    let s = singletons(n);
    assert forall|i: int, j: int|
        0 <= i < s.len() && 0 <= j < s.len() && #[trigger] s[i] == #[trigger] s[j] implies rel(
        i,
        j,
    ) by {
        assert(i == j);
        assert(rel(i, i));
    }
}

proof fn lemma_local_moving_respects(
    m: Seq<Seq<int>>,
    initial: Seq<usize>,
    seed: u64,
    rel: spec_fn(int, int) -> bool,
)
    requires
        symmetric(m),
        initial.len() == m.len() <= usize::MAX,
        equivalence(m.len(), rel),
        links_related(m, rel),
        respects(initial, rel),
    ensures
        local_moving(m, initial, seed).len() == m.len(),
        respects(local_moving(m, initial, seed), rel),
{
    let all = together(m.len());
    assert(relates_neighbors(m, all, rel));
    law_moved_respects(m, initial, all, label_count(all), seed, 64, rel);
}

/// Of the nodes that end in one community of Louvain, those of the current graph that
/// they belong to are related.
proof fn lemma_louvain_from(
    m: Seq<Seq<int>>,
    composed: Seq<usize>,
    seed: u64,
    left: nat,
    rel: spec_fn(int, int) -> bool,
)
    requires
        symmetric(m),
        m.len() <= usize::MAX,
        equivalence(m.len(), rel),
        links_related(m, rel),
        labels_below(composed, m.len()),
    ensures
        louvain_from(m, composed, seed, left).len() == composed.len(),
        forall|i: int, j: int|
            0 <= i < composed.len() && 0 <= j < composed.len() && #[trigger] louvain_from(
                m,
                composed,
                seed,
                left,
            )[i] == #[trigger] louvain_from(m, composed, seed, left)[j] ==> rel(
                composed[i] as int,
                composed[j] as int,
            ),
    decreases left,
{
    let out = louvain_from(m, composed, seed, left);
    assert forall|i: int| 0 <= i < composed.len() implies #[trigger] rel(
        composed[i] as int,
        composed[i] as int,
    ) by {
        assert(composed[i] < m.len());
    }
    if left == 0 {
        assert forall|i: int, j: int|
            0 <= i < composed.len() && 0 <= j < composed.len() && #[trigger] out[i]
                == #[trigger] out[j] implies rel(composed[i] as int, composed[j] as int) by {
            assert(composed[i] == composed[j]);
            assert(rel(composed[i] as int, composed[i] as int));
        }
    } else {
        lemma_singletons_respect(m.len(), rel);
        let raw = local_moving(m, singletons(m.len()), seed);
        lemma_local_moving_respects(m, singletons(m.len()), seed, rel);
        lemma_renumber_respects(raw, rel);
        let p = renumber(raw);
        let k = label_count(p);
        let after = Seq::new(composed.len(), |i: int| p[composed[i] as int]);
        lemma_labels(p);
        lemma_lifted(m, p, rel);
        lemma_coarse_symmetric(m, p, k);
        let up = lifted(p, rel);
        assert forall|i: int| 0 <= i < after.len() implies (#[trigger] after[i]) < k by {
            assert(composed[i] < m.len());
            assert(p[composed[i] as int] < k);
        }
        if k != m.len() && k > 1 {
            lemma_louvain_from(coarse(m, p, k), after, next_seed(seed), (left - 1) as nat, up);
        }
        assert forall|i: int, j: int|
            0 <= i < composed.len() && 0 <= j < composed.len() && #[trigger] out[i]
                == #[trigger] out[j] implies rel(composed[i] as int, composed[j] as int) by {
            assert(composed[i] < m.len() && composed[j] < m.len());
            if k == m.len() {
                assert(rel(composed[i] as int, composed[i] as int));
            } else if k <= 1 {
                assert(p[composed[i] as int] == p[composed[j] as int]);
            } else {
                assert(up(after[i] as int, after[j] as int));
                assert(up(p[composed[i] as int] as int, p[composed[j] as int] as int));
            }
        }
    }
}

/// The communities of Louvain lie inside connected components: nodes of one community
/// are related by every equivalence that relates neighbors.
pub proof fn law_louvain_stays_in_components(
    m: Seq<Seq<int>>,
    seed: u64,
    rel: spec_fn(int, int) -> bool,
)
    requires
        symmetric(m),
        m.len() <= usize::MAX,
        equivalence(m.len(), rel),
        links_related(m, rel),
    ensures
        louvain_labels(m, seed).len() == m.len(),
        respects(louvain_labels(m, seed), rel),
{
    let one = singletons(m.len());
    lemma_louvain_from(m, one, seed, 32, rel);
    let raw = louvain_from(m, one, seed, 32);
    assert forall|i: int, j: int|
        0 <= i < raw.len() && 0 <= j < raw.len() && #[trigger] raw[i] == #[trigger] raw[j] implies rel(
        i,
        j,
    ) by {
        assert(one[i] == i && one[j] == j);
    }
    lemma_renumber_respects(raw, rel);
}

/// The communities of Leiden lie inside connected components: nodes of one community
/// are related by every equivalence that relates neighbors.
pub proof fn law_leiden_stays_in_components(
    m: Seq<Seq<int>>,
    seed: u64,
    rel: spec_fn(int, int) -> bool,
)
    requires
        m.len() <= usize::MAX,
        equivalence(m.len(), rel),
        links_related(m, rel),
    ensures
        leiden_labels(m, seed).len() == m.len(),
        respects(leiden_labels(m, seed), rel),
{
    law_leiden_connected(m, seed);
    assert(relates_mates(m, leiden_labels(m, seed), rel));
}

} // verus!
