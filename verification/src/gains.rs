//! Gains of moves and modularity.
//!
//! The gain by which local moving compares communities is the change in modularity, and
//! coarsening by one labeling and labeling the result is labeling by both.
use crate::cohesion::{law_pieces_inside, law_pieces_keep_mates, lemma_pieces, pieces};
use crate::community::{
    inherited, law_refined_connected, law_refined_inside, leiden_from, leiden_labels, lemma_inherited_below, local_moving,
    louvain_from, louvain_labels, next_seed, refined, together,
};
use crate::distinct::{distinct, lemma_distinct};
use crate::modularity::{
    block_weight, coarse, degrees, labels_below, law_coarse_keeps_modularity,
    law_coarse_keeps_total, lemma_coarse_symmetric, lemma_degree_nonneg, modularity_term, row, scaled_modularity, volume,
    weight_into, weights_into, within,
};
use crate::moving::{
    best_below, gain, groups_of, label_bound, lemma_best_is_near, lemma_round_order_below,
    lemma_shuffled_below, lemma_tolerance_nonneg, lemma_volume_update, pull, round_order, rounds,
    settled, start_state, tolerance, visited, volume_without, weight_toward,
};
use crate::partition::{
    label_count, lemma_labels, lemma_members, lemma_renumber, lemma_renumber_at, renumber,
    singletons,
};
use crate::sums::{
    lemma_sum_add, lemma_sum_by_group, lemma_sum_ext, lemma_sum_le, lemma_sum_scale,
    lemma_sum_single, lemma_sum_swap,
    lemma_sum_update, lemma_sum_zero, sum,
};
use crate::weighted::{degree_of, symmetric, twice_total};
use vstd::prelude::*;

verus! {

/// The terms of the modularity, by community.
spec fn terms(m: Seq<Seq<int>>, labels: Seq<usize>) -> spec_fn(int) -> int {
    |c: int| modularity_term(m, labels, c)
}

proof fn lemma_terms(m: Seq<Seq<int>>, labels: Seq<usize>, k: nat)
    ensures
        scaled_modularity(m, labels, k) == sum(k, terms(m, labels)),
{
    lemma_sum_ext(k, |c: int| modularity_term(m, labels, c), terms(m, labels));
}

/// Moving node `u` to community `b` changes the weight from `v` into a community by the
/// weight between `v` and `u`.
proof fn lemma_weight_into_update(
    m: Seq<Seq<int>>,
    labels: Seq<usize>,
    u: int,
    b: usize,
    v: int,
    c: int,
)
    requires
        0 <= u < m.len() == labels.len(),
        labels[u] != b,
    ensures
        weight_into(m, labels.update(u, b), v, c) == weight_into(m, labels, v, c) - (if labels[u]
            == c {
            m[v][u]
        } else {
            0
        }) + (if b == c {
            m[v][u]
        } else {
            0
        }),
{
    let f = within(labels, c, row(m, v));
    let g = within(labels.update(u, b), c, row(m, v));
    lemma_sum_update(m.len(), f, g, u);
}

/// Moving node `u` into community `b` adds its weight into the community twice, and its
/// self-loop once, to the weight inside.
proof fn lemma_block_joined(m: Seq<Seq<int>>, labels: Seq<usize>, u: int, b: usize)
    requires
        symmetric(m),
        0 <= u < m.len() == labels.len(),
        labels[u] != b,
    ensures
        block_weight(m, labels.update(u, b), b as int, b as int) == block_weight(
            m,
            labels,
            b as int,
            b as int,
        ) + 2 * weight_into(m, labels, u, b as int) + m[u][u],
{
    let n = m.len();
    let after = labels.update(u, b);
    let c = b as int;
    let f = within(labels, c, weights_into(m, labels, c));
    let h = within(labels, c, row(m, u));
    let both = |v: int| f(v) + h(v);
    let g = within(after, c, weights_into(m, after, c));
    lemma_sum_add(n, f, h);
    assert forall|v: int| 0 <= v < n && v != u implies #[trigger] both(v) == g(v) by {
        lemma_weight_into_update(m, labels, u, b, v, c);
        assert(m[v][u] == m[u][v]);
    }
    lemma_sum_update(n, both, g, u);
    lemma_weight_into_update(m, labels, u, b, u, c);
    assert(both(u) == 0);
}

/// Moving a node leaves the weight inside other communities as it was.
proof fn lemma_block_other(m: Seq<Seq<int>>, labels: Seq<usize>, u: int, b: usize, c: int)
    requires
        0 <= u < m.len() == labels.len(),
        labels[u] != b,
        c != b,
        c != labels[u],
    ensures
        block_weight(m, labels.update(u, b), c, c) == block_weight(m, labels, c, c),
{
    let after = labels.update(u, b);
    let f = within(labels, c, weights_into(m, labels, c));
    let g = within(after, c, weights_into(m, after, c));
    assert forall|v: int| 0 <= v < m.len() implies #[trigger] f(v) == g(v) by {
        lemma_weight_into_update(m, labels, u, b, v, c);
    }
    lemma_sum_ext(m.len(), f, g);
}

/// Without restriction, a node sees its whole weight into a community but its own
/// self-loop.
proof fn lemma_weight_toward(m: Seq<Seq<int>>, labels: Seq<usize>, u: int, d: int)
    requires
        0 <= u < m.len() == labels.len(),
    ensures
        weight_toward(m, labels, together(m.len()), u, d) == weight_into(m, labels, u, d) - (
        if labels[u] == d {
            m[u][u]
        } else {
            0
        }),
{
    let scope = together(m.len());
    let f = within(labels, d, row(m, u));
    let g = pull(m, labels, scope, u, d);
    assert forall|v: int| 0 <= v < m.len() && v != u implies #[trigger] f(v) == g(v) by {
        assert(scope[v] == scope[u]);
    }
    lemma_sum_update(m.len(), f, g, u);
}

/// The gain of a move, over staying, is half of the change in the modularity that it
/// makes.
pub proof fn law_gain_is_modularity_gain(
    m: Seq<Seq<int>>,
    labels: Seq<usize>,
    k: nat,
    u: int,
    b: usize,
)
    requires
        symmetric(m),
        labels.len() == m.len(),
        labels_below(labels, k),
        0 <= u < m.len(),
        b < k,
    ensures
        scaled_modularity(m, labels.update(u, b), k) - scaled_modularity(m, labels, k) == 2 * (gain(
            m,
            labels,
            together(m.len()),
            u,
            b as int,
        ) - gain(m, labels, together(m.len()), u, labels[u] as int)),
{
    let after = labels.update(u, b);
    let a = labels[u];
    if a == b {
        assert(after =~= labels);
    } else {
        let t = twice_total(m);
        let d = degree_of(m, u);
        let x = a as int;
        let y = b as int;
        lemma_terms(m, labels, k);
        lemma_terms(m, after, k);
        let f = terms(m, labels);
        let g = terms(m, after);
        let mid = |c: int| if c == x { g(c) } else { f(c) };
        assert(labels[u] < k);
        lemma_sum_update(k, f, mid, x);
        assert forall|c: int| 0 <= c < k && c != y implies #[trigger] mid(c) == g(c) by {
            if c != x {
                lemma_block_other(m, labels, u, b, c);
                lemma_volume_update(m, labels, u, b, c);
            }
        }
        lemma_sum_update(k, mid, g, y);
        lemma_block_joined(m, labels, u, b);
        assert(after.update(u, a) =~= labels);
        lemma_block_joined(m, after, u, a);
        lemma_weight_into_update(m, labels, u, b, u, x);
        lemma_volume_update(m, labels, u, b, x);
        lemma_volume_update(m, labels, u, b, y);
        lemma_weight_toward(m, labels, u, x);
        lemma_weight_toward(m, labels, u, y);
        let bx = block_weight(m, labels, x, x);
        let by = block_weight(m, labels, y, y);
        let bx2 = block_weight(m, after, x, x);
        let by2 = block_weight(m, after, y, y);
        let wx = weight_toward(m, labels, together(m.len()), u, x);
        let wy = weight_toward(m, labels, together(m.len()), u, y);
        let vx = volume_without(m, labels, u, x);
        let vy = volume_without(m, labels, u, y);
        assert(bx == bx2 + 2 * wx + m[u][u]);
        assert(by2 == by + 2 * wy + m[u][u]);
        assert(volume(m, labels, x) == vx + d);
        assert(volume(m, after, x) == vx);
        assert(volume(m, labels, y) == vy);
        assert(volume(m, after, y) == vy + d);
        assert(f(x) == bx * t - (vx + d) * (vx + d));
        assert(g(x) == bx2 * t - vx * vx);
        assert(f(y) == by * t - vy * vy);
        assert(g(y) == by2 * t - (vy + d) * (vy + d));
        let s = m[u][u];
        assert(bx2 * t - vx * vx - ((bx2 + 2 * wx + s) * t - (vx + d) * (vx + d)) + (by + 2 * wy
            + s) * t - (vy + d) * (vy + d) - (by * t - vy * vy) == 2 * ((wy * t - vy * d) - (wx * t
            - vx * d))) by (nonlinear_arith);
    }
}

/// No community beats the best by more than the tolerance.
pub proof fn lemma_best_is_best(
    m: Seq<Seq<int>>,
    labels: Seq<usize>,
    scope: Seq<usize>,
    u: int,
    n: nat,
    d: int,
)
    requires
        0 <= d < n <= label_bound(),
    ensures
        gain(m, labels, scope, u, d) <= best_below(m, labels, scope, u, n).1 + tolerance(m),
        best_below(m, labels, scope, u, n).0 != labels[u] ==> best_below(
            m,
            labels,
            scope,
            u,
            n,
        ).1 == gain(m, labels, scope, u, best_below(m, labels, scope, u, n).0 as int),
    decreases n,
{
    lemma_tolerance_nonneg(m);
    if d < n - 1 {
        lemma_best_is_best(m, labels, scope, u, (n - 1) as nat, d);
    } else if n > 1 {
        lemma_best_is_best(m, labels, scope, u, (n - 1) as nat, 0);
    } else {
        assert(best_below(m, labels, scope, u, 0) == (labels[u], 0int));
    }
}

/// When a node settles, the modularity drops by no more than the tolerance.
pub proof fn law_settling_keeps_modularity(m: Seq<Seq<int>>, labels: Seq<usize>, k: nat, u: int)
    requires
        symmetric(m),
        labels.len() == m.len(),
        labels_below(labels, k),
        0 <= u < m.len(),
    ensures
        scaled_modularity(m, settled(m, labels, together(m.len()), u), k) >= scaled_modularity(
            m,
            labels,
            k,
        ) - 2 * tolerance(m),
        labels_below(settled(m, labels, together(m.len()), u), k),
        settled(m, labels, together(m.len()), u).len() == m.len(),
{
    let scope = together(m.len());
    let best = best_below(m, labels, scope, u, label_bound());
    lemma_tolerance_nonneg(m);
    assert(labels[u] < k);
    let v = lemma_best_is_near(m, labels, scope, u, label_bound());
    lemma_best_is_best(m, labels, scope, u, label_bound(), labels[u] as int);
    if best.0 == labels[u] {
        assert(settled(m, labels, scope, u) =~= labels);
    } else {
        assert(labels[v] < k);
        law_gain_is_modularity_gain(m, labels, k, u, best.0);
    }
}

/// How far the modularity may drop in so many visits: each time by what counts as no
/// difference.
pub open spec fn slack(m: Seq<Seq<int>>, visits: nat) -> int {
    visits * (2 * tolerance(m))
}

/// Slack adds up.
pub proof fn lemma_slack(m: Seq<Seq<int>>, a: nat, b: nat)
    ensures
        slack(m, a) + slack(m, b) == slack(m, a + b),
        0 <= slack(m, a) <= slack(m, a + b),
        tolerance(m) == 0 ==> slack(m, a) == 0,
{
    lemma_tolerance_nonneg(m);
    let t = 2 * tolerance(m);
    assert(a * t + b * t == (a + b) * t) by (nonlinear_arith);
    assert(a * t >= 0 && b * t >= 0) by (nonlinear_arith)
        requires
            a >= 0,
            b >= 0,
            t >= 0,
    ;
    assert(t == 0 ==> a * t == 0) by (nonlinear_arith);
}

/// Visiting nodes lowers the modularity by no more than the slack.
proof fn lemma_visited_keeps(
    m: Seq<Seq<int>>,
    labels: Seq<usize>,
    bound: nat,
    order: Seq<usize>,
    k: nat,
)
    requires
        symmetric(m),
        labels.len() == m.len(),
        labels_below(labels, bound),
        labels_below(order, m.len()),
        k <= order.len(),
    ensures
        scaled_modularity(m, visited(m, labels, together(m.len()), order, k), bound)
            >= scaled_modularity(m, labels, bound) - slack(m, k),
        labels_below(visited(m, labels, together(m.len()), order, k), bound),
        visited(m, labels, together(m.len()), order, k).len() == m.len(),
    decreases k,
{
    if k > 0 {
        lemma_visited_keeps(m, labels, bound, order, (k - 1) as nat);
        lemma_slack(m, (k - 1) as nat, 1);
        assert(order[k - 1] < m.len());
        law_settling_keeps_modularity(
            m,
            visited(m, labels, together(m.len()), order, (k - 1) as nat),
            bound,
            order[k - 1] as int,
        );
    } else {
        lemma_slack(m, 0, 0);
    }
}

/// A round visits each node at most once.
proof fn lemma_round_length(groups: Seq<Seq<usize>>, state: u64, n: nat)
    requires
        groups.len() <= 1,
        forall|c: int|
            0 <= c < groups.len() ==> labels_below(#[trigger] groups[c], n) && groups[c].len() <= n,
    ensures
        round_order(groups, groups.len(), state).0.len() <= n,
{
    reveal_with_fuel(round_order, 2);
    if groups.len() == 1 {
        let group = groups[0];
        assert(round_order(groups, 0, state) == (Seq::<usize>::empty(), state));
        if group.len() >= 2 {
            lemma_shuffled_below(group, (group.len() - 1) as nat, state, n);
        }
    }
}

proof fn lemma_rounds_keep(
    m: Seq<Seq<int>>,
    labels: Seq<usize>,
    bound: nat,
    groups: Seq<Seq<usize>>,
    state: u64,
    left: nat,
)
    requires
        symmetric(m),
        labels.len() == m.len(),
        labels_below(labels, bound),
        groups.len() <= 1,
        forall|c: int|
            0 <= c < groups.len() ==> labels_below(#[trigger] groups[c], m.len())
                && groups[c].len() <= m.len(),
    ensures
        scaled_modularity(m, rounds(m, labels, together(m.len()), groups, state, left), bound)
            >= scaled_modularity(m, labels, bound) - slack(m, left * m.len()),
        labels_below(rounds(m, labels, together(m.len()), groups, state, left), bound),
        rounds(m, labels, together(m.len()), groups, state, left).len() == m.len(),
    decreases left,
{
    lemma_slack(m, left * m.len(), 0);
    if left > 0 {
        lemma_round_order_below(groups, groups.len(), state, m.len());
        lemma_round_length(groups, state, m.len());
        let (order, next) = round_order(groups, groups.len(), state);
        lemma_visited_keeps(m, labels, bound, order, order.len());
        let after = visited(m, labels, together(m.len()), order, order.len());
        if after != labels {
            lemma_rounds_keep(m, after, bound, groups, next, (left - 1) as nat);
            lemma_slack(m, order.len(), (m.len() - order.len()) as nat);
            lemma_slack(m, (left - 1) as nat * m.len(), m.len());
            assert((left - 1) as nat * m.len() + m.len() == left * m.len()) by (nonlinear_arith)
                requires
                    left > 0,
            ;
        }
    }
}

/// All nodes together are at most one group.
pub proof fn lemma_one_group(n: nat)
    requires
        n <= usize::MAX,
    ensures
        label_count(together(n)) <= 1,
{
    let t = together(n);
    let d = distinct(t);
    lemma_distinct(t);
    assert forall|j: int| 0 <= j < d.len() implies d[j] == 0 by {
        assert(d.contains(d[j]));
        assert(t.contains(d[j]));
    }
    if d.len() > 1 {
        assert(d[0] == d[1]);
    }
}

/// Local moving lowers the modularity by no more than the slack.
pub proof fn lemma_local_moving_keeps(
    m: Seq<Seq<int>>,
    initial: Seq<usize>,
    bound: nat,
    seed: u64,
)
    requires
        symmetric(m),
        initial.len() == m.len() <= usize::MAX,
        labels_below(initial, bound),
    ensures
        scaled_modularity(m, local_moving(m, initial, seed), bound) >= scaled_modularity(
            m,
            initial,
            bound,
        ) - slack(m, 64 * m.len()),
        labels_below(local_moving(m, initial, seed), bound),
        local_moving(m, initial, seed).len() == m.len(),
{
    let scope = together(m.len());
    let groups = groups_of(scope, label_count(scope));
    lemma_one_group(m.len());
    assert forall|c: int| 0 <= c < groups.len() implies labels_below(#[trigger] groups[c], m.len())
        && groups[c].len() <= m.len() by {
        lemma_members(scope, c, scope.len());
    }
    lemma_rounds_keep(m, initial, bound, groups, start_state(seed), 64);
}

/// Local moving, from whatever labels, lowers the modularity of their partition by no more
/// than the slack of its visits, and where the tolerance is 0 not at all.
pub proof fn law_local_moving_keeps_modularity(
    m: Seq<Seq<int>>,
    initial: Seq<usize>,
    seed: u64,
)
    requires
        symmetric(m),
        initial.len() == m.len() <= usize::MAX,
    ensures
        ({
            let after = local_moving(m, initial, seed);
            scaled_modularity(m, renumber(after), label_count(after)) >= scaled_modularity(
                m,
                renumber(initial),
                label_count(initial),
            ) - slack(m, 64 * m.len())
        }),
        tolerance(m) == 0 ==> slack(m, 64 * m.len()) == 0,
        local_moving(m, initial, seed).len() == m.len(),
{
    let after = local_moving(m, initial, seed);
    lemma_local_moving_keeps(m, initial, label_bound(), seed);
    lemma_slack(m, 64 * m.len(), 0);
    lemma_renumbered(m, initial);
    lemma_renumbered(m, after);
}

/// A partition has the modularity of the labels that it was made from.
proof fn lemma_renumbered(m: Seq<Seq<int>>, raw: Seq<usize>)
    requires
        raw.len() == m.len() <= usize::MAX,
    ensures
        scaled_modularity(m, renumber(raw), label_count(raw)) == scaled_modularity(
            m,
            raw,
            label_bound(),
        ),
{
    law_renumber_keeps_modularity(m, raw, label_bound());
    lemma_renumber(raw);
    lemma_labels(renumber(raw));
    lemma_scaled_bound(m, renumber(raw), label_count(raw), label_bound());
}

/// What a pair of nodes adds to the modularity, if they have one label.
pub open spec fn pair_term(m: Seq<Seq<int>>, labels: Seq<usize>, u: int) -> spec_fn(int) -> int {
    |v: int|
        if labels[u] == labels[v] {
            m[u][v] * twice_total(m) - degree_of(m, u) * degree_of(m, v)
        } else {
            0
        }
}

/// What a node adds to the modularity.
pub open spec fn node_term(m: Seq<Seq<int>>, labels: Seq<usize>) -> spec_fn(int) -> int {
    |u: int| sum(m.len(), pair_term(m, labels, u))
}

/// What a node adds to the modularity is its weight into its community, less what its
/// degree and the volume of the community make expected.
proof fn lemma_node_term(m: Seq<Seq<int>>, labels: Seq<usize>, u: int)
    requires
        0 <= u < m.len() == labels.len(),
    ensures
        node_term(m, labels)(u) == weight_into(m, labels, u, labels[u] as int) * twice_total(m)
            - degree_of(m, u) * volume(m, labels, labels[u] as int),
{
    let c = labels[u] as int;
    let t = twice_total(m);
    let d = degree_of(m, u);
    let f = within(labels, c, row(m, u));
    let g = within(labels, c, degrees(m));
    let ft = |v: int| t * f(v);
    let gd = |v: int| (-d) * g(v);
    lemma_sum_scale(m.len(), f, t);
    lemma_sum_scale(m.len(), g, -d);
    lemma_sum_add(m.len(), ft, gd);
    let both = |v: int| ft(v) + gd(v);
    let h = pair_term(m, labels, u);
    assert forall|v: int| 0 <= v < m.len() implies #[trigger] both(v) == h(v) by {
        let x = m[u][v];
        let y = degree_of(m, v);
        if labels[v] == c {
            assert(t * x + (-d) * y == x * t - d * y) by (nonlinear_arith);
        } else {
            assert(t * 0 == 0 && (-d) * 0 == 0);
        }
    }
    lemma_sum_ext(m.len(), both, h);
    let w = volume(m, labels, c);
    let x = weight_into(m, labels, u, c);
    assert(sum(m.len(), ft) == t * x);
    assert(sum(m.len(), gd) == (-d) * w);
    assert(t * x + (-d) * w == x * t - d * w) by (nonlinear_arith);
}

/// The modularity, taken node by node.
proof fn lemma_by_nodes(m: Seq<Seq<int>>, labels: Seq<usize>, k: nat)
    requires
        labels.len() == m.len(),
        labels_below(labels, k),
    ensures
        scaled_modularity(m, labels, k) == sum(m.len(), node_term(m, labels)),
{
    let n = m.len();
    let group = |u: int| labels[u] as int;
    let f = node_term(m, labels);
    assert forall|u: int| 0 <= u < n implies 0 <= #[trigger] group(u) < k by {
        assert(labels[u] < k);
    }
    lemma_sum_by_group(n, k, group, f);
    let by_group = |c: int| sum(n, |u: int| if group(u) == c { f(u) } else { 0 });
    assert forall|c: int| 0 <= c < k implies #[trigger] by_group(c) == terms(m, labels)(c) by {
        let inner = |u: int| if group(u) == c { f(u) } else { 0 };
        let t = twice_total(m);
        let w = volume(m, labels, c);
        let a = within(labels, c, weights_into(m, labels, c));
        let b = within(labels, c, degrees(m));
        let at = |u: int| t * a(u);
        let bw = |u: int| (-w) * b(u);
        lemma_sum_scale(n, a, t);
        lemma_sum_scale(n, b, -w);
        lemma_sum_add(n, at, bw);
        let both = |u: int| at(u) + bw(u);
        assert forall|u: int| 0 <= u < n implies #[trigger] both(u) == inner(u) by {
            if labels[u] == c {
                lemma_node_term(m, labels, u);
                let d = degree_of(m, u);
                let x = weight_into(m, labels, u, c);
                assert(t * x + (-w) * d == x * t - d * w) by (nonlinear_arith);
            } else {
                assert(t * 0 == 0 && (-w) * 0 == 0);
            }
        }
        lemma_sum_ext(n, both, inner);
        let x = block_weight(m, labels, c, c);
        assert(sum(n, at) == t * x);
        assert(sum(n, bw) == (-w) * w);
        assert(t * x + (-w) * w == x * t - w * w) by (nonlinear_arith);
    }
    lemma_sum_ext(k, by_group, terms(m, labels));
    lemma_terms(m, labels, k);
}

/// Dividing communities into their connected pieces never lowers the modularity.
pub proof fn law_splitting_keeps_modularity(m: Seq<Seq<int>>, labels: Seq<usize>, k: nat)
    requires
        symmetric(m),
        labels.len() == m.len() <= usize::MAX,
        labels_below(labels, k),
        m.len() <= k,
    ensures
        scaled_modularity(m, pieces(m, labels), k) >= scaled_modularity(m, labels, k),
        labels_below(pieces(m, labels), m.len()),
{
    let p = pieces(m, labels);
    assert forall|u: int| 0 <= u < p.len() implies (#[trigger] p[u]) < m.len() by {
        lemma_pieces(m, labels, u, u);
    }
    lemma_by_nodes(m, labels, k);
    lemma_by_nodes(m, p, k);
    assert forall|u: int| 0 <= u < m.len() implies #[trigger] node_term(m, labels)(u) <= node_term(
        m,
        p,
    )(u) by {
        let f = pair_term(m, labels, u);
        let g = pair_term(m, p, u);
        assert forall|v: int| 0 <= v < m.len() implies #[trigger] f(v) <= g(v) by {
            if p[u] == p[v] {
                law_pieces_inside(m, labels, u, v);
            } else if labels[u] == labels[v] {
                if m[u][v] > 0 {
                    law_pieces_keep_mates(m, labels, u, v);
                }
                assert(0 <= m[u][v]);
                lemma_degree_nonneg(m, u);
                lemma_degree_nonneg(m, v);
                let a = degree_of(m, u);
                let b = degree_of(m, v);
                assert(a * b >= 0) by (nonlinear_arith)
                    requires
                        a >= 0,
                        b >= 0,
                ;
                assert(0 * twice_total(m) == 0);
            }
        }
        lemma_sum_le(m.len(), f, g);
    }
    lemma_sum_le(m.len(), node_term(m, labels), node_term(m, p));
}

/// A sum over the nodes of some groups may be taken group by group.
proof fn lemma_sum_through(
    n: nat,
    p: Seq<usize>,
    q: Seq<usize>,
    c: int,
    f: spec_fn(int) -> int,
)
    requires
        p.len() == n,
        labels_below(p, q.len()),
    ensures
        sum(q.len(), within(q, c, |x: int| sum(n, within(p, x, f)))) == sum(
            n,
            within(Seq::new(n, |u: int| q[p[u] as int]), c, f),
        ),
{
    let k = q.len();
    let comp = Seq::new(n, |u: int| q[p[u] as int]);
    let g = within(comp, c, f);
    let group = |u: int| p[u] as int;
    assert forall|u: int| 0 <= u < n implies 0 <= #[trigger] group(u) < k by {
        assert(p[u] < q.len());
    }
    lemma_sum_by_group(n, k, group, g);
    let by_group = |x: int| sum(n, |u: int| if group(u) == x { g(u) } else { 0 });
    let outer = within(q, c, |x: int| sum(n, within(p, x, f)));
    assert forall|x: int| 0 <= x < k implies #[trigger] outer(x) == by_group(x) by {
        let inner = |u: int| if group(u) == x { g(u) } else { 0 };
        if q[x] == c {
            assert forall|u: int| 0 <= u < n implies #[trigger] inner(u) == within(p, x, f)(u) by {
                if p[u] == x {
                    assert(comp[u] == q[x]);
                }
            }
            lemma_sum_ext(n, inner, within(p, x, f));
        } else {
            assert forall|u: int| 0 <= u < n implies #[trigger] inner(u) == 0 by {
                if p[u] == x {
                    assert(comp[u] == q[x]);
                }
            }
            lemma_sum_zero(n, inner);
        }
    }
    lemma_sum_ext(k, outer, by_group);
}

/// The labels that `q` gives through `p`.
pub open spec fn through(p: Seq<usize>, q: Seq<usize>) -> Seq<usize> {
    Seq::new(p.len(), |u: int| q[p[u] as int])
}

/// The weight between two communities of communities is the weight between their nodes.
proof fn lemma_block_through(
    m: Seq<Seq<int>>,
    p: Seq<usize>,
    q: Seq<usize>,
    c: int,
    d: int,
)
    requires
        p.len() == m.len(),
        labels_below(p, q.len()),
    ensures
        block_weight(coarse(m, p, q.len()), q, c, d) == block_weight(m, through(p, q), c, d),
{
    let n = m.len();
    let k = q.len();
    let big = coarse(m, p, k);
    let comp = through(p, q);
    // The weight of a community into `d` is that of its nodes.
    let inner = weights_into(m, comp, d);
    assert forall|x: int| 0 <= x < k implies #[trigger] weight_into(big, q, x, d) == sum(
        n,
        within(p, x, inner),
    ) by {
        let cell = |y: int, u: int|
            if q[y] == d && p[u] == x {
                weight_into(m, p, u, y)
            } else {
                0
            };
        lemma_sum_swap(k, n, cell);
        let rows = |y: int| sum(n, |u: int| cell(y, u));
        let cols = |u: int| sum(k, |y: int| cell(y, u));
        assert forall|y: int| 0 <= y < k implies #[trigger] rows(y) == within(q, d, row(big, x))(
            y,
        ) by {
            let a = |u: int| cell(y, u);
            if q[y] == d {
                let b = within(p, x, weights_into(m, p, y));
                assert forall|u: int| 0 <= u < n implies #[trigger] a(u) == b(u) by {}
                lemma_sum_ext(n, a, b);
                assert(big[x][y] == block_weight(m, p, x, y));
            } else {
                assert forall|u: int| 0 <= u < n implies #[trigger] a(u) == 0 by {}
                lemma_sum_zero(n, a);
            }
        }
        lemma_sum_ext(k, rows, within(q, d, row(big, x)));
        assert forall|u: int| 0 <= u < n implies #[trigger] cols(u) == within(p, x, inner)(u) by {
            let a = |y: int| cell(y, u);
            if p[u] == x {
                let f = row(m, u);
                let b = within(q, d, |y: int| sum(n, within(p, y, f)));
                assert forall|y: int| 0 <= y < k implies #[trigger] a(y) == b(y) by {}
                lemma_sum_ext(k, a, b);
                lemma_sum_through(n, p, q, d, f);
                assert(Seq::new(n, |u: int| q[p[u] as int]) =~= comp);
            } else {
                assert forall|y: int| 0 <= y < k implies #[trigger] a(y) == 0 by {}
                lemma_sum_zero(k, a);
            }
        }
        lemma_sum_ext(n, cols, within(p, x, inner));
    }
    let left = within(q, c, weights_into(big, q, d));
    let right = within(q, c, |x: int| sum(n, within(p, x, inner)));
    assert(big.len() == k);
    assert forall|x: int| 0 <= x < k implies #[trigger] left(x) == right(x) by {
        assert(weight_into(big, q, x, d) == sum(n, within(p, x, inner)));
    }
    lemma_sum_ext(k, left, right);
    lemma_sum_through(n, p, q, c, inner);
    assert(Seq::new(n, |u: int| q[p[u] as int]) =~= comp);
}

/// Coarsening by `p` and labeling by `q` has the modularity of labeling by both.
pub proof fn law_modularity_composes(m: Seq<Seq<int>>, p: Seq<usize>, q: Seq<usize>, k: nat)
    requires
        p.len() == m.len(),
        labels_below(p, q.len()),
        labels_below(q, k),
        q.len() <= usize::MAX,
        k <= usize::MAX,
    ensures
        scaled_modularity(coarse(m, p, q.len()), q, k) == scaled_modularity(m, through(p, q), k),
{
    let big = coarse(m, p, q.len());
    let comp = through(p, q);
    assert(coarse(big, q, k) =~~= coarse(m, comp, k)) by {
        assert forall|c: int, d: int| 0 <= c < k && 0 <= d < k implies block_weight(big, q, c, d)
            == #[trigger] block_weight(m, comp, c, d) by {
            lemma_block_through(m, p, q, c, d);
        }
        assert forall|c: int| 0 <= c < k implies coarse(big, q, k)[c] =~= #[trigger] coarse(
            m,
            comp,
            k,
        )[c] by {
            assert forall|d: int| 0 <= d < k implies coarse(big, q, k)[c][d] == #[trigger] coarse(
                m,
                comp,
                k,
            )[c][d] by {
                assert(block_weight(big, q, c, d) == block_weight(m, comp, c, d));
            }
        }
    }
    assert forall|u: int| 0 <= u < comp.len() implies (#[trigger] comp[u]) < k by {
        assert(p[u] < q.len());
        assert(q[p[u] as int] < k);
    }
    law_coarse_keeps_modularity(big, q, k);
    law_coarse_keeps_modularity(m, comp, k);
}

/// Communities without nodes add nothing to the modularity.
pub proof fn lemma_scaled_bound(m: Seq<Seq<int>>, labels: Seq<usize>, k: nat, n: nat)
    requires
        labels.len() == m.len(),
        labels_below(labels, k),
        k <= n,
    ensures
        scaled_modularity(m, labels, n) == scaled_modularity(m, labels, k),
    decreases n,
{
    lemma_terms(m, labels, n);
    lemma_terms(m, labels, k);
    if k < n {
        lemma_scaled_bound(m, labels, k, (n - 1) as nat);
        lemma_terms(m, labels, (n - 1) as nat);
        let c = n - 1;
        let f = within(labels, c, weights_into(m, labels, c));
        assert forall|u: int| 0 <= u < m.len() implies #[trigger] f(u) == 0 by {
            assert(labels[u] < k);
        }
        lemma_sum_zero(m.len(), f);
        let g = within(labels, c, degrees(m));
        assert forall|u: int| 0 <= u < m.len() implies #[trigger] g(u) == 0 by {
            assert(labels[u] < k);
        }
        lemma_sum_zero(m.len(), g);
        assert(0 * twice_total(m) == 0);
        assert(terms(m, labels)(c) == 0);
    }
}

/// Renumbering communities does not change the modularity.
pub proof fn law_renumber_keeps_modularity(m: Seq<Seq<int>>, raw: Seq<usize>, n: nat)
    requires
        raw.len() == m.len() <= usize::MAX,
        labels_below(raw, n),
        m.len() <= n <= label_bound(),
    ensures
        scaled_modularity(m, renumber(raw), n) == scaled_modularity(m, raw, n),
        labels_below(renumber(raw), m.len()),
{
    let p = renumber(raw);
    let q = distinct(raw);
    let k = q.len();
    lemma_renumber(raw);
    lemma_labels(p);
    lemma_distinct(raw);
    assert(label_count(p) == k);
    assert forall|u: int| 0 <= u < raw.len() implies raw[u] == #[trigger] q[p[u] as int] && p[u]
        < k by {
        lemma_renumber_at(raw, u);
    }
    assert forall|x: int| 0 <= x < k implies (#[trigger] q[x]) < n by {
        assert(q.contains(q[x]));
        assert(raw.contains(q[x]));
        let u = choose|u: int| 0 <= u < raw.len() && raw[u] == q[x];
        assert(raw[u] < n);
    }
    let group = |x: int| q[x] as int;
    let f = terms(m, p);
    lemma_sum_by_group(k, n, group, f);
    let spread = |c: int| sum(k, |x: int| if group(x) == c { f(x) } else { 0 });
    assert forall|c: int| 0 <= c < n implies #[trigger] spread(c) == terms(m, raw)(c) by {
        let inner = |x: int| if group(x) == c { f(x) } else { 0 };
        if exists|x: int| 0 <= x < k && #[trigger] q[x] == c {
            let x = choose|x: int| 0 <= x < k && #[trigger] q[x] == c;
            assert forall|y: int| 0 <= y < k && y != x implies #[trigger] inner(y) == 0 by {
                assert(q[x] != q[y]);
            }
            lemma_sum_single(k, inner, x);
            lemma_same_term(m, raw, c, p, x);
        } else {
            assert forall|y: int| 0 <= y < k implies #[trigger] inner(y) == 0 by {
                assert(q[y] != c);
            }
            lemma_sum_zero(k, inner);
            let a = within(raw, c, weights_into(m, raw, c));
            let b = within(raw, c, degrees(m));
            assert forall|u: int| 0 <= u < m.len() implies #[trigger] a(u) == 0 && b(u) == 0 by {
                assert(raw[u] == q[p[u] as int]);
            }
            lemma_sum_zero(m.len(), a);
            assert forall|u: int| 0 <= u < m.len() implies #[trigger] b(u) == 0 by {
                assert(a(u) == 0);
            }
            lemma_sum_zero(m.len(), b);
            assert(0 * twice_total(m) == 0);
        }
    }
    lemma_sum_ext(n, spread, terms(m, raw));
    lemma_terms(m, raw, n);
    lemma_terms(m, p, k);
    lemma_scaled_bound(m, p, k, n);
}

/// A community of one labeling with the same nodes as one of another has the same term.
proof fn lemma_same_term(m: Seq<Seq<int>>, a: Seq<usize>, c: int, b: Seq<usize>, d: int)
    requires
        a.len() == b.len() == m.len(),
        forall|u: int| 0 <= u < m.len() ==> ((#[trigger] a[u]) == c <==> b[u] == d),
    ensures
        modularity_term(m, a, c) == modularity_term(m, b, d),
{
    let f = within(a, c, weights_into(m, a, c));
    let g = within(b, d, weights_into(m, b, d));
    assert forall|u: int| 0 <= u < m.len() implies #[trigger] f(u) == g(u) by {
        let x = within(a, c, row(m, u));
        let y = within(b, d, row(m, u));
        assert forall|v: int| 0 <= v < m.len() implies #[trigger] x(v) == y(v) by {
            assert(a[v] == c <==> b[v] == d);
        }
        lemma_sum_ext(m.len(), x, y);
        assert(a[u] == c <==> b[u] == d);
    }
    lemma_sum_ext(m.len(), f, g);
    let x = within(a, c, degrees(m));
    let y = within(b, d, degrees(m));
    assert forall|u: int| 0 <= u < m.len() implies #[trigger] x(u) == y(u) by {
        assert(a[u] == c <==> b[u] == d);
    }
    lemma_sum_ext(m.len(), x, y);
}

/// Labelings of the graph `m` have the modularity that they have on `base` through `at`.
pub open spec fn carries(base: Seq<Seq<int>>, m: Seq<Seq<int>>, at: Seq<usize>) -> bool {
    forall|q: Seq<usize>|
        q.len() == m.len() && labels_below(q, base.len()) ==> #[trigger] scaled_modularity(
            m,
            q,
            base.len(),
        ) == scaled_modularity(base, through(at, q), base.len())
}

/// Coarsening carries modularity over.
pub proof fn lemma_carries(
    base: Seq<Seq<int>>,
    m: Seq<Seq<int>>,
    at: Seq<usize>,
    p: Seq<usize>,
    k: nat,
)
    requires
        base.len() <= usize::MAX,
        carries(base, m, at),
        at.len() == base.len(),
        labels_below(at, m.len()),
        p.len() == m.len(),
        labels_below(p, k),
        k <= m.len() <= base.len(),
    ensures
        carries(base, coarse(m, p, k), through(at, p)),
        labels_below(through(at, p), k),
        through(at, p).len() == base.len(),
        coarse(m, p, k).len() == k,
{
    let big = coarse(m, p, k);
    assert forall|q: Seq<usize>|
        q.len() == big.len() && labels_below(q, base.len()) implies #[trigger] scaled_modularity(
        big,
        q,
        base.len(),
    ) == scaled_modularity(base, through(through(at, p), q), base.len()) by {
        law_modularity_composes(m, p, q, base.len());
        let pq = through(p, q);
        assert forall|u: int| 0 <= u < pq.len() implies (#[trigger] pq[u]) < base.len() by {
            assert(p[u] < k);
            assert(q[p[u] as int] < base.len());
        }
        assert(scaled_modularity(m, pq, base.len()) == scaled_modularity(
            base,
            through(at, pq),
            base.len(),
        ));
        assert(through(at, pq) =~= through(through(at, p), q)) by {
            assert forall|i: int| 0 <= i < at.len() implies through(at, pq)[i] == #[trigger] through(
                through(at, p),
                q,
            )[i] by {
                assert(at[i] < m.len());
            }
        }
    }
    assert forall|i: int| 0 <= i < at.len() implies (#[trigger] through(at, p)[i]) < k by {
        assert(at[i] < m.len());
        assert(p[at[i] as int] < k);
    }
}

/// One level of local moving lowers the modularity by no more than the slack, seen from
/// the base.
proof fn lemma_level_keeps(
    base: Seq<Seq<int>>,
    m: Seq<Seq<int>>,
    at: Seq<usize>,
    initial: Seq<usize>,
    seed: u64,
)
    requires
        symmetric(m),
        base.len() <= usize::MAX,
        carries(base, m, at),
        at.len() == base.len(),
        labels_below(at, m.len()),
        m.len() <= base.len(),
        initial.len() == m.len(),
        labels_below(initial, m.len()),
    ensures
        scaled_modularity(
            base,
            through(at, renumber(local_moving(m, initial, seed))),
            base.len(),
        ) >= scaled_modularity(base, through(at, initial), base.len()) - slack(
            m,
            64 * base.len(),
        ),
        renumber(local_moving(m, initial, seed)).len() == m.len(),
        labels_below(renumber(local_moving(m, initial, seed)), m.len()),
{
    let raw = local_moving(m, initial, seed);
    let p = renumber(raw);
    lemma_local_moving_keeps(m, initial, m.len(), seed);
    lemma_slack(m, 64 * m.len(), (64 * base.len() - 64 * m.len()) as nat);
    law_renumber_keeps_modularity(m, raw, m.len());
    lemma_scaled_bound(m, p, m.len(), base.len());
    lemma_scaled_bound(m, initial, m.len(), base.len());
    assert(labels_below(p, base.len()));
    assert(labels_below(initial, base.len()));
    assert(scaled_modularity(m, p, base.len()) == scaled_modularity(
        base,
        through(at, p),
        base.len(),
    ));
    assert(scaled_modularity(m, initial, base.len()) == scaled_modularity(
        base,
        through(at, initial),
        base.len(),
    ));
}

/// The levels of Louvain lower the modularity by no more than the slack.
pub proof fn lemma_louvain_keeps(
    base: Seq<Seq<int>>,
    m: Seq<Seq<int>>,
    composed: Seq<usize>,
    seed: u64,
    left: nat,
)
    requires
        symmetric(m),
        base.len() <= usize::MAX,
        carries(base, m, composed),
        composed.len() == base.len(),
        labels_below(composed, m.len()),
        m.len() <= base.len(),
    ensures
        scaled_modularity(base, louvain_from(m, composed, seed, left), base.len())
            >= scaled_modularity(base, composed, base.len()) - slack(m, left * (64 * base.len())),
        labels_below(louvain_from(m, composed, seed, left), base.len()),
        louvain_from(m, composed, seed, left).len() == base.len(),
    decreases left,
{
    lemma_slack(m, left * (64 * base.len()), 0);
    if left > 0 {
        lemma_slack(m, 64 * base.len(), (left - 1) as nat * (64 * base.len()));
        assert(64 * base.len() + (left - 1) as nat * (64 * base.len()) == left * (64 * base.len()))
            by (nonlinear_arith)
            requires
                left > 0,
        ;
        let one = singletons(m.len());
        assert(labels_below(one, m.len()));
        lemma_level_keeps(base, m, composed, one, seed);
        assert(through(composed, one) =~= composed) by {
            assert forall|i: int| 0 <= i < composed.len() implies #[trigger] through(
                composed,
                one,
            )[i] == composed[i] by {
                assert(composed[i] < m.len());
            }
        }
        let raw = local_moving(m, one, seed);
        lemma_local_moving_keeps(m, one, m.len(), seed);
        let p = renumber(raw);
        lemma_renumber(raw);
        lemma_labels(p);
        let k = label_count(p);
        let after = Seq::new(composed.len(), |i: int| p[composed[i] as int]);
        assert(after =~= through(composed, p));
        lemma_carries(base, m, composed, p, k);
        assert(labels_below(after, base.len()));
        if k != m.len() && k > 1 {
            lemma_coarse_symmetric(m, p, k);
            law_coarse_keeps_total(m, p, k);
            lemma_louvain_keeps(
                base,
                coarse(m, p, k),
                after,
                next_seed(seed),
                (left - 1) as nat,
            );
        }
    } else {
        assert(labels_below(composed, base.len()));
    }
}

/// What Louvain finds has at least the modularity of the nodes taken singly, but for the
/// slack of its visits, which is 0 where the tolerance is.
pub proof fn law_louvain_keeps_modularity(m: Seq<Seq<int>>, seed: u64)
    requires
        symmetric(m),
        m.len() <= usize::MAX,
    ensures
        scaled_modularity(m, louvain_labels(m, seed), m.len()) >= scaled_modularity(
            m,
            singletons(m.len()),
            m.len(),
        ) - slack(m, 2048 * m.len()),
        tolerance(m) == 0 ==> slack(m, 2048 * m.len()) == 0,
{
    let one = singletons(m.len());
    assert(labels_below(one, m.len()));
    assert forall|q: Seq<usize>|
        q.len() == m.len() && labels_below(q, m.len()) implies #[trigger] scaled_modularity(
        m,
        q,
        m.len(),
    ) == scaled_modularity(m, through(one, q), m.len()) by {
        assert(through(one, q) =~= q);
    }
    lemma_louvain_keeps(m, m, one, seed, 32);
    lemma_slack(m, 2048 * m.len(), 0);
    law_renumber_keeps_modularity(m, louvain_from(m, one, seed, 32), m.len());
}

/// The levels of Leiden lower the modularity by no more than the slack, also from what
/// the first of them finds.
pub proof fn lemma_leiden_keeps(
    base: Seq<Seq<int>>,
    m: Seq<Seq<int>>,
    initial: Seq<usize>,
    at: Seq<usize>,
    composed: Seq<usize>,
    seed: u64,
    left: nat,
)
    requires
        symmetric(m),
        base.len() <= usize::MAX,
        carries(base, m, at),
        at.len() == base.len(),
        labels_below(at, m.len()),
        m.len() <= base.len(),
        initial.len() == m.len(),
        labels_below(initial, m.len()),
        composed == through(at, initial),
    ensures
        scaled_modularity(base, leiden_from(m, initial, at, composed, seed, left), base.len())
            >= scaled_modularity(base, composed, base.len()) - slack(m, left * (64 * base.len())),
        left > 0 ==> scaled_modularity(
            base,
            leiden_from(m, initial, at, composed, seed, left),
            base.len(),
        ) >= scaled_modularity(
            base,
            through(at, renumber(local_moving(m, initial, seed))),
            base.len(),
        ) - slack(m, left * (64 * base.len())),
        labels_below(leiden_from(m, initial, at, composed, seed, left), base.len()),
        leiden_from(m, initial, at, composed, seed, left).len() == base.len(),
    decreases left,
{
    assert forall|i: int| 0 <= i < composed.len() implies (#[trigger] composed[i]) < base.len() by {
        assert(at[i] < m.len());
        assert(initial[at[i] as int] < m.len());
    }
    lemma_slack(m, left * (64 * base.len()), 0);
    if left > 0 {
        lemma_slack(m, 64 * base.len(), (left - 1) as nat * (64 * base.len()));
        assert(64 * base.len() + (left - 1) as nat * (64 * base.len()) == left * (64 * base.len()))
            by (nonlinear_arith)
            requires
                left > 0,
        ;
        lemma_level_keeps(base, m, at, initial, seed);
        let raw = local_moving(m, initial, seed);
        lemma_local_moving_keeps(m, initial, m.len(), seed);
        let p = renumber(raw);
        lemma_renumber(raw);
        lemma_labels(p);
        let found = Seq::new(at.len(), |i: int| p[at[i] as int]);
        assert(found =~= through(at, p));
        assert forall|i: int| 0 <= i < found.len() implies (#[trigger] found[i])
            < base.len() by {
            assert(at[i] < m.len());
            assert(p[at[i] as int] < m.len());
        }
        let next = next_seed(seed);
        let r = refined(m, p, next);
        lemma_inherited_below(m, p, next);
        law_refined_connected(m, p, next);
        lemma_labels(r);
        let k = label_count(r);
        if label_count(p) != m.len() && k > 1 {
            let heirs = inherited(p, r, k);
            let below = Seq::new(at.len(), |i: int| r[at[i] as int]);
            assert(below =~= through(at, r));
            lemma_carries(base, m, at, r, k);
            lemma_coarse_symmetric(m, r, k);
            law_coarse_keeps_total(m, r, k);
            assert(found =~= through(below, heirs)) by {
                assert forall|i: int| 0 <= i < found.len() implies found[i] == #[trigger] through(
                    below,
                    heirs,
                )[i] by {
                    assert(at[i] < m.len());
                    let u = at[i] as int;
                    let c = r[u];
                    assert(c < k);
                    r.index_of_first_ensures(c);
                    assert(r.contains(c));
                    let f = r.index_of_first(c)->0;
                    law_refined_inside(m, p, next, f, u);
                }
            }
            lemma_leiden_keeps(
                base,
                coarse(m, r, k),
                heirs,
                below,
                found,
                next_seed(next),
                (left - 1) as nat,
            );
        }
    }
}

proof fn lemma_divided(m: Seq<Seq<int>>, labels: Seq<usize>)
    requires
        symmetric(m),
        labels.len() == m.len() <= usize::MAX,
        labels_below(labels, m.len()),
    ensures
        scaled_modularity(m, renumber(pieces(m, labels)), m.len()) >= scaled_modularity(
            m,
            labels,
            m.len(),
        ),
{
    law_splitting_keeps_modularity(m, labels, m.len());
    law_renumber_keeps_modularity(m, pieces(m, labels), m.len());
}

/// What Leiden finds has at least the modularity of the nodes taken singly, but for the
/// slack of its visits, which is 0 where the tolerance is.
pub proof fn law_leiden_keeps_modularity(m: Seq<Seq<int>>, seed: u64)
    requires
        symmetric(m),
        m.len() <= usize::MAX,
    ensures
        scaled_modularity(m, leiden_labels(m, seed), m.len()) >= scaled_modularity(
            m,
            singletons(m.len()),
            m.len(),
        ) - slack(m, 2048 * m.len()),
        tolerance(m) == 0 ==> slack(m, 2048 * m.len()) == 0,
{
    let one = singletons(m.len());
    assert(labels_below(one, m.len()));
    assert forall|q: Seq<usize>|
        q.len() == m.len() && labels_below(q, m.len()) implies #[trigger] scaled_modularity(
        m,
        q,
        m.len(),
    ) == scaled_modularity(m, through(one, q), m.len()) by {
        assert(through(one, q) =~= q);
    }
    assert(through(one, one) =~= one);
    lemma_leiden_keeps(m, m, one, one, one, seed, 32);
    lemma_slack(m, 2048 * m.len(), 0);
    lemma_divided(m, leiden_from(m, one, one, one, seed, 32));
}

/// The modularity, times the square of twice the total weight, is the sum over all ordered
/// pairs of nodes of one community of what the weight between them exceeds that expected
/// from their degrees by.
pub proof fn law_modularity_by_pairs(m: Seq<Seq<int>>, labels: Seq<usize>, k: nat)
    requires
        labels.len() == m.len(),
        labels_below(labels, k),
    ensures
        scaled_modularity(m, labels, k) == sum(m.len(), node_term(m, labels)),
{
    lemma_by_nodes(m, labels, k);
}

} // verus!
