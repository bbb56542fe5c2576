//! What local moving, Louvain and Leiden achieve.
//!
//! Where two nodes gain by being together, the communities that are found are better than
//! single nodes; what is found is no worse than what the first round of local moving
//! finds; and where that is a single community, it is what Leiden finds.
use crate::cohesion::{
    connected, relates_mates, law_connected_stays_whole, lemma_distinct_below, pieces,
};
use crate::community::{
    inherited, law_local_moving_labels_occur, law_refined_connected, law_refined_inside,
    leiden_from, leiden_labels, lemma_inherited_below, lemma_leiden_from_len, local_moving,
    louvain_from, louvain_labels, next_seed, refined, together,
};
use crate::components::lifted;
use crate::distinct::{distinct, lemma_distinct};
use crate::gains::{
    carries, law_gain_is_modularity_gain, law_renumber_keeps_modularity,
    law_splitting_keeps_modularity, lemma_best_is_best, lemma_carries, lemma_leiden_keeps,
    lemma_local_moving_keeps, lemma_louvain_keeps, lemma_one_group, lemma_scaled_bound,
    lemma_slack, slack, through,
};
use crate::modularity::{
    block_weight, coarse, degrees, labels_below, law_coarse_keeps_total, lemma_coarse_symmetric,
    row, scaled_modularity, volume, weights_into, within,
};
use crate::moving::{
    best_below, equivalence, gain, groups_of, label_bound, law_moved_respects, lemma_best_is_near,
    lemma_round_order_below, lemma_tolerance_nonneg, moved, occur_in, pull, respects, round_order,
    rounds, settled, shuffled, start_state, swapped, tolerance, visited, xorshift,
};
use crate::partition::{
    label_count, law_renumber_is_canonical, law_renumber_keeps_communities, lemma_labels,
    lemma_members, lemma_renumber, lemma_renumber_at, renumber, singletons,
};
use crate::sums::{lemma_sum_ext, lemma_sum_positive_term};
use crate::weighted::{degree_of, symmetric, twice_total};
use vstd::prelude::*;

verus! {

/// Two nodes of one part of `scope` gain by being together, each node being by itself
/// otherwise.
pub open spec fn gain_together(m: Seq<Seq<int>>, scope: Seq<usize>, u: int, v: int) -> bool {
    &&& 0 <= u < m.len()
    &&& 0 <= v < m.len()
    &&& u != v
    &&& scope[u] == scope[v]
    &&& scaled_modularity(m, singletons(m.len()).update(u, v as usize), m.len())
        > scaled_modularity(m, singletons(m.len()), m.len())
}

/// Every node is by itself, whatever its label.
spec fn are_apart(start: Seq<usize>, n: nat) -> bool {
    start.len() == n && start.no_duplicates() && labels_below(start, n)
}

/// Two nodes of one part of `scope` gain if the first joins the other.
spec fn gain_joined(
    m: Seq<Seq<int>>,
    start: Seq<usize>,
    scope: Seq<usize>,
    u: int,
    v: int,
) -> bool {
    &&& 0 <= u < m.len()
    &&& 0 <= v < m.len()
    &&& u != v
    &&& scope[u] == scope[v]
    &&& scaled_modularity(m, start.update(u, start[v]), m.len()) > scaled_modularity(
        m,
        start,
        m.len(),
    )
}

/// Nodes with one label are in one part.
spec fn keeps_scope(labels: Seq<usize>, scope: Seq<usize>) -> bool {
    forall|x: int, y: int|
        0 <= x < labels.len() && 0 <= y < labels.len() && #[trigger] labels[x]
            == #[trigger] labels[y] ==> scope[x] == scope[y]
}

/// The gain in a community that lies in one part is the same with and without parts.
proof fn lemma_gain_in_scope(
    m: Seq<Seq<int>>,
    labels: Seq<usize>,
    scope: Seq<usize>,
    u: int,
    d: int,
)
    requires
        0 <= u < m.len() == labels.len(),
        forall|v: int|
            0 <= v < m.len() && (#[trigger] labels[v]) == d ==> scope[v] == scope[u],
    ensures
        gain(m, labels, scope, u, d) == gain(m, labels, together(m.len()), u, d),
{
    let all = together(m.len());
    let f = pull(m, labels, scope, u, d);
    let g = pull(m, labels, all, u, d);
    assert forall|v: int| 0 <= v < m.len() implies #[trigger] f(v) == g(v) by {
        assert(all[v] == all[u]);
        assert(labels[v] == d ==> scope[v] == scope[u]);
    }
    lemma_sum_ext(m.len(), f, g);
}

/// The best community has a gain above the tolerance, unless it is the node's own at
/// gain 0.
proof fn lemma_best_value(
    m: Seq<Seq<int>>,
    labels: Seq<usize>,
    scope: Seq<usize>,
    u: int,
    d: nat,
)
    requires
        d <= label_bound(),
    ensures
        best_below(m, labels, scope, u, d).1 >= 0,
        best_below(m, labels, scope, u, d) == (labels[u], 0int) || {
            let best = best_below(m, labels, scope, u, d);
            best.1 > tolerance(m) && best.1 == gain(m, labels, scope, u, best.0 as int)
        },
    decreases d,
{
    lemma_tolerance_nonneg(m);
    if d > 0 {
        lemma_best_value(m, labels, scope, u, (d - 1) as nat);
    }
}

/// When a node settles inside its part, the modularity does not drop, if no difference
/// is tolerated; and a node that was by itself moves only if it rises.
proof fn lemma_settled(m: Seq<Seq<int>>, labels: Seq<usize>, scope: Seq<usize>, u: int)
    requires
        symmetric(m),
        tolerance(m) == 0,
        labels.len() == scope.len() == m.len() <= usize::MAX,
        labels_below(labels, m.len()),
        keeps_scope(labels, scope),
        0 <= u < m.len(),
    ensures
        ({
            let after = settled(m, labels, scope, u);
            &&& after.len() == m.len()
            &&& labels_below(after, m.len())
            &&& keeps_scope(after, scope)
            &&& scaled_modularity(m, after, m.len()) >= scaled_modularity(m, labels, m.len())
            &&& after != labels && (forall|v: int|
                0 <= v < m.len() && v != u ==> (#[trigger] labels[v]) != labels[u])
                ==> scaled_modularity(m, after, m.len()) > scaled_modularity(m, labels, m.len())
        }),
{
    let best = best_below(m, labels, scope, u, label_bound());
    let after = settled(m, labels, scope, u);
    lemma_best_value(m, labels, scope, u, label_bound());
    lemma_best_is_best(m, labels, scope, u, label_bound(), labels[u] as int);
    let v = lemma_best_is_near(m, labels, scope, u, label_bound());
    if best.0 == labels[u] {
        assert(after =~= labels);
    } else {
        assert(labels[v] < m.len());
        assert forall|x: int, y: int|
            0 <= x < after.len() && 0 <= y < after.len() && #[trigger] after[x]
                == #[trigger] after[y] implies scope[x] == scope[y] by {
            if x != u && y != u {
                assert(labels[x] == labels[y]);
            } else if x == u && y != u {
                assert(labels[y] == labels[v]);
            } else if y == u && x != u {
                assert(labels[x] == labels[v]);
            }
        }
        assert forall|x: int| 0 <= x < m.len() && (#[trigger] labels[x]) == best.0 implies scope[x]
            == scope[u] by {
            assert(labels[x] == labels[v]);
        }
        lemma_gain_in_scope(m, labels, scope, u, best.0 as int);
        assert forall|x: int| 0 <= x < m.len() && (#[trigger] labels[x])
            == labels[u] implies scope[x] == scope[u] by {}
        lemma_gain_in_scope(m, labels, scope, u, labels[u] as int);
        law_gain_is_modularity_gain(m, labels, m.len(), u, best.0);
        if forall|v: int|
            0 <= v < m.len() && v != u ==> (#[trigger] labels[v]) != labels[u] {
            lemma_alone(m, labels, scope, u);
        }
    }
}

/// A node by itself has gain 0 where it is.
proof fn lemma_alone(m: Seq<Seq<int>>, labels: Seq<usize>, scope: Seq<usize>, u: int)
    requires
        0 <= u < m.len() == labels.len(),
        forall|v: int| 0 <= v < m.len() && v != u ==> (#[trigger] labels[v]) != labels[u],
    ensures
        gain(m, labels, scope, u, labels[u] as int) == 0,
{
    let c = labels[u] as int;
    let f = pull(m, labels, scope, u, c);
    assert forall|v: int| 0 <= v < m.len() implies #[trigger] f(v) == 0 by {
        if v != u {
            assert(labels[v] != labels[u]);
        }
    }
    crate::sums::lemma_sum_zero(m.len(), f);
    let g = within(labels, c, degrees(m));
    assert forall|v: int| 0 <= v < m.len() && v != u implies #[trigger] g(v) == 0 by {
        assert(labels[v] != labels[u]);
    }
    crate::sums::lemma_sum_single(m.len(), g, u);
    assert(volume(m, labels, c) == degree_of(m, u));
    assert(0 * twice_total(m) == 0 && 0 * degree_of(m, u) == 0);
}

/// Visits from single nodes leave them as they are, or the modularity has risen.
proof fn lemma_visited_rises(
    m: Seq<Seq<int>>,
    start: Seq<usize>,
    scope: Seq<usize>,
    order: Seq<usize>,
    k: nat,
)
    requires
        symmetric(m),
        tolerance(m) == 0,
        scope.len() == m.len() <= usize::MAX,
        are_apart(start, m.len()),
        labels_below(order, m.len()),
        k <= order.len(),
    ensures
        ({
            let now = visited(m, start, scope, order, k);
            &&& now.len() == m.len()
            &&& labels_below(now, m.len())
            &&& keeps_scope(now, scope)
            &&& now == start || scaled_modularity(m, now, m.len()) > scaled_modularity(
                m,
                start,
                m.len(),
            )
        }),
    decreases k,
{
    if k > 0 {
        lemma_visited_rises(m, start, scope, order, (k - 1) as nat);
        assert(order[k - 1] < m.len());
        let before = visited(m, start, scope, order, (k - 1) as nat);
        lemma_settled(m, before, scope, order[k - 1] as int);
    } else {
        assert(keeps_scope(start, scope));
    }
}

/// Once the node is visited that gains in the company of another, the modularity has risen.
proof fn lemma_visit_gains(
    m: Seq<Seq<int>>,
    start: Seq<usize>,
    scope: Seq<usize>,
    order: Seq<usize>,
    k: nat,
    i: int,
    v: int,
)
    requires
        symmetric(m),
        tolerance(m) == 0,
        scope.len() == m.len() <= usize::MAX,
        are_apart(start, m.len()),
        labels_below(order, m.len()),
        0 <= i < k <= order.len(),
        gain_joined(m, start, scope, order[i] as int, v),
    ensures
        scaled_modularity(m, visited(m, start, scope, order, k), m.len()) > scaled_modularity(
            m,
            start,
            m.len(),
        ),
    decreases k,
{
    let before = visited(m, start, scope, order, (k - 1) as nat);
    let u = order[k - 1] as int;
    assert(order[k - 1] < m.len());
    lemma_visited_rises(m, start, scope, order, (k - 1) as nat);
    lemma_settled(m, before, scope, u);
    if i < k - 1 {
        lemma_visit_gains(m, start, scope, order, (k - 1) as nat, i, v);
    } else if before == start {
        let d = start[v] as int;
        lemma_best_value(m, start, scope, u, label_bound());
        lemma_best_is_best(m, start, scope, u, label_bound(), d);
        law_gain_is_modularity_gain(m, start, m.len(), u, start[v]);
        lemma_alone(m, start, together(m.len()), u);
        lemma_alone(m, start, scope, u);
        lemma_gain_in_scope(m, start, scope, u, d);
        assert(gain(m, start, scope, u, d) > 0);
        let best = best_below(m, start, scope, u, label_bound());
        assert(best.0 != start[u]);
        assert(settled(m, start, scope, u)[u] == best.0);
    }
}

/// A shuffle keeps every item.
proof fn lemma_shuffled_holds(s: Seq<usize>, i: nat, state: u64, x: usize)
    requires
        i < s.len(),
        s.contains(x),
    ensures
        shuffled(s, i, state).0.contains(x),
    decreases i,
{
    if i > 0 {
        let next = xorshift(state);
        let j = (next as usize) as int % (i as int + 1);
        assert(0 <= j <= i) by (nonlinear_arith)
            requires
                j == (next as usize) as int % (i as int + 1),
                i >= 0,
        ;
        let t = swapped(s, i as int, j);
        let p = choose|p: int| 0 <= p < s.len() && s[p] == x;
        assert(t.contains(x)) by {
            if p == i {
                assert(t[j] == x);
            } else if p == j {
                assert(t[i as int] == x);
            } else {
                assert(t[p] == x);
            }
        }
        lemma_shuffled_holds(t, (i - 1) as nat, next, x);
    }
}

/// A round visits every node of every group of at least two.
proof fn lemma_round_holds(groups: Seq<Seq<usize>>, g: nat, state: u64, c: int, x: usize)
    requires
        0 <= c < g <= groups.len(),
        groups[c].len() >= 2,
        groups[c].contains(x),
    ensures
        round_order(groups, g, state).0.contains(x),
    decreases g,
{
    let (order, mid) = round_order(groups, (g - 1) as nat, state);
    let group = groups[g - 1];
    let now = round_order(groups, g, state).0;
    if c < g - 1 {
        lemma_round_holds(groups, (g - 1) as nat, state, c, x);
        let p = choose|p: int| 0 <= p < order.len() && order[p] == x;
        assert(now[p] == x);
    } else {
        lemma_shuffled_holds(group, (group.len() - 1) as nat, mid, x);
        let last = shuffled(group, (group.len() - 1) as nat, mid).0;
        let p = choose|p: int| 0 <= p < last.len() && last[p] == x;
        assert(now[order.len() + p] == x);
    }
}

/// Rounds never lower the modularity, if no difference is tolerated.
proof fn lemma_rounds_keep_scope(
    m: Seq<Seq<int>>,
    labels: Seq<usize>,
    scope: Seq<usize>,
    groups: Seq<Seq<usize>>,
    state: u64,
    left: nat,
)
    requires
        symmetric(m),
        tolerance(m) == 0,
        labels.len() == scope.len() == m.len() <= usize::MAX,
        labels_below(labels, m.len()),
        keeps_scope(labels, scope),
        forall|c: int| 0 <= c < groups.len() ==> labels_below(#[trigger] groups[c], m.len()),
    ensures
        ({
            let after = rounds(m, labels, scope, groups, state, left);
            &&& after.len() == m.len()
            &&& labels_below(after, m.len())
            &&& scaled_modularity(m, after, m.len()) >= scaled_modularity(m, labels, m.len())
        }),
    decreases left,
{
    if left > 0 {
        lemma_round_order_below(groups, groups.len(), state, m.len());
        let (order, next) = round_order(groups, groups.len(), state);
        lemma_visited_keeps_scope(m, labels, scope, order, order.len());
        let after = visited(m, labels, scope, order, order.len());
        if after != labels {
            lemma_rounds_keep_scope(m, after, scope, groups, next, (left - 1) as nat);
        }
    }
}

proof fn lemma_visited_keeps_scope(
    m: Seq<Seq<int>>,
    labels: Seq<usize>,
    scope: Seq<usize>,
    order: Seq<usize>,
    k: nat,
)
    requires
        symmetric(m),
        tolerance(m) == 0,
        labels.len() == scope.len() == m.len() <= usize::MAX,
        labels_below(labels, m.len()),
        keeps_scope(labels, scope),
        labels_below(order, m.len()),
        k <= order.len(),
    ensures
        ({
            let after = visited(m, labels, scope, order, k);
            &&& after.len() == m.len()
            &&& labels_below(after, m.len())
            &&& keeps_scope(after, scope)
            &&& scaled_modularity(m, after, m.len()) >= scaled_modularity(m, labels, m.len())
        }),
    decreases k,
{
    if k > 0 {
        lemma_visited_keeps_scope(m, labels, scope, order, (k - 1) as nat);
        assert(order[k - 1] < m.len());
        lemma_settled(
            m,
            visited(m, labels, scope, order, (k - 1) as nat),
            scope,
            order[k - 1] as int,
        );
    }
}

/// Where two nodes of one part gain by being together, moving from nodes that are apart
/// raises the modularity.
proof fn lemma_moving_finds_gains(
    m: Seq<Seq<int>>,
    start: Seq<usize>,
    scope: Seq<usize>,
    seed: u64,
    cap: nat,
    u: int,
    v: int,
)
    requires
        symmetric(m),
        tolerance(m) == 0,
        scope == renumber(scope),
        scope.len() == m.len() <= usize::MAX,
        are_apart(start, m.len()),
        cap > 0,
        gain_joined(m, start, scope, u, v),
    ensures
        scaled_modularity(m, moved(m, start, scope, label_count(scope), seed, cap), m.len())
            > scaled_modularity(m, start, m.len()),
        labels_below(moved(m, start, scope, label_count(scope), seed, cap), m.len()),
        moved(m, start, scope, label_count(scope), seed, cap).len() == m.len(),
{
    let groups = groups_of(scope, label_count(scope));
    lemma_labels(scope);
    assert(scope[u] < label_count(scope));
    let c = scope[u] as int;
    assert forall|c: int| 0 <= c < groups.len() implies labels_below(
        #[trigger] groups[c],
        m.len(),
    ) by {
        lemma_members(scope, c, scope.len());
    }
    lemma_members(scope, c, scope.len());
    assert(groups[c].contains(u as usize));
    assert(groups[c].contains(v as usize));
    assert(groups[c].len() >= 2) by {
        let i = choose|i: int| 0 <= i < groups[c].len() && groups[c][i] == u as usize;
        let j = choose|j: int| 0 <= j < groups[c].len() && groups[c][j] == v as usize;
        assert(i != j);
    }
    let state = start_state(seed);
    lemma_round_order_below(groups, groups.len(), state, m.len());
    lemma_round_holds(groups, groups.len(), state, c, u as usize);
    let (order, next) = round_order(groups, groups.len(), state);
    let i = choose|i: int| 0 <= i < order.len() && order[i] == u as usize;
    lemma_visit_gains(m, start, scope, order, order.len(), i, v);
    lemma_visited_rises(m, start, scope, order, order.len());
    let after = visited(m, start, scope, order, order.len());
    lemma_rounds_keep_scope(m, after, scope, groups, next, (cap - 1) as nat);
}

/// Where two nodes of one part gain by being together, moving from single nodes finds
/// communities of higher modularity.
pub proof fn law_moving_finds_gains(
    m: Seq<Seq<int>>,
    scope: Seq<usize>,
    seed: u64,
    cap: nat,
    u: int,
    v: int,
)
    requires
        symmetric(m),
        tolerance(m) == 0,
        scope == renumber(scope),
        scope.len() == m.len() <= usize::MAX,
        cap > 0,
        gain_together(m, scope, u, v),
    ensures
        scaled_modularity(
            m,
            moved(m, singletons(m.len()), scope, label_count(scope), seed, cap),
            m.len(),
        ) > scaled_modularity(m, singletons(m.len()), m.len()),
        labels_below(moved(m, singletons(m.len()), scope, label_count(scope), seed, cap), m.len()),
        moved(m, singletons(m.len()), scope, label_count(scope), seed, cap).len() == m.len(),
{
    lemma_moving_finds_gains(m, singletons(m.len()), scope, seed, cap, u, v);
}

/// Putting all nodes together is a partition.
proof fn lemma_together_renumbered(n: nat)
    requires
        n <= usize::MAX,
    ensures
        renumber(together(n)) == together(n),
{
    let t = together(n);
    lemma_one_group(n);
    assert forall|i: int| 0 <= i < n implies renumber(t)[i] == t[i] by {
        lemma_renumber_at(t, i);
    }
    assert(renumber(t) =~= t);
}

/// Where two nodes gain by being together, local moving from single nodes finds
/// communities of higher modularity.
pub proof fn law_local_moving_finds_gains(m: Seq<Seq<int>>, seed: u64, u: int, v: int)
    requires
        symmetric(m),
        tolerance(m) == 0,
        m.len() <= usize::MAX,
        gain_together(m, together(m.len()), u, v),
    ensures
        scaled_modularity(m, local_moving(m, singletons(m.len()), seed), m.len())
            > scaled_modularity(m, singletons(m.len()), m.len()),
{
    lemma_together_renumbered(m.len());
    law_moving_finds_gains(m, together(m.len()), seed, 64, u, v);
}

/// Where two nodes of one community gain by being together, refining the communities
/// comes to some of higher modularity than single nodes.
pub proof fn law_refinement_finds_gains(
    m: Seq<Seq<int>>,
    p: Seq<usize>,
    seed: u64,
    u: int,
    v: int,
)
    requires
        symmetric(m),
        tolerance(m) == 0,
        p == renumber(p),
        p.len() == m.len() <= usize::MAX,
        gain_together(m, p, u, v),
    ensures
        scaled_modularity(m, refined(m, p, seed), m.len()) > scaled_modularity(
            m,
            singletons(m.len()),
            m.len(),
        ),
{
    let raw = moved(m, singletons(m.len()), p, label_count(p), seed, 32);
    law_moving_finds_gains(m, p, seed, 32, u, v);
    law_splitting_keeps_modularity(m, raw, m.len());
    law_renumber_keeps_modularity(m, pieces(m, raw), m.len());
}

/// Labelings of a graph have their own modularity through single nodes.
proof fn lemma_carries_self(m: Seq<Seq<int>>)
    requires
        m.len() <= usize::MAX,
    ensures
        carries(m, m, singletons(m.len())),
        labels_below(singletons(m.len()), m.len()),
        forall|q: Seq<usize>| q.len() == m.len() ==> #[trigger] through(singletons(m.len()), q) == q,
{
    let one = singletons(m.len());
    assert forall|q: Seq<usize>| q.len() == m.len() implies #[trigger] through(one, q) == q by {
        assert(through(one, q) =~= q);
    }
}

/// What Leiden finds has at least the modularity of what its first round of local moving
/// finds, but for the slack of its visits, which is 0 where the tolerance is.
pub proof fn law_leiden_keeps_first_round(m: Seq<Seq<int>>, seed: u64)
    requires
        symmetric(m),
        m.len() <= usize::MAX,
    ensures
        scaled_modularity(m, leiden_labels(m, seed), m.len()) >= scaled_modularity(
            m,
            local_moving(m, singletons(m.len()), seed),
            m.len(),
        ) - slack(m, 2048 * m.len()),
        tolerance(m) == 0 ==> slack(m, 2048 * m.len()) == 0,
{
    let one = singletons(m.len());
    lemma_carries_self(m);
    lemma_leiden_keeps(m, m, one, one, one, seed, 32);
    lemma_slack(m, 2048 * m.len(), 0);
    lemma_local_moving_keeps(m, one, m.len(), seed);
    let raw = local_moving(m, one, seed);
    law_renumber_keeps_modularity(m, raw, m.len());
    let found = leiden_from(m, one, one, one, seed, 32);
    law_splitting_keeps_modularity(m, found, m.len());
    law_renumber_keeps_modularity(m, pieces(m, found), m.len());
}

/// Where two nodes gain by being together, Leiden finds communities of higher modularity
/// than single nodes.
pub proof fn law_leiden_finds_gains(m: Seq<Seq<int>>, seed: u64, u: int, v: int)
    requires
        symmetric(m),
        tolerance(m) == 0,
        m.len() <= usize::MAX,
        gain_together(m, together(m.len()), u, v),
    ensures
        scaled_modularity(m, leiden_labels(m, seed), m.len()) > scaled_modularity(
            m,
            singletons(m.len()),
            m.len(),
        ),
{
    law_leiden_keeps_first_round(m, seed);
    law_local_moving_finds_gains(m, seed, u, v);
}

/// All nodes have one label.
pub open spec fn is_single(labels: Seq<usize>) -> bool {
    forall|i: int, j: int|
        0 <= i < labels.len() && 0 <= j < labels.len() ==> #[trigger] labels[i]
            == #[trigger] labels[j]
}

/// Local moving that starts with one community ends with it.
proof fn lemma_single_stays(m: Seq<Seq<int>>, initial: Seq<usize>, seed: u64)
    requires
        symmetric(m),
        initial.len() == m.len() <= usize::MAX,
        is_single(initial),
    ensures
        is_single(local_moving(m, initial, seed)),
{
    let after = local_moving(m, initial, seed);
    law_local_moving_labels_occur(m, initial, seed);
    assert forall|i: int, j: int|
        0 <= i < after.len() && 0 <= j < after.len() implies #[trigger] after[i]
        == #[trigger] after[j] by {
        assert(initial.contains(after[i]));
        assert(initial.contains(after[j]));
    }
}

/// One community stays one through all levels.
proof fn lemma_levels_stay_single(
    m: Seq<Seq<int>>,
    initial: Seq<usize>,
    at: Seq<usize>,
    composed: Seq<usize>,
    seed: u64,
    left: nat,
)
    requires
        symmetric(m),
        m.len() <= usize::MAX,
        initial.len() == m.len(),
        labels_below(at, m.len()),
        at.len() == composed.len(),
        is_single(composed),
        left > 0 ==> is_single(local_moving(m, initial, seed)),
    ensures
        is_single(leiden_from(m, initial, at, composed, seed, left)),
    decreases left,
{
    if left > 0 {
        let raw = local_moving(m, initial, seed);
        lemma_local_moving_keeps(m, initial, label_bound(), seed);
        let p = renumber(raw);
        lemma_renumber(raw);
        assert(is_single(p)) by {
            assert forall|i: int, j: int|
                0 <= i < p.len() && 0 <= j < p.len() implies #[trigger] p[i]
                == #[trigger] p[j] by {
                law_renumber_keeps_communities(raw, i, j);
                assert(raw[i] == raw[j]);
            }
        }
        let found = Seq::new(at.len(), |i: int| p[at[i] as int]);
        assert(is_single(found)) by {
            assert forall|i: int, j: int|
                0 <= i < found.len() && 0 <= j < found.len() implies #[trigger] found[i]
                == #[trigger] found[j] by {
                assert(at[i] < m.len() && at[j] < m.len());
                assert(p[at[i] as int] == p[at[j] as int]);
            }
        }
        let next = next_seed(seed);
        let r = refined(m, p, next);
        law_refined_connected(m, p, next);
        lemma_labels(r);
        let k = label_count(r);
        if label_count(p) != m.len() && k > 1 {
            let heirs = inherited(p, r, k);
            let below = Seq::new(at.len(), |i: int| r[at[i] as int]);
            lemma_coarse_symmetric(m, r, k);
            assert(is_single(heirs)) by {
                assert forall|i: int, j: int|
                    0 <= i < heirs.len() && 0 <= j < heirs.len() implies #[trigger] heirs[i]
                    == #[trigger] heirs[j] by {
                    r.index_of_first_ensures(i as usize);
                    r.index_of_first_ensures(j as usize);
                    assert(r.contains(i as usize));
                    assert(r.contains(j as usize));
                    let a = r.index_of_first(i as usize)->0;
                    let b = r.index_of_first(j as usize)->0;
                    assert(p[a] == p[b]);
                }
            }
            assert forall|i: int| 0 <= i < below.len() implies (#[trigger] below[i]) < k by {
                assert(at[i] < m.len());
                assert(r[at[i] as int] < k);
            }
            let further = next_seed(next);
            lemma_single_stays(coarse(m, r, k), heirs, further);
            lemma_levels_stay_single(
                coarse(m, r, k),
                heirs,
                below,
                found,
                further,
                (left - 1) as nat,
            );
        }
    }
}

/// Where local moving from single nodes ends in one community, and the graph is connected,
/// that one community of all nodes is what Leiden finds.
pub proof fn law_leiden_keeps_single_community(m: Seq<Seq<int>>, seed: u64)
    requires
        symmetric(m),
        m.len() <= usize::MAX,
        is_single(local_moving(m, singletons(m.len()), seed)),
        connected(m, together(m.len())),
    ensures
        leiden_labels(m, seed) == together(m.len()),
{
    let one = singletons(m.len());
    let found = leiden_from(m, one, one, one, seed, 32);
    lemma_carries_self(m);
    lemma_leiden_from_len(m, one, one, one, seed, 32);
    lemma_first_level_single(m, seed);
    assert(is_single(found));
    let t = together(m.len());
    let p = pieces(m, found);
    assert(connected(m, found)) by {
        assert forall|rel: spec_fn(int, int) -> bool|
            crate::moving::equivalence(m.len(), rel) && crate::cohesion::relates_mates(
                m,
                found,
                rel,
            ) implies #[trigger] crate::moving::respects(found, rel) by {
            assert forall|x: int, y: int|
                0 <= x < m.len() && 0 <= y < m.len() && t[x] == t[y] && #[trigger] m[x][y]
                    > 0 implies rel(x, y) by {
                assert(found[x] == found[y]);
            }
            assert(crate::cohesion::relates_mates(m, t, rel));
            assert(crate::moving::respects(t, rel));
            assert forall|i: int, j: int|
                0 <= i < found.len() && 0 <= j < found.len() && #[trigger] found[i]
                    == #[trigger] found[j] implies rel(i, j) by {
                assert(t[i] == t[j]);
            }
        }
    }
    assert forall|i: int, j: int|
        0 <= i < p.len() && 0 <= j < p.len() implies (#[trigger] p[i] == #[trigger] p[j] <==> t[i]
        == t[j]) by {
        law_connected_stays_whole(m, found, i, j);
        assert(found[i] == found[j]);
    }
    law_renumber_is_canonical(p, t);
    lemma_together_renumbered(m.len());
}

/// The levels of Leiden start with the community that the first one finds.
proof fn lemma_first_level_single(m: Seq<Seq<int>>, seed: u64)
    requires
        symmetric(m),
        m.len() <= usize::MAX,
        is_single(local_moving(m, singletons(m.len()), seed)),
    ensures
        is_single(
            leiden_from(
                m,
                singletons(m.len()),
                singletons(m.len()),
                singletons(m.len()),
                seed,
                32,
            ),
        ),
{
    let one = singletons(m.len());
    let t = together(m.len());
    lemma_levels_stay_single(m, one, one, t, seed, 32);
    assert(leiden_from(m, one, one, one, seed, 32) == leiden_from(m, one, one, t, seed, 32));
}

/// The labels with the communities `c` and `d` made one.
pub open spec fn merged(labels: Seq<usize>, c: usize, d: usize) -> Seq<usize> {
    Seq::new(labels.len(), |i: int| if labels[i] == d { c } else { labels[i] })
}

/// The same nodes are together under both labelings.
spec fn are_alike(a: Seq<usize>, b: Seq<usize>) -> bool {
    a.len() == b.len() && forall|i: int, j: int|
        0 <= i < a.len() && 0 <= j < a.len() ==> (#[trigger] a[i] == #[trigger] a[j] <==> b[i]
            == b[j])
}

/// Labelings with the same communities have the same modularity.
proof fn lemma_alike(m: Seq<Seq<int>>, a: Seq<usize>, b: Seq<usize>)
    requires
        a.len() == m.len() <= usize::MAX,
        are_alike(a, b),
        labels_below(a, m.len()),
        labels_below(b, m.len()),
    ensures
        scaled_modularity(m, a, m.len()) == scaled_modularity(m, b, m.len()),
        renumber(a) == renumber(b),
        label_count(a) == label_count(b),
{
    law_renumber_is_canonical(a, b);
    law_renumber_keeps_modularity(m, a, m.len());
    law_renumber_keeps_modularity(m, b, m.len());
}

/// With as many labels as nodes, no two nodes have one label.
proof fn lemma_all_labels(p: Seq<usize>)
    requires
        label_count(p) == p.len(),
    ensures
        p.no_duplicates(),
{
    lemma_distinct(p);
    let q = distinct(p);
    q.unique_seq_to_set();
    assert(q.to_set() =~= p.to_set()) by {
        assert forall|x: usize| q.to_set().contains(x) <==> p.to_set().contains(x) by {
            assert(q.contains(x) <==> p.contains(x));
        }
    }
    p.lemma_no_dup_set_cardinality();
}

/// Where as many labels as there are nodes occur among `start`, each occurs once.
proof fn lemma_start_apart(raw: Seq<usize>, start: Seq<usize>)
    requires
        raw.len() == start.len(),
        raw.no_duplicates(),
        occur_in(raw, start),
    ensures
        start.no_duplicates(),
{
    raw.unique_seq_to_set();
    start.lemma_cardinality_of_set();
    vstd::seq_lib::seq_to_set_is_finite(start);
    assert(raw.to_set().subset_of(start.to_set())) by {
        assert forall|x: usize| raw.to_set().contains(x) implies start.to_set().contains(x) by {
            let i = choose|i: int| 0 <= i < raw.len() && raw[i] == x;
            assert(start.contains(raw[i]));
        }
    }
    vstd::set_lib::lemma_len_subset(raw.to_set(), start.to_set());
    start.lemma_no_dup_set_cardinality();
}

/// Where local moving leaves all nodes apart, no two of them gain by being together.
proof fn lemma_left_apart(
    m: Seq<Seq<int>>,
    start: Seq<usize>,
    seed: u64,
    u: int,
    v: int,
)
    requires
        symmetric(m),
        tolerance(m) == 0,
        start.len() == m.len() <= usize::MAX,
        labels_below(start, m.len()),
        label_count(renumber(local_moving(m, start, seed))) == m.len(),
        0 <= u < m.len(),
        0 <= v < m.len(),
        u != v,
    ensures
        scaled_modularity(m, singletons(m.len()).update(u, v as usize), m.len())
            <= scaled_modularity(m, singletons(m.len()), m.len()),
{
    let one = singletons(m.len());
    let raw = local_moving(m, start, seed);
    lemma_local_moving_keeps(m, start, m.len(), seed);
    let p = renumber(raw);
    lemma_renumber(raw);
    lemma_all_labels(p);
    assert(raw.no_duplicates()) by {
        assert forall|i: int, j: int|
            0 <= i < raw.len() && 0 <= j < raw.len() && i != j implies raw[i] != raw[j] by {
            law_renumber_keeps_communities(raw, i, j);
        }
    }
    law_local_moving_labels_occur(m, start, seed);
    lemma_start_apart(raw, start);
    let x = one.update(u, v as usize);
    let y = start.update(u, start[v]);
    assert(are_alike(x, y));
    assert(labels_below(x, m.len()));
    assert(labels_below(one, m.len()));
    assert(labels_below(y, m.len()));
    lemma_alike(m, x, y);
    assert(are_alike(one, start));
    lemma_alike(m, one, start);
    assert(are_alike(raw, start));
    lemma_alike(m, raw, start);
    if scaled_modularity(m, x, m.len()) > scaled_modularity(m, one, m.len()) {
        lemma_together_renumbered(m.len());
        lemma_moving_finds_gains(m, start, together(m.len()), seed, 64, u, v);
    }
}

/// Where local moving leaves all nodes of a level apart, the communities that they stand
/// for cannot be merged with a gain.
proof fn lemma_level_merges(
    base: Seq<Seq<int>>,
    m: Seq<Seq<int>>,
    at: Seq<usize>,
    start: Seq<usize>,
    seed: u64,
    a: int,
    b: int,
)
    requires
        symmetric(m),
        tolerance(m) == 0,
        base.len() <= usize::MAX,
        carries(base, m, at),
        at.len() == base.len(),
        labels_below(at, m.len()),
        m.len() <= base.len(),
        start.len() == m.len(),
        labels_below(start, m.len()),
        label_count(renumber(local_moving(m, start, seed))) == m.len(),
        0 <= a < base.len(),
        0 <= b < base.len(),
        at[a] != at[b],
    ensures
        scaled_modularity(base, merged(at, at[a], at[b]), base.len()) <= scaled_modularity(
            base,
            at,
            base.len(),
        ),
{
    let one = singletons(m.len());
    let c = at[a] as int;
    let d = at[b] as int;
    assert(c < m.len() && d < m.len());
    lemma_left_apart(m, start, seed, d, c);
    let x = one.update(d, c as usize);
    assert(labels_below(x, m.len()));
    assert(labels_below(one, m.len()));
    lemma_scaled_bound(m, x, m.len(), base.len());
    lemma_scaled_bound(m, one, m.len(), base.len());
    assert(labels_below(x, base.len()));
    assert(labels_below(one, base.len()));
    assert(through(at, x) =~= merged(at, at[a], at[b])) by {
        assert forall|i: int| 0 <= i < at.len() implies #[trigger] through(at, x)[i] == merged(
            at,
            at[a],
            at[b],
        )[i] by {
            assert(at[i] < m.len());
        }
    }
    assert(through(at, one) =~= at) by {
        assert forall|i: int| 0 <= i < at.len() implies #[trigger] through(at, one)[i]
            == at[i] by {
            assert(at[i] < m.len());
        }
    }
    assert(scaled_modularity(m, x, base.len()) == scaled_modularity(
        base,
        through(at, x),
        base.len(),
    ));
    assert(scaled_modularity(m, one, base.len()) == scaled_modularity(
        base,
        through(at, one),
        base.len(),
    ));
}

/// The levels of Louvain end where no merge gains, unless they run out, each having made
/// the graph smaller.
proof fn lemma_louvain_merges(
    base: Seq<Seq<int>>,
    m: Seq<Seq<int>>,
    composed: Seq<usize>,
    seed: u64,
    left: nat,
    a: int,
    b: int,
)
    requires
        symmetric(m),
        tolerance(m) == 0,
        base.len() <= usize::MAX,
        carries(base, m, composed),
        composed.len() == base.len(),
        labels_below(composed, m.len()),
        m.len() <= base.len(),
        0 <= a < base.len(),
        0 <= b < base.len(),
    ensures
        ({
            let found = louvain_from(m, composed, seed, left);
            ||| found[a] == found[b]
            ||| scaled_modularity(base, merged(found, found[a], found[b]), base.len())
                <= scaled_modularity(base, found, base.len())
            ||| left <= m.len() && labels_below(found, (m.len() - left) as nat)
        }),
    decreases left,
{
    if left > 0 {
        let one = singletons(m.len());
        assert(labels_below(one, m.len()));
        let raw = local_moving(m, one, seed);
        lemma_local_moving_keeps(m, one, m.len(), seed);
        let p = renumber(raw);
        lemma_renumber(raw);
        lemma_labels(p);
        let k = label_count(p);
        let after = Seq::new(composed.len(), |i: int| p[composed[i] as int]);
        assert(after =~= through(composed, p));
        lemma_carries(base, m, composed, p, k);
        if k == m.len() {
            if composed[a] != composed[b] {
                lemma_level_merges(base, m, composed, one, seed, a, b);
            }
        } else if k <= 1 {
            assert(after[a] < k && after[b] < k);
        } else {
            lemma_coarse_symmetric(m, p, k);
            law_coarse_keeps_total(m, p, k);
            lemma_louvain_merges(
                base,
                coarse(m, p, k),
                after,
                next_seed(seed),
                (left - 1) as nat,
                a,
                b,
            );
        }
    }
}

/// No two communities that Louvain finds could be merged with a gain in modularity, where
/// no difference is tolerated, unless its levels ran out, each having merged some: then
/// there are at least as many fewer communities than nodes as there are levels.
pub proof fn law_louvain_leaves_no_merge(m: Seq<Seq<int>>, seed: u64, a: int, b: int)
    requires
        symmetric(m),
        tolerance(m) == 0,
        m.len() <= usize::MAX,
        0 <= a < m.len(),
        0 <= b < m.len(),
        louvain_labels(m, seed)[a] != louvain_labels(m, seed)[b],
    ensures
        ({
            let labels = louvain_labels(m, seed);
            ||| scaled_modularity(m, merged(labels, labels[a], labels[b]), m.len())
                <= scaled_modularity(m, labels, m.len())
            ||| label_count(labels) + 32 <= m.len()
        }),
{
    let one = singletons(m.len());
    lemma_carries_self(m);
    lemma_louvain_keeps(m, m, one, seed, 32);
    lemma_louvain_merges(m, m, one, seed, 32, a, b);
    let found = louvain_from(m, one, seed, 32);
    lemma_merged_alike(m, found, a, b);
    lemma_distinct(found);
    if m.len() >= 32 && labels_below(found, (m.len() - 32) as nat) {
        assert forall|i: int| 0 <= i < distinct(found).len() implies (#[trigger] distinct(found)[i])
            < m.len() - 32 by {
            assert(distinct(found).contains(distinct(found)[i]));
            let j = choose|j: int| 0 <= j < found.len() && found[j] == distinct(found)[i];
        }
        lemma_distinct_below(distinct(found), (m.len() - 32) as nat);
    }
}

/// Merging communities does to the modularity what it does before they are renumbered.
proof fn lemma_merged_alike(m: Seq<Seq<int>>, found: Seq<usize>, a: int, b: int)
    requires
        found.len() == m.len() <= usize::MAX,
        labels_below(found, m.len()),
        0 <= a < m.len(),
        0 <= b < m.len(),
    ensures
        ({
            let labels = renumber(found);
            &&& labels[a] == labels[b] <==> found[a] == found[b]
            &&& label_count(labels) == label_count(found)
            &&& scaled_modularity(m, labels, m.len()) == scaled_modularity(m, found, m.len())
            &&& scaled_modularity(m, merged(labels, labels[a], labels[b]), m.len())
                == scaled_modularity(m, merged(found, found[a], found[b]), m.len())
        }),
{
    let labels = renumber(found);
    lemma_renumber(found);
    law_renumber_keeps_modularity(m, found, m.len());
    assert(are_alike(labels, found)) by {
        assert forall|i: int, j: int|
            0 <= i < labels.len() && 0 <= j < labels.len() implies (#[trigger] labels[i]
            == #[trigger] labels[j] <==> found[i] == found[j]) by {
            law_renumber_keeps_communities(found, i, j);
        }
    }
    lemma_alike(m, labels, found);
    lemma_alike_merged(m, labels, found, a, b);
}

/// What Louvain finds has at least the modularity of what its first round of local moving
/// finds, but for the slack of its visits, which is 0 where the tolerance is.
pub proof fn law_louvain_keeps_first_round(m: Seq<Seq<int>>, seed: u64)
    requires
        symmetric(m),
        m.len() <= usize::MAX,
    ensures
        scaled_modularity(m, louvain_labels(m, seed), m.len()) >= scaled_modularity(
            m,
            local_moving(m, singletons(m.len()), seed),
            m.len(),
        ) - slack(m, 2048 * m.len()),
        tolerance(m) == 0 ==> slack(m, 2048 * m.len()) == 0,
{
    let one = singletons(m.len());
    lemma_carries_self(m);
    lemma_louvain_keeps(m, m, one, seed, 32);
    let found = louvain_from(m, one, seed, 32);
    law_renumber_keeps_modularity(m, found, m.len());
    lemma_slack(m, 2048 * m.len(), 0);
    lemma_slack(m, 31 * (64 * m.len()), 64 * m.len());
    let raw = local_moving(m, one, seed);
    lemma_local_moving_keeps(m, one, m.len(), seed);
    law_renumber_keeps_modularity(m, raw, m.len());
    let p = renumber(raw);
    lemma_renumber(raw);
    lemma_labels(p);
    let k = label_count(p);
    let after = Seq::new(one.len(), |i: int| p[one[i] as int]);
    assert(after =~= p);
    assert(after =~= through(one, p));
    if k == m.len() {
        lemma_all_labels(p);
        assert(are_alike(p, one));
        lemma_alike(m, p, one);
    } else if k > 1 {
        lemma_carries(m, m, one, p, k);
        lemma_coarse_symmetric(m, p, k);
        law_coarse_keeps_total(m, p, k);
        lemma_louvain_keeps(m, coarse(m, p, k), after, next_seed(seed), 31);
    }
}

/// Where two nodes gain by being together, Louvain finds communities of higher modularity
/// than single nodes.
pub proof fn law_louvain_finds_gains(m: Seq<Seq<int>>, seed: u64, u: int, v: int)
    requires
        symmetric(m),
        tolerance(m) == 0,
        m.len() <= usize::MAX,
        gain_together(m, together(m.len()), u, v),
    ensures
        scaled_modularity(m, louvain_labels(m, seed), m.len()) > scaled_modularity(
            m,
            singletons(m.len()),
            m.len(),
        ),
{
    law_louvain_keeps_first_round(m, seed);
    law_local_moving_finds_gains(m, seed, u, v);
}

/// Two nodes of the graph `m` with weight between them stand for nodes of `base` with
/// weight between some of them.
spec fn stand_for_links(base: Seq<Seq<int>>, m: Seq<Seq<int>>, at: Seq<usize>) -> bool {
    forall|c: int, d: int|
        0 <= c < m.len() && 0 <= d < m.len() && #[trigger] m[c][d] > 0 ==> is_linked(
            base,
            at,
            c,
            d,
        )
}

/// There is weight between a node labeled `c` and one labeled `d`.
spec fn is_linked(base: Seq<Seq<int>>, at: Seq<usize>, c: int, d: int) -> bool {
    exists|i: int, j: int|
        0 <= i < base.len() && 0 <= j < base.len() && at[i] == c && at[j] == d
            && #[trigger] base[i][j] > 0
}

/// The links of a coarser graph stand for links of the base too.
proof fn lemma_links_below(
    base: Seq<Seq<int>>,
    m: Seq<Seq<int>>,
    at: Seq<usize>,
    r: Seq<usize>,
    k: nat,
)
    requires
        symmetric(m),
        at.len() == base.len(),
        labels_below(at, m.len()),
        stand_for_links(base, m, at),
        r.len() == m.len(),
    ensures
        stand_for_links(base, coarse(m, r, k), through(at, r)),
{
    let big = coarse(m, r, k);
    let below = through(at, r);
    assert forall|c: int, d: int|
        0 <= c < big.len() && 0 <= d < big.len() && #[trigger] big[c][d] > 0 implies is_linked(
        base,
        below,
        c,
        d,
    ) by {
        assert(big[c][d] == block_weight(m, r, c, d));
        let outer = within(r, c, weights_into(m, r, d));
        let x = lemma_sum_positive_term(m.len(), outer);
        assert(r[x] == c);
        let inner = within(r, d, row(m, x));
        let y = lemma_sum_positive_term(m.len(), inner);
        assert(r[y] == d);
        assert(m[x][y] > 0);
        assert(is_linked(base, at, x, y));
        let (i, j) = choose|i: int, j: int|
            0 <= i < base.len() && 0 <= j < base.len() && at[i] == x && at[j] == y
                && #[trigger] base[i][j] > 0;
        assert(below[i] == c && below[j] == d);
        assert(base[i][j] > 0);
    }
}

/// Connected communities of nodes that stand for connected communities are connected.
proof fn lemma_connected_below(
    base: Seq<Seq<int>>,
    m: Seq<Seq<int>>,
    at: Seq<usize>,
    r: Seq<usize>,
)
    requires
        at.len() == base.len() <= usize::MAX,
        labels_below(at, m.len()),
        m.len() <= usize::MAX,
        forall|c: int| 0 <= c < m.len() ==> at.contains(#[trigger] (c as usize)),
        stand_for_links(base, m, at),
        connected(base, at),
        r.len() == m.len(),
        connected(m, r),
    ensures
        connected(base, through(at, r)),
{
    let below = through(at, r);
    assert forall|rel: spec_fn(int, int) -> bool|
        equivalence(base.len(), rel) && relates_mates(base, below, rel) implies #[trigger] respects(
        below,
        rel,
    ) by {
        assert(relates_mates(base, at, rel)) by {
            assert forall|i: int, j: int|
                0 <= i < base.len() && 0 <= j < base.len() && at[i] == at[j]
                    && #[trigger] base[i][j] > 0 implies rel(i, j) by {
                assert(below[i] == below[j]);
            }
        }
        assert(respects(at, rel));
        let up = lifted(at, rel);
        lemma_lifts(at, m.len(), rel);
        assert(relates_mates(m, r, up)) by {
            assert forall|c: int, d: int|
                0 <= c < m.len() && 0 <= d < m.len() && r[c] == r[d] && #[trigger] m[c][d]
                    > 0 implies up(c, d) by {
                assert(is_linked(base, at, c, d));
                let (i, j) = choose|i: int, j: int|
                    0 <= i < base.len() && 0 <= j < base.len() && at[i] == c && at[j] == d
                        && #[trigger] base[i][j] > 0;
                assert(below[i] == below[j]);
                assert(rel(i, j));
            }
        }
        assert(respects(r, up));
        assert forall|i: int, j: int|
            0 <= i < below.len() && 0 <= j < below.len() && #[trigger] below[i]
                == #[trigger] below[j] implies rel(i, j) by {
            let c = at[i] as int;
            let d = at[j] as int;
            assert(c < m.len() && d < m.len());
            assert(r[c] == r[d]);
            assert(up(c, d));
        }
    }
}

/// An equivalence of nodes that respects their labels is one of the labels.
proof fn lemma_lifts(at: Seq<usize>, k: nat, rel: spec_fn(int, int) -> bool)
    requires
        equivalence(at.len(), rel),
        respects(at, rel),
        k <= usize::MAX,
        forall|c: int| 0 <= c < k ==> at.contains(#[trigger] (c as usize)),
    ensures
        equivalence(k, lifted(at, rel)),
        forall|i: int, j: int|
            0 <= i < at.len() && 0 <= j < at.len() && lifted(at, rel)(
                (#[trigger] at[i]) as int,
                (#[trigger] at[j]) as int,
            ) ==> rel(i, j),
{
    let up = lifted(at, rel);
    assert forall|c: int| 0 <= c < k implies #[trigger] up(c, c) by {
        assert(at.contains(c as usize));
        let i = choose|i: int| 0 <= i < at.len() && at[i] == c as usize;
        assert(rel(i, i));
    }
    assert forall|c: int, d: int| 0 <= c < k && 0 <= d < k && #[trigger] up(c, d) implies up(
        d,
        c,
    ) by {
        let (i, j) = choose|i: int, j: int|
            0 <= i < at.len() && 0 <= j < at.len() && at[i] == c && at[j] == d && #[trigger] rel(
                i,
                j,
            );
        assert(rel(j, i));
    }
    assert forall|c: int, d: int, e: int|
        0 <= c < k && 0 <= d < k && 0 <= e < k && #[trigger] up(c, d) && #[trigger] up(
            d,
            e,
        ) implies up(c, e) by {
        let (i, j) = choose|i: int, j: int|
            0 <= i < at.len() && 0 <= j < at.len() && at[i] == c && at[j] == d && #[trigger] rel(
                i,
                j,
            );
        let (g, h) = choose|g: int, h: int|
            0 <= g < at.len() && 0 <= h < at.len() && at[g] == d && at[h] == e && #[trigger] rel(
                g,
                h,
            );
        assert(at[j] == at[g]);
        assert(rel(j, g));
        assert(rel(i, g));
        assert(rel(i, h));
    }
    assert forall|i: int, j: int|
        0 <= i < at.len() && 0 <= j < at.len() && up(
            (#[trigger] at[i]) as int,
            (#[trigger] at[j]) as int,
        ) implies rel(i, j) by {
        let (g, h) = choose|g: int, h: int|
            0 <= g < at.len() && 0 <= h < at.len() && at[g] == at[i] as int && at[h] == at[j] as int
                && #[trigger] rel(g, h);
        assert(at[i] == at[g] && at[h] == at[j]);
        assert(rel(i, g));
        assert(rel(h, j));
        assert(rel(i, h));
    }
}

/// The levels of Leiden end of themselves: within `left` of them, local moving leaves all
/// nodes of a level apart, or refining puts them all together.
pub open spec fn leiden_ends(
    m: Seq<Seq<int>>,
    initial: Seq<usize>,
    seed: u64,
    left: nat,
) -> bool
    decreases left,
{
    left > 0 && {
        let p = renumber(local_moving(m, initial, seed));
        let r = refined(m, p, next_seed(seed));
        let k = label_count(r);
        ||| label_count(p) == m.len()
        ||| k <= 1
        ||| leiden_ends(
            coarse(m, r, k),
            inherited(p, r, k),
            next_seed(next_seed(seed)),
            (left - 1) as nat,
        )
    }
}

/// Labelings with the same communities are connected alike.
proof fn lemma_alike_connected(m: Seq<Seq<int>>, a: Seq<usize>, b: Seq<usize>)
    requires
        a.len() == m.len(),
        are_alike(a, b),
        connected(m, a),
    ensures
        connected(m, b),
{
    assert forall|rel: spec_fn(int, int) -> bool|
        equivalence(m.len(), rel) && relates_mates(m, b, rel) implies #[trigger] respects(
        b,
        rel,
    ) by {
        assert(relates_mates(m, a, rel)) by {
            assert forall|u: int, v: int|
                0 <= u < m.len() && 0 <= v < m.len() && a[u] == a[v] && #[trigger] m[u][v]
                    > 0 implies rel(u, v) by {
                assert(b[u] == b[v]);
            }
        }
        assert(respects(a, rel));
        assert forall|i: int, j: int|
            0 <= i < b.len() && 0 <= j < b.len() && #[trigger] b[i] == #[trigger] b[j] implies rel(
            i,
            j,
        ) by {
            assert(a[i] == a[j]);
        }
    }
}

/// Where the levels of Leiden end of themselves, what they come to is connected, and no
/// two of its communities can be merged with a gain.
proof fn lemma_leiden_merges(
    base: Seq<Seq<int>>,
    m: Seq<Seq<int>>,
    initial: Seq<usize>,
    at: Seq<usize>,
    composed: Seq<usize>,
    seed: u64,
    left: nat,
    a: int,
    b: int,
)
    requires
        symmetric(m),
        tolerance(m) == 0,
        base.len() <= usize::MAX,
        carries(base, m, at),
        at.len() == base.len(),
        labels_below(at, m.len()),
        forall|c: int| 0 <= c < m.len() ==> at.contains(#[trigger] (c as usize)),
        stand_for_links(base, m, at),
        connected(base, at),
        m.len() <= base.len(),
        initial.len() == m.len(),
        labels_below(initial, m.len()),
        leiden_ends(m, initial, seed, left),
        0 <= a < base.len(),
        0 <= b < base.len(),
    ensures
        ({
            let found = leiden_from(m, initial, at, composed, seed, left);
            &&& found.len() == base.len()
            &&& labels_below(found, base.len())
            &&& connected(base, found)
            &&& found[a] == found[b] || scaled_modularity(
                base,
                merged(found, found[a], found[b]),
                base.len(),
            ) <= scaled_modularity(base, found, base.len())
        }),
    decreases left,
{
    let raw = local_moving(m, initial, seed);
    lemma_local_moving_keeps(m, initial, m.len(), seed);
    let p = renumber(raw);
    lemma_renumber(raw);
    lemma_labels(p);
    let found = Seq::new(at.len(), |i: int| p[at[i] as int]);
    assert forall|i: int| 0 <= i < found.len() implies (#[trigger] found[i]) < base.len() by {
        assert(at[i] < m.len());
        assert(p[at[i] as int] < m.len());
    }
    let next = next_seed(seed);
    let r = refined(m, p, next);
    lemma_inherited_below(m, p, next);
    law_refined_connected(m, p, next);
    lemma_labels(r);
    let k = label_count(r);
    let heirs = inherited(p, r, k);
    let below = Seq::new(at.len(), |i: int| r[at[i] as int]);
    assert(below =~= through(at, r));
    lemma_carries(base, m, at, r, k);
    lemma_connected_below(base, m, at, r);
    if label_count(p) == m.len() {
        lemma_all_labels(p);
        assert(are_alike(at, found)) by {
            assert forall|i: int, j: int|
                0 <= i < at.len() && 0 <= j < at.len() implies (#[trigger] at[i] == #[trigger] at[j]
                <==> found[i] == found[j]) by {
                assert(at[i] < m.len() && at[j] < m.len());
            }
        }
        lemma_alike_connected(base, at, found);
        assert(labels_below(at, base.len()));
        lemma_alike(base, at, found);
        if at[a] != at[b] {
            lemma_level_merges(base, m, at, initial, seed, a, b);
            lemma_alike_merged(base, at, found, a, b);
        }
    } else if k <= 1 {
        assert(are_alike(below, found)) by {
            assert forall|i: int, j: int|
                0 <= i < below.len() && 0 <= j < below.len() implies (#[trigger] below[i]
                == #[trigger] below[j] <==> found[i] == found[j]) by {
                assert(at[i] < m.len() && at[j] < m.len());
                assert(r[at[i] as int] < k && r[at[j] as int] < k);
                law_refined_inside(m, p, next, at[i] as int, at[j] as int);
            }
        }
        lemma_alike_connected(base, below, found);
        assert(below[a] < k && below[b] < k);
    } else {
        lemma_coarse_symmetric(m, r, k);
        law_coarse_keeps_total(m, r, k);
        lemma_links_below(base, m, at, r, k);
        assert forall|c: int| 0 <= c < k implies below.contains(#[trigger] (c as usize)) by {
            assert(r.contains(c as usize));
            let x = choose|x: int| 0 <= x < r.len() && r[x] == c as usize;
            assert(at.contains(x as usize));
            let i = choose|i: int| 0 <= i < at.len() && at[i] == x as usize;
            assert(below[i] == c as usize);
        }
        lemma_leiden_merges(
            base,
            coarse(m, r, k),
            heirs,
            below,
            found,
            next_seed(next),
            (left - 1) as nat,
            a,
            b,
        );
    }
}

/// Merging does the same to labelings with the same communities.
proof fn lemma_alike_merged(
    m: Seq<Seq<int>>,
    labels: Seq<usize>,
    found: Seq<usize>,
    a: int,
    b: int,
)
    requires
        labels.len() == m.len() <= usize::MAX,
        are_alike(labels, found),
        labels_below(labels, m.len()),
        labels_below(found, m.len()),
        0 <= a < m.len(),
        0 <= b < m.len(),
    ensures
        scaled_modularity(m, merged(labels, labels[a], labels[b]), m.len()) == scaled_modularity(
            m,
            merged(found, found[a], found[b]),
            m.len(),
        ),
{
    let x = merged(labels, labels[a], labels[b]);
    let y = merged(found, found[a], found[b]);
    assert(are_alike(x, y)) by {
        assert forall|i: int, j: int|
            0 <= i < x.len() && 0 <= j < x.len() implies (#[trigger] x[i] == #[trigger] x[j]
            <==> y[i] == y[j]) by {
            assert(labels[i] == labels[j] <==> found[i] == found[j]);
            assert(labels[i] == labels[a] <==> found[i] == found[a]);
            assert(labels[i] == labels[b] <==> found[i] == found[b]);
            assert(labels[j] == labels[a] <==> found[j] == found[a]);
            assert(labels[j] == labels[b] <==> found[j] == found[b]);
            assert(labels[a] == labels[b] <==> found[a] == found[b]);
        }
    }
    assert(labels_below(x, m.len()));
    assert(labels_below(y, m.len()));
    lemma_alike(m, x, y);
}

/// Where its levels end of themselves and no difference is tolerated, no two communities
/// that Leiden finds could be merged with a gain in modularity.
pub proof fn law_leiden_leaves_no_merge(m: Seq<Seq<int>>, seed: u64, a: int, b: int)
    requires
        symmetric(m),
        tolerance(m) == 0,
        m.len() <= usize::MAX,
        leiden_ends(m, singletons(m.len()), seed, 32),
        0 <= a < m.len(),
        0 <= b < m.len(),
        leiden_labels(m, seed)[a] != leiden_labels(m, seed)[b],
    ensures
        ({
            let labels = leiden_labels(m, seed);
            scaled_modularity(m, merged(labels, labels[a], labels[b]), m.len())
                <= scaled_modularity(m, labels, m.len())
        }),
{
    let one = singletons(m.len());
    lemma_carries_self(m);
    assert(connected(m, one)) by {
        assert forall|rel: spec_fn(int, int) -> bool|
            equivalence(m.len(), rel) && relates_mates(m, one, rel) implies #[trigger] respects(
            one,
            rel,
        ) by {
            assert forall|i: int, j: int|
                0 <= i < one.len() && 0 <= j < one.len() && #[trigger] one[i]
                    == #[trigger] one[j] implies rel(i, j) by {
                assert(rel(i, i));
            }
        }
    }
    assert(stand_for_links(m, m, one)) by {
        assert forall|c: int, d: int|
            0 <= c < m.len() && 0 <= d < m.len() && #[trigger] m[c][d] > 0 implies is_linked(
            m,
            one,
            c,
            d,
        ) by {
            assert(one[c] == c && one[d] == d);
        }
    }
    assert forall|c: int| 0 <= c < m.len() implies one.contains(#[trigger] (c as usize)) by {
        assert(one[c] == c as usize);
    }
    lemma_leiden_merges(m, m, one, one, one, seed, 32, a, b);
    let found = leiden_from(m, one, one, one, seed, 32);
    let parts = pieces(m, found);
    law_splitting_keeps_modularity(m, found, m.len());
    assert(are_alike(found, parts)) by {
        assert forall|i: int, j: int|
            0 <= i < found.len() && 0 <= j < found.len() implies (#[trigger] found[i]
            == #[trigger] found[j] <==> parts[i] == parts[j]) by {
            law_connected_stays_whole(m, found, i, j);
        }
    }
    lemma_alike(m, found, parts);
    lemma_alike_merged(m, found, parts, a, b);
    lemma_merged_alike(m, parts, a, b);
}

/// A shuffle repeats no item.
proof fn lemma_shuffled_once(s: Seq<usize>, i: nat, state: u64)
    requires
        i < s.len(),
        s.no_duplicates(),
    ensures
        shuffled(s, i, state).0.no_duplicates(),
        forall|x: usize| #[trigger] shuffled(s, i, state).0.contains(x) ==> s.contains(x),
    decreases i,
{
    if i > 0 {
        let next = xorshift(state);
        let j = (next as usize) as int % (i as int + 1);
        assert(0 <= j <= i) by (nonlinear_arith)
            requires
                j == (next as usize) as int % (i as int + 1),
                i >= 0,
        ;
        let t = swapped(s, i as int, j);
        assert(t.no_duplicates());
        lemma_shuffled_once(t, (i - 1) as nat, next);
        assert forall|x: usize| #[trigger] shuffled(s, i, state).0.contains(x) implies s.contains(
            x,
        ) by {
            assert(t.contains(x));
            let q = choose|q: int| 0 <= q < t.len() && t[q] == x;
            if q == i {
                assert(s[j] == x);
            } else if q == j {
                assert(s[i as int] == x);
            } else {
                assert(s[q] == x);
            }
        }
    }
}

/// A round visits no node twice.
proof fn lemma_round_once(scope: Seq<usize>, k: nat, g: nat, state: u64)
    requires
        g <= k,
        scope.len() <= usize::MAX,
    ensures
        round_order(groups_of(scope, k), g, state).0.no_duplicates(),
        forall|x: usize| #[trigger]
            round_order(groups_of(scope, k), g, state).0.contains(x) ==> x < scope.len()
                && scope[x as int] < g,
    decreases g,
{
    if g > 0 {
        let groups = groups_of(scope, k);
        lemma_round_once(scope, k, (g - 1) as nat, state);
        let (order, mid) = round_order(groups, (g - 1) as nat, state);
        let group = groups[g - 1];
        let now = round_order(groups, g, state).0;
        lemma_members(scope, g - 1, scope.len());
        if group.len() >= 2 {
            lemma_shuffled_once(group, (group.len() - 1) as nat, mid);
            let last = shuffled(group, (group.len() - 1) as nat, mid).0;
            assert(now == order + last);
            assert forall|q: int| 0 <= q < last.len() implies (#[trigger] last[q]) < scope.len()
                && scope[last[q] as int] == g - 1 by {
                assert(last.contains(last[q]));
                assert(group.contains(last[q]));
            }
            assert forall|i: int, j: int|
                0 <= i < now.len() && 0 <= j < now.len() && i != j implies now[i] != now[j] by {
                if i < order.len() && j >= order.len() {
                    assert(order.contains(order[i]));
                } else if j < order.len() && i >= order.len() {
                    assert(order.contains(order[j]));
                }
            }
            assert forall|x: usize| #[trigger] now.contains(x) implies x < scope.len()
                && scope[x as int] < g by {
                let q = choose|q: int| 0 <= q < now.len() && now[q] == x;
                if q < order.len() {
                    assert(order.contains(x));
                } else {
                    assert(last[q - order.len()] == x);
                }
            }
        }
    }
}

/// Visits that repeat no node and leave the labels as they were change nothing on the way.
proof fn lemma_visits_idle(
    m: Seq<Seq<int>>,
    labels: Seq<usize>,
    scope: Seq<usize>,
    order: Seq<usize>,
    k: nat,
    i: int,
)
    requires
        labels.len() == m.len(),
        order.no_duplicates(),
        labels_below(order, m.len()),
        0 <= i < k <= order.len(),
        visited(m, labels, scope, order, k) == labels,
    ensures
        settled(m, labels, scope, order[i] as int) == labels,
    decreases k,
{
    let before = visited(m, labels, scope, order, (k - 1) as nat);
    lemma_visits_elsewhere(m, labels, scope, order, (k - 1) as nat, k - 1);
    let u = order[k - 1] as int;
    assert(order[k - 1] < m.len());
    assert(before =~= labels) by {
        assert forall|x: int| 0 <= x < labels.len() implies before[x] == labels[x] by {
            if x != u {
                assert(settled(m, before, scope, u)[x] == before[x]);
            }
        }
    }
    if i < k - 1 {
        lemma_visits_idle(m, labels, scope, order, (k - 1) as nat, i);
    }
}

/// Visits leave the label of a node alone that is visited only later.
proof fn lemma_visits_elsewhere(
    m: Seq<Seq<int>>,
    labels: Seq<usize>,
    scope: Seq<usize>,
    order: Seq<usize>,
    k: nat,
    i: int,
)
    requires
        labels.len() == m.len(),
        order.no_duplicates(),
        labels_below(order, m.len()),
        k <= i < order.len(),
    ensures
        visited(m, labels, scope, order, k).len() == m.len(),
        visited(m, labels, scope, order, k)[order[i] as int] == labels[order[i] as int],
    decreases k,
{
    assert(order[i] < m.len());
    if k > 0 {
        lemma_visits_elsewhere(m, labels, scope, order, (k - 1) as nat, i);
        assert(order[k - 1] != order[i]);
        assert(order[k - 1] < m.len());
    }
}

/// Rounds that one more would not change end with labels that no round changes.
proof fn lemma_rounds_end(
    m: Seq<Seq<int>>,
    labels: Seq<usize>,
    scope: Seq<usize>,
    groups: Seq<Seq<usize>>,
    state: u64,
    left: nat,
) -> (last: u64)
    requires
        rounds(m, labels, scope, groups, state, left + 1) == rounds(
            m,
            labels,
            scope,
            groups,
            state,
            left,
        ),
    ensures
        ({
            let after = rounds(m, labels, scope, groups, state, left);
            let order = round_order(groups, groups.len(), last).0;
            visited(m, after, scope, order, order.len()) == after
        }),
    decreases left,
{
    let (order, next) = round_order(groups, groups.len(), state);
    let after = visited(m, labels, scope, order, order.len());
    if after == labels {
        state
    } else if left == 0 {
        assert(rounds(m, after, scope, groups, next, 0) == after);
        state
    } else {
        lemma_rounds_end(m, after, scope, groups, next, (left - 1) as nat)
    }
}

/// Where a further round would change nothing, moving has come to a rest: no node
/// gains more than the tolerance by joining another one of its part, over staying where it
/// is and over standing alone under a label `f` that nobody has.
pub proof fn law_moving_ends_at_rest(
    m: Seq<Seq<int>>,
    start: Seq<usize>,
    scope: Seq<usize>,
    seed: u64,
    cap: nat,
    u: int,
    v: int,
    f: usize,
    bound: nat,
)
    requires
        symmetric(m),
        scope == renumber(scope),
        scope.len() == start.len() == m.len() <= usize::MAX,
        forall|x: int, y: int|
            0 <= x < m.len() && 0 <= y < m.len() && #[trigger] start[x] == #[trigger] start[y]
                ==> scope[x] == scope[y],
        0 <= u < m.len(),
        0 <= v < m.len(),
        scope[u] == scope[v],
        moved(m, start, scope, label_count(scope), seed, cap + 1) == moved(
            m,
            start,
            scope,
            label_count(scope),
            seed,
            cap,
        ),
        labels_below(moved(m, start, scope, label_count(scope), seed, cap), bound),
        !moved(m, start, scope, label_count(scope), seed, cap).contains(f),
        f < bound,
    ensures
        ({
            let labels = moved(m, start, scope, label_count(scope), seed, cap);
            let joined = scaled_modularity(m, labels.update(u, labels[v]), bound) - 2 * tolerance(m);
            ||| joined <= scaled_modularity(m, labels, bound)
            ||| joined <= scaled_modularity(m, labels.update(u, f), bound)
        }),
{
    let k = label_count(scope);
    let groups = groups_of(scope, k);
    let labels = moved(m, start, scope, k, seed, cap);
    let rel = |x: int, y: int| scope[x] == scope[y];
    law_moved_respects(m, start, scope, k, seed, cap, rel);
    lemma_tolerance_nonneg(m);
    assert(keeps_scope(labels, scope)) by {
        assert forall|x: int, y: int|
            0 <= x < labels.len() && 0 <= y < labels.len() && #[trigger] labels[x]
                == #[trigger] labels[y] implies scope[x] == scope[y] by {
            assert(rel(x, y));
        }
    }
    if u == v {
        assert(labels.update(u, labels[v]) =~= labels);
    } else {
        let last = lemma_rounds_end(m, start, scope, groups, start_state(seed), cap);
        let order = round_order(groups, groups.len(), last).0;
        lemma_round_once(scope, k, k, last);
        assert(labels_below(order, m.len())) by {
            assert forall|i: int| 0 <= i < order.len() implies (#[trigger] order[i]) < m.len() by {
                assert(order.contains(order[i]));
            }
        }
        lemma_labels(scope);
        assert(scope[u] < k);
        let c = scope[u] as int;
        lemma_members(scope, c, scope.len());
        assert(groups[c].contains(u as usize));
        assert(groups[c].contains(v as usize));
        assert(groups[c].len() >= 2) by {
            let i = choose|i: int| 0 <= i < groups[c].len() && groups[c][i] == u as usize;
            let j = choose|j: int| 0 <= j < groups[c].len() && groups[c][j] == v as usize;
            assert(i != j);
        }
        lemma_round_holds(groups, groups.len(), last, c, u as usize);
        let i = choose|i: int| 0 <= i < order.len() && order[i] == u as usize;
        lemma_visits_idle(m, labels, scope, order, order.len(), i);
        let best = best_below(m, labels, scope, u, label_bound());
        assert(settled(m, labels, scope, u)[u] == best.0);
        let d = labels[v] as int;
        lemma_best_value(m, labels, scope, u, label_bound());
        lemma_best_is_best(m, labels, scope, u, label_bound(), d);
        assert(labels[v] < bound);
        law_gain_is_modularity_gain(m, labels, bound, u, labels[v]);
        law_gain_is_modularity_gain(m, labels, bound, u, f);
        lemma_gain_in_scope(m, labels, scope, u, d);
        lemma_gain_in_scope(m, labels, scope, u, labels[u] as int);
        lemma_gain_of_nobody(m, labels, u, f as int);
    }
}

/// A label that nobody has brings no gain.
proof fn lemma_gain_of_nobody(m: Seq<Seq<int>>, labels: Seq<usize>, u: int, f: int)
    requires
        0 <= u < m.len() == labels.len(),
        forall|v: int| 0 <= v < m.len() ==> (#[trigger] labels[v]) != f,
    ensures
        gain(m, labels, together(m.len()), u, f) == 0,
{
    let p = pull(m, labels, together(m.len()), u, f);
    assert forall|v: int| 0 <= v < m.len() implies #[trigger] p(v) == 0 by {
        assert(labels[v] != f);
    }
    crate::sums::lemma_sum_zero(m.len(), p);
    let g = within(labels, f, degrees(m));
    assert forall|v: int| 0 <= v < m.len() implies #[trigger] g(v) == 0 by {
        assert(labels[v] != f);
    }
    crate::sums::lemma_sum_zero(m.len(), g);
    assert(labels[u] != f);
    assert(0 * twice_total(m) == 0 && 0 * degree_of(m, u) == 0);
}

/// Rounds that one more would not change are changed by no number of rounds more.
proof fn lemma_rounds_rest(
    m: Seq<Seq<int>>,
    labels: Seq<usize>,
    scope: Seq<usize>,
    groups: Seq<Seq<usize>>,
    state: u64,
    left: nat,
    more: nat,
)
    requires
        left <= more,
        rounds(m, labels, scope, groups, state, left + 1) == rounds(
            m,
            labels,
            scope,
            groups,
            state,
            left,
        ),
    ensures
        rounds(m, labels, scope, groups, state, more) == rounds(
            m,
            labels,
            scope,
            groups,
            state,
            left,
        ),
    decreases left,
{
    let (order, next) = round_order(groups, groups.len(), state);
    let after = visited(m, labels, scope, order, order.len());
    if after != labels {
        if left == 0 {
            assert(rounds(m, after, scope, groups, next, 0) == after);
        } else {
            lemma_rounds_rest(
                m,
                after,
                scope,
                groups,
                next,
                (left - 1) as nat,
                (more - 1) as nat,
            );
        }
    }
}

/// Local moving comes to a rest where any number of rounds up to 64 does, and there.
pub proof fn law_local_moving_comes_to_rest(
    m: Seq<Seq<int>>,
    initial: Seq<usize>,
    seed: u64,
    cap: nat,
)
    requires
        cap <= 64,
        ({
            let all = together(m.len());
            moved(m, initial, all, label_count(all), seed, cap + 1) == moved(
                m,
                initial,
                all,
                label_count(all),
                seed,
                cap,
            )
        }),
    ensures
        local_moving(m, initial, seed) == moved(
            m,
            initial,
            together(m.len()),
            label_count(together(m.len())),
            seed,
            cap,
        ),
{
    let all = together(m.len());
    lemma_rounds_rest(
        m,
        initial,
        all,
        groups_of(all, label_count(all)),
        start_state(seed),
        cap,
        64,
    );
}

/// A round of moving visits every node that shares its part with another one, and none
/// twice.
pub proof fn law_round_visits_once(scope: Seq<usize>, state: u64, u: int, v: int)
    requires
        scope == renumber(scope),
        scope.len() <= usize::MAX,
        0 <= u < scope.len(),
        0 <= v < scope.len(),
        u != v,
        scope[u] == scope[v],
    ensures
        ({
            let k = label_count(scope);
            let order = round_order(groups_of(scope, k), k, state).0;
            order.contains(u as usize) && order.no_duplicates()
        }),
{
    let k = label_count(scope);
    let groups = groups_of(scope, k);
    lemma_labels(scope);
    assert(scope[u] < k);
    let c = scope[u] as int;
    lemma_members(scope, c, scope.len());
    assert(groups[c].contains(u as usize));
    assert(groups[c].contains(v as usize));
    assert(groups[c].len() >= 2) by {
        let i = choose|i: int| 0 <= i < groups[c].len() && groups[c][i] == u as usize;
        let j = choose|j: int| 0 <= j < groups[c].len() && groups[c][j] == v as usize;
        assert(i != j);
    }
    lemma_round_holds(groups, k, state, c, u as usize);
    lemma_round_once(scope, k, k, state);
}

/// Where the levels of Leiden go on, what it finds has at least the modularity of what
/// local moving makes of the refined communities of the first level, which start in the
/// communities that they refine.
pub proof fn law_leiden_keeps_second_round(m: Seq<Seq<int>>, seed: u64)
    requires
        symmetric(m),
        m.len() <= usize::MAX,
        ({
            let p = renumber(local_moving(m, singletons(m.len()), seed));
            &&& label_count(p) != m.len()
            &&& label_count(refined(m, p, next_seed(seed))) > 1
        }),
    ensures
        ({
            let p = renumber(local_moving(m, singletons(m.len()), seed));
            let r = refined(m, p, next_seed(seed));
            let k = label_count(r);
            let further = local_moving(
                coarse(m, r, k),
                inherited(p, r, k),
                next_seed(next_seed(seed)),
            );
            scaled_modularity(m, leiden_labels(m, seed), m.len()) >= scaled_modularity(
                m,
                through(r, further),
                m.len(),
            ) - slack(m, 2048 * m.len())
        }),
{
    let one = singletons(m.len());
    lemma_carries_self(m);
    let raw = local_moving(m, one, seed);
    lemma_local_moving_keeps(m, one, m.len(), seed);
    let p = renumber(raw);
    lemma_renumber(raw);
    lemma_labels(p);
    let next = next_seed(seed);
    let r = refined(m, p, next);
    lemma_inherited_below(m, p, next);
    law_refined_connected(m, p, next);
    lemma_labels(r);
    let k = label_count(r);
    let big = coarse(m, r, k);
    let heirs = inherited(p, r, k);
    let found = Seq::new(one.len(), |i: int| p[one[i] as int]);
    let below = Seq::new(one.len(), |i: int| r[one[i] as int]);
    assert(found =~= p);
    assert(below =~= r);
    assert(through(one, r) == r);
    lemma_carries(m, m, one, r, k);
    lemma_coarse_symmetric(m, r, k);
    law_coarse_keeps_total(m, r, k);
    assert(found =~= through(r, heirs)) by {
        assert forall|u: int| 0 <= u < found.len() implies found[u] == #[trigger] through(
            r,
            heirs,
        )[u] by {
            let c = r[u];
            assert(c < k);
            r.index_of_first_ensures(c);
            assert(r.contains(c));
            law_refined_inside(m, p, next, r.index_of_first(c)->0, u);
        }
    }
    let last = next_seed(next);
    lemma_leiden_keeps(m, big, heirs, r, found, last, 31);
    let far = local_moving(big, heirs, last);
    lemma_local_moving_keeps(big, heirs, k, last);
    law_renumber_keeps_modularity(big, far, k);
    lemma_scaled_bound(big, far, k, m.len());
    lemma_scaled_bound(big, renumber(far), k, m.len());
    assert(labels_below(far, m.len()));
    assert(labels_below(renumber(far), m.len()));
    lemma_renumber(far);
    assert(scaled_modularity(big, far, m.len()) == scaled_modularity(
        m,
        through(r, far),
        m.len(),
    ));
    assert(scaled_modularity(big, renumber(far), m.len()) == scaled_modularity(
        m,
        through(r, renumber(far)),
        m.len(),
    ));
    lemma_slack(m, 31 * (64 * m.len()), 64 * m.len());
    lemma_slack(m, 64 * m.len(), 0);
    let levels = leiden_from(m, one, one, one, seed, 32);
    assert(levels == leiden_from(big, heirs, r, found, last, 31));
    law_splitting_keeps_modularity(m, levels, m.len());
    law_renumber_keeps_modularity(m, pieces(m, levels), m.len());
}

} // verus!
