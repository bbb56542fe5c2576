//! Local moving: nodes change to the neighboring community that gains the most
//! modularity, in a pseudo-random order, until a round changes nothing.
//!
//! The gain of a move is kept as an exact integer: it is the change of modularity
//! times half the square of twice the total weight.
use crate::hub::{increasing, sorted_distinct};
use crate::modularity::{
    degrees, labels_below, lemma_degree_nonneg, lemma_degrees_below_total,
    lemma_volume_below_total, volume, within,
};
use crate::partition::{copy_labels, lemma_members, members, Partition};
use crate::sums::{
    lemma_list_sum_by_target, lemma_list_sum_push_indicator, lemma_sum_ext, lemma_sum_le,
    lemma_sum_nonneg, lemma_sum_update, lemma_weight_to_absent, lemma_weight_to_push, list_sum, sum,
    weight_to,
};
use crate::tally::{ascending, names, tally};
use crate::weighted::{
    degree_of, entries_valid, lemma_degree_is_list_total, lemma_list_total_prefix,
    lemma_list_total_push, list_total, matrix, symmetric, twice_total, WeightedGraph,
    MAX_TOTAL_WEIGHT,
};
use vstd::prelude::*;

verus! {

/// One step of the xorshift generator with shifts 13, 7 and 17.
pub open spec fn xorshift(x: u64) -> u64 {
    let a = x ^ (x << 13);
    let b = a ^ (a >> 7);
    b ^ (b << 17)
}

/// The state in which the generator starts: the seed, or 1 for the seed 0, which the
/// generator would never leave.
pub open spec fn start_state(seed: u64) -> u64 {
    if seed == 0 {
        1
    } else {
        seed
    }
}

/// Advances the generator and returns the new state.
pub fn xorshift64(state: &mut u64) -> (x: u64)
    ensures
        x == xorshift(*old(state)),
        *final(state) == x,
{
    let mut x: u64 = *state;
    x = x ^ (x << 13);
    x = x ^ (x >> 7);
    x = x ^ (x << 17);
    *state = x;
    x
}

/// `s` with the values at `i` and `j` exchanged.
pub open spec fn swapped(s: Seq<usize>, i: int, j: int) -> Seq<usize> {
    s.update(i, s[j]).update(j, s[i])
}

/// A Fisher-Yates shuffle of the places `0` to `i`: each place from `i` down to 1
/// is exchanged with one at or below it, drawn from the generator. The result is
/// the list and the generator's state.
pub open spec fn shuffled(s: Seq<usize>, i: nat, state: u64) -> (Seq<usize>, u64)
    decreases i,
{
    if i == 0 {
        (s, state)
    } else {
        let next = xorshift(state);
        let j = (next as usize) as int % (i as int + 1);
        shuffled(swapped(s, i as int, j), (i - 1) as nat, next)
    }
}

/// Shuffles a list of at least two items.
fn shuffle(items: &mut Vec<usize>, state: &mut u64)
    requires
        old(items)@.len() >= 2,
    ensures
        (final(items)@, *final(state)) == shuffled(
            old(items)@,
            (old(items)@.len() - 1) as nat,
            *old(state),
        ),
        final(items)@.len() == old(items)@.len(),
{
    let ghost goal = shuffled(items@, (items@.len() - 1) as nat, *state);
    let mut i: usize = items.len() - 1;
    while i > 0
        invariant
            i < items.len(),
            items@.len() == old(items)@.len(),
            shuffled(items@, i as nat, *state) == goal,
        decreases i,
    {
        let r: u64 = xorshift64(state);
        let j: usize = (r as usize) % (i + 1);
        let a: usize = items[i];
        let b: usize = items[j];
        items.set(i, b);
        items.set(j, a);
        i -= 1;
    }
}

/// A shuffle keeps the items, and what holds of all of them.
pub proof fn lemma_shuffled_below(s: Seq<usize>, i: nat, state: u64, n: nat)
    requires
        i < s.len(),
        labels_below(s, n),
    ensures
        shuffled(s, i, state).0.len() == s.len(),
        labels_below(shuffled(s, i, state).0, n),
    decreases i,
{
    if i > 0 {
        let next = xorshift(state);
        let j = (next as usize) as int % (i as int + 1);
        assert(0 <= j <= i) by (nonlinear_arith)
            requires
                j == (next as usize) as int % (i as int + 1),
                i >= 0,
        ;
        let t = swapped(s, i as int, j);
        assert(labels_below(t, n));
        lemma_shuffled_below(t, (i - 1) as nat, next, n);
    }
}

/// The members of each of the first `k` groups of a labeling.
pub open spec fn groups_of(labels: Seq<usize>, k: nat) -> Seq<Seq<usize>> {
    Seq::new(k, |c: int| members(labels, c, labels.len()))
}

/// The order in which one round visits the nodes: the first `g` groups one after
/// the other, each shuffled, groups of one node left out. The result is the order
/// and the generator's state.
pub open spec fn round_order(groups: Seq<Seq<usize>>, g: nat, state: u64) -> (Seq<usize>, u64)
    decreases g,
{
    if g == 0 {
        (Seq::empty(), state)
    } else {
        let (order, mid) = round_order(groups, (g - 1) as nat, state);
        let group = groups[g - 1];
        if group.len() < 2 {
            (order, mid)
        } else {
            let (last, end) = shuffled(group, (group.len() - 1) as nat, mid);
            (order + last, end)
        }
    }
}

/// The weight between `u` and another node `v`, if `v` is in the same part of
/// `scope` as `u` and labeled `d`.
pub open spec fn pull(
    m: Seq<Seq<int>>,
    labels: Seq<usize>,
    scope: Seq<usize>,
    u: int,
    d: int,
) -> spec_fn(int) -> int {
    |v: int| if v != u && scope[v] == scope[u] && labels[v] == d { m[u][v] } else { 0 }
}

/// The weight between `u` and the other nodes of its part of `scope` labeled `d`.
pub open spec fn weight_toward(
    m: Seq<Seq<int>>,
    labels: Seq<usize>,
    scope: Seq<usize>,
    u: int,
    d: int,
) -> int {
    sum(m.len(), pull(m, labels, scope, u, d))
}

/// The volume of community `d` without node `u`.
pub open spec fn volume_without(m: Seq<Seq<int>>, labels: Seq<usize>, u: int, d: int) -> int {
    volume(m, labels, d) - (if labels[u] == d {
        degree_of(m, u)
    } else {
        0
    })
}

/// The gain of node `u` in community `d` over standing alone.
pub open spec fn gain(
    m: Seq<Seq<int>>,
    labels: Seq<usize>,
    scope: Seq<usize>,
    u: int,
    d: int,
) -> int {
    weight_toward(m, labels, scope, u, d) * twice_total(m) - volume_without(m, labels, u, d)
        * degree_of(m, u)
}

/// A gain counts as larger only if it is larger by more than this. It stands for
/// a difference in modularity of 10 to the power of -12.
pub open spec fn tolerance(m: Seq<Seq<int>>) -> int {
    (twice_total(m) * twice_total(m)) / 2_000_000_000_000
}

/// The best of the communities below `d`, and its gain: node `u` stays where it is
/// at gain 0 unless a community, in ascending order, beats the best so far.
pub open spec fn best_below(
    m: Seq<Seq<int>>,
    labels: Seq<usize>,
    scope: Seq<usize>,
    u: int,
    d: nat,
) -> (usize, int)
    decreases d,
{
    if d == 0 {
        (labels[u], 0)
    } else {
        let best = best_below(m, labels, scope, u, (d - 1) as nat);
        let g = gain(m, labels, scope, u, d - 1);
        if g > best.1 + tolerance(m) {
            ((d - 1) as usize, g)
        } else {
            best
        }
    }
}

/// The number of labels that there are.
pub open spec fn label_bound() -> nat {
    (usize::MAX + 1) as nat
}

/// The labels after node `u` has moved to its best community.
pub open spec fn settled(
    m: Seq<Seq<int>>,
    labels: Seq<usize>,
    scope: Seq<usize>,
    u: int,
) -> Seq<usize> {
    labels.update(u, best_below(m, labels, scope, u, label_bound()).0)
}

/// The labels after the first `k` nodes of `order` have settled one by one.
pub open spec fn visited(
    m: Seq<Seq<int>>,
    labels: Seq<usize>,
    scope: Seq<usize>,
    order: Seq<usize>,
    k: nat,
) -> Seq<usize>
    decreases k,
{
    if k == 0 {
        labels
    } else {
        settled(m, visited(m, labels, scope, order, (k - 1) as nat), scope, order[k - 1] as int)
    }
}

/// The labels after at most `left` rounds, stopping after one that changes nothing.
pub open spec fn rounds(
    m: Seq<Seq<int>>,
    labels: Seq<usize>,
    scope: Seq<usize>,
    groups: Seq<Seq<usize>>,
    state: u64,
    left: nat,
) -> Seq<usize>
    decreases left,
{
    if left == 0 {
        labels
    } else {
        let (order, next) = round_order(groups, groups.len(), state);
        let after = visited(m, labels, scope, order, order.len());
        if after == labels {
            labels
        } else {
            rounds(m, after, scope, groups, next, (left - 1) as nat)
        }
    }
}

/// The labels that local moving reaches from `start` when nodes see only their own
/// part of the labeling `scope`, which has `k` parts.
pub open spec fn moved(
    m: Seq<Seq<int>>,
    start: Seq<usize>,
    scope: Seq<usize>,
    k: nat,
    seed: u64,
    cap: nat,
) -> Seq<usize> {
    rounds(m, start, scope, groups_of(scope, k), start_state(seed), cap)
}

/// 1 for the nodes other than `u`, in its part of `scope` and labeled `d`.
spec fn pull_indicator(labels: Seq<usize>, scope: Seq<usize>, u: int, d: int) -> spec_fn(int) -> int {
    |v: int| if v != u && scope[v] == scope[u] && labels[v] == d { 1int } else { 0int }
}

proof fn lemma_weight_toward_list(
    lists: Seq<Seq<(usize, u64)>>,
    labels: Seq<usize>,
    scope: Seq<usize>,
    u: int,
    d: int,
)
    requires
        0 <= u < lists.len(),
        entries_valid(lists[u], lists.len()),
    ensures
        weight_toward(matrix(lists), labels, scope, u, d) == list_sum(
            lists[u],
            pull_indicator(labels, scope, u, d),
        ),
{
    let n = lists.len();
    let f = pull_indicator(labels, scope, u, d);
    lemma_list_sum_by_target(lists[u], n, f);
    lemma_sum_ext(
        n,
        |v: int| weight_to(lists[u], v) * f(v),
        pull(matrix(lists), labels, scope, u, d),
    );
}

/// The weights between `u` and the communities that it can see.
fn weights_toward(
    graph: &WeightedGraph,
    labels: &Vec<usize>,
    scope: &Partition,
    u: usize,
) -> (entries: Vec<(usize, u64)>)
    requires
        graph.wf(),
        labels@.len() == scope@.len() == graph@.len(),
        u < graph@.len(),
    ensures
        ascending(entries@),
        forall|i: int|
            0 <= i < entries@.len() ==> (#[trigger] entries@[i]).1 == weight_toward(
                graph@,
                labels@,
                scope@,
                u as int,
                entries@[i].0 as int,
            ),
        forall|d: usize|
            !names(entries@, d) ==> #[trigger] weight_toward(
                graph@,
                labels@,
                scope@,
                u as int,
                d as int,
            ) == 0,
        forall|i: int|
            0 <= i < entries@.len() ==> labels@.contains((#[trigger] entries@[i]).0),
{
    let list = graph.neighbors(u);
    let part: usize = scope.community_of(u);
    proof {
        graph.lemma_wf();
        assert(entries_valid(graph.lists()[u as int], graph@.len()));
        lemma_degree_is_list_total(graph.lists(), u as int);
        lemma_degrees_below_total(graph@, u as int);
    }
    let mut seen: Vec<(usize, u64)> = Vec::new();
    let mut i: usize = 0;
    assert(list@.take(0) =~= Seq::empty());
    while i < list.len()
        invariant
            i <= list.len(),
            entries_valid(list@, graph@.len()),
            labels@.len() == scope@.len() == graph@.len(),
            u < graph@.len(),
            part == scope@[u as int],
            list_total(list@) <= MAX_TOTAL_WEIGHT,
            0 <= list_total(seen@) <= list_total(list@.take(i as int)),
            forall|d: int| #[trigger]
                weight_to(seen@, d) == list_sum(
                    list@.take(i as int),
                    pull_indicator(labels@, scope@, u as int, d),
                ),
            forall|j: int| 0 <= j < seen@.len() ==> labels@.contains((#[trigger] seen@[j]).0),
        decreases list.len() - i,
    {
        let (v, w) = list[i];
        let ghost before = seen@;
        let ghost front = list@.take(i as int);
        proof {
            assert(list@.take(i + 1) =~= front.push(list@[i as int]));
            lemma_list_total_push(front, list@[i as int]);
            lemma_list_total_prefix(list@, i + 1);
            lemma_list_total_push(before, (labels@[v as int], w));
        }
        if v != u && scope.community_of(v) == part {
            seen.push((labels[v], w));
        }
        proof {
            assert forall|d: int| #[trigger] weight_to(seen@, d) == list_sum(
                list@.take(i + 1),
                pull_indicator(labels@, scope@, u as int, d),
            ) by {
                let f = pull_indicator(labels@, scope@, u as int, d);
                lemma_list_sum_push_indicator(front, list@[i as int], f);
                lemma_weight_to_push(before, (labels@[v as int], w), d);
                assert(weight_to(before, d) == list_sum(front, f));
            }
        }
        i += 1;
    }
    assert(list@.take(i as int) =~= list@);
    let entries = tally(&seen);
    proof {
        assert forall|d: int| #[trigger] weight_to(seen@, d) == weight_toward(
            graph@,
            labels@,
            scope@,
            u as int,
            d,
        ) by {
            lemma_weight_toward_list(graph.lists(), labels@, scope@, u as int, d);
        }
        assert forall|d: usize| !names(entries@, d) implies #[trigger] weight_toward(
            graph@,
            labels@,
            scope@,
            u as int,
            d as int,
        ) == 0 by {
            assert(!names(seen@, d));
            lemma_weight_to_absent(seen@, d as int);
            assert(weight_to(seen@, d as int) == 0);
        }
        assert forall|j: int| 0 <= j < entries@.len() implies labels@.contains(
            (#[trigger] entries@[j]).0,
        ) by {
            assert(names(entries@, entries@[j].0));
            assert(names(seen@, entries@[j].0));
        }
    }
    entries
}

pub proof fn lemma_weight_toward_bounds(
    m: Seq<Seq<int>>,
    labels: Seq<usize>,
    scope: Seq<usize>,
    u: int,
    d: int,
)
    requires
        symmetric(m),
        0 <= u < m.len(),
    ensures
        0 <= weight_toward(m, labels, scope, u, d) <= degree_of(m, u),
{
    let f = pull(m, labels, scope, u, d);
    lemma_sum_nonneg(m.len(), f);
    lemma_sum_le(m.len(), f, |v: int| m[u][v]);
}

/// A community never has less volume than one of its members.
pub proof fn lemma_volume_without_bounds(m: Seq<Seq<int>>, labels: Seq<usize>, u: int, d: int)
    requires
        symmetric(m),
        0 <= u < m.len(),
    ensures
        0 <= volume_without(m, labels, u, d) <= twice_total(m),
{
    lemma_volume_below_total(m, labels, d);
    lemma_degree_nonneg(m, u);
    let f = within(labels, d, degrees(m));
    assert forall|x: int| 0 <= x < m.len() implies #[trigger] f(x) >= 0 by {
        lemma_degree_nonneg(m, x);
    }
    crate::sums::lemma_sum_term_le(m.len(), f, u);
}

/// Communities toward which a node has no weight never become its best.
proof fn lemma_best_skip(
    m: Seq<Seq<int>>,
    labels: Seq<usize>,
    scope: Seq<usize>,
    u: int,
    lo: nat,
    hi: nat,
)
    requires
        symmetric(m),
        0 <= u < m.len(),
        lo <= hi,
        forall|d: int| lo <= d < hi ==> #[trigger] weight_toward(m, labels, scope, u, d) == 0,
    ensures
        best_below(m, labels, scope, u, hi) == best_below(m, labels, scope, u, lo),
    decreases hi,
{
    if lo < hi {
        lemma_best_skip(m, labels, scope, u, lo, (hi - 1) as nat);
        let d = hi - 1;
        assert(weight_toward(m, labels, scope, u, d) == 0);
        lemma_volume_without_bounds(m, labels, u, d);
        lemma_degree_nonneg(m, u);
        lemma_best_nonneg(m, labels, scope, u, (hi - 1) as nat);
        let r = volume_without(m, labels, u, d);
        let k = degree_of(m, u);
        assert(0 * twice_total(m) == 0);
        assert(r * k >= 0) by (nonlinear_arith)
            requires
                r >= 0,
                k >= 0,
        ;
        lemma_tolerance_nonneg(m);
    }
}

pub proof fn lemma_tolerance_nonneg(m: Seq<Seq<int>>)
    ensures
        tolerance(m) >= 0,
{
    let t = twice_total(m);
    assert(t * t >= 0) by (nonlinear_arith);
}

pub proof fn lemma_best_nonneg(
    m: Seq<Seq<int>>,
    labels: Seq<usize>,
    scope: Seq<usize>,
    u: int,
    d: nat,
)
    ensures
        best_below(m, labels, scope, u, d).1 >= 0,
    decreases d,
{
    if d > 0 {
        lemma_best_nonneg(m, labels, scope, u, (d - 1) as nat);
        lemma_tolerance_nonneg(m);
    }
}

/// `used` lists the labels in use, ascending, and `volumes` the volumes of their
/// communities.
spec fn keeps_volumes(
    m: Seq<Seq<int>>,
    labels: Seq<usize>,
    used: Seq<usize>,
    volumes: Seq<u64>,
) -> bool {
    &&& increasing(used)
    &&& forall|i: int| 0 <= i < labels.len() ==> used.contains(#[trigger] labels[i])
    &&& volumes.len() == used.len()
    &&& forall|r: int|
        0 <= r < used.len() ==> #[trigger] volumes[r] == volume(m, labels, used[r] as int)
}

/// The place of a label in the list of labels.
fn rank(used: &Vec<usize>, label: usize) -> (r: usize)
    requires
        increasing(used@),
        used@.contains(label),
    ensures
        r < used@.len(),
        used@[r as int] == label,
{
    if label < used.len() && used[label] == label {
        return label;
    }
    let mut low: usize = 0;
    let mut high: usize = used.len();
    let ghost at = used@.index_of(label);
    assert(used@[at] == label);
    while low < high
        invariant
            increasing(used@),
            low <= at < high <= used@.len(),
            used@[at] == label,
        decreases high - low,
    {
        let mid: usize = low + (high - low) / 2;
        if used[mid] == label {
            return mid;
        }
        if used[mid] < label {
            low = mid + 1;
        } else {
            high = mid;
        }
    }
    low
}

/// The best community for node `u`.
fn best_community(
    graph: &WeightedGraph,
    labels: &Vec<usize>,
    used: &Vec<usize>,
    volumes: &Vec<u64>,
    scope: &Partition,
    u: usize,
) -> (best: usize)
    requires
        graph.wf(),
        labels@.len() == scope@.len() == graph@.len(),
        keeps_volumes(graph@, labels@, used@, volumes@),
        u < graph@.len(),
    ensures
        best == best_below(graph@, labels@, scope@, u as int, label_bound()).0,
        used@.contains(best),
{
    let ghost m = graph@;
    let n: usize = graph.node_count();
    let cu: usize = labels[u];
    let ku: u64 = graph.degree(u);
    let twice_m: u64 = graph.twice_total_weight();
    proof {
        graph.lemma_wf();
        lemma_degrees_below_total(m, u as int);
        assert(0 <= twice_m * twice_m <= 0x1000_0000_0000_0000 * 0x1000_0000_0000_0000)
            by (nonlinear_arith)
            requires
                0 <= twice_m <= 0x1000_0000_0000_0000,
        ;
    }
    let slack: i128 = (twice_m as i128 * twice_m as i128) / 2_000_000_000_000;
    let entries = weights_toward(graph, labels, scope, u);
    let mut best: usize = cu;
    let mut best_gain: i128 = 0;
    let mut i: usize = 0;
    let ghost mut hi: nat = 0;
    while i < entries.len()
        invariant
            i <= entries.len(),
            graph.wf(),
            m == graph@,
            symmetric(m),
            u < m.len() == n,
            labels@.len() == scope@.len() == m.len(),
            keeps_volumes(m, labels@, used@, volumes@),
            cu == labels@[u as int],
            ku == degree_of(m, u as int) <= twice_m,
            twice_m == twice_total(m) <= MAX_TOTAL_WEIGHT,
            slack == tolerance(m),
            0 <= slack <= 0x0100_0000_0000_0000_0000_0000_0000_0000,
            ascending(entries@),
            forall|j: int|
                0 <= j < entries@.len() ==> (#[trigger] entries@[j]).1 == weight_toward(
                    m,
                    labels@,
                    scope@,
                    u as int,
                    entries@[j].0 as int,
                ),
            forall|d: usize|
                !names(entries@, d) ==> #[trigger] weight_toward(
                    m,
                    labels@,
                    scope@,
                    u as int,
                    d as int,
                ) == 0,
            forall|j: int|
                0 <= j < entries@.len() ==> labels@.contains((#[trigger] entries@[j]).0),
            hi == (if i == 0 {
                0nat
            } else {
                (entries@[i - 1].0 + 1) as nat
            }),
            used@.contains(best),
            hi <= label_bound(),
            0 <= best_gain <= 0x0100_0000_0000_0000_0000_0000_0000_0000,
            (best, best_gain as int) == best_below(m, labels@, scope@, u as int, hi),
        decreases entries.len() - i,
    {
        let (d, w) = entries[i];
        proof {
            assert(labels@.contains(entries@[i as int].0));
            assert forall|x: int| hi <= x < d implies #[trigger] weight_toward(
                m,
                labels@,
                scope@,
                u as int,
                x,
            ) == 0 by {
                if names(entries@, x as usize) {
                    let j = choose|j: int|
                        0 <= j < entries@.len() && (#[trigger] entries@[j]).0 == x as usize;
                    if j < i {
                        assert(entries@[j].0 <= entries@[i - 1].0);
                    }
                    assert(false);
                }
                assert(weight_toward(m, labels@, scope@, u as int, (x as usize) as int) == 0);
            }
            if i > 0 {
                assert(entries@[i - 1].0 < entries@[i as int].0);
            }
            lemma_best_skip(m, labels@, scope@, u as int, hi, d as nat);
            lemma_volume_without_bounds(m, labels@, u as int, d as int);
            lemma_weight_toward_bounds(m, labels@, scope@, u as int, d as int);
            let i = labels@.index_of(d);
            assert(used@.contains(labels@[i]));
        }
        let r: usize = rank(used, d);
        assert(volumes@[r as int] == volume(m, labels@, d as int));
        let rest: u64 = if d == cu {
            volumes[r] - ku
        } else {
            volumes[r]
        };
        proof {
            assert(0 <= w * twice_m <= 0x1000_0000_0000_0000 * 0x1000_0000_0000_0000)
                by (nonlinear_arith)
                requires
                    0 <= w <= 0x1000_0000_0000_0000,
                    0 <= twice_m <= 0x1000_0000_0000_0000,
            ;
            assert(0 <= rest * ku <= 0x1000_0000_0000_0000 * 0x1000_0000_0000_0000)
                by (nonlinear_arith)
                requires
                    0 <= rest <= 0x1000_0000_0000_0000,
                    0 <= ku <= 0x1000_0000_0000_0000,
            ;
        }
        let g: i128 = w as i128 * twice_m as i128 - rest as i128 * ku as i128;
        assert(g == gain(m, labels@, scope@, u as int, d as int));
        if g > best_gain + slack {
            best = d;
            best_gain = g;
        }
        proof {
            hi = (d + 1) as nat;
        }
        i += 1;
    }
    proof {
        assert forall|x: int| hi <= x < label_bound() implies #[trigger] weight_toward(
            m,
            labels@,
            scope@,
            u as int,
            x,
        ) == 0 by {
            if names(entries@, x as usize) {
                let j = choose|j: int|
                    0 <= j < entries@.len() && (#[trigger] entries@[j]).0 == x as usize;
                assert(entries@[j].0 <= entries@[entries@.len() - 1].0);
                assert(false);
            }
            assert(weight_toward(m, labels@, scope@, u as int, (x as usize) as int) == 0);
        }
        lemma_best_skip(m, labels@, scope@, u as int, hi, label_bound());
    }
    best
}

/// Moving one node moves its degree from one volume to another.
pub proof fn lemma_volume_update(m: Seq<Seq<int>>, labels: Seq<usize>, u: int, c: usize, d: int)
    requires
        0 <= u < m.len() == labels.len(),
    ensures
        volume(m, labels.update(u, c), d) == volume_without(m, labels, u, d) + (if c == d {
            degree_of(m, u)
        } else {
            0
        }),
{
    let f = within(labels, d, degrees(m));
    let g = within(labels.update(u, c), d, degrees(m));
    lemma_sum_update(m.len(), f, g, u);
}

/// Lets the nodes of `order` settle one by one, and keeps the volumes up to date.
fn visit_all(
    graph: &WeightedGraph,
    labels: &mut Vec<usize>,
    used: &Vec<usize>,
    volumes: &mut Vec<u64>,
    scope: &Partition,
    order: &Vec<usize>,
)
    requires
        graph.wf(),
        old(labels)@.len() == scope@.len() == graph@.len(),
        labels_below(order@, graph@.len()),
        keeps_volumes(graph@, old(labels)@, used@, old(volumes)@),
    ensures
        final(labels)@ == visited(graph@, old(labels)@, scope@, order@, order@.len()),
        final(labels)@.len() == graph@.len(),
        keeps_volumes(graph@, final(labels)@, used@, final(volumes)@),
{
    let ghost m = graph@;
    let mut k: usize = 0;
    while k < order.len()
        invariant
            k <= order.len(),
            graph.wf(),
            m == graph@,
            labels@.len() == scope@.len() == m.len(),
            labels_below(order@, m.len()),
            keeps_volumes(m, labels@, used@, volumes@),
            labels@ == visited(m, old(labels)@, scope@, order@, k as nat),
        decreases order.len() - k,
    {
        let u: usize = order[k];
        let cu: usize = labels[u];
        let ku: u64 = graph.degree(u);
        let best: usize = best_community(graph, labels, used, volumes, scope, u);
        let ghost before = labels@;
        let ghost old_volumes = volumes@;
        proof {
            graph.lemma_wf();
            lemma_volume_without_bounds(m, before, u as int, cu as int);
            lemma_volume_without_bounds(m, before, u as int, best as int);
            lemma_degrees_below_total(m, u as int);
            assert(used@.contains(before[u as int]));
        }
        let from: usize = rank(used, cu);
        let to: usize = rank(used, best);
        assert(volumes@[from as int] == volume(m, before, cu as int));
        assert(volumes@[to as int] == volume(m, before, best as int));
        volumes.set(from, volumes[from] - ku);
        volumes.set(to, volumes[to] + ku);
        labels.set(u, best);
        proof {
            assert forall|r: int| 0 <= r < used@.len() implies #[trigger] volumes@[r] == volume(
                m,
                labels@,
                used@[r] as int,
            ) by {
                assert(old_volumes[r] == volume(m, before, used@[r] as int));
                lemma_volume_update(m, before, u as int, best, used@[r] as int);
            }
            assert forall|i: int| 0 <= i < labels@.len() implies used@.contains(
                #[trigger] labels@[i],
            ) by {
                assert(used@.contains(before[i]));
            }
        }
        k += 1;
    }
}

/// The volumes of the communities with the labels in `used`.
fn volumes_of(graph: &WeightedGraph, labels: &Vec<usize>, used: &Vec<usize>) -> (volumes: Vec<u64>)
    requires
        graph.wf(),
        labels@.len() == graph@.len(),
        increasing(used@),
        forall|i: int| 0 <= i < labels@.len() ==> used@.contains(#[trigger] labels@[i]),
    ensures
        keeps_volumes(graph@, labels@, used@, volumes@),
{
    let ghost m = graph@;
    let n: usize = graph.node_count();
    let k: usize = used.len();
    proof {
        graph.lemma_wf();
    }
    let mut volumes: Vec<u64> = Vec::new();
    let mut c: usize = 0;
    while c < k
        invariant
            c <= k,
            volumes@.len() == c,
            forall|x: int| 0 <= x < c ==> #[trigger] volumes@[x] == 0,
        decreases k - c,
    {
        volumes.push(0);
        c += 1;
    }
    let mut u: usize = 0;
    while u < n
        invariant
            u <= n,
            graph.wf(),
            m == graph@,
            symmetric(m),
            n == m.len() == labels@.len(),
            k == used@.len() == volumes@.len(),
            increasing(used@),
            forall|i: int| 0 <= i < labels@.len() ==> used@.contains(#[trigger] labels@[i]),
            twice_total(m) <= MAX_TOTAL_WEIGHT,
            forall|x: int|
                0 <= x < k ==> #[trigger] volumes@[x] == sum(
                    u as nat,
                    within(labels@, used@[x] as int, degrees(m)),
                ),
        decreases n - u,
    {
        let cu: usize = labels[u];
        let d: u64 = graph.degree(u);
        let ghost f = within(labels@, cu as int, degrees(m));
        proof {
            assert forall|x: int| 0 <= x < n implies #[trigger] f(x) >= 0 by {
                lemma_degree_nonneg(m, x);
            }
            crate::sums::lemma_sum_prefix_le((u + 1) as nat, n as nat, f);
            lemma_volume_below_total(m, labels@, cu as int);
            assert(used@.contains(labels@[u as int]));
        }
        let r: usize = rank(used, cu);
        let ghost before = volumes@;
        volumes.set(r, volumes[r] + d);
        proof {
            assert forall|x: int| 0 <= x < k implies #[trigger] volumes@[x] == sum(
                (u + 1) as nat,
                within(labels@, used@[x] as int, degrees(m)),
            ) by {
                assert(before[x] == sum(u as nat, within(labels@, used@[x] as int, degrees(m))));
            }
        }
        u += 1;
    }
    volumes
}

/// The order in which one round visits the nodes.
fn next_order(buckets: &Vec<Vec<usize>>, state: &mut u64, n: usize) -> (order: Vec<usize>)
    requires
        forall|c: int| 0 <= c < buckets@.len() ==> labels_below((#[trigger] buckets@[c])@, n as nat),
    ensures
        (order@, *final(state)) == round_order(
            Seq::new(buckets@.len(), |c: int| buckets@[c]@),
            buckets@.len(),
            *old(state),
        ),
        labels_below(order@, n as nat),
{
    let ghost groups = Seq::new(buckets@.len(), |c: int| buckets@[c]@);
    let mut order: Vec<usize> = Vec::new();
    let mut g: usize = 0;
    while g < buckets.len()
        invariant
            g <= buckets.len(),
            groups == Seq::new(buckets@.len(), |c: int| buckets@[c]@),
            forall|c: int|
                0 <= c < buckets@.len() ==> labels_below((#[trigger] buckets@[c])@, n as nat),
            (order@, *state) == round_order(groups, g as nat, *old(state)),
            labels_below(order@, n as nat),
        decreases buckets.len() - g,
    {
        if buckets[g].len() >= 2 {
            let ghost mid = *state;
            let ghost earlier = order@;
            let mut group = copy_labels(&buckets[g]);
            shuffle(&mut group, state);
            proof {
                assert(groups[g as int] == buckets@[g as int]@);
                assert(labels_below(buckets@[g as int]@, n as nat));
                lemma_shuffled_below(
                    groups[g as int],
                    (groups[g as int].len() - 1) as nat,
                    mid,
                    n as nat,
                );
            }
            let mut i: usize = 0;
            while i < group.len()
                invariant
                    i <= group.len(),
                    order@ == earlier + group@.take(i as int),
                decreases group.len() - i,
            {
                order.push(group[i]);
                assert(earlier + group@.take(i + 1) =~= (earlier + group@.take(i as int)).push(
                    group@[i as int],
                ));
                i += 1;
            }
            assert(group@.take(i as int) =~= group@);
        }
        g += 1;
    }
    order
}

/// Whether two lists of labels agree everywhere.
fn same_labels(a: &Vec<usize>, b: &Vec<usize>) -> (same: bool)
    requires
        a@.len() == b@.len(),
    ensures
        same == (a@ == b@),
{
    let mut i: usize = 0;
    while i < a.len()
        invariant
            i <= a.len(),
            a@.len() == b@.len(),
            forall|j: int| 0 <= j < i ==> a@[j] == b@[j],
        decreases a.len() - i,
    {
        if a[i] != b[i] {
            return false;
        }
        i += 1;
    }
    assert(a@ =~= b@);
    true
}

/// Moves nodes from the labels `start` for at most `cap` rounds. A node sees only
/// the neighbors in its own part of `scope`.
pub fn move_nodes(
    graph: &WeightedGraph,
    start: Vec<usize>,
    scope: &Partition,
    seed: u64,
    cap: usize,
) -> (labels: Vec<usize>)
    requires
        graph.wf(),
        scope.wf(),
        start@.len() == scope@.len() == graph@.len(),
    ensures
        labels@ == moved(graph@, start@, scope@, scope.count(), seed, cap as nat),
        labels@.len() == graph@.len(),
        forall|i: int| 0 <= i < labels@.len() ==> start@.contains(#[trigger] labels@[i]),
{
    let ghost m = graph@;
    let n: usize = graph.node_count();
    let buckets = scope.buckets();
    let ghost groups = groups_of(scope@, scope.count());
    proof {
        scope.lemma_wf();
        assert(groups =~= Seq::new(buckets@.len(), |c: int| buckets@[c]@));
        assert forall|c: int| 0 <= c < buckets@.len() implies labels_below(
            (#[trigger] buckets@[c])@,
            n as nat,
        ) by {
            lemma_members(scope@, c, scope@.len());
        }
    }
    let mut labels = start;
    let used = sorted_distinct(labels.as_slice());
    assert forall|i: int| 0 <= i < labels@.len() implies used@.contains(#[trigger] labels@[i]) by {
        assert(start@.contains(labels@[i]));
    }
    let mut volumes = volumes_of(graph, &labels, &used);
    let mut state: u64 = if seed == 0 {
        1
    } else {
        seed
    };
    let ghost goal = rounds(m, labels@, scope@, groups, state, cap as nat);
    let mut left: usize = cap;
    while left > 0
        invariant
            graph.wf(),
            m == graph@,
            n == m.len(),
            labels@.len() == scope@.len() == m.len(),
            keeps_volumes(m, labels@, used@, volumes@),
            forall|x: usize| used@.contains(x) <==> #[trigger] start@.contains(x),
            groups == Seq::new(buckets@.len(), |c: int| buckets@[c]@),
            forall|c: int|
                0 <= c < buckets@.len() ==> labels_below((#[trigger] buckets@[c])@, n as nat),
            goal == rounds(m, labels@, scope@, groups, state, left as nat),
            goal == moved(m, start@, scope@, scope.count(), seed, cap as nat),
        decreases left,
    {
        let before = copy_labels(&labels);
        let order = next_order(&buckets, &mut state, n);
        visit_all(graph, &mut labels, &used, &mut volumes, scope, &order);
        if same_labels(&before, &labels) {
            return labels;
        }
        left -= 1;
    }
    labels
}

/// Nodes with the same label are related by `rel`.
pub open spec fn respects(labels: Seq<usize>, rel: spec_fn(int, int) -> bool) -> bool {
    forall|i: int, j: int|
        0 <= i < labels.len() && 0 <= j < labels.len() && #[trigger] labels[i]
            == #[trigger] labels[j] ==> rel(i, j)
}

/// `rel` is an equivalence on the nodes below `n`.
pub open spec fn equivalence(n: nat, rel: spec_fn(int, int) -> bool) -> bool {
    &&& forall|i: int| 0 <= i < n ==> #[trigger] rel(i, i)
    &&& forall|i: int, j: int| 0 <= i < n && 0 <= j < n && #[trigger] rel(i, j) ==> rel(j, i)
    &&& forall|i: int, j: int, k: int|
        0 <= i < n && 0 <= j < n && 0 <= k < n && #[trigger] rel(i, j) && #[trigger] rel(j, k)
            ==> rel(i, k)
}

/// `rel` relates every two neighbors that see each other.
pub open spec fn relates_neighbors(
    m: Seq<Seq<int>>,
    scope: Seq<usize>,
    rel: spec_fn(int, int) -> bool,
) -> bool {
    forall|u: int, v: int|
        0 <= u < m.len() && 0 <= v < m.len() && scope[u] == scope[v] && #[trigger] m[u][v] > 0
            ==> rel(u, v)
}

/// A node that changes its community joins a neighbor that it sees.
pub proof fn lemma_best_is_near(
    m: Seq<Seq<int>>,
    labels: Seq<usize>,
    scope: Seq<usize>,
    u: int,
    d: nat,
) -> (v: int)
    requires
        symmetric(m),
        0 <= u < m.len(),
        d <= label_bound(),
    ensures
        best_below(m, labels, scope, u, d).0 != labels[u] ==> 0 <= v < m.len() && v != u
            && scope[v] == scope[u] && m[u][v] > 0 && labels[v] == best_below(
            m,
            labels,
            scope,
            u,
            d,
        ).0,
    decreases d,
{
    if d == 0 {
        0
    } else {
        let best = best_below(m, labels, scope, u, (d - 1) as nat);
        let g = gain(m, labels, scope, u, d - 1);
        if g > best.1 + tolerance(m) {
            lemma_best_nonneg(m, labels, scope, u, (d - 1) as nat);
            lemma_tolerance_nonneg(m);
            lemma_volume_without_bounds(m, labels, u, d - 1);
            lemma_degree_nonneg(m, u);
            lemma_weight_toward_bounds(m, labels, scope, u, d - 1);
            let w = weight_toward(m, labels, scope, u, d - 1);
            let r = volume_without(m, labels, u, d - 1);
            let k = degree_of(m, u);
            let t = twice_total(m);
            assert(r * k >= 0) by (nonlinear_arith)
                requires
                    r >= 0,
                    k >= 0,
            ;
            assert(w != 0) by {
                assert(0 * t == 0);
            }
            crate::sums::lemma_sum_positive_term(m.len(), pull(m, labels, scope, u, d - 1))
        } else {
            lemma_best_is_near(m, labels, scope, u, (d - 1) as nat)
        }
    }
}

proof fn lemma_settled_respects(
    m: Seq<Seq<int>>,
    labels: Seq<usize>,
    scope: Seq<usize>,
    u: int,
    rel: spec_fn(int, int) -> bool,
)
    requires
        symmetric(m),
        labels.len() == scope.len() == m.len() <= usize::MAX,
        0 <= u < m.len(),
        equivalence(m.len(), rel),
        relates_neighbors(m, scope, rel),
        respects(labels, rel),
    ensures
        respects(settled(m, labels, scope, u), rel),
{
    let v = lemma_best_is_near(m, labels, scope, u, label_bound());
    let after = settled(m, labels, scope, u);
    let c = after[u];
    assert forall|i: int, j: int|
        0 <= i < after.len() && 0 <= j < after.len() && #[trigger] after[i]
            == #[trigger] after[j] implies rel(i, j) by {
        if i == j {
        } else if c == labels[u] {
            assert(after =~= labels);
        } else {
            assert(m[u][v] > 0 && rel(u, v));
            if i == u {
                assert(labels[v] == labels[j]);
                assert(rel(v, j));
            } else if j == u {
                assert(labels[i] == labels[v]);
                assert(rel(i, v));
                assert(rel(v, u));
            } else {
                assert(labels[i] == labels[j]);
            }
        }
    }
}

proof fn lemma_visited_respects(
    m: Seq<Seq<int>>,
    labels: Seq<usize>,
    scope: Seq<usize>,
    order: Seq<usize>,
    k: nat,
    rel: spec_fn(int, int) -> bool,
)
    requires
        symmetric(m),
        labels.len() == scope.len() == m.len() <= usize::MAX,
        k <= order.len(),
        labels_below(order, m.len()),
        equivalence(m.len(), rel),
        relates_neighbors(m, scope, rel),
        respects(labels, rel),
    ensures
        visited(m, labels, scope, order, k).len() == labels.len(),
        respects(visited(m, labels, scope, order, k), rel),
    decreases k,
{
    if k > 0 {
        lemma_visited_respects(m, labels, scope, order, (k - 1) as nat, rel);
        lemma_settled_respects(
            m,
            visited(m, labels, scope, order, (k - 1) as nat),
            scope,
            order[k - 1] as int,
            rel,
        );
    }
}

/// The visiting order names nodes only.
pub proof fn lemma_round_order_below(groups: Seq<Seq<usize>>, g: nat, state: u64, n: nat)
    requires
        g <= groups.len(),
        forall|c: int| 0 <= c < groups.len() ==> labels_below(#[trigger] groups[c], n),
    ensures
        labels_below(round_order(groups, g, state).0, n),
    decreases g,
{
    if g > 0 {
        lemma_round_order_below(groups, (g - 1) as nat, state, n);
        let mid = round_order(groups, (g - 1) as nat, state).1;
        let group = groups[g - 1];
        if group.len() >= 2 {
            assert(labels_below(group, n));
            lemma_shuffled_below(group, (group.len() - 1) as nat, mid, n);
        }
    }
}

proof fn lemma_rounds_respect(
    m: Seq<Seq<int>>,
    labels: Seq<usize>,
    scope: Seq<usize>,
    groups: Seq<Seq<usize>>,
    state: u64,
    left: nat,
    rel: spec_fn(int, int) -> bool,
)
    requires
        symmetric(m),
        labels.len() == scope.len() == m.len() <= usize::MAX,
        forall|c: int| 0 <= c < groups.len() ==> labels_below(#[trigger] groups[c], m.len()),
        equivalence(m.len(), rel),
        relates_neighbors(m, scope, rel),
        respects(labels, rel),
    ensures
        rounds(m, labels, scope, groups, state, left).len() == labels.len(),
        respects(rounds(m, labels, scope, groups, state, left), rel),
    decreases left,
{
    if left > 0 {
        lemma_round_order_below(groups, groups.len(), state, m.len());
        let (order, next) = round_order(groups, groups.len(), state);
        lemma_visited_respects(m, labels, scope, order, order.len(), rel);
        let after = visited(m, labels, scope, order, order.len());
        if after != labels {
            lemma_rounds_respect(m, after, scope, groups, next, (left - 1) as nat, rel);
        }
    }
}

/// Local moving keeps every equivalence that relates neighbors: nodes that it puts
/// together are related, if those that start together are.
pub proof fn law_moved_respects(
    m: Seq<Seq<int>>,
    start: Seq<usize>,
    scope: Seq<usize>,
    k: nat,
    seed: u64,
    cap: nat,
    rel: spec_fn(int, int) -> bool,
)
    requires
        symmetric(m),
        start.len() == scope.len() == m.len() <= usize::MAX,
        equivalence(m.len(), rel),
        relates_neighbors(m, scope, rel),
        respects(start, rel),
    ensures
        moved(m, start, scope, k, seed, cap).len() == m.len(),
        respects(moved(m, start, scope, k, seed, cap), rel),
{
    let groups = groups_of(scope, k);
    assert forall|c: int| 0 <= c < groups.len() implies labels_below(
        #[trigger] groups[c],
        m.len(),
    ) by {
        lemma_members(scope, c, scope.len());
    }
    lemma_rounds_respect(
        m,
        start,
        scope,
        groups,
        start_state(seed),
        cap,
        rel,
    );
}

/// Every label of `labels` occurs in `start`.
pub open spec fn occur_in(labels: Seq<usize>, start: Seq<usize>) -> bool {
    forall|i: int| 0 <= i < labels.len() ==> start.contains(#[trigger] labels[i])
}

proof fn lemma_visited_occur(
    m: Seq<Seq<int>>,
    labels: Seq<usize>,
    scope: Seq<usize>,
    order: Seq<usize>,
    k: nat,
    start: Seq<usize>,
)
    requires
        symmetric(m),
        labels.len() == m.len(),
        k <= order.len(),
        labels_below(order, m.len()),
        occur_in(labels, start),
    ensures
        visited(m, labels, scope, order, k).len() == m.len(),
        occur_in(visited(m, labels, scope, order, k), start),
    decreases k,
{
    if k > 0 {
        lemma_visited_occur(m, labels, scope, order, (k - 1) as nat, start);
        let before = visited(m, labels, scope, order, (k - 1) as nat);
        let u = order[k - 1] as int;
        assert(order[k - 1] < m.len());
        let v = lemma_best_is_near(m, before, scope, u, label_bound());
        let after = settled(m, before, scope, u);
        assert forall|i: int| 0 <= i < after.len() implies start.contains(#[trigger] after[i]) by {
            assert(start.contains(before[i]));
            if i == u && after[u] != before[u] {
                assert(start.contains(before[v]));
            }
        }
    }
}

proof fn lemma_rounds_occur(
    m: Seq<Seq<int>>,
    labels: Seq<usize>,
    scope: Seq<usize>,
    groups: Seq<Seq<usize>>,
    state: u64,
    left: nat,
    start: Seq<usize>,
)
    requires
        symmetric(m),
        labels.len() == m.len(),
        forall|c: int| 0 <= c < groups.len() ==> labels_below(#[trigger] groups[c], m.len()),
        occur_in(labels, start),
    ensures
        occur_in(rounds(m, labels, scope, groups, state, left), start),
    decreases left,
{
    if left > 0 {
        lemma_round_order_below(groups, groups.len(), state, m.len());
        let (order, next) = round_order(groups, groups.len(), state);
        lemma_visited_occur(m, labels, scope, order, order.len(), start);
        let after = visited(m, labels, scope, order, order.len());
        if after != labels {
            lemma_rounds_occur(m, after, scope, groups, next, (left - 1) as nat, start);
        }
    }
}

/// Moving nodes makes no community: every label that comes out went in.
pub proof fn law_moved_labels_occur(
    m: Seq<Seq<int>>,
    start: Seq<usize>,
    scope: Seq<usize>,
    k: nat,
    seed: u64,
    cap: nat,
)
    requires
        symmetric(m),
        start.len() == scope.len() == m.len() <= usize::MAX,
    ensures
        occur_in(moved(m, start, scope, k, seed, cap), start),
{
    let groups = groups_of(scope, k);
    assert forall|c: int| 0 <= c < groups.len() implies labels_below(
        #[trigger] groups[c],
        m.len(),
    ) by {
        lemma_members(scope, c, scope.len());
    }
    lemma_rounds_occur(m, start, scope, groups, start_state(seed), cap, start);
}

/// Without any weight no community is better than another.
proof fn lemma_best_without_edges(
    m: Seq<Seq<int>>,
    labels: Seq<usize>,
    scope: Seq<usize>,
    u: int,
    d: nat,
)
    requires
        symmetric(m),
        twice_total(m) == 0,
        0 <= u < m.len(),
    ensures
        best_below(m, labels, scope, u, d) == (labels[u], 0int),
    decreases d,
{
    if d > 0 {
        lemma_best_without_edges(m, labels, scope, u, (d - 1) as nat);
        lemma_degrees_below_total(m, u);
        lemma_degree_nonneg(m, u);
        lemma_tolerance_nonneg(m);
        let w = weight_toward(m, labels, scope, u, d - 1);
        let r = volume_without(m, labels, u, d - 1);
        assert(w * 0 == 0 && r * 0 == 0);
    } else {
        assert(best_below(m, labels, scope, u, 0) == (labels[u], 0int));
    }
}

proof fn lemma_visited_without_edges(
    m: Seq<Seq<int>>,
    labels: Seq<usize>,
    scope: Seq<usize>,
    order: Seq<usize>,
    k: nat,
)
    requires
        symmetric(m),
        twice_total(m) == 0,
        labels.len() == m.len(),
        k <= order.len(),
        labels_below(order, m.len()),
    ensures
        visited(m, labels, scope, order, k) == labels,
    decreases k,
{
    if k > 0 {
        lemma_visited_without_edges(m, labels, scope, order, (k - 1) as nat);
        assert(order[k - 1] < m.len());
        lemma_best_without_edges(m, labels, scope, order[k - 1] as int, label_bound());
        assert(settled(m, labels, scope, order[k - 1] as int) =~= labels);
    }
}

/// In a graph without weight no node moves.
pub proof fn law_moved_without_edges(
    m: Seq<Seq<int>>,
    start: Seq<usize>,
    scope: Seq<usize>,
    k: nat,
    seed: u64,
    cap: nat,
)
    requires
        symmetric(m),
        twice_total(m) == 0,
        start.len() == scope.len() == m.len() <= usize::MAX,
    ensures
        moved(m, start, scope, k, seed, cap) == start,
{
    let groups = groups_of(scope, k);
    assert forall|c: int| 0 <= c < groups.len() implies labels_below(
        #[trigger] groups[c],
        m.len(),
    ) by {
        lemma_members(scope, c, scope.len());
    }
    if cap > 0 {
        lemma_round_order_below(groups, groups.len(), start_state(seed), m.len());
        let order = round_order(groups, groups.len(), start_state(seed)).0;
        lemma_visited_without_edges(m, start, scope, order, order.len());
    }
}

} // verus!
