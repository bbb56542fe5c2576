//! Hubs: the pivotal nodes of a graph.
//!
//! A [`HubSet`] marks nodes by number. Hubs are chosen as a top fraction of the
//! nodes by degree, as a top fraction by another score such as centrality, as both of
//! these together, or by a degree that they must reach.
use crate::graph::Graph;
use crate::sort::{distinct_keys, lemma_sorted_items, precedes, sort_items};
use crate::weighted::degree_of;
use vstd::prelude::*;

verus! {

/// An exact fraction of the nodes.
#[derive(Debug, Clone, Copy, PartialEq, Eq, Structural)]
pub struct Fraction {
    pub numerator: u64,
    pub denominator: u64,
}

/// How many of `n` nodes a fraction selects: rounded up, and never more than all.
pub open spec fn cut_count(n: nat, fraction: Fraction) -> nat {
    let exact = (n * fraction.numerator as nat + fraction.denominator as nat - 1)
        / fraction.denominator as int;
    if exact < n {
        exact as nat
    } else {
        n
    }
}

/// Node `i` ranks above node `j`: it has the higher score, or the same score and
/// the lower number.
pub open spec fn ranks_above(scores: Seq<u64>, i: int, j: int) -> bool {
    scores[i] > scores[j] || (scores[i] == scores[j] && i < j)
}

/// The numbers increase strictly.
pub open spec fn increasing(s: Seq<usize>) -> bool {
    forall|i: int, j: int| 0 <= i < j < s.len() ==> s[i] < s[j]
}

/// `chosen` holds `k` nodes, and each of them ranks above each node left out.
pub open spec fn are_top(chosen: Seq<usize>, scores: Seq<u64>, k: nat) -> bool {
    &&& chosen.len() == k
    &&& forall|i: int| 0 <= i < chosen.len() ==> (#[trigger] chosen[i]) < scores.len()
    &&& forall|i: int, j: int|
        0 <= i < chosen.len() && 0 <= j < scores.len() && !chosen.contains(j as usize)
            ==> #[trigger] ranks_above(scores, chosen[i] as int, j)
}

/// `chosen` holds the `k` nodes of the highest degree.
pub open spec fn are_top_by_degree(chosen: Seq<usize>, weights: Seq<Seq<int>>, k: nat) -> bool {
    exists|degrees: Seq<u64>|
        {
            &&& degrees.len() == weights.len()
            &&& forall|i: int|
                0 <= i < degrees.len() ==> #[trigger] degrees[i] == degree_of(weights, i)
            &&& are_top(chosen, degrees, k)
        }
}

/// `hubs` holds the nodes of a top fraction by degree and those of a top fraction by
/// centrality, ascending, and no others.
pub open spec fn are_top_by_both(
    hubs: Seq<usize>,
    weights: Seq<Seq<int>>,
    centrality: Seq<u64>,
    fraction: Fraction,
) -> bool {
    &&& increasing(hubs)
    &&& exists|by_degree: Seq<usize>, by_centrality: Seq<usize>|
        {
            &&& #[trigger] are_top_by_degree(
                by_degree,
                weights,
                cut_count(weights.len(), fraction),
            )
            &&& #[trigger] are_top(
                by_centrality,
                centrality,
                cut_count(centrality.len(), fraction),
            )
            &&& forall|x: usize| #[trigger]
                hubs.contains(x) <==> by_degree.contains(x) || by_centrality.contains(x)
        }
}

/// A set of nodes marked as hubs.
#[derive(Debug, PartialEq, Eq)]
pub struct HubSet {
    hubs: Vec<usize>,
}

impl View for HubSet {
    type V = Seq<usize>;

    /// The hubs in ascending order.
    closed spec fn view(&self) -> Seq<usize> {
        self.hubs@
    }
}

impl Default for HubSet {
    fn default() -> (hubs: Self)
        ensures
            hubs@ == Seq::<usize>::empty(),
    {
        HubSet { hubs: Vec::new() }
    }
}

impl Clone for HubSet {
    fn clone(&self) -> (copy: Self)
        ensures
            copy@ == self@,
    {
        HubSet { hubs: crate::partition::copy_labels(&self.hubs) }
    }
}

/// Sorts numbers and drops repetitions.
pub fn sorted_distinct(values: &[usize]) -> (sorted: Vec<usize>)
    ensures
        increasing(sorted@),
        forall|x: usize| sorted@.contains(x) <==> #[trigger] values@.contains(x),
{
    let mut keys: Vec<u128> = Vec::new();
    let mut i: usize = 0;
    while i < values.len()
        invariant
            i <= values.len(),
            keys@ == Seq::new(i as nat, |j: int| values@[j] as u128),
        decreases values.len() - i,
    {
        keys.push(values[i] as u128);
        assert(keys@ =~= Seq::new((i + 1) as nat, |j: int| values@[j] as u128));
        i += 1;
    }
    let distinct = distinct_keys(&keys);
    proof {
        assert forall|j: int| 0 <= j < distinct@.len() implies (#[trigger] distinct@[j])
            <= usize::MAX by {
            assert(distinct@.contains(distinct@[j]));
            assert(keys@.contains(distinct@[j]));
        }
    }
    let mut sorted: Vec<usize> = Vec::new();
    let mut k: usize = 0;
    while k < distinct.len()
        invariant
            k <= distinct.len(),
            forall|j: int| 0 <= j < distinct@.len() ==> (#[trigger] distinct@[j]) <= usize::MAX,
            sorted@ == Seq::new(k as nat, |j: int| distinct@[j] as usize),
        decreases distinct.len() - k,
    {
        sorted.push(distinct[k] as usize);
        assert(sorted@ =~= Seq::new((k + 1) as nat, |j: int| distinct@[j] as usize));
        k += 1;
    }
    proof {
        assert forall|i: int, j: int| 0 <= i < j < sorted@.len() implies sorted@[i]
            < sorted@[j] by {
            assert(distinct@[i] < distinct@[j]);
        }
        assert forall|x: usize| sorted@.contains(x) <==> #[trigger] values@.contains(x) by {
            let y = x as u128;
            assert(distinct@.contains(y) <==> keys@.contains(y));
            if values@.contains(x) {
                let j = choose|j: int| 0 <= j < values@.len() && values@[j] == x;
                assert(keys@[j] == y);
                let h = choose|h: int| 0 <= h < distinct@.len() && distinct@[h] == y;
                assert(sorted@[h] == x);
            }
            if sorted@.contains(x) {
                let h = choose|h: int| 0 <= h < sorted@.len() && sorted@[h] == x;
                assert(distinct@[h] == y);
                let j = choose|j: int| 0 <= j < keys@.len() && keys@[j] == y;
                assert(values@[j] == x);
            }
        }
    }
    sorted
}

/// The `k` highest-ranking nodes, in the order of their numbers.
pub fn top_ranked(scores: &Vec<u64>, k: usize) -> (chosen: Vec<usize>)
    requires
        k <= scores@.len(),
    ensures
        increasing(chosen@),
        are_top(chosen@, scores@, k as nat),
{
    let n: usize = scores.len();
    let mut items: Vec<(u128, usize)> = Vec::new();
    let mut i: usize = 0;
    while i < n
        invariant
            i <= n == scores@.len(),
            items@ == Seq::new(i as nat, |j: int| ((u64::MAX - scores@[j]) as u128, j as usize)),
        decreases n - i,
    {
        items.push(((u64::MAX - scores[i]) as u128, i));
        assert(items@ =~= Seq::new(
            (i + 1) as nat,
            |j: int| ((u64::MAX - scores@[j]) as u128, j as usize),
        ));
        i += 1;
    }
    let ghost given = items@;
    let items = sort_items(items);
    let ghost sorted = items@;
    proof {
        assert(given.no_duplicates());
        lemma_sorted_items(given, sorted);
        assert forall|p: int| 0 <= p < n implies (#[trigger] sorted[p]).1 < n && sorted[p].0
            == u64::MAX - scores@[sorted[p].1 as int] by {
            assert(sorted.contains(sorted[p]));
            assert(given.contains(sorted[p]));
        }
    }
    let mut winners: Vec<usize> = Vec::new();
    let mut p: usize = 0;
    while p < k
        invariant
            p <= k <= n == items@.len(),
            winners@ == Seq::new(p as nat, |j: int| items@[j].1),
        decreases k - p,
    {
        winners.push(items[p].1);
        assert(winners@ =~= Seq::new((p + 1) as nat, |j: int| items@[j].1));
        p += 1;
    }
    let chosen = sorted_distinct(winners.as_slice());
    proof {
        assert forall|a: int, b: int|
            0 <= a < winners@.len() && 0 <= b < winners@.len() && a != b implies winners@[a]
            != winners@[b] by {
            assert(sorted[a] != sorted[b]);
        }
        lemma_same_members(chosen@, winners@);
        assert forall|c: int, j: int|
            0 <= c < chosen@.len() && 0 <= j < n && !chosen@.contains(
                j as usize,
            ) implies #[trigger] ranks_above(scores@, chosen@[c] as int, j) by {
            assert(chosen@.contains(chosen@[c]));
            assert(winners@.contains(chosen@[c]));
            let a = choose|a: int| 0 <= a < winners@.len() && winners@[a] == chosen@[c];
            assert(given[j] == ((u64::MAX - scores@[j]) as u128, j as usize));
            assert(given.contains(given[j]));
            assert(sorted.contains(given[j]));
            let b = choose|b: int| 0 <= b < sorted.len() && sorted[b] == given[j];
            if b < k {
                assert(winners@[b] == j as usize);
                assert(winners@.contains(j as usize));
            }
            assert(precedes(sorted[a], sorted[b]));
            assert(sorted[a].0 == u64::MAX - scores@[sorted[a].1 as int]);
        }
        assert forall|c: int| 0 <= c < chosen@.len() implies (#[trigger] chosen@[c]) < n by {
            assert(chosen@.contains(chosen@[c]));
            assert(winners@.contains(chosen@[c]));
            let a = choose|a: int| 0 <= a < winners@.len() && winners@[a] == chosen@[c];
            assert(sorted[a].1 < n);
        }
    }
    chosen
}

/// Two lists of distinct numbers with the same members have the same length.
pub proof fn lemma_same_members(a: Seq<usize>, b: Seq<usize>)
    requires
        increasing(a),
        b.no_duplicates(),
        forall|x: usize| a.contains(x) <==> #[trigger] b.contains(x),
    ensures
        a.len() == b.len(),
{
    assert(a.no_duplicates());
    a.unique_seq_to_set();
    b.unique_seq_to_set();
    assert(a.to_set() =~= b.to_set()) by {
        assert forall|x: usize| a.to_set().contains(x) <==> b.to_set().contains(x) by {
            assert(a.contains(x) <==> b.contains(x));
        }
    }
}

impl HubSet {
    /// The hubs are distinct and in ascending order.
    pub open spec fn wf(&self) -> bool {
        increasing(self@)
    }

    /// No hubs.
    pub fn empty() -> (hubs: Self)
        ensures
            hubs.wf(),
            hubs@ == Seq::<usize>::empty(),
    {
        HubSet { hubs: Vec::new() }
    }

    /// The given nodes as hubs; repetitions count once.
    pub fn from_indices(indices: &[usize]) -> (hubs: Self)
        ensures
            hubs.wf(),
            forall|x: usize| hubs@.contains(x) <==> #[trigger] indices@.contains(x),
    {
        HubSet { hubs: sorted_distinct(indices) }
    }

    /// The top fraction of the nodes by degree. The count is rounded up, and of
    /// nodes with the same degree the lower numbers come first.
    pub fn from_top_fraction(graph: &Graph, fraction: Fraction) -> (hubs: Self)
        requires
            graph.wf(),
            fraction.denominator > 0,
        ensures
            hubs.wf(),
            are_top_by_degree(
                hubs@,
                graph.weights(),
                cut_count(graph.weights().len(), fraction),
            ),
    {
        proof {
            graph.lemma_wf();
        }
        let n: usize = graph.node_count();
        let mut degrees: Vec<u64> = Vec::new();
        let mut i: usize = 0;
        while i < n
            invariant
                i <= n == graph.ids().len(),
                graph.wf(),
                degrees@.len() == i,
                forall|j: int|
                    0 <= j < i ==> #[trigger] degrees@[j] == degree_of(graph.weights(), j),
            decreases n - i,
        {
            degrees.push(graph.degree(i));
            i += 1;
        }
        Self::from_scores(&degrees, fraction)
    }

    /// The top fraction of the nodes of a graph by centrality, given the centrality
    /// of each node as an integer that orders the nodes as their centrality does. The
    /// count is rounded up, and of nodes with the same score the lower numbers come
    /// first.
    pub fn from_centrality(graph: &Graph, scores: &Vec<u64>, fraction: Fraction) -> (hubs: Self)
        requires
            graph.wf(),
            scores@.len() == graph.ids().len(),
            fraction.denominator > 0,
        ensures
            hubs.wf(),
            are_top(hubs@, scores@, cut_count(graph.ids().len(), fraction)),
    {
        Self::from_scores(scores, fraction)
    }

    /// The top fraction of the nodes by degree together with the top fraction by
    /// centrality, which is given as an integer for each node that orders the nodes as
    /// their centrality does.
    pub fn from_degree_and_centrality(
        graph: &Graph,
        centrality: &Vec<u64>,
        fraction: Fraction,
    ) -> (hubs: Self)
        requires
            graph.wf(),
            centrality@.len() == graph.ids().len(),
            fraction.denominator > 0,
        ensures
            hubs.wf(),
            are_top_by_both(hubs@, graph.weights(), centrality@, fraction),
            forall|i: int| 0 <= i < hubs@.len() ==> (#[trigger] hubs@[i]) < graph.ids().len(),
    {
        let by_degree = Self::from_top_fraction(graph, fraction);
        let by_centrality = Self::from_centrality(graph, centrality, fraction);
        let mut both = by_degree.iter();
        let mut more = by_centrality.iter();
        both.append(&mut more);
        let hubs = Self::from_indices(both.as_slice());
        proof {
            graph.lemma_wf();
            let a = by_degree@;
            let b = by_centrality@;
            assert(both@ =~= a + b);
            assert forall|x: usize| #[trigger] hubs@.contains(x) <==> a.contains(x) || b.contains(
                x,
            ) by {
                assert(hubs@.contains(x) <==> both@.contains(x));
                if a.contains(x) {
                    let i = choose|i: int| 0 <= i < a.len() && a[i] == x;
                    assert(both@[i] == x);
                }
                if b.contains(x) {
                    let i = choose|i: int| 0 <= i < b.len() && b[i] == x;
                    assert(both@[a.len() + i] == x);
                }
                if both@.contains(x) {
                    let i = choose|i: int| 0 <= i < both@.len() && both@[i] == x;
                    if i < a.len() {
                        assert(a[i] == x);
                    } else {
                        assert(b[i - a.len()] == x);
                    }
                }
            }
            assert forall|i: int| 0 <= i < hubs@.len() implies (#[trigger] hubs@[i])
                < graph.ids().len() by {
                assert(hubs@.contains(hubs@[i]));
                if a.contains(hubs@[i]) {
                    let j = choose|j: int| 0 <= j < a.len() && a[j] == hubs@[i];
                    assert(a[j] < graph.ids().len());
                } else {
                    let j = choose|j: int| 0 <= j < b.len() && b[j] == hubs@[i];
                    assert(b[j] < graph.ids().len());
                }
            }
        }
        hubs
    }

    /// The top fraction of the nodes by a score.
    fn from_scores(scores: &Vec<u64>, fraction: Fraction) -> (hubs: Self)
        requires
            fraction.denominator > 0,
        ensures
            hubs.wf(),
            are_top(hubs@, scores@, cut_count(scores@.len(), fraction)),
    {
        let k: usize = cut(scores.len(), fraction);
        HubSet { hubs: top_ranked(scores, k) }
    }

    /// Every node with at least the given degree.
    pub fn from_degree_threshold(graph: &Graph, min_degree: u64) -> (hubs: Self)
        requires
            graph.wf(),
        ensures
            hubs.wf(),
            forall|x: usize|
                hubs@.contains(x) <==> x < graph.ids().len() && #[trigger] degree_of(
                    graph.weights(),
                    x as int,
                ) >= min_degree,
    {
        let n: usize = graph.node_count();
        let mut hubs: Vec<usize> = Vec::new();
        let mut i: usize = 0;
        while i < n
            invariant
                i <= n == graph.ids().len(),
                graph.wf(),
                increasing(hubs@),
                forall|j: int| 0 <= j < hubs@.len() ==> (#[trigger] hubs@[j]) < i,
                forall|x: usize|
                    hubs@.contains(x) <==> x < i && #[trigger] degree_of(
                        graph.weights(),
                        x as int,
                    ) >= min_degree,
            decreases n - i,
        {
            let ghost before = hubs@;
            if graph.degree(i) >= min_degree {
                hubs.push(i);
                assert(hubs@[before.len() as int] == i);
            }
            proof {
                assert forall|x: usize|
                    hubs@.contains(x) <==> x < i + 1 && #[trigger] degree_of(
                        graph.weights(),
                        x as int,
                    ) >= min_degree by {
                    if before.contains(x) {
                        let j = choose|j: int| 0 <= j < before.len() && before[j] == x;
                        assert(hubs@[j] == x);
                    }
                    if hubs@.contains(x) && x != i {
                        let j = choose|j: int| 0 <= j < hubs@.len() && hubs@[j] == x;
                        assert(before[j] == x);
                    }
                    if x == i && hubs@.contains(x) {
                        let j = choose|j: int| 0 <= j < hubs@.len() && hubs@[j] == x;
                        if j < before.len() {
                            assert(before[j] < i);
                        }
                    }
                }
            }
            i += 1;
        }
        HubSet { hubs }
    }

    /// Whether a node is a hub.
    pub fn contains(&self, node_idx: usize) -> (r: bool)
        requires
            self.wf(),
        ensures
            r == self@.contains(node_idx),
    {
        let mut lo: usize = 0;
        let mut hi: usize = self.hubs.len();
        while lo < hi
            invariant
                lo <= hi <= self.hubs@.len(),
                increasing(self.hubs@),
                forall|i: int| 0 <= i < lo ==> self.hubs@[i] < node_idx,
                forall|i: int| hi <= i < self.hubs@.len() ==> self.hubs@[i] > node_idx,
            decreases hi - lo,
        {
            let mid: usize = lo + (hi - lo) / 2;
            let x: usize = self.hubs[mid];
            if x == node_idx {
                assert(self.hubs@[mid as int] == node_idx);
                return true;
            } else if x < node_idx {
                lo = mid + 1;
            } else {
                hi = mid;
            }
        }
        false
    }

    /// The number of hubs.
    pub fn len(&self) -> (n: usize)
        ensures
            n == self@.len(),
    {
        self.hubs.len()
    }

    /// Whether there are no hubs.
    pub fn is_empty(&self) -> (r: bool)
        ensures
            r == (self@.len() == 0),
    {
        self.hubs.len() == 0
    }

    /// The hubs in ascending order.
    pub fn iter(&self) -> (hubs: Vec<usize>)
        ensures
            hubs@ == self@,
    {
        crate::partition::copy_labels(&self.hubs)
    }
}

/// How many of `n` nodes a fraction selects.
fn cut(n: usize, fraction: Fraction) -> (k: usize)
    requires
        fraction.denominator > 0,
    ensures
        k == cut_count(n as nat, fraction),
        k <= n,
{
    let num: u128 = fraction.numerator as u128;
    let den: u128 = fraction.denominator as u128;
    proof {
        let a = n as int;
        let b = num as int;
        assert(0 <= a * b <= 0xffff_ffff_ffff_ffff * 0xffff_ffff_ffff_ffff) by (nonlinear_arith)
            requires
                0 <= a <= 0xffff_ffff_ffff_ffff,
                0 <= b <= 0xffff_ffff_ffff_ffff,
        ;
    }
    let exact: u128 = (n as u128 * num + (den - 1)) / den;
    if exact < n as u128 {
        exact as usize
    } else {
        n
    }
}

} // verus!
