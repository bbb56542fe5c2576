//! Weighted undirected graphs, seen as symmetric matrices of integer weights.
//!
//! A graph on `n` nodes is modelled by an `n` by `n` matrix: the entry at `u`
//! and `v` is the total weight of the edges between them. A self-loop stands once
//! on the diagonal, so it counts once in the degree of its node.
use crate::sums::{
    lemma_list_sum_by_target, lemma_sum_ext, lemma_sum_nonneg,
    lemma_sum_prefix_le, lemma_weight_to_nonneg, lemma_weight_to_push, list_sum, sum, weight_to,
};
use vstd::prelude::*;

verus! {

/// A bound on the total weight of a graph. It keeps every product of two weights
/// within the machine's integers, and no graph that fits in memory reaches it.
pub const MAX_TOTAL_WEIGHT: u64 = 0x1000_0000_0000_0000;

/// `m` is a square matrix of non-negative weights, equal to its transpose.
pub open spec fn symmetric(m: Seq<Seq<int>>) -> bool {
    &&& forall|u: int| 0 <= u < m.len() ==> (#[trigger] m[u]).len() == m.len()
    &&& forall|u: int, v: int|
        0 <= u < m.len() && 0 <= v < m.len() ==> 0 <= #[trigger] m[u][v] == m[v][u]
}

/// The total weight at node `u`, with a self-loop counted once.
pub open spec fn degree_of(m: Seq<Seq<int>>, u: int) -> int {
    sum(m.len(), |v: int| m[u][v])
}

/// The sum of all degrees: twice the total weight of the edges, with self-loops
/// counted once.
pub open spec fn twice_total(m: Seq<Seq<int>>) -> int {
    sum(m.len(), |u: int| degree_of(m, u))
}

/// The matrix of a family of adjacency lists.
pub open spec fn matrix(lists: Seq<Seq<(usize, u64)>>) -> Seq<Seq<int>> {
    Seq::new(lists.len(), |u: int| Seq::new(lists.len(), |v: int| weight_to(lists[u], v)))
}

/// The contents of a vector of adjacency lists.
pub open spec fn lists_of(adj: Seq<Vec<(usize, u64)>>) -> Seq<Seq<(usize, u64)>> {
    Seq::new(adj.len(), |u: int| adj[u]@)
}

/// Every entry names one of `n` nodes and has a positive weight.
pub open spec fn entries_valid(list: Seq<(usize, u64)>, n: nat) -> bool {
    forall|i: int| 0 <= i < list.len() ==> (#[trigger] list[i]).0 < n && list[i].1 > 0
}

/// The total weight of a list.
pub open spec fn list_total(list: Seq<(usize, u64)>) -> int {
    list_sum(list, |v: int| 1int)
}

/// The total weight of a list is the sum of what its targets receive.
pub proof fn lemma_list_total(list: Seq<(usize, u64)>, n: nat)
    requires
        entries_valid(list, n),
    ensures
        list_total(list) == sum(n, |v: int| weight_to(list, v)),
        list_total(list) >= 0,
{
    let f = |v: int| 1int;
    lemma_list_sum_by_target(list, n, f);
    lemma_sum_ext(n, |v: int| weight_to(list, v) * f(v), |v: int| weight_to(list, v));
    assert forall|v: int| 0 <= v < n implies #[trigger] weight_to(list, v) >= 0 by {
        lemma_weight_to_nonneg(list, v);
    }
    lemma_sum_nonneg(n, |v: int| weight_to(list, v));
}

pub proof fn lemma_list_total_push(list: Seq<(usize, u64)>, e: (usize, u64))
    ensures
        list_total(list.push(e)) == list_total(list) + e.1,
{
    assert(list.push(e).drop_last() =~= list);
}

pub proof fn lemma_list_total_prefix(list: Seq<(usize, u64)>, k: int)
    requires
        0 <= k <= list.len(),
    ensures
        0 <= list_total(list.take(k)) <= list_total(list),
    decreases list.len(),
{
    if k < list.len() {
        lemma_list_total_prefix(list.drop_last(), k);
        assert(list.drop_last().take(k) =~= list.take(k));
    } else {
        assert(list.take(k) =~= list);
        if list.len() > 0 {
            lemma_list_total_prefix(list.drop_last(), k - 1);
        }
    }
}

/// The degree of a node in the matrix of some lists is the total of its list.
pub proof fn lemma_degree_is_list_total(lists: Seq<Seq<(usize, u64)>>, u: int)
    requires
        0 <= u < lists.len(),
        entries_valid(lists[u], lists.len()),
    ensures
        degree_of(matrix(lists), u) == list_total(lists[u]) >= 0,
{
    let n = lists.len();
    lemma_list_total(lists[u], n);
    lemma_sum_ext(n, |v: int| weight_to(lists[u], v), |v: int| matrix(lists)[u][v]);
}

/// A weighted undirected graph over nodes `0` to `n - 1`.
///
/// Unlike [`crate::graph::Graph`] it has no identifiers, so it also serves for
/// the coarsened graphs of community detection, whose nodes are communities.
#[derive(Debug)]
pub struct WeightedGraph {
    adj: Vec<Vec<(usize, u64)>>,
    degrees: Vec<u64>,
    loop_weight: Vec<u64>,
    twice_m: u64,
}

impl View for WeightedGraph {
    type V = Seq<Seq<int>>;

    closed spec fn view(&self) -> Seq<Seq<int>> {
        matrix(lists_of(self.adj@))
    }
}

impl WeightedGraph {
    /// The adjacency lists behind the matrix.
    pub closed spec fn lists(&self) -> Seq<Seq<(usize, u64)>> {
        lists_of(self.adj@)
    }

    /// The stored degrees, loops and total agree with the adjacency lists, whose
    /// matrix is symmetric.
    pub closed spec fn wf(&self) -> bool {
        let n = self.adj@.len();
        &&& self.degrees@.len() == n
        &&& self.loop_weight@.len() == n
        &&& forall|u: int| 0 <= u < n ==> entries_valid(#[trigger] self.adj@[u]@, n)
        &&& symmetric(self@)
        &&& forall|u: int| 0 <= u < n ==> #[trigger] self.degrees@[u] == degree_of(self@, u)
        &&& forall|u: int| 0 <= u < n ==> #[trigger] self.loop_weight@[u] == self@[u][u]
        &&& self.twice_m == twice_total(self@)
        &&& self.twice_m <= MAX_TOTAL_WEIGHT
    }

    /// What a well-formed graph guarantees of its matrix and lists.
    pub proof fn lemma_wf(&self)
        requires
            self.wf(),
        ensures
            symmetric(self@),
            0 <= twice_total(self@) <= MAX_TOTAL_WEIGHT,
            self@ == matrix(self.lists()),
            self.lists().len() == self@.len() <= usize::MAX,
            forall|u: int|
                0 <= u < self@.len() ==> entries_valid(#[trigger] self.lists()[u], self@.len()),
    {
        assert(self.adj.len() <= usize::MAX);
        assert forall|u: int| 0 <= u < self@.len() implies entries_valid(
            #[trigger] self.lists()[u],
            self@.len(),
        ) by {
            assert(self.lists()[u] == self.adj@[u]@);
        }
    }

    /// The graph with the given adjacency lists.
    pub fn from_lists(adj: Vec<Vec<(usize, u64)>>) -> (g: Self)
        requires
            forall|u: int| 0 <= u < adj@.len() ==> entries_valid(#[trigger] adj@[u]@, adj@.len()),
            symmetric(matrix(lists_of(adj@))),
            twice_total(matrix(lists_of(adj@))) <= MAX_TOTAL_WEIGHT,
        ensures
            g.wf(),
            g.lists() == lists_of(adj@),
            g@ == matrix(lists_of(adj@)),
    {
        let ghost m = matrix(lists_of(adj@));
        let n: usize = adj.len();
        let ghost deg = |u: int| degree_of(m, u);
        let mut degrees: Vec<u64> = Vec::new();
        let mut loop_weight: Vec<u64> = Vec::new();
        let mut twice_m: u64 = 0;
        let mut u: usize = 0;
        proof {
            assert forall|x: int| 0 <= x < n implies #[trigger] deg(x) >= 0 by {
                assert(lists_of(adj@)[x] == adj@[x]@);
                lemma_degree_is_list_total(lists_of(adj@), x);
            }
        }
        while u < n
            invariant
                n == adj@.len(),
                u <= n,
                m == matrix(lists_of(adj@)),
                deg == (|x: int| degree_of(m, x)),
                forall|x: int| 0 <= x < n ==> entries_valid(#[trigger] adj@[x]@, n as nat),
                forall|x: int| 0 <= x < n ==> #[trigger] deg(x) >= 0,
                twice_total(m) <= MAX_TOTAL_WEIGHT,
                degrees@.len() == u,
                loop_weight@.len() == u,
                forall|x: int| 0 <= x < u ==> #[trigger] degrees@[x] == degree_of(m, x),
                forall|x: int| 0 <= x < u ==> #[trigger] loop_weight@[x] == m[x][x],
                twice_m == sum(u as nat, deg),
            decreases n - u,
        {
            let list = &adj[u];
            let mut d: u64 = 0;
            let mut l: u64 = 0;
            let mut i: usize = 0;
            proof {
                lemma_sum_prefix_le((u + 1) as nat, n as nat, deg);
                lemma_sum_prefix_le(u as nat, n as nat, deg);
                lemma_sum_ext(n as nat, deg, |x: int| degree_of(m, x));
                assert(lists_of(adj@)[u as int] == list@);
                lemma_degree_is_list_total(lists_of(adj@), u as int);
                assert(deg(u as int) == list_total(list@));
            }
            while i < list.len()
                invariant
                    i <= list@.len(),
                    list_total(list@) <= MAX_TOTAL_WEIGHT,
                    d == list_total(list@.take(i as int)),
                    l == weight_to(list@.take(i as int), u as int),
                    l <= d,
                decreases list.len() - i,
            {
                let (v, w) = list[i];
                proof {
                    let before = list@.take(i as int);
                    assert(list@.take(i + 1) =~= before.push(list@[i as int]));
                    lemma_list_total_push(before, list@[i as int]);
                    lemma_weight_to_push(before, list@[i as int], u as int);
                    lemma_list_total_prefix(list@, i + 1);
                }
                d += w;
                if v == u {
                    l += w;
                }
                i += 1;
            }
            assert(list@.take(i as int) =~= list@);
            degrees.push(d);
            loop_weight.push(l);
            twice_m += d;
            u += 1;
        }
        proof {
            lemma_sum_ext(n as nat, deg, |x: int| degree_of(m, x));
        }
        WeightedGraph { adj, degrees, loop_weight, twice_m }
    }

    /// The number of nodes.
    pub fn node_count(&self) -> (n: usize)
        ensures
            n == self@.len(),
    {
        self.adj.len()
    }

    /// The neighbors of node `i` with the weights of the edges to them.
    pub fn neighbors(&self, i: usize) -> (list: &Vec<(usize, u64)>)
        requires
            i < self@.len(),
        ensures
            list@ == self.lists()[i as int],
    {
        &self.adj[i]
    }

    /// The adjacency lists of all nodes.
    pub fn adjacency(&self) -> (adj: &Vec<Vec<(usize, u64)>>)
        ensures
            lists_of(adj@) == self.lists(),
            adj@.len() == self@.len(),
    {
        &self.adj
    }

    /// The total weight at node `i`, with a self-loop counted once.
    pub fn degree(&self, i: usize) -> (d: u64)
        requires
            self.wf(),
            i < self@.len(),
        ensures
            d == degree_of(self@, i as int),
    {
        self.degrees[i]
    }

    /// The weight of the self-loop at node `i`.
    pub fn self_loop(&self, i: usize) -> (l: u64)
        requires
            self.wf(),
            i < self@.len(),
        ensures
            l == self@[i as int][i as int],
    {
        self.loop_weight[i]
    }

    /// Twice the total weight of the edges.
    pub fn twice_total_weight(&self) -> (t: u64)
        requires
            self.wf(),
        ensures
            t == twice_total(self@),
    {
        self.twice_m
    }
}

} // verus!
