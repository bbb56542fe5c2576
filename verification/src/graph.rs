//! The in-memory graph that the algorithms of this library read.
//!
//! The graph is undirected: a directed edge of the source is seen from both of
//! its endpoints. Every edge has weight 1, and parallel edges add up. A self-loop
//! stands once in the list of its node and counts once in the node's degree.
//!
//! Nodes are numbered from 0 in the order in which the source hands them out; a
//! repeated identifier keeps its first number.
use crate::distinct::{distinct, lemma_distinct, lemma_index_of, lemma_orderly, Interner};
use crate::id::{hyphenated, Uuid7};
use crate::node::{Edge, Node, NodeId};
use crate::source::GraphSource;
use crate::sums::{lemma_sum_ext, lemma_sum_update, lemma_sum_zero, lemma_weight_to_push};
use crate::weighted::{
    degree_of, entries_valid, lemma_degree_is_list_total, lemma_list_total_push, lists_of, matrix,
    symmetric, twice_total, WeightedGraph,
};
use crate::text::text;
use vstd::prelude::*;
use vstd::string::StringExecFns;

verus! {

/// The largest number of edges that a source may hand out.
pub const MAX_EDGES: u64 = 0x0400_0000_0000_0000;

/// An error in building a [`Graph`] from a [`GraphSource`].
#[derive(Debug)]
pub enum GraphError {
    /// An edge refers to a node that the source does not hand out.
    DanglingEdge { which: NodeId },
}

impl GraphError {
    /// The text of the error.
    pub open spec fn message(&self) -> Seq<char> {
        match self {
            GraphError::DanglingEdge { which } =>
                "edge endpoint not present in source's node set: "@ + hyphenated(which@),
        }
    }

    /// The text of the error.
    pub fn to_string(&self) -> (t: String)
        ensures
            t@ == self.message(),
    {
        match self {
            GraphError::DanglingEdge { which } => {
                let mut t = text("edge endpoint not present in source's node set: ");
                t.append(which.to_string().as_str());
                t
            },
        }
    }
}

/// The identifiers of the nodes, in order, without repetitions.
pub open spec fn ids_of(nodes: Seq<Node>) -> Seq<NodeId> {
    distinct(nodes.map_values(|n: Node| n.id))
}

/// The endpoint of `e` that is no node, its source before its target.
pub open spec fn dangling_end(ids: Seq<NodeId>, e: Edge) -> Option<NodeId> {
    if !ids.contains(e.source) {
        Some(e.source)
    } else if !ids.contains(e.target) {
        Some(e.target)
    } else {
        None
    }
}

/// The endpoint that is no node, of the first edge that has one.
pub open spec fn first_dangling(ids: Seq<NodeId>, edges: Seq<Edge>) -> Option<NodeId>
    decreases edges.len(),
{
    if edges.len() == 0 {
        None
    } else {
        match first_dangling(ids, edges.drop_last()) {
            Some(which) => Some(which),
            None => dangling_end(ids, edges.last()),
        }
    }
}

/// The adjacency list of node `u`: for each edge at `u`, in order, the node at
/// its other end with weight 1.
pub open spec fn neighbor_list(ids: Seq<NodeId>, edges: Seq<Edge>, u: int) -> Seq<(usize, u64)>
    decreases edges.len(),
{
    if edges.len() == 0 {
        Seq::empty()
    } else {
        let front = neighbor_list(ids, edges.drop_last(), u);
        let s = ids.index_of(edges.last().source);
        let t = ids.index_of(edges.last().target);
        if u == s {
            front.push((t as usize, 1))
        } else if u == t {
            front.push((s as usize, 1))
        } else {
            front
        }
    }
}

/// The adjacency lists of all nodes.
pub open spec fn neighbor_lists(ids: Seq<NodeId>, edges: Seq<Edge>) -> Seq<Seq<(usize, u64)>> {
    Seq::new(ids.len(), |u: int| neighbor_list(ids, edges, u))
}

proof fn lemma_no_dangling_prefix(ids: Seq<NodeId>, edges: Seq<Edge>, k: int)
    requires
        0 <= k <= edges.len(),
    ensures
        first_dangling(ids, edges.take(k)) is Some ==> first_dangling(ids, edges)
            == first_dangling(ids, edges.take(k)),
    decreases edges.len(),
{
    if k < edges.len() {
        lemma_no_dangling_prefix(ids, edges.drop_last(), k);
        assert(edges.drop_last().take(k) =~= edges.take(k));
    } else {
        assert(edges.take(k) =~= edges);
    }
}

/// Where no edge dangles, the lists are valid, their matrix is symmetric and each
/// edge adds at most two to the total weight.
proof fn lemma_neighbor_lists(ids: Seq<NodeId>, edges: Seq<Edge>)
    requires
        ids.no_duplicates(),
        ids.len() <= usize::MAX,
        first_dangling(ids, edges) is None,
    ensures
        forall|u: int|
            0 <= u < ids.len() ==> entries_valid(
                #[trigger] neighbor_lists(ids, edges)[u],
                ids.len(),
            ),
        symmetric(matrix(neighbor_lists(ids, edges))),
        0 <= twice_total(matrix(neighbor_lists(ids, edges))) <= 2 * edges.len(),
    decreases edges.len(),
{
    let n = ids.len();
    let lists = neighbor_lists(ids, edges);
    let m = matrix(lists);
    if edges.len() == 0 {
        assert forall|u: int| 0 <= u < n implies #[trigger] degree_of(m, u) == 0 by {
            lemma_sum_zero(n, |v: int| m[u][v]);
        }
        lemma_sum_zero(n, |u: int| degree_of(m, u));
    } else {
        let front = edges.drop_last();
        lemma_neighbor_lists(ids, front);
        let old_lists = neighbor_lists(ids, front);
        let om = matrix(old_lists);
        let e = edges.last();
        let s = ids.index_of(e.source);
        let t = ids.index_of(e.target);
        assert(ids.contains(e.source) && ids.contains(e.target));
        assert(0 <= s < n && 0 <= t < n);
        let added = |u: int| if u == s {
            1int
        } else if u == t {
            1int
        } else {
            0int
        };
        assert forall|u: int| 0 <= u < n implies entries_valid(#[trigger] lists[u], n) by {
            assert(entries_valid(old_lists[u], n));
        }
        assert forall|u: int, v: int| 0 <= u < n && 0 <= v < n implies 0 <= #[trigger] m[u][v]
            == m[v][u] by {
            assert(om[u][v] == om[v][u] && om[u][v] >= 0);
            lemma_weight_to_push(old_lists[u], (t as usize, 1), v);
            lemma_weight_to_push(old_lists[u], (s as usize, 1), v);
            lemma_weight_to_push(old_lists[v], (t as usize, 1), u);
            lemma_weight_to_push(old_lists[v], (s as usize, 1), u);
        }
        let f = |u: int| degree_of(om, u);
        let g = |u: int| degree_of(m, u);
        assert forall|u: int| 0 <= u < n implies #[trigger] g(u) == f(u) + added(u) by {
            lemma_degree_is_list_total(lists, u);
            assert(entries_valid(old_lists[u], n));
            lemma_degree_is_list_total(old_lists, u);
            lemma_list_total_push(old_lists[u], (t as usize, 1));
            lemma_list_total_push(old_lists[u], (s as usize, 1));
        }
        let h = |u: int| f(u) + if u == s { 1int } else { 0int };
        lemma_sum_update(n, f, h, s);
        if s == t {
            lemma_sum_ext(n, g, h);
        } else {
            lemma_sum_update(n, h, g, t);
        }
    }
}

/// An undirected, weighted in-memory graph.
#[derive(Debug)]
pub struct Graph {
    nodes: Vec<NodeId>,
    index: Interner<u128>,
    body: WeightedGraph,
}

impl Graph {
    /// The identifiers of the nodes, by number.
    pub closed spec fn ids(&self) -> Seq<NodeId> {
        self.nodes@
    }

    /// The adjacency lists of the nodes, by number.
    pub closed spec fn lists(&self) -> Seq<Seq<(usize, u64)>> {
        self.body.lists()
    }

    /// The matrix of the weights between the nodes.
    pub closed spec fn weights(&self) -> Seq<Seq<int>> {
        self.body@
    }

    /// The reverse lookup agrees with the identifiers, and the body is a
    /// well-formed graph on as many nodes.
    pub closed spec fn wf(&self) -> bool {
        &&& self.index.wf()
        &&& self.index@ == self.nodes@.map_values(|id: NodeId| id@)
        &&& self.body.wf()
        &&& self.body@.len() == self.nodes@.len()
    }

    /// What a well-formed graph guarantees.
    pub proof fn lemma_wf(&self)
        requires
            self.wf(),
        ensures
            self.ids().no_duplicates(),
            self.ids().len() == self.lists().len() == self.weights().len() <= usize::MAX,
            self.weights() == matrix(self.lists()),
            symmetric(self.weights()),
            forall|u: int|
                0 <= u < self.lists().len() ==> entries_valid(
                    #[trigger] self.lists()[u],
                    self.lists().len(),
                ),
    {
        self.index.lemma_wf();
        self.body.lemma_wf();
        assert forall|i: int, j: int|
            0 <= i < self.nodes@.len() && 0 <= j < self.nodes@.len() && i
                != j implies self.nodes@[i] != self.nodes@[j] by {
            assert(self.index@[i] == self.nodes@[i]@);
            assert(self.index@[j] == self.nodes@[j]@);
        }
    }

    /// Builds the graph of a source.
    pub fn from_source<G: GraphSource>(source: &G) -> (r: Result<Self, GraphError>)
        requires
            source.edge_seq().len() <= MAX_EDGES,
        ensures
            match first_dangling(ids_of(source.node_seq()), source.edge_seq()) {
                Some(id) => r == Err::<Self, GraphError>(GraphError::DanglingEdge { which: id }),
                None => {
                    &&& r is Ok
                    &&& r->Ok_0.wf()
                    &&& r->Ok_0.ids() == ids_of(source.node_seq())
                    &&& r->Ok_0.lists() == neighbor_lists(
                        ids_of(source.node_seq()),
                        source.edge_seq(),
                    )
                },
            },
    {
        let source_nodes = source.nodes();
        let ghost given = source_nodes@.map_values(|n: Node| n.id);
        proof {
            lemma_orderly();
        }
        let mut index: Interner<u128> = Interner::new();
        let mut nodes: Vec<NodeId> = Vec::new();
        let mut i: usize = 0;
        while i < source_nodes.len()
            invariant
                i <= source_nodes.len(),
                given == source_nodes@.map_values(|n: Node| n.id),
                index.wf(),
                nodes@ == distinct(given.take(i as int)),
                index@ =~= nodes@.map_values(|id: NodeId| id@),
            decreases source_nodes.len() - i,
        {
            let id = source_nodes[i].id;
            proof {
                assert(given.take(i + 1).drop_last() =~= given.take(i as int));
                assert(given.take(i + 1).last() == id);
                if nodes@.contains(id) {
                    let j = choose|j: int| 0 <= j < nodes@.len() && nodes@[j] == id;
                    assert(index@[j] == id@);
                }
                if index@.contains(id@) {
                    let j = choose|j: int| 0 <= j < index@.len() && index@[j] == id@;
                    Uuid7::lemma_view_injective(nodes@[j], id);
                    assert(nodes@.contains(id));
                }
            }
            let known: usize = index.len();
            let k: usize = index.intern(id.as_uuid());
            if index.len() > known {
                nodes.push(id);
            }
            i += 1;
        }
        proof {
            assert(given.take(i as int) =~= given);
            lemma_distinct(given);
        }
        let ghost ids = nodes@;
        let n: usize = nodes.len();
        let edges = source.edges();
        let mut adj: Vec<Vec<(usize, u64)>> = Vec::new();
        let mut u: usize = 0;
        while u < n
            invariant
                u <= n,
                adj@.len() == u,
                forall|x: int| 0 <= x < u ==> (#[trigger] adj@[x])@ == Seq::<(usize, u64)>::empty(),
            decreases n - u,
        {
            adj.push(Vec::new());
            u += 1;
        }
        let mut k: usize = 0;
        while k < edges.len()
            invariant
                k <= edges.len(),
                edges@ == source.edge_seq(),
                n == ids.len(),
                ids == ids_of(source.node_seq()),
                ids.no_duplicates(),
                index.wf(),
                index@ == ids.map_values(|id: NodeId| id@),
                first_dangling(ids, edges@.take(k as int)) is None,
                adj@.len() == n,
                forall|x: int|
                    0 <= x < n ==> (#[trigger] adj@[x])@ == neighbor_list(
                        ids,
                        edges@.take(k as int),
                        x,
                    ),
            decreases edges.len() - k,
        {
            let e_source = edges[k].source;
            let e_target = edges[k].target;
            let ghost front = edges@.take(k as int);
            let ghost next = edges@.take(k + 1);
            proof {
                assert(next.drop_last() =~= front);
                assert(next.last() == edges@[k as int]);
                lemma_no_dangling_prefix(ids, edges@, k + 1);
                assert forall|id: NodeId| index@.contains(id@) <==> #[trigger] ids.contains(id) by {
                    if ids.contains(id) {
                        let j = choose|j: int| 0 <= j < ids.len() && ids[j] == id;
                        assert(index@[j] == id@);
                    }
                    if index@.contains(id@) {
                        let j = choose|j: int| 0 <= j < index@.len() && index@[j] == id@;
                        Uuid7::lemma_view_injective(ids[j], id);
                    }
                }
                assert(ids.contains(e_source) || !ids.contains(e_source));
                assert(ids.contains(e_target) || !ids.contains(e_target));
            }
            let s: usize = match index.lookup(e_source.as_uuid()) {
                Some(s) => s,
                None => {
                    return Err(GraphError::DanglingEdge { which: e_source });
                },
            };
            let t: usize = match index.lookup(e_target.as_uuid()) {
                Some(t) => t,
                None => {
                    return Err(GraphError::DanglingEdge { which: e_target });
                },
            };
            proof {
                Uuid7::lemma_view_injective(ids[s as int], e_source);
                Uuid7::lemma_view_injective(ids[t as int], e_target);
                lemma_index_of(ids, s as int);
                lemma_index_of(ids, t as int);
            }
            if s == t {
                adj[s].push((t, 1));
            } else {
                adj[s].push((t, 1));
                adj[t].push((s, 1));
            }
            k += 1;
        }
        proof {
            assert(edges@.take(k as int) =~= edges@);
            assert(lists_of(adj@) =~= neighbor_lists(ids, edges@));
            lemma_neighbor_lists(ids, edges@);
            assert forall|x: int| 0 <= x < adj@.len() implies entries_valid(
                #[trigger] adj@[x]@,
                adj@.len(),
            ) by {
                assert(entries_valid(neighbor_lists(ids, edges@)[x], ids.len()));
            }
        }
        let body = WeightedGraph::from_lists(adj);
        Ok(Graph { nodes, index, body })
    }

    /// The number of nodes.
    pub fn node_count(&self) -> (n: usize)
        ensures
            n == self.ids().len(),
    {
        self.nodes.len()
    }

    /// The identifier of the node with the number `i`.
    pub fn node_id(&self, i: usize) -> (id: NodeId)
        requires
            i < self.ids().len(),
        ensures
            id == self.ids()[i as int],
    {
        self.nodes[i]
    }

    /// The number of the node with the given identifier.
    pub fn index_of(&self, id: NodeId) -> (i: Option<usize>)
        requires
            self.wf(),
        ensures
            i is Some <==> self.ids().contains(id),
            i is Some ==> i->0 < self.ids().len() && self.ids()[i->0 as int] == id,
    {
        let i = self.index.lookup(id.as_uuid());
        proof {
            if self.nodes@.contains(id) {
                let j = choose|j: int| 0 <= j < self.nodes@.len() && self.nodes@[j] == id;
                assert(self.index@[j] == id@);
            }
            if i is Some {
                Uuid7::lemma_view_injective(self.nodes@[i->0 as int], id);
            }
        }
        i
    }

    /// Twice the total weight of the edges, with self-loops counted once.
    pub fn twice_total_weight(&self) -> (t: u64)
        requires
            self.wf(),
        ensures
            t == twice_total(self.weights()),
    {
        self.body.twice_total_weight()
    }

    /// The total weight at node `i`, with a self-loop counted once.
    pub fn degree(&self, i: usize) -> (d: u64)
        requires
            self.wf(),
            i < self.ids().len(),
        ensures
            d == degree_of(self.weights(), i as int),
    {
        self.body.degree(i)
    }

    /// The weight of the self-loop at node `i`.
    pub fn self_loop(&self, i: usize) -> (l: u64)
        requires
            self.wf(),
            i < self.ids().len(),
        ensures
            l == self.weights()[i as int][i as int],
    {
        self.body.self_loop(i)
    }

    /// The neighbors of node `i` with the weights of the edges to them.
    pub fn neighbors(&self, i: usize) -> (list: &Vec<(usize, u64)>)
        requires
            self.wf(),
            i < self.ids().len(),
        ensures
            list@ == self.lists()[i as int],
    {
        self.body.neighbors(i)
    }

    /// The graph without its identifiers.
    pub fn body(&self) -> (body: &WeightedGraph)
        requires
            self.wf(),
        ensures
            body.wf(),
            body@ == self.weights(),
            body.lists() == self.lists(),
    {
        &self.body
    }
}

} // verus!
