//! The boundary between where a graph lives and what consumes it.
//!
//! A [`GraphSource`] hands out its nodes and its edges as owned values, each
//! exactly once, and hands out the same again when asked again.
use crate::id::{version_of, Uuid7};
use crate::node::{Edge, EdgeKind, Node, NodeKind};
use vstd::prelude::*;

verus! {

/// A producer of graph nodes and edges.
pub trait GraphSource {
    /// Every node of the source, each exactly once.
    spec fn node_seq(&self) -> Seq<Node>;

    /// Every edge of the source, each exactly once.
    spec fn edge_seq(&self) -> Seq<Edge>;

    /// The nodes of the source.
    fn nodes(&self) -> (nodes: Vec<Node>)
        ensures
            nodes@ == self.node_seq(),
    ;

    /// The edges of the source.
    fn edges(&self) -> (edges: Vec<Edge>)
        ensures
            edges@ == self.edge_seq(),
    ;

    /// A hint for the number of nodes. It is advice, not a contract.
    fn node_count_hint(&self) -> (hint: Option<usize>)
        default_ensures
            hint is None,
    {
        None
    }

    /// A hint for the number of edges. It is advice, not a contract.
    fn edge_count_hint(&self) -> (hint: Option<usize>)
        default_ensures
            hint is None,
    {
        None
    }

    /// A human-readable label for a node, where the source knows one. A build asks for it
    /// once for each node and stores it.
    fn label_of(&self, node_id: Uuid7) -> (label: Option<String>)
        default_ensures
            label is None,
    {
        None
    }
}

/// A copy of a slice of nodes.
pub fn copy_nodes(nodes: &[Node]) -> (copy: Vec<Node>)
    ensures
        copy@ == nodes@,
{
    let mut copy: Vec<Node> = Vec::new();
    let mut i: usize = 0;
    while i < nodes.len()
        invariant
            i <= nodes.len(),
            copy@ == nodes@.take(i as int),
        decreases nodes.len() - i,
    {
        copy.push(nodes[i].clone());
        assert(nodes@.take(i + 1) =~= nodes@.take(i as int).push(nodes@[i as int]));
        i += 1;
    }
    assert(nodes@.take(i as int) =~= nodes@);
    copy
}

/// A copy of a slice of edges.
pub fn copy_edges(edges: &[Edge]) -> (copy: Vec<Edge>)
    ensures
        copy@ == edges@,
{
    let mut copy: Vec<Edge> = Vec::new();
    let mut i: usize = 0;
    while i < edges.len()
        invariant
            i <= edges.len(),
            copy@ == edges@.take(i as int),
        decreases edges.len() - i,
    {
        copy.push(edges[i].clone());
        assert(edges@.take(i + 1) =~= edges@.take(i as int).push(edges@[i as int]));
        i += 1;
    }
    assert(edges@.take(i as int) =~= edges@);
    copy
}

/// Mints identifiers.
pub fn mint(n: usize) -> (ids: Vec<Uuid7>)
    ensures
        ids@.len() == n,
        forall|i: int| 0 <= i < n ==> version_of((#[trigger] ids@[i])@) == 7,
{
    let mut ids: Vec<Uuid7> = Vec::new();
    let mut i: usize = 0;
    while i < n
        invariant
            i <= n,
            ids@.len() == i,
            forall|j: int| 0 <= j < i ==> version_of((#[trigger] ids@[j])@) == 7,
        decreases n - i,
    {
        ids.push(Uuid7::now());
        i += 1;
    }
    ids
}

/// Nodes with the given identifiers, in this order, all of one kind.
pub fn nodes_with(ids: &Vec<Uuid7>, kind: &NodeKind) -> (nodes: Vec<Node>)
    ensures
        nodes@.len() == ids@.len(),
        forall|i: int|
            0 <= i < nodes@.len() ==> (#[trigger] nodes@[i]).id == ids@[i] && nodes@[i].kind
                == *kind,
{
    let mut nodes: Vec<Node> = Vec::new();
    let mut i: usize = 0;
    while i < ids.len()
        invariant
            i <= ids@.len(),
            nodes@.len() == i,
            forall|j: int|
                0 <= j < i ==> (#[trigger] nodes@[j]).id == ids@[j] && nodes@[j].kind == *kind,
        decreases ids@.len() - i,
    {
        nodes.push(Node::new(ids[i], kind.clone()));
        i += 1;
    }
    nodes
}

/// Edges between the nodes at the given places, in this order, all of one kind. Each is
/// minted afresh.
pub fn edges_between(nodes: &Vec<Node>, ends: &Vec<(usize, usize)>, kind: &EdgeKind) -> (edges: Vec<
    Edge,
>)
    requires
        forall|k: int|
            0 <= k < ends@.len() ==> (#[trigger] ends@[k]).0 < nodes@.len() && ends@[k].1
                < nodes@.len(),
    ensures
        edges@.len() == ends@.len(),
        forall|k: int|
            0 <= k < edges@.len() ==> {
                &&& (#[trigger] edges@[k]).source == nodes@[ends@[k].0 as int].id
                &&& edges@[k].target == nodes@[ends@[k].1 as int].id
                &&& edges@[k].kind == *kind
            },
{
    let mut edges: Vec<Edge> = Vec::new();
    let mut k: usize = 0;
    while k < ends.len()
        invariant
            k <= ends@.len(),
            edges@.len() == k,
            forall|j: int|
                0 <= j < ends@.len() ==> (#[trigger] ends@[j]).0 < nodes@.len() && ends@[j].1
                    < nodes@.len(),
            forall|j: int|
                0 <= j < k ==> {
                    &&& (#[trigger] edges@[j]).source == nodes@[ends@[j].0 as int].id
                    &&& edges@[j].target == nodes@[ends@[j].1 as int].id
                    &&& edges@[j].kind == *kind
                },
        decreases ends@.len() - k,
    {
        let (a, b) = ends[k];
        assert(ends@[k as int].0 < nodes@.len());
        edges.push(Edge::fresh(nodes[a].id, nodes[b].id, kind.clone()));
        k += 1;
    }
    edges
}

/// A [`GraphSource`] over two slices held in memory.
///
/// The slices are not validated against each other: an edge may name a node
/// that the other slice does not hold.
#[derive(Debug, Clone, Copy)]
pub struct SliceSource<'a> {
    nodes: &'a [Node],
    edges: &'a [Edge],
}

impl<'a> SliceSource<'a> {
    /// The nodes behind the source.
    pub closed spec fn node_slice(&self) -> Seq<Node> {
        self.nodes@
    }

    /// The edges behind the source.
    pub closed spec fn edge_slice(&self) -> Seq<Edge> {
        self.edges@
    }

    /// Wraps a pair of slices.
    pub fn new(nodes: &'a [Node], edges: &'a [Edge]) -> (source: Self)
        ensures
            source.node_seq() == nodes@,
            source.edge_seq() == edges@,
    {
        SliceSource { nodes, edges }
    }

    /// The number of nodes in the slice.
    pub fn node_len(&self) -> (n: usize)
        ensures
            n == self.node_seq().len(),
    {
        self.nodes.len()
    }

    /// The number of edges in the slice.
    pub fn edge_len(&self) -> (n: usize)
        ensures
            n == self.edge_seq().len(),
    {
        self.edges.len()
    }
}

impl<'a> GraphSource for SliceSource<'a> {
    open spec fn node_seq(&self) -> Seq<Node> {
        self.node_slice()
    }

    open spec fn edge_seq(&self) -> Seq<Edge> {
        self.edge_slice()
    }

    fn nodes(&self) -> (nodes: Vec<Node>) {
        copy_nodes(self.nodes)
    }

    fn edges(&self) -> (edges: Vec<Edge>) {
        copy_edges(self.edges)
    }

    fn node_count_hint(&self) -> (hint: Option<usize>)
        ensures
            hint is Some,
            hint->0 == self.node_seq().len(),
    {
        Some(self.nodes.len())
    }

    fn edge_count_hint(&self) -> (hint: Option<usize>)
        ensures
            hint is Some,
            hint->0 == self.edge_seq().len(),
    {
        Some(self.edges.len())
    }
}

} // verus!
