//! The atomic units of the graph: typed nodes and typed directed edges.
//!
//! A [`Node`] is a stable identity plus a [`NodeKind`] label. An [`Edge`] refers
//! from one node to another with an [`EdgeKind`] label and has an identity of
//! its own. Both are pure data.
use crate::id::{version_of, Uuid7};
use vstd::prelude::*;

verus! {

/// Stable identity of a node in the graph.
pub type NodeId = Uuid7;

/// Stable identity of an edge in the graph.
pub type EdgeId = Uuid7;

/// A label that tells one kind of node from another, in any vocabulary.
#[derive(Debug, PartialEq, Eq, Hash)]
pub struct NodeKind(String);

impl View for NodeKind {
    type V = Seq<char>;

    closed spec fn view(&self) -> Seq<char> {
        self.0@
    }
}

impl AsRef<str> for NodeKind {
    fn as_ref(&self) -> (s: &str)
        ensures
            s@ == self@,
    {
        self.0.as_str()
    }
}

impl Clone for NodeKind {
    fn clone(&self) -> (copy: Self)
        ensures
            copy == *self,
    {
        NodeKind(self.0.clone())
    }
}

impl NodeKind {
    /// A kind with the given name.
    pub fn new(kind: &str) -> (k: Self)
        ensures
            k@ == kind@,
    {
        NodeKind(kind.to_owned())
    }

    /// The name of the kind.
    pub fn as_str(&self) -> (s: &str)
        ensures
            s@ == self@,
    {
        self.0.as_str()
    }
}

/// A label that tells one kind of edge from another, in any vocabulary.
#[derive(Debug, PartialEq, Eq, Hash)]
pub struct EdgeKind(String);

impl View for EdgeKind {
    type V = Seq<char>;

    closed spec fn view(&self) -> Seq<char> {
        self.0@
    }
}

impl AsRef<str> for EdgeKind {
    fn as_ref(&self) -> (s: &str)
        ensures
            s@ == self@,
    {
        self.0.as_str()
    }
}

impl Clone for EdgeKind {
    fn clone(&self) -> (copy: Self)
        ensures
            copy == *self,
    {
        EdgeKind(self.0.clone())
    }
}

impl EdgeKind {
    /// A kind with the given name.
    pub fn new(kind: &str) -> (k: Self)
        ensures
            k@ == kind@,
    {
        EdgeKind(kind.to_owned())
    }

    /// The name of the kind.
    pub fn as_str(&self) -> (s: &str)
        ensures
            s@ == self@,
    {
        self.0.as_str()
    }
}

/// A node in the graph: identity plus type label.
#[derive(Debug, PartialEq, Eq, Hash)]
pub struct Node {
    /// Stable identity.
    pub id: NodeId,
    /// Type label, defined by the application.
    pub kind: NodeKind,
}

impl Clone for Node {
    fn clone(&self) -> (copy: Self)
        ensures
            copy == *self,
    {
        Node { id: self.id, kind: self.kind.clone() }
    }
}

impl Node {
    /// A node with the given identity and kind.
    pub fn new(id: NodeId, kind: NodeKind) -> (node: Self)
        ensures
            node.id == id,
            node.kind == kind,
    {
        Node { id, kind }
    }

    /// A node of the given kind with a freshly minted identity.
    pub fn fresh(kind: NodeKind) -> (node: Self)
        ensures
            version_of(node.id@) == 7,
            node.kind == kind,
    {
        Self::new(Uuid7::now(), kind)
    }
}

/// A directed edge from one node to another, with a type label.
#[derive(Debug, PartialEq, Eq, Hash)]
pub struct Edge {
    /// Stable identity of the edge.
    pub id: EdgeId,
    /// The node that the edge leaves.
    pub source: NodeId,
    /// The node that the edge enters.
    pub target: NodeId,
    /// Type label, defined by the application.
    pub kind: EdgeKind,
}

impl Clone for Edge {
    fn clone(&self) -> (copy: Self)
        ensures
            copy == *self,
    {
        Edge { id: self.id, source: self.source, target: self.target, kind: self.kind.clone() }
    }
}

impl Edge {
    /// An edge with the given identity, endpoints and kind.
    pub fn new(id: EdgeId, source: NodeId, target: NodeId, kind: EdgeKind) -> (edge: Self)
        ensures
            edge.id == id,
            edge.source == source,
            edge.target == target,
            edge.kind == kind,
    {
        Edge { id, source, target, kind }
    }

    /// An edge with the given endpoints and kind and a freshly minted identity.
    pub fn fresh(source: NodeId, target: NodeId, kind: EdgeKind) -> (edge: Self)
        ensures
            version_of(edge.id@) == 7,
            edge.source == source,
            edge.target == target,
            edge.kind == kind,
    {
        Self::new(Uuid7::now(), source, target, kind)
    }
}

} // verus!
