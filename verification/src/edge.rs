use vstd::prelude::*;

verus! {

/// An item handed out when walking a node's edges: the edge view plus the
/// pointer to the destination node.
pub struct GraphIterRes<E, T> {
    /// Edge data.
    pub values: E,
    /// A pointer to the destination node.
    pub ptr: T,
}

/// View into the data of two distinct nodes connected by an edge.
pub struct EdgeBoth<N, E> {
    /// Value from the source node.
    pub this: N,
    /// Value from the destination node.
    pub that: N,
    /// Value from the edge.
    pub edge: E,
}

/// View into the data of a node with an edge looping back to itself.
pub struct EdgeLoop<N, E> {
    /// Value from the node.
    pub this: N,
    /// Value from the edge.
    pub edge: E,
}

/// View into the node data connected by an edge: `Both` when the edge joins
/// two distinct nodes, `Loop` when it returns to the source node. The self
/// loop is carved out as its own case so that no caller can ever be handed two
/// views of one node where it expects views of two.
pub enum Edge<N, E> {
    Both(EdgeBoth<N, E>),
    Loop(EdgeLoop<N, E>),
}

impl<N, E> Edge<N, E> {
    /// The data of the source node and the edge.
    pub fn this(self) -> (r: EdgeLoop<N, E>)
        ensures
            self matches Edge::Both(s) ==> r.this == s.this && r.edge == s.edge,
            self matches Edge::Loop(s) ==> r == s,
    {
        match self {
            Edge::Both(s) => EdgeLoop { this: s.this, edge: s.edge },
            Edge::Loop(s) => s,
        }
    }

    /// The data of the destination node and the edge.
    pub fn that(self) -> (r: EdgeLoop<N, E>)
        ensures
            self matches Edge::Both(s) ==> r.this == s.that && r.edge == s.edge,
            self matches Edge::Loop(s) ==> r == s,
    {
        match self {
            Edge::Both(s) => EdgeLoop { this: s.that, edge: s.edge },
            Edge::Loop(s) => s,
        }
    }

    /// The data of both nodes and the edge, or nothing if the edge is a loop.
    pub fn both(self) -> (r: Option<EdgeBoth<N, E>>)
        ensures
            self matches Edge::Both(s) ==> r == Some(s),
            self matches Edge::Loop(s) ==> r is None,
    {
        match self {
            Edge::Both(s) => Some(s),
            Edge::Loop(_) => None,
        }
    }

    /// The data of both nodes and the edge. The caller must know the edge is
    /// not a loop.
    pub fn both_unchecked(self) -> (r: EdgeBoth<N, E>)
        requires
            self is Both,
        ensures
            self matches Edge::Both(s) ==> r == s,
    {
        match self {
            Edge::Both(s) => s,
            Edge::Loop(_) => vstd::pervasive::unreached(),
        }
    }

    /// The edge data alone.
    pub fn edge(self) -> (r: E)
        ensures
            self matches Edge::Both(s) ==> r == s.edge,
            self matches Edge::Loop(s) ==> r == s.edge,
    {
        match self {
            Edge::Both(s) => s.edge,
            Edge::Loop(s) => s.edge,
        }
    }
}

} // verus!
