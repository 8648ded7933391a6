//! Edges of the bidirected graph.
use vstd::prelude::*;

use crate::path::Orientation;

verus! {

/// An edge in the bidirected pangenome graph: it joins one end of a vertex to
/// one end of another (or the same) vertex.
#[derive(Debug, Clone, Copy, PartialEq, Eq, Hash, Structural)]
pub struct Edge {
    /// Source vertex ID
    pub from_id: u64,
    /// Source vertex orientation/end
    pub from_orientation: Orientation,
    /// Target vertex ID
    pub to_id: u64,
    /// Target vertex orientation/end
    pub to_orientation: Orientation,
}

impl Edge {
    /// The same adjacency written from the other side: endpoints swapped,
    /// both orientations flipped.
    pub open spec fn reversed(self) -> Edge {
        Edge {
            from_id: self.to_id,
            from_orientation: self.to_orientation.flipped(),
            to_id: self.from_id,
            to_orientation: self.from_orientation.flipped(),
        }
    }

    /// Create a new edge.
    pub fn new(
        from_id: u64,
        from_orientation: Orientation,
        to_id: u64,
        to_orientation: Orientation,
    ) -> (r: Self)
        ensures
            r == (Edge { from_id, from_orientation, to_id, to_orientation }),
    {
        Edge { from_id, from_orientation, to_id, to_orientation }
    }

    /// Whether the edge joins a vertex to itself.
    pub fn is_self_loop(&self) -> (r: bool)
        ensures
            r == (self.from_id == self.to_id),
    {
        self.from_id == self.to_id
    }

    /// The reverse of this edge: the same adjacency seen from the other end.
    pub fn reverse(&self) -> (r: Self)
        ensures
            r == self.reversed(),
    {
        Edge {
            from_id: self.to_id,
            from_orientation: self.to_orientation.flip(),
            to_id: self.from_id,
            to_orientation: self.from_orientation.flip(),
        }
    }
}

/// The vertex end at which an edge leaves its source: a forward visit leaves
/// through the reverse (3') end, a reverse visit through the forward (5') end.
pub open spec fn source_end(e: Edge) -> (u64, Orientation) {
    (e.from_id, e.from_orientation.flipped())
}

/// The vertex end at which an edge enters its target: a forward visit enters
/// through the forward (5') end, a reverse visit through the reverse (3') end.
pub open spec fn target_end(e: Edge) -> (u64, Orientation) {
    (e.to_id, e.to_orientation)
}

/// An edge and its reverse join the same two vertex ends: they are one adjacency.
pub proof fn lemma_reverse_same_ends(e: Edge)
    ensures
        source_end(e.reversed()) == target_end(e),
        target_end(e.reversed()) == source_end(e),
{
}

/// Reversing an edge twice gives back the edge.
pub proof fn lemma_edge_reverse_involutive(e: Edge)
    ensures
        e.reversed().reversed() == e,
{
}

} // verus!
