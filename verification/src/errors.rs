use vstd::prelude::*;

verus! {

/// The errors of the library.
#[derive(Debug, Clone, Copy, PartialEq, Eq, Structural)]
pub enum Error {
    /// A node index inside a block is out of range.
    InvalidInsnIndex(usize),
    /// An instruction node was asked for and a phi node was found.
    WrongNodeType,
    /// The vertex with the given index does not exist in the graph.
    GraphVertexNotFound(usize),
    /// The edge with the given head and tail is already in the graph.
    GraphDuplicateEdge(usize, usize),
    /// A vertex was inserted whose index is not the next free one.
    GraphVertexIndex(usize),
}

} // verus!
