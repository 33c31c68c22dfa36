use vstd::prelude::*;

verus! {

/// The failure conditions of the octree.
#[derive(Debug, PartialEq, Eq, Structural, Clone, Copy)]
pub enum Error {
    /// The domain dimension handed to construction is zero or not a power of
    /// two.
    InvalidDimension(u32),
    /// A coordinate lies outside the tree's cubic bounds.
    InvalidPosition { x: u32, y: u32, z: u32 },
    /// An integer-to-octant conversion received a value outside 0..8.
    InvalidOctant(usize),
    /// A snapshot's child-index graph is inconsistent: it has no root
    /// record, an index out of range, or a record claimed by two parents.
    MalformedTree,
}

} // verus!
