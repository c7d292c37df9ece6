use vstd::prelude::*;

verus! {

/// The typed failures of the tree engine, the diff applier and the codec.
/// Every operation that can fail returns one of these; none panics, and a
/// failed operation leaves its tree unchanged.
#[derive(Clone, Copy, Debug, PartialEq, Eq, Structural)]
pub enum CanvasError {
    /// Building a tree from an empty sequence of leaves.
    EmptyInputError,
    /// Asking an unbuilt tree (no levels) for its root, a proof or an update.
    EmptyTreeError,
    /// A leaf index at or beyond the leaf count, including canvas
    /// coordinates outside the grid.
    IndexOutOfBoundsError,
    /// Wire bytes of the wrong length, an element encoding outside the
    /// field's range, or level lengths that do not form a tree.
    DecodeError,
}

} // verus!
