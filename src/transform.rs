use vstd::prelude::*;

verus! {

/// Placement of an object relative to its parent: a position, a rotation in
/// degrees about each axis (applied Y, then X, then Z), and a scale per axis.
/// `F` is the scalar type; the scene graph only carries it along.
pub struct Transform<F> {
    pub position: [F; 3],
    pub rotation: [F; 3],
    pub scale: [F; 3],
}

} // verus!
