use vstd::prelude::*;

verus! {

/// Default window width, in physical pixels.
pub const DEFAULT_WIDTH: u32 = 800;

/// Default window height, in physical pixels.
pub const DEFAULT_HEIGHT: u32 = 600;

/// Smallest width a window may be resized to.
pub const MIN_WIDTH: u32 = 250;

/// Smallest height a window may be resized to.
pub const MIN_HEIGHT: u32 = 250;

/// Vertex capacity a renderer starts with.
pub const INITIAL_VERTEX_LIMIT: u32 = 128;

/// Index capacity a renderer starts with.
pub const INITIAL_INDEX_LIMIT: u32 = 1024;

} // verus!
