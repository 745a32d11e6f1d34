//! CPU-side geometry engine of a small real-time 3D scene toolkit.
//!
//! The verified part covers the scene graph (an arena of parented objects with
//! cascading deletion), the tessellation topology of every shape kind, and the
//! flat vertex/index buffer the tessellator fills. Coordinates are not computed
//! here: a vertex names the object it belongs to and a sample point of that
//! object's shape, which the caller evaluates with its own floating-point math.

pub mod constants;
pub mod geometry;
pub mod mesh;
pub mod transform;
pub mod world;
pub mod pipeline;
pub mod viewport;
pub mod window;
