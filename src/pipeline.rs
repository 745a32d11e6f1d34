use vstd::prelude::*;
use crate::constants::{INITIAL_INDEX_LIMIT, INITIAL_VERTEX_LIMIT};

verus! {

/// Settings of a renderer.
pub struct PipelineConfig {
    pub initial_vertex_buffer_size: usize,
}

/// The capacity a buffer of `current` elements grows to when it must hold
/// `needed`: half as large again, or `needed` where that is more, never past
/// `u32::MAX`.
pub open spec fn grown(current: u32, needed: u32) -> u32 {
    let half_again = if current + current / 2 > u32::MAX {
        u32::MAX as int
    } else {
        current + current / 2
    };
    if half_again >= needed {
        half_again as u32
    } else {
        needed
    }
}

/// Capacities, in elements, of the vertex and index buffers a renderer keeps
/// on the GPU.
#[derive(Clone, Copy, Debug, PartialEq, Eq, Structural)]
pub struct BufferLimits {
    pub vertex_limit: u32,
    pub index_limit: u32,
}

/// The capacity for `needed` elements in a buffer of `current`.
pub fn grow_limit(current: u32, needed: u32) -> (r: u32)
    ensures
        r == grown(current, needed),
        r >= needed,
        r >= current,
{
    let half_again = current.saturating_add(current / 2);
    if half_again >= needed {
        half_again
    } else {
        needed
    }
}

impl BufferLimits {
    /// The capacities a renderer starts with.
    pub fn initial() -> (r: Self)
        ensures
            r.vertex_limit == INITIAL_VERTEX_LIMIT,
            r.index_limit == INITIAL_INDEX_LIMIT,
    {
        BufferLimits { vertex_limit: INITIAL_VERTEX_LIMIT, index_limit: INITIAL_INDEX_LIMIT }
    }

    /// Makes room for a frame of `vertex_count` vertices and `index_count`
    /// indices. Returns, for each buffer, whether it must be created anew at
    /// its new capacity; a buffer that is large enough is kept as it is.
    pub fn reserve(&mut self, vertex_count: u32, index_count: u32) -> (r: (bool, bool))
        ensures
            r.0 <==> vertex_count > old(self).vertex_limit,
            r.1 <==> index_count > old(self).index_limit,
            final(self).vertex_limit == if r.0 {
                grown(old(self).vertex_limit, vertex_count)
            } else {
                old(self).vertex_limit
            },
            final(self).index_limit == if r.1 {
                grown(old(self).index_limit, index_count)
            } else {
                old(self).index_limit
            },
            final(self).vertex_limit >= vertex_count,
            final(self).index_limit >= index_count,
    {
        let grow_vertices = vertex_count > self.vertex_limit;
        if grow_vertices {
            self.vertex_limit = grow_limit(self.vertex_limit, vertex_count);
        }
        let grow_indices = index_count > self.index_limit;
        if grow_indices {
            self.index_limit = grow_limit(self.index_limit, index_count);
        }
        (grow_vertices, grow_indices)
    }
}

} // verus!
