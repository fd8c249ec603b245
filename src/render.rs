//! Where a renderable's vertices were placed in the renderer's batches.
use vstd::prelude::*;

verus! {

/// Identifies a batch of the renderer.
pub type BatchID = u32;

/// The place of a renderable's vertices: the batch, the index of the first
/// vertex in it, and the number of vertices.
#[derive(Debug, Clone, Copy, PartialEq, Eq, Structural)]
pub struct VertexLocation {
    batch: BatchID,
    vertices_offset: u32,
    vertices_count: u32,
}

impl VertexLocation {
    pub closed spec fn batch_spec(&self) -> BatchID {
        self.batch
    }

    pub closed spec fn offset_spec(&self) -> u32 {
        self.vertices_offset
    }

    pub closed spec fn count_spec(&self) -> u32 {
        self.vertices_count
    }

    pub fn new(batch: BatchID, vertices_offset: u32, vertices_count: u32) -> (r: VertexLocation)
        ensures
            r.batch_spec() == batch,
            r.offset_spec() == vertices_offset,
            r.count_spec() == vertices_count,
    {
        VertexLocation { batch, vertices_offset, vertices_count }
    }

    pub fn batch(&self) -> (r: &BatchID)
        ensures
            *r == self.batch_spec(),
    {
        &self.batch
    }

    pub fn offset(&self) -> (r: u32)
        ensures
            r == self.offset_spec(),
    {
        self.vertices_offset
    }

    pub fn count(&self) -> (r: u32)
        ensures
            r == self.count_spec(),
    {
        self.vertices_count
    }
}

} // verus!
