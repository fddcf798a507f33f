use vstd::prelude::*;

verus! {

/// Argument block of an indirect draw call, in the layout the render stage's
/// device expects: the meshing stage fills one of these per chunk and the
/// render stage draws from it without a round trip.
#[derive(Clone, Copy, Debug)]
pub struct DrawIndirectPod {
    pub vertex_count: u32,
    pub instance_count: u32,
    pub base_vertex: u32,
    pub base_instance: u32,
}

impl Default for DrawIndirectPod {
    fn default() -> (d: Self)
        ensures
            d.vertex_count == 0,
            d.instance_count == 0,
            d.base_vertex == 0,
            d.base_instance == 0,
    {
        DrawIndirectPod { vertex_count: 0, instance_count: 0, base_vertex: 0, base_instance: 0 }
    }
}

} // verus!
