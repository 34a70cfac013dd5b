//! Tessellation: the path and point records that it reads, and its pass.
use vstd::prelude::*;
use crate::memory::Allocation;
use crate::pass::{
    Command, PassPlan, Pipeline, Resource, div_ceil, div_ceil_usize, pass_view, frame_resource,
    bindable, frame_binding, single_dispatch, single_dispatch_commands,
};

verus! {

/// Bytes of a point record: two `i32` coordinates, the path index and padding.
pub const POINT_SIZE: usize = 16;

/// Bytes of a path record: four `u32` fields.
pub const PATH_SIZE: usize = 16;

/// Bytes of a triangle record: two `u32` fields and three `u32` pairs.
pub const TRIANGLE_SIZE: usize = 32;

/// Points that one tessellation workgroup handles.
pub const TESSELLATION_WORKGROUP_SIZE: usize = 256;

/// A point of a path, in sample coordinates.
#[derive(Clone, Copy, Debug, PartialEq, Eq)]
pub struct Point {
    pub value: [i32; 2],
    pub path: u32,
    pub padding: u32,
}

/// A path: its points are `length` points from `offset`.
#[derive(Clone, Copy, Debug, PartialEq, Eq)]
pub struct Path {
    pub fraction_bits: u32,
    pub material: u32,
    pub offset: u32,
    pub length: u32,
}

/// The words of a point record, in field order; coordinates in two's complement.
pub open spec fn point_record(p: Point) -> Seq<u32> {
    seq![p.value[0] as u32, p.value[1] as u32, p.path, p.padding]
}

/// The words of a path record, in field order.
pub open spec fn path_record(p: Path) -> Seq<u32> {
    seq![p.fraction_bits, p.material, p.offset, p.length]
}

/// The words of the point records of `points`, one record after the other.
pub open spec fn point_records(points: Seq<Point>) -> Seq<u32>
    decreases points.len(),
{
    if points.len() == 0 {
        Seq::empty()
    } else {
        point_records(points.drop_last()) + point_record(points.last())
    }
}

/// The words of the path records of `paths`, one record after the other.
pub open spec fn path_records(paths: Seq<Path>) -> Seq<u32>
    decreases paths.len(),
{
    if paths.len() == 0 {
        Seq::empty()
    } else {
        path_records(paths.drop_last()) + path_record(paths.last())
    }
}

/// The words that the point records of `points` take in the frame buffer.
pub fn point_words(points: &Vec<Point>) -> (words: Vec<u32>)
    requires
        points.len() * 4 <= usize::MAX,
    ensures
        words@ == point_records(points@),
        words.len() == points.len() * 4,
{
    let mut words: Vec<u32> = Vec::new();
    let mut i: usize = 0;
    while i < points.len()
        invariant
            i <= points.len(),
            points.len() * 4 <= usize::MAX,
            words@ == point_records(points@.take(i as int)),
            words.len() == i * 4,
        decreases points.len() - i,
    {
        let p = points[i];
        words.push(p.value[0] as u32);
        words.push(p.value[1] as u32);
        words.push(p.path);
        words.push(p.padding);
        proof {
            assert(points@.take(i + 1).drop_last() =~= points@.take(i as int));
            assert(words@ =~= point_records(points@.take(i + 1)));
        }
        i = i + 1;
    }
    proof {
        assert(points@.take(points.len() as int) =~= points@);
    }
    words
}

/// The words that the path records of `paths` take in the frame buffer.
pub fn path_words(paths: &Vec<Path>) -> (words: Vec<u32>)
    requires
        paths.len() * 4 <= usize::MAX,
    ensures
        words@ == path_records(paths@),
        words.len() == paths.len() * 4,
{
    let mut words: Vec<u32> = Vec::new();
    let mut i: usize = 0;
    while i < paths.len()
        invariant
            i <= paths.len(),
            paths.len() * 4 <= usize::MAX,
            words@ == path_records(paths@.take(i as int)),
            words.len() == i * 4,
        decreases paths.len() - i,
    {
        let p = paths[i];
        words.push(p.fraction_bits);
        words.push(p.material);
        words.push(p.offset);
        words.push(p.length);
        proof {
            assert(paths@.take(i + 1).drop_last() =~= paths@.take(i as int));
            assert(words@ =~= path_records(paths@.take(i + 1)));
        }
        i = i + 1;
    }
    proof {
        assert(paths@.take(paths.len() as int) =~= paths@);
    }
    words
}

/// The tessellation's buffers.
#[derive(Clone, Copy, Debug, PartialEq, Eq)]
pub struct TessellationBuffers {
    pub points: Allocation,
    pub paths: Allocation,
    pub triangle_list_indices: Allocation,
    pub triangle_indices: Allocation,
    pub triangles: Allocation,
    pub uniforms: Allocation,
}

/// Every buffer of the tessellation is bindable.
pub open spec fn tessellation_bindable(b: TessellationBuffers) -> bool {
    &&& bindable(b.points)
    &&& bindable(b.paths)
    &&& bindable(b.triangle_list_indices)
    &&& bindable(b.triangle_indices)
    &&& bindable(b.triangles)
    &&& bindable(b.uniforms)
}

/// The tessellation's part of the frame: nothing where a buffer is empty, else
/// one workgroup per 256 points (the count taken as a `u32`).
pub open spec fn tessellation_pass_spec(b: TessellationBuffers) -> Option<
    (Pipeline, Seq<Resource>, Seq<Command>),
> {
    if b.points.len == 0 || b.paths.len == 0 || b.triangle_list_indices.len == 0
        || b.triangle_indices.len == 0 || b.triangles.len == 0 || b.uniforms.len == 0 {
        None
    } else {
        Some(
            (
                Pipeline::Tessellation,
                seq![
                    frame_resource(b.points),
                    frame_resource(b.paths),
                    frame_resource(b.triangle_list_indices),
                    frame_resource(b.triangle_indices),
                    frame_resource(b.triangles),
                    frame_resource(b.uniforms),
                ],
                single_dispatch(div_ceil(b.points.len as nat, 256) as u32, 1),
            ),
        )
    }
}

/// The tessellation's part of the frame. Every point makes one triangle, so
/// the triangle buffers hold as many entries as there are points.
pub fn tessellation_pass(buffers: &TessellationBuffers) -> (plan: Option<PassPlan>)
    requires
        buffers.triangles.len == buffers.triangle_list_indices.len,
        buffers.points.len == buffers.triangles.len,
        tessellation_bindable(*buffers),
    ensures
        pass_view(plan) == tessellation_pass_spec(*buffers),
{
    let points = match frame_binding(&buffers.points) {
        Some(r) => r,
        None => return None,
    };
    let paths = match frame_binding(&buffers.paths) {
        Some(r) => r,
        None => return None,
    };
    let triangle_list_indices = match frame_binding(&buffers.triangle_list_indices) {
        Some(r) => r,
        None => return None,
    };
    let triangle_indices = match frame_binding(&buffers.triangle_indices) {
        Some(r) => r,
        None => return None,
    };
    let triangles = match frame_binding(&buffers.triangles) {
        Some(r) => r,
        None => return None,
    };
    let uniforms = match frame_binding(&buffers.uniforms) {
        Some(r) => r,
        None => return None,
    };
    let mut resources: Vec<Resource> = Vec::new();
    resources.push(points);
    resources.push(paths);
    resources.push(triangle_list_indices);
    resources.push(triangle_indices);
    resources.push(triangles);
    resources.push(uniforms);
    let dispatch_size = div_ceil_usize(buffers.points.len, TESSELLATION_WORKGROUP_SIZE) as u32;
    let commands = single_dispatch_commands(dispatch_size, 1);
    proof {
        assert(resources@ =~= (tessellation_pass_spec(*buffers)->0).1);
    }
    Some(PassPlan { pipeline: Pipeline::Tessellation, resources, commands })
}

} // verus!
