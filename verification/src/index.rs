//! The list index: for each list, the range of its entries among the sorted keys.
use vstd::prelude::*;
use crate::memory::Allocation;
use crate::pass::{
    Command, PassPlan, Pipeline, Resource, div_ceil, div_ceil_usize, pass_view, frame_resource,
    bindable, frame_binding, single_dispatch, single_dispatch_commands,
};

verus! {

/// Bytes of a list range: a `u32` pair.
pub const LIST_RANGE_SIZE: usize = 8;

/// Keys that one index workgroup handles.
pub const INDEX_WORKGROUP_SIZE: usize = 256;

/// The index's buffers.
#[derive(Clone, Copy, Debug, PartialEq, Eq)]
pub struct IndexBuffers {
    pub sorted_list_keys: Allocation,
    pub list_ranges: Allocation,
}

/// The index's part of the frame: nothing where a buffer is empty, else one
/// workgroup per 256 sorted keys (the count taken as a `u32`).
pub open spec fn index_pass_spec(b: IndexBuffers) -> Option<(Pipeline, Seq<Resource>, Seq<Command>)> {
    if b.sorted_list_keys.len == 0 || b.list_ranges.len == 0 {
        None
    } else {
        Some(
            (
                Pipeline::Index,
                seq![frame_resource(b.sorted_list_keys), frame_resource(b.list_ranges)],
                single_dispatch(div_ceil(b.sorted_list_keys.len as nat, 256) as u32, 1),
            ),
        )
    }
}

/// The index's part of the frame.
pub fn index_pass(buffers: &IndexBuffers) -> (plan: Option<PassPlan>)
    requires
        bindable(buffers.sorted_list_keys),
        bindable(buffers.list_ranges),
    ensures
        pass_view(plan) == index_pass_spec(*buffers),
{
    let sorted_list_keys = match frame_binding(&buffers.sorted_list_keys) {
        Some(r) => r,
        None => return None,
    };
    let list_ranges = match frame_binding(&buffers.list_ranges) {
        Some(r) => r,
        None => return None,
    };
    let mut resources: Vec<Resource> = Vec::new();
    resources.push(sorted_list_keys);
    resources.push(list_ranges);
    let dispatch_size = div_ceil_usize(buffers.sorted_list_keys.len, INDEX_WORKGROUP_SIZE) as u32;
    let commands = single_dispatch_commands(dispatch_size, 1);
    proof {
        assert(resources@ =~= (index_pass_spec(*buffers)->0).1);
    }
    Some(PassPlan { pipeline: Pipeline::Index, resources, commands })
}

} // verus!
