//! Tiling: the target formats that the tile pass writes, and the tile pass,
//! one workgroup per 16 by 16 pixels of the target.
use vstd::prelude::*;
use crate::memory::Allocation;
use crate::pass::{
    Command, PassPlan, Pipeline, Resource, div_ceil, div_ceil_u32, pass_view, frame_resource,
    bindable, frame_binding, single_dispatch, single_dispatch_commands,
};

verus! {

/// The formats of render target that the tile pass writes.
#[derive(Clone, Copy, Debug, PartialEq, Eq)]
pub enum TargetFormat {
    Rgba8Unorm,
    Bgra8Unorm,
}

/// Pixels along each side of a tile.
pub const TILE_SIZE: u32 = 16;

/// `tiles` tiles of `TILE_SIZE` pixels cover `pixels` pixels, with less than
/// a tile to spare.
pub open spec fn tiles_cover(tiles: u32, pixels: u32) -> bool {
    &&& tiles * TILE_SIZE >= pixels
    &&& tiles * TILE_SIZE < pixels + TILE_SIZE
}

/// The last command of a pass dispatches a grid of tiles that covers a
/// `width` by `height` target, one layer deep.
pub open spec fn dispatch_covers(commands: Seq<Command>, width: u32, height: u32) -> bool {
    &&& commands.len() > 0
    &&& commands.last() matches Command::Dispatch(x, y, z)
    &&& tiles_cover(x, width)
    &&& tiles_cover(y, height)
    &&& z == 1
}

/// The tile pass's buffers.
#[derive(Clone, Copy, Debug, PartialEq, Eq)]
pub struct TileBuffers {
    pub params: Allocation,
    pub lists: Allocation,
    pub list_ranges: Allocation,
}

/// The tile pass's part of the frame for a `width` by `height` target: nothing
/// where a buffer is empty, else one workgroup per tile.
pub open spec fn tile_pass_spec(b: TileBuffers, width: u32, height: u32) -> Option<
    (Pipeline, Seq<Resource>, Seq<Command>),
> {
    if b.params.len == 0 || b.lists.len == 0 || b.list_ranges.len == 0 {
        None
    } else {
        Some(
            (
                Pipeline::Tile,
                seq![
                    Resource::Target,
                    frame_resource(b.lists),
                    frame_resource(b.list_ranges),
                    frame_resource(b.params),
                ],
                single_dispatch(
                    div_ceil(width as nat, 16) as u32,
                    div_ceil(height as nat, 16) as u32,
                ),
            ),
        )
    }
}

/// The tile pass's part of the frame.
pub fn tile_pass(buffers: &TileBuffers, width: u32, height: u32) -> (plan: Option<PassPlan>)
    requires
        bindable(buffers.params),
        bindable(buffers.lists),
        bindable(buffers.list_ranges),
    ensures
        pass_view(plan) == tile_pass_spec(*buffers, width, height),
        plan is Some ==> dispatch_covers(plan->0.commands@, width, height),
{
    let params = match frame_binding(&buffers.params) {
        Some(r) => r,
        None => return None,
    };
    let lists = match frame_binding(&buffers.lists) {
        Some(r) => r,
        None => return None,
    };
    let list_ranges = match frame_binding(&buffers.list_ranges) {
        Some(r) => r,
        None => return None,
    };
    let mut resources: Vec<Resource> = Vec::new();
    resources.push(Resource::Target);
    resources.push(lists);
    resources.push(list_ranges);
    resources.push(params);
    let x = div_ceil_u32(width, TILE_SIZE);
    let y = div_ceil_u32(height, TILE_SIZE);
    let commands = single_dispatch_commands(x, y);
    proof {
        assert(resources@ =~= (tile_pass_spec(*buffers, width, height)->0).1);
        lemma_tile_dispatch_covers_target(*buffers, width, height);
    }
    Some(PassPlan { pipeline: Pipeline::Tile, resources, commands })
}

/// Whenever the tile pass runs, its grid of tiles covers the whole target:
/// every pixel column and row lies in a tile, and no tile lies wholly outside.
pub proof fn lemma_tile_dispatch_covers_target(buffers: TileBuffers, width: u32, height: u32)
    ensures
        tile_pass_spec(buffers, width, height) is Some ==> dispatch_covers(
            (tile_pass_spec(buffers, width, height)->0).2,
            width,
            height,
        ),
{
    let x = div_ceil(width as nat, 16);
    let y = div_ceil(height as nat, 16);
    assert(x * 16 >= width && x * 16 < width + 16);
    assert(y * 16 >= height && y * 16 < height + 16);
    assert(x <= u32::MAX && y <= u32::MAX);
}

} // verus!
