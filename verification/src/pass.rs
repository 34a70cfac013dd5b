//! The compute passes of a frame, as data: which resources each pass binds,
//! and the commands that it records.
use vstd::prelude::*;
use crate::memory::{Allocation, BufferRange};

verus! {

/// The compute pipelines of the renderer.
#[derive(Clone, Copy, Debug, PartialEq, Eq)]
pub enum Pipeline {
    Tessellation,
    Sort,
    Index,
    Tile,
}

/// The entry point that a command selects; a pipeline with one entry point
/// uses `Main`.
#[derive(Clone, Copy, Debug, PartialEq, Eq)]
pub enum Stage {
    Main,
    CountKeys,
    MergeHistograms,
    InitOffsetHistogram,
    ScanHistograms,
    ScanKeys,
}

/// A resource of a pass's bind group; its binding number is its position.
#[derive(Clone, Copy, Debug, PartialEq, Eq)]
pub enum Resource {
    /// A range of the frame buffer.
    Frame(BufferRange),
    /// A range of the sort pipeline's uniform buffer.
    SortUniforms(BufferRange),
    /// The render target.
    Target,
}

/// A command of a compute pass.
#[derive(Clone, Copy, Debug, PartialEq, Eq)]
pub enum Command {
    /// Bind the pass's bind group at group 0, with a dynamic offset where given.
    SetBindGroup(Option<u32>),
    /// Select the pipeline of a stage.
    SetPipeline(Stage),
    /// Dispatch this many workgroups along x, y and z.
    Dispatch(u32, u32, u32),
}

/// One pipeline's part of the frame's compute pass.
#[derive(Debug, PartialEq, Eq)]
pub struct PassPlan {
    pub pipeline: Pipeline,
    pub resources: Vec<Resource>,
    pub commands: Vec<Command>,
}

/// `x` divided by `d`, rounded up.
pub open spec fn div_ceil(x: nat, d: nat) -> nat
    recommends
        d > 0,
{
    ((x + d - 1) / d as int) as nat
}

/// `x.div_ceil(d)`.
pub fn div_ceil_u32(x: u32, d: u32) -> (q: u32)
    requires
        d > 0,
    ensures
        q == div_ceil(x as nat, d as nat),
{
    proof {
        assert(x % d != 0 ==> x / d < u32::MAX) by (nonlinear_arith)
            requires
                d > 0,
                x <= u32::MAX,
        ;
    }
    let q = x / d + if x % d == 0 {
        0
    } else {
        1
    };
    proof {
        assert(q == div_ceil(x as nat, d as nat)) by (nonlinear_arith)
            requires
                d > 0,
                q == x / d + if x % d == 0 {
                    0int
                } else {
                    1int
                },
        ;
    }
    q
}

/// `x.div_ceil(d)`.
pub fn div_ceil_usize(x: usize, d: usize) -> (q: usize)
    requires
        d > 0,
    ensures
        q == div_ceil(x as nat, d as nat),
{
    proof {
        assert(x % d != 0 ==> x / d < usize::MAX) by (nonlinear_arith)
            requires
                d > 0,
                x <= usize::MAX,
        ;
    }
    let q = x / d + if x % d == 0 {
        0
    } else {
        1
    };
    proof {
        assert(q == div_ceil(x as nat, d as nat)) by (nonlinear_arith)
            requires
                d > 0,
                q == x / d + if x % d == 0 {
                    0int
                } else {
                    1int
                },
        ;
    }
    q
}

/// The commands of a pass with one pipeline: bind, select, dispatch.
pub open spec fn single_dispatch(x: u32, y: u32) -> Seq<Command> {
    seq![Command::SetBindGroup(None), Command::SetPipeline(Stage::Main), Command::Dispatch(x, y, 1)]
}

/// The commands of a pass with one pipeline: bind, select, dispatch.
pub fn single_dispatch_commands(x: u32, y: u32) -> (commands: Vec<Command>)
    ensures
        commands@ == single_dispatch(x, y),
{
    let mut commands: Vec<Command> = Vec::new();
    commands.push(Command::SetBindGroup(None));
    commands.push(Command::SetPipeline(Stage::Main));
    commands.push(Command::Dispatch(x, y, 1));
    proof {
        assert(commands@ =~= single_dispatch(x, y));
    }
    commands
}

/// The contents of a pass plan, or none.
pub open spec fn pass_view(plan: Option<PassPlan>) -> Option<(Pipeline, Seq<Resource>, Seq<Command>)> {
    match plan {
        Some(p) => Some((p.pipeline, p.resources@, p.commands@)),
        None => None,
    }
}

/// The binding of a non-empty region, as a frame resource.
pub open spec fn frame_resource(a: Allocation) -> Resource {
    Resource::Frame(
        BufferRange {
            offset: a.offset as u64,
            size: if a.len * a.elem_size == 0 {
                None
            } else {
                Some((a.len * a.elem_size) as u64)
            },
        },
    )
}

/// No two resources of a bind group are the same: each binding names its own
/// range.
pub open spec fn distinct_bindings(resources: Seq<Resource>) -> bool {
    forall|i: int, j: int|
        0 <= i < j < resources.len() ==> #[trigger] resources[i] != #[trigger] resources[j]
}

/// The binding of a region fits a `u64`.
pub open spec fn bindable(a: Allocation) -> bool {
    a.len * a.elem_size <= u64::MAX
}

/// The frame resource of a non-empty region, none for an empty one.
pub fn frame_binding(a: &Allocation) -> (resource: Option<Resource>)
    requires
        bindable(*a),
    ensures
        a.len == 0 ==> resource is None,
        a.len != 0 ==> resource == Some(frame_resource(*a)),
{
    match a.binding() {
        Some(range) => Some(Resource::Frame(range)),
        None => None,
    }
}

} // verus!
