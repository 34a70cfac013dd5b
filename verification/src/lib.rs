//! Planning for a GPU path renderer: the list hierarchy, the frame's buffer
//! layout, staging uploads and the compute passes that draw a frame.
pub mod lists;
pub mod memory;
pub mod staging;
pub mod pass;
pub mod sort;
pub mod target;
pub mod tessellation;
pub mod index;
pub mod tile;

use vstd::prelude::*;
use vstd::arithmetic::power2::{pow2, lemma_pow2_adds};
use crate::lists::{
    total_lists, lists_above, alternating_mask, lemma_shl_one, lemma_level_offset_closed_form,
    lemma_alternating_mask_bound,
};
use crate::memory::{
    Allocation, Allocator, BufferChoice, BufferRange, choose_buffer, choose_buffer_spec, layout_end,
    layout_fits, round_up,
};
use crate::staging::{
    UploadChunk, is_upload_plan, words_le_bytes, words_be_bytes, plan_upload, words_as_bytes,
    lemma_words_bytes_concat, lemma_words_bytes_len,
    staging_block_sizes, staging_block_size, STAGING_POOL_COUNT, StagingPools, pool_uses,
    lemma_pool_uses_add, add_pool_uses, handed_out_in_frame, after_frame, still_pending,
};
use crate::pass::{PassPlan, Resource, pass_view, bindable, frame_resource, distinct_bindings};
use crate::sort::{
    UniformLayout, SortBuffers, uniform_layout, is_uniform_layout, uniform_stride, sort_pass,
    sort_pass_spec, min_histogram_capacity, histogram_capacity, reduction_chain, merge_dispatches,
    total,
};
use crate::target::{fraction_bits_for, extent_of, sample_fraction_bits};
use crate::tessellation::{
    Path, Point, TessellationBuffers, tessellation_pass, tessellation_pass_spec, path_words,
    point_words, path_records, point_records, PATH_SIZE, POINT_SIZE, TRIANGLE_SIZE,
};
use crate::index::{IndexBuffers, index_pass, index_pass_spec, LIST_RANGE_SIZE};
use crate::tile::{TargetFormat, TileBuffers, tile_pass, tile_pass_spec, dispatch_covers};

verus! {

/// The state that the renderer keeps from one frame to the next: the layout of
/// the frame buffer, the target format, the sort's uniforms and the staging
/// pools' block sizes.
pub struct DrawContext {
    format: TargetFormat,
    allocator: Allocator,
    sort_uniforms: UniformLayout,
    block_sizes: Vec<usize>,
}

/// Bytes of a `u32` buffer entry.
pub const WORD_SIZE: usize = 4;

/// Bytes of a histogram: sixteen `u32` bins.
pub const HISTOGRAM_SIZE: usize = 64;

/// Points of the scene that a frame draws: one triangle.
pub const SCENE_POINTS: usize = 3;

/// The regions of a frame, in the order in which they are laid out.
#[derive(Clone, Copy, Debug, PartialEq, Eq)]
pub struct FrameLayout {
    pub paths: Allocation,
    pub points: Allocation,
    pub triangles: Allocation,
    pub triangle_list_indices: Allocation,
    pub triangle_indices: Allocation,
    pub temp_keys: Allocation,
    pub temp_lists: Allocation,
    pub histograms: Allocation,
    pub list_ranges: Allocation,
    pub params: Allocation,
}

impl FrameLayout {
    /// The regions, in layout order.
    pub open spec fn regions(self) -> Seq<Allocation> {
        seq![
            self.paths,
            self.points,
            self.triangles,
            self.triangle_list_indices,
            self.triangle_indices,
            self.temp_keys,
            self.temp_lists,
            self.histograms,
            self.list_ranges,
            self.params,
        ]
    }

    /// The tessellation's buffers.
    pub open spec fn tessellation_buffers(self) -> TessellationBuffers {
        TessellationBuffers {
            points: self.points,
            paths: self.paths,
            triangle_list_indices: self.triangle_list_indices,
            triangle_indices: self.triangle_indices,
            triangles: self.triangles,
            uniforms: self.params,
        }
    }

    /// The sort's buffers: the list keys of the triangles are what it sorts.
    pub open spec fn sort_buffers(self) -> SortBuffers {
        SortBuffers {
            keys: self.triangle_list_indices,
            temp_keys: self.temp_keys,
            histograms: self.histograms,
        }
    }

    /// The index's buffers.
    pub open spec fn index_buffers(self) -> IndexBuffers {
        IndexBuffers { sorted_list_keys: self.triangle_list_indices, list_ranges: self.list_ranges }
    }

    /// The tile pass's buffers.
    pub open spec fn tile_buffers(self) -> TileBuffers {
        TileBuffers { params: self.params, lists: self.triangle_indices, list_ranges: self.list_ranges }
    }
}

/// The regions of a layout lie apart: none is empty or holds elements of no
/// size, and no two overlap.
pub open spec fn regions_apart(layout: FrameLayout) -> bool {
    &&& forall|i: int| 0 <= i < 10 ==> #[trigger] layout.regions()[i].len > 0
    &&& forall|i: int| 0 <= i < 10 ==> #[trigger] layout.regions()[i].elem_size > 0
    &&& forall|i: int, j: int|
        0 <= i < 10 && 0 <= j < 10 && i != j ==> (#[trigger] layout.regions()[i].end()
            <= #[trigger] layout.regions()[j].offset || layout.regions()[j].end()
            <= layout.regions()[i].offset)
}

/// The passes of a frame hand their data on through the layout's regions: the
/// tessellation writes the triangles' list keys to `triangle_list_indices` and
/// their indices to `triangle_indices`; the sort sorts the keys in
/// `triangle_list_indices`, which the index pass then reads as its sorted
/// list keys; the tile pass reads the triangle indices from
/// `triangle_indices`.
pub proof fn lemma_frame_passes_share_regions(
    layout: FrameLayout,
    uniform_offsets: Seq<u32>,
    width: u32,
    height: u32,
)
    ensures
        tessellation_pass_spec(layout.tessellation_buffers()) is Some ==> {
            let bound = (tessellation_pass_spec(layout.tessellation_buffers())->0).1;
            &&& bound[0] == frame_resource(layout.points)
            &&& bound[1] == frame_resource(layout.paths)
            &&& bound[2] == frame_resource(layout.triangle_list_indices)
            &&& bound[3] == frame_resource(layout.triangle_indices)
            &&& bound[4] == frame_resource(layout.triangles)
            &&& bound[5] == frame_resource(layout.params)
        },
        sort_pass_spec(layout.sort_buffers(), uniform_offsets) is Some ==> {
            let bound = (sort_pass_spec(layout.sort_buffers(), uniform_offsets)->0).1;
            &&& bound[0] == frame_resource(layout.triangle_list_indices)
            &&& bound[1] == frame_resource(layout.temp_keys)
            &&& bound[2] == frame_resource(layout.histograms)
        },
        index_pass_spec(layout.index_buffers()) is Some ==> {
            let bound = (index_pass_spec(layout.index_buffers())->0).1;
            &&& bound[0] == frame_resource(layout.triangle_list_indices)
            &&& bound[1] == frame_resource(layout.list_ranges)
        },
        tile_pass_spec(layout.tile_buffers(), width, height) is Some ==> {
            let bound = (tile_pass_spec(layout.tile_buffers(), width, height)->0).1;
            &&& bound[1] == frame_resource(layout.triangle_indices)
            &&& bound[2] == frame_resource(layout.list_ranges)
            &&& bound[3] == frame_resource(layout.params)
        },
{
}

/// Two regions that lie apart bind different ranges.
proof fn lemma_apart_regions_bind_apart(a: Allocation, b: Allocation)
    requires
        a.elem_size > 0,
        b.elem_size > 0,
        a.end() <= b.offset || b.end() <= a.offset,
    ensures
        frame_resource(a) != frame_resource(b),
{
    if a.len != 0 {
        assert(a.elem_size * a.len > 0) by (nonlinear_arith)
            requires
                a.elem_size > 0,
                a.len > 0,
        ;
    }
    if b.len != 0 {
        assert(b.elem_size * b.len > 0) by (nonlinear_arith)
            requires
                b.elem_size > 0,
                b.len > 0,
        ;
    }
    assert(a.footprint() > 0 && b.footprint() > 0);
    assert(a.offset != b.offset);
    assert(usize::MAX <= u64::MAX);
    assert(a.offset as u64 != b.offset as u64);
}

/// In a layout whose regions lie apart, every pass of the frame runs, no pass
/// binds one range twice, and the sort's keys are not the tile pass's
/// triangle indices.
pub proof fn lemma_frame_pass_bindings_distinct(
    layout: FrameLayout,
    uniform_offsets: Seq<u32>,
    width: u32,
    height: u32,
)
    requires
        regions_apart(layout),
    ensures
        tessellation_pass_spec(layout.tessellation_buffers()) is Some,
        sort_pass_spec(layout.sort_buffers(), uniform_offsets) is Some,
        index_pass_spec(layout.index_buffers()) is Some,
        tile_pass_spec(layout.tile_buffers(), width, height) is Some,
        distinct_bindings((tessellation_pass_spec(layout.tessellation_buffers())->0).1),
        distinct_bindings((sort_pass_spec(layout.sort_buffers(), uniform_offsets)->0).1),
        distinct_bindings((index_pass_spec(layout.index_buffers())->0).1),
        distinct_bindings((tile_pass_spec(layout.tile_buffers(), width, height)->0).1),
        (sort_pass_spec(layout.sort_buffers(), uniform_offsets)->0).1[0] != (tile_pass_spec(
            layout.tile_buffers(),
            width,
            height,
        )->0).1[1],
{
    lemma_region_fields(layout);
    let r = layout.regions();
    assert forall|i: int, j: int| 0 <= i < 10 && 0 <= j < 10 && i != j implies frame_resource(
        #[trigger] r[i],
    ) != frame_resource(#[trigger] r[j]) by {
        assert(r[i].len > 0 && r[i].elem_size > 0);
        assert(r[j].len > 0 && r[j].elem_size > 0);
        lemma_apart_regions_bind_apart(r[i], r[j]);
    }
    lemma_frame_passes_share_regions(layout, uniform_offsets, width, height);
    let t = (tessellation_pass_spec(layout.tessellation_buffers())->0).1;
    let s = (sort_pass_spec(layout.sort_buffers(), uniform_offsets)->0).1;
    let x = (index_pass_spec(layout.index_buffers())->0).1;
    let g = (tile_pass_spec(layout.tile_buffers(), width, height)->0).1;
    // The regions each pass binds, by their place in the layout.
    let tr = seq![1int, 0, 3, 4, 2, 9];
    assert forall|i: int, j: int| 0 <= i < j < t.len() implies #[trigger] t[i] != #[trigger] t[j] by {
        assert(t[i] == frame_resource(r[tr[i]]));
        assert(t[j] == frame_resource(r[tr[j]]));
    }
    let sr = seq![3int, 5, 7];
    assert forall|i: int, j: int| 0 <= i < j < s.len() implies #[trigger] s[i] != #[trigger] s[j] by {
        if j < 3 {
            assert(s[i] == frame_resource(r[sr[i]]));
            assert(s[j] == frame_resource(r[sr[j]]));
        }
    }
    assert forall|i: int, j: int| 0 <= i < j < x.len() implies #[trigger] x[i] != #[trigger] x[j] by {
        assert(x[0] == frame_resource(r[3]));
        assert(x[1] == frame_resource(r[8]));
    }
    let gr = seq![0int, 4, 8, 9];
    assert forall|i: int, j: int| 0 <= i < j < g.len() implies #[trigger] g[i] != #[trigger] g[j] by {
        if i > 0 {
            assert(g[i] == frame_resource(r[gr[i]]));
            assert(g[j] == frame_resource(r[gr[j]]));
        }
    }
    assert(s[0] == frame_resource(r[3]));
    assert(g[1] == frame_resource(r[4]));
}

/// The passes of a frame over `layout` all run and hand their data on through
/// its regions: the sort sorts the list keys that the tessellation wrote to
/// `triangle_list_indices` and that the index pass reads; the tile pass reads
/// the triangle indices that the tessellation wrote to `triangle_indices`, a
/// range apart from the keys; no pass binds one range twice; and the tile
/// pass's grid covers the `width` by `height` target.
pub open spec fn passes_hand_on(
    layout: FrameLayout,
    tessellation: Option<PassPlan>,
    sort: Option<PassPlan>,
    index: Option<PassPlan>,
    tile: Option<PassPlan>,
    width: u32,
    height: u32,
) -> bool {
    &&& tessellation is Some
    &&& sort is Some
    &&& index is Some
    &&& tile is Some
    &&& {
        let t = tessellation->0.resources@;
        let s = sort->0.resources@;
        let x = index->0.resources@;
        let g = tile->0.resources@;
        &&& t.len() == 6 && s.len() == 4 && x.len() == 2 && g.len() == 4
        &&& t[0] == frame_resource(layout.points)
        &&& t[1] == frame_resource(layout.paths)
        &&& t[4] == frame_resource(layout.triangles)
        &&& t[5] == frame_resource(layout.params)
        &&& s[0] == frame_resource(layout.triangle_list_indices)
        &&& s[1] == frame_resource(layout.temp_keys)
        &&& s[2] == frame_resource(layout.histograms)
        &&& t[2] == s[0]
        &&& x[0] == s[0]
        &&& x[1] == frame_resource(layout.list_ranges)
        &&& g[0] == Resource::Target
        &&& g[1] == frame_resource(layout.triangle_indices)
        &&& g[2] == x[1]
        &&& g[3] == t[5]
        &&& t[3] == g[1]
        &&& s[0] != g[1]
        &&& distinct_bindings(t)
        &&& distinct_bindings(s)
        &&& distinct_bindings(x)
        &&& distinct_bindings(g)
        &&& dispatch_covers(tile->0.commands@, width, height)
    }
}

/// The region requests of a frame (element size, element count), in layout order.
pub open spec fn frame_requests(list_count: nat) -> Seq<(usize, usize)> {
    let histograms = histogram_capacity(SCENE_POINTS as u32) as usize;
    seq![
        (PATH_SIZE, 1usize),
        (POINT_SIZE, SCENE_POINTS),
        (TRIANGLE_SIZE, SCENE_POINTS),
        (WORD_SIZE, SCENE_POINTS),
        (WORD_SIZE, SCENE_POINTS),
        (WORD_SIZE, SCENE_POINTS),
        (WORD_SIZE, SCENE_POINTS),
        (HISTOGRAM_SIZE, histograms),
        (LIST_RANGE_SIZE, list_count as usize),
        (WORD_SIZE, 1usize),
    ]
}

/// The paths of the scene: one path of the three scene points.
pub open spec fn scene_paths() -> Seq<Path> {
    seq![Path { fraction_bits: 0, material: u32::MAX, offset: 0, length: 3 }]
}

/// The points of the scene: a triangle.
pub open spec fn scene_points() -> Seq<Point> {
    seq![
        Point { value: [100, 100], path: 0, padding: 0 },
        Point { value: [200, 100], path: 0, padding: 0 },
        Point { value: [150, 200], path: 0, padding: 0 },
    ]
}

/// The bytes of `words`, least significant byte first where `little`, most
/// significant first otherwise.
pub open spec fn word_bytes(words: Seq<u32>, little: bool) -> Seq<u8> {
    if little {
        words_le_bytes(words)
    } else {
        words_be_bytes(words)
    }
}

/// The uploads of the scene, all in one byte order: the sample fraction bits
/// to the params region, the path record to the paths region and the point
/// records to the points region.
pub open spec fn scene_uploads(
    params_upload: Seq<UploadChunk>,
    paths_upload: Seq<UploadChunk>,
    points_upload: Seq<UploadChunk>,
    block_sizes: Seq<usize>,
    layout: FrameLayout,
    sample_fraction_bits: u32,
    little: bool,
) -> bool {
    &&& is_upload_plan(
        params_upload,
        block_sizes,
        layout.params.offset as nat,
        word_bytes(seq![sample_fraction_bits], little),
    )
    &&& is_upload_plan(
        paths_upload,
        block_sizes,
        layout.paths.offset as nat,
        word_bytes(path_records(scene_paths()), little),
    )
    &&& is_upload_plan(
        points_upload,
        block_sizes,
        layout.points.offset as nat,
        word_bytes(point_records(scene_points()), little),
    )
}

/// Everything that drawing a frame does, as data: the frame buffer's layout
/// and whether it needs a new buffer, what is uploaded, through which staging
/// buffers, and what is cleared, and the compute passes in the order in which
/// they run.
#[derive(Debug, PartialEq, Eq)]
pub struct FramePlan<B> {
    pub sample_fraction_bits: u32,
    pub list_count: u32,
    pub layout: FrameLayout,
    pub buffer_size: u64,
    pub buffer: BufferChoice,
    pub params_upload: Vec<UploadChunk>,
    pub paths_upload: Vec<UploadChunk>,
    pub points_upload: Vec<UploadChunk>,
    /// Per staging pool, the buffers that its chunks use, in chunk order; none
    /// where the pool has no buffer left.
    pub staging_buffers: Vec<Vec<Option<B>>>,
    /// Per staging pool, the buffers that arrived during the frame and were not
    /// used: they are the first to come back in the next frame.
    pub still_pending: Vec<Vec<B>>,
    pub clear: Option<BufferRange>,
    pub tessellation: Option<PassPlan>,
    pub sort: Option<PassPlan>,
    pub index: Option<PassPlan>,
    pub tile: Option<PassPlan>,
}

/// A list of paths to draw.
pub struct DrawList {
}

impl DrawContext {
    /// Between frames the layout is empty, the sort has one uniform per round,
    /// and the staging pools have their block sizes.
    pub closed spec fn wf(&self) -> bool {
        &&& self.allocator.wf()
        &&& self.allocator.next_offset() == 0
        &&& self.allocator.regions() == Seq::<Allocation>::empty()
        &&& self.sort_uniforms.offsets.len() == crate::sort::SORT_ROUNDS
        &&& self.block_sizes.len() == STAGING_POOL_COUNT
        &&& forall|i: int|
            0 <= i < self.block_sizes.len() ==> self.block_sizes@[i] == staging_block_size(i as nat)
    }

    /// The alignment of every region of the frame buffer.
    pub closed spec fn storage_alignment(&self) -> nat {
        self.allocator.alignment()
    }

    /// The sort's uniform buffer.
    pub closed spec fn sort_uniform_layout(&self) -> &UniformLayout {
        &self.sort_uniforms
    }

    /// The block sizes of the staging pools.
    pub closed spec fn staging_sizes(&self) -> Seq<usize> {
        self.block_sizes@
    }

    /// The format of the render target.
    pub closed spec fn target_format(&self) -> TargetFormat {
        self.format
    }

    /// The format of the render target.
    pub fn get_target_format(&self) -> (format: TargetFormat)
        ensures
            format == self.target_format(),
    {
        self.format
    }

    /// A context for a target of `format` on a device whose storage buffer
    /// offsets need `min_storage_buffer_offset_alignment` and whose uniform
    /// buffer offsets need `min_uniform_buffer_offset_alignment`.
    pub fn new(
        format: TargetFormat,
        min_storage_buffer_offset_alignment: u32,
        min_uniform_buffer_offset_alignment: u32,
    ) -> (context: DrawContext)
        requires
            min_uniform_buffer_offset_alignment > 0,
            7 * uniform_stride(min_uniform_buffer_offset_alignment) + 4 <= usize::MAX,
        ensures
            context.wf(),
            context.target_format() == format,
            context.storage_alignment() == (if min_storage_buffer_offset_alignment < 4 {
                4
            } else {
                min_storage_buffer_offset_alignment as nat
            }),
            is_uniform_layout(*context.sort_uniform_layout(), min_uniform_buffer_offset_alignment),
            context.staging_sizes().len() == STAGING_POOL_COUNT,
            forall|i: int|
                0 <= i < STAGING_POOL_COUNT ==> #[trigger] context.staging_sizes()[i]
                    == staging_block_size(i as nat),
    {
        let allocator = Allocator::new(min_storage_buffer_offset_alignment);
        let sort_uniforms = uniform_layout(min_uniform_buffer_offset_alignment);
        let block_sizes = staging_block_sizes();
        DrawContext { format, allocator, sort_uniforms, block_sizes }
    }

    /// The sort's uniform buffer.
    pub fn sort_uniforms(&self) -> (uniforms: &UniformLayout)
        ensures
            uniforms == self.sort_uniform_layout(),
    {
        &self.sort_uniforms
    }

    /// The block sizes of the staging pools, smallest first.
    pub fn staging_block_sizes(&self) -> (sizes: &Vec<usize>)
        ensures
            sizes@ == self.staging_sizes(),
    {
        &self.block_sizes
    }

    /// Whether `render` can plan a frame of a `width` by `height` target: its
    /// larger side needs at most thirteen bits, and the frame's layout fits
    /// the address space.
    pub fn can_render(&self, width: u32, height: u32) -> (ok: bool)
        requires
            self.wf(),
        ensures
            ok == (fraction_bits_for(extent_of(width, height)) is Some && layout_end(
                0,
                self.storage_alignment(),
                frame_requests(total_lists(fraction_bits_for(extent_of(width, height))->0)),
            ) <= usize::MAX),
    {
        match sample_fraction_bits(width, height) {
            Some(bits) => {
                let list_count = Self::total_list_count(bits);
                let requests = frame_request_list(list_count);
                layout_fits(0, self.allocator.get_alignment(), &requests)
            },
            None => false,
        }
    }

    /// Plans a frame of a `width` by `height` target whose frame buffer holds
    /// `current_buffer` bytes, if there is one, and runs the frame of every
    /// staging pool: pool `p` files `returned[p]`, the buffers that came back
    /// to it before the frame, hands out one buffer per chunk that it carries
    /// (first those of `arrived[p]`, which came back since, earliest first,
    /// then its free buffers, newest first), and drops the buffers kept too
    /// long.
    #[verifier::rlimit(80)]
    pub fn render<B>(
        &mut self,
        width: u32,
        height: u32,
        current_buffer: Option<u64>,
        pools: &mut StagingPools<B>,
        returned: Vec<Vec<B>>,
        arrived: Vec<Vec<B>>,
    ) -> (plan: FramePlan<B>)
        requires
            old(self).wf(),
            old(pools).lists().len() == STAGING_POOL_COUNT,
            returned.len() == STAGING_POOL_COUNT,
            arrived.len() == STAGING_POOL_COUNT,
            forall|p: int|
                0 <= p < STAGING_POOL_COUNT ==> #[trigger] old(pools).lists()[p].frame_index()
                    < usize::MAX,
            fraction_bits_for(extent_of(width, height)) is Some,
            layout_end(
                0,
                old(self).storage_alignment(),
                frame_requests(total_lists(fraction_bits_for(extent_of(width, height))->0)),
            ) <= usize::MAX,
        ensures
            final(self).wf(),
            final(self).storage_alignment() == old(self).storage_alignment(),
            final(self).sort_uniform_layout() == old(self).sort_uniform_layout(),
            final(self).staging_sizes() == old(self).staging_sizes(),
            final(self).target_format() == old(self).target_format(),
            final(pools).lists().len() == STAGING_POOL_COUNT,
            plan.staging_buffers.len() == STAGING_POOL_COUNT,
            plan.still_pending.len() == STAGING_POOL_COUNT,
            forall|p: int|
                0 <= p < STAGING_POOL_COUNT ==> {
                    let before = #[trigger] old(pools).lists()[p];
                    let after = final(pools).lists()[p];
                    let uses = pool_uses(
                        plan.params_upload@ + plan.paths_upload@ + plan.points_upload@,
                        p,
                    );
                    &&& after.frame_index() == before.frame_index() + 1
                    &&& plan.still_pending@[p]@ == still_pending(arrived@[p]@, uses)
                    &&& plan.staging_buffers@[p]@ == handed_out_in_frame(
                        before.frame_index(),
                        before.entries(),
                        returned@[p]@,
                        arrived@[p]@,
                        uses,
                    )
                    &&& after.entries() == after_frame(
                        before.frame_index(),
                        before.entries(),
                        returned@[p]@,
                        arrived@[p]@,
                        uses,
                    )
                    &&& before.is_ordered() ==> after.is_ordered()
                },
            ({
                let bits = fraction_bits_for(extent_of(width, height))->0;
                let align = old(self).storage_alignment();
                let regions = plan.layout.regions();
                let requests = frame_requests(total_lists(bits));
                &&& plan.sample_fraction_bits == bits
                &&& plan.list_count == total_lists(bits)
                &&& forall|i: int|
                    0 <= i < 10 ==> {
                        &&& #[trigger] regions[i].elem_size == requests[i].0
                        &&& regions[i].len == requests[i].1
                        &&& regions[i].offset == round_up(
                            if i == 0 {
                                0
                            } else {
                                regions[i - 1].end()
                            },
                            align,
                        )
                    }
                &&& plan.buffer_size == regions[9].end()
                &&& plan.buffer_size == layout_end(0, align, requests)
                &&& forall|i: int, j: int|
                    0 <= i < 10 && 0 <= j < 10 && i != j ==> {
                        &&& (#[trigger] regions[i].offset as nat) % align == 0
                        &&& regions[i].end() <= plan.buffer_size
                        &&& (regions[i].end() <= #[trigger] regions[j].offset || regions[j].end()
                            <= regions[i].offset)
                    }
                &&& plan.buffer == choose_buffer_spec(current_buffer, plan.buffer_size)
                &&& (scene_uploads(
                    plan.params_upload@,
                    plan.paths_upload@,
                    plan.points_upload@,
                    old(self).staging_sizes(),
                    plan.layout,
                    bits,
                    true,
                ) || scene_uploads(
                    plan.params_upload@,
                    plan.paths_upload@,
                    plan.points_upload@,
                    old(self).staging_sizes(),
                    plan.layout,
                    bits,
                    false,
                ))
                &&& plan.clear == Some(
                    BufferRange {
                        offset: plan.layout.list_ranges.offset as u64,
                        size: Some((plan.layout.list_ranges.len * LIST_RANGE_SIZE) as u64),
                    },
                )
                &&& pass_view(plan.tessellation) == tessellation_pass_spec(
                    plan.layout.tessellation_buffers(),
                )
                &&& pass_view(plan.sort) == sort_pass_spec(
                    plan.layout.sort_buffers(),
                    old(self).sort_uniform_layout().offsets@,
                )
                &&& pass_view(plan.index) == index_pass_spec(plan.layout.index_buffers())
                &&& pass_view(plan.tile) == tile_pass_spec(plan.layout.tile_buffers(), width, height)
            }),
            regions_apart(plan.layout),
            passes_hand_on(plan.layout, plan.tessellation, plan.sort, plan.index, plan.tile, width, height),
    {
        let sample_fraction_bits = match sample_fraction_bits(width, height) {
            Some(bits) => bits,
            None => {
                proof {
                    assert(false);
                }
                0
            },
        };
        let list_count = Self::total_list_count(sample_fraction_bits);
        let layout = lay_out_frame(&mut self.allocator, list_count);
        proof {
            lemma_layout_bindable(layout);
        }
        let buffer_size = self.allocator.finalize();
        let buffer = choose_buffer(current_buffer, buffer_size);
        let (params_upload, paths_upload, points_upload) = plan_scene_uploads(
            &self.block_sizes,
            &layout,
            sample_fraction_bits,
        );
        proof {
            vstd::arithmetic::power2::lemma_pow2_pos(2 * crate::lists::root_level(sample_fraction_bits));
            lemma_region_fields(layout);
            assert(layout.list_ranges.len == list_count);
            assert(layout.list_ranges.len * LIST_RANGE_SIZE != 0) by (nonlinear_arith)
                requires
                    layout.list_ranges.len >= 1,
            ;
            lemma_frame_layout_apart(layout, self.allocator.alignment() as nat, list_count as nat);
        }
        let clear = layout.list_ranges.binding();
        let (staging_buffers, still_pending) = cycle_staging_pools(
            pools,
            returned,
            arrived,
            &params_upload,
            &paths_upload,
            &points_upload,
        );
        let (tessellation, sort, index, tile) = plan_passes(
            &layout,
            &self.sort_uniforms.offsets,
            width,
            height,
        );
        FramePlan {
            sample_fraction_bits,
            list_count,
            layout,
            buffer_size,
            buffer,
            params_upload,
            paths_upload,
            points_upload,
            staging_buffers,
            still_pending,
            clear,
            tessellation,
            sort,
            index,
            tile,
        }
    }

    /// Number of draw lists of the hierarchy for the given sample fraction bits.
    pub fn total_list_count(sample_fraction_bits: u32) -> (count: u32)
        ensures
            count == total_lists(sample_fraction_bits),
    {
        let f = if sample_fraction_bits < 1 {
            1
        } else if sample_fraction_bits > 11 {
            11
        } else {
            sample_fraction_bits
        };
        let root_level = 11 - f;
        if root_level == 0 {
            proof {
                vstd::arithmetic::power2::lemma2_to64();
            }
            return 1;
        }
        let bottom_base = Self::level_offset(root_level);
        proof {
            lemma_shl_one((2 * root_level) as u32);
            lemma_level_offset_closed_form(root_level);
            vstd::arithmetic::power2::lemma2_to64();
            vstd::arithmetic::power2::lemma_pow2_strictly_increases((2 * root_level) as nat, 21);
        }
        let bottom_lists = 1u32 << (2 * root_level);
        bottom_base + bottom_lists
    }

    /// Index of the first list of `level`: the number of lists on all coarser levels.
    fn level_offset(level: u32) -> (offset: u32)
        requires
            1 <= level <= 15,
        ensures
            offset == lists_above(level as nat),
            offset <= 0x5560_0000,
    {
        proof {
            lemma_level_offset_closed_form(level);
            lemma_shl_one((2 * level) as u32);
            lemma_shl_one((level + 4) as u32);
            lemma_pow2_adds(level as nat, 4);
            vstd::arithmetic::power2::lemma2_to64();
            assert(alternating_mask(level) <= 0x1555_5555u32 && 1 <= alternating_mask(level)) by {
                lemma_alternating_mask_bound(level);
            }
            vstd::arithmetic::power2::lemma_pow2_strictly_increases(level as nat, 16);
        }
        let alternating = 0x5555_5555u32;
        let low_bits = (1u32 << (2 * level)) - 1;
        let geometric = (alternating & low_bits) - 1;
        proof {
            vstd::bits::lemma_u32_shl_is_mul(geometric, 2);
        }
        let square_sum = geometric << 2;
        let linear_sum = (1u32 << (level + 4)) - 32;
        let constant_sum = 16 * (level - 1);
        1 + square_sum + linear_sum + constant_sum
    }
}

/// `layout` is the frame's layout for `list_count` lists: the regions of
/// `frame_requests`, each at the first aligned offset after the one before.
pub open spec fn is_frame_layout(layout: FrameLayout, align: nat, list_count: nat) -> bool {
    let regions = layout.regions();
    let requests = frame_requests(list_count);
    forall|i: int|
        0 <= i < 10 ==> {
            &&& #[trigger] regions[i].elem_size == requests[i].0
            &&& regions[i].len == requests[i].1
            &&& regions[i].offset == round_up(
                if i == 0 {
                    0
                } else {
                    regions[i - 1].end()
                },
                align,
            )
        }
}

/// The scene's sort needs two histograms: one for counting its three keys and
/// one for merging.
proof fn lemma_scene_histograms()
    ensures
        histogram_capacity(SCENE_POINTS as u32) == 2,
{
    reveal_with_fuel(reduction_chain, 2);
    assert(crate::pass::div_ceil(3, 256) == 1);
    assert(reduction_chain(1) =~= Seq::<u32>::empty());
    assert(reduction_chain(3) =~= seq![3u32]);
    assert(merge_dispatches(3) =~= seq![1u32]);
    assert(seq![1u32].drop_last() =~= Seq::<u32>::empty());
    assert(total(Seq::<u32>::empty()) == 0);
    assert(seq![1u32].last() == 1u32);
    assert(total(seq![1u32]) == total(seq![1u32].drop_last()) + 1);
}

/// A frame layout with at least one list, whose regions do not overlap, has
/// its regions apart.
proof fn lemma_frame_layout_apart(layout: FrameLayout, align: nat, list_count: nat)
    requires
        is_frame_layout(layout, align, list_count),
        1 <= list_count <= usize::MAX,
        forall|i: int, j: int|
            0 <= i < 10 && 0 <= j < 10 && i != j ==> (layout.regions()[i].end()
                <= #[trigger] layout.regions()[j].offset || layout.regions()[j].end()
                <= #[trigger] layout.regions()[i].offset),
    ensures
        regions_apart(layout),
{
    lemma_scene_histograms();
    let requests = frame_requests(list_count);
    assert forall|i: int| 0 <= i < 10 implies #[trigger] layout.regions()[i].len > 0
        && layout.regions()[i].elem_size > 0 by {
        assert(layout.regions()[i].elem_size == requests[i].0);
        assert(layout.regions()[i].len == requests[i].1);
    }
}

/// The region requests of a frame with `list_count` lists.
fn frame_request_list(list_count: u32) -> (requests: Vec<(usize, usize)>)
    ensures
        requests@ == frame_requests(list_count as nat),
{
    let histograms = min_histogram_capacity(SCENE_POINTS);
    let mut requests: Vec<(usize, usize)> = Vec::new();
    requests.push((PATH_SIZE, 1));
    requests.push((POINT_SIZE, SCENE_POINTS));
    requests.push((TRIANGLE_SIZE, SCENE_POINTS));
    requests.push((WORD_SIZE, SCENE_POINTS));
    requests.push((WORD_SIZE, SCENE_POINTS));
    requests.push((WORD_SIZE, SCENE_POINTS));
    requests.push((WORD_SIZE, SCENE_POINTS));
    requests.push((HISTOGRAM_SIZE, histograms));
    requests.push((LIST_RANGE_SIZE, list_count as usize));
    requests.push((WORD_SIZE, 1));
    proof {
        assert(requests@ =~= frame_requests(list_count as nat));
    }
    requests
}

/// Lays out the regions of a frame with `list_count` lists.
fn lay_out_frame(allocator: &mut Allocator, list_count: u32) -> (layout: FrameLayout)
    requires
        old(allocator).wf(),
        old(allocator).next_offset() == 0,
        old(allocator).regions() == Seq::<Allocation>::empty(),
        layout_end(0, old(allocator).alignment(), frame_requests(list_count as nat)) <= usize::MAX,
    ensures
        final(allocator).wf(),
        final(allocator).alignment() == old(allocator).alignment(),
        final(allocator).regions() == layout.regions(),
        final(allocator).next_offset() == layout_end(
            0,
            old(allocator).alignment(),
            frame_requests(list_count as nat),
        ),
        final(allocator).next_offset() == layout.params.end(),
        is_frame_layout(layout, old(allocator).alignment(), list_count as nat),
        forall|i: int| 0 <= i < 10 ==> #[trigger] layout.regions()[i].end() <= final(allocator).next_offset(),
        forall|i: int, j: int|
            0 <= i < 10 && 0 <= j < 10 && i != j ==> {
                &&& (#[trigger] layout.regions()[i].offset as nat) % old(allocator).alignment() == 0
                &&& layout.regions()[i].end() <= final(allocator).next_offset()
                &&& (layout.regions()[i].end() <= #[trigger] layout.regions()[j].offset
                    || layout.regions()[j].end() <= layout.regions()[i].offset)
            },
{
    let requests = frame_request_list(list_count);
    let allocations = allocator.allocate_all(&requests);
    let layout = FrameLayout {
        paths: allocations[0],
        points: allocations[1],
        triangles: allocations[2],
        triangle_list_indices: allocations[3],
        triangle_indices: allocations[4],
        temp_keys: allocations[5],
        temp_lists: allocations[6],
        histograms: allocations[7],
        list_ranges: allocations[8],
        params: allocations[9],
    };
    proof {
        assert(layout.regions() =~= allocations@);
        assert(allocator.regions() =~= allocations@);
        crate::memory::lemma_regions_disjoint_all(allocator);
        assert(allocations@.last() == layout.params);
        assert forall|i: int| 0 <= i < 10 implies #[trigger] layout.regions()[i].end()
            <= allocator.next_offset() by {
            assert(allocator.regions()[i] == layout.regions()[i]);
        }
        assert forall|i: int, j: int|
            0 <= i < 10 && 0 <= j < 10 && i != j implies {
                &&& (#[trigger] layout.regions()[i].offset as nat) % allocator.alignment() == 0
                &&& layout.regions()[i].end() <= allocator.next_offset()
                &&& (layout.regions()[i].end() <= #[trigger] layout.regions()[j].offset
                    || layout.regions()[j].end() <= layout.regions()[i].offset)
            } by {
            assert(allocator.regions()[i] == layout.regions()[i]);
            assert(allocator.regions()[j] == layout.regions()[j]);
        }
    }
    layout
}

/// Every region of a layout that fits the address space is bindable.
proof fn lemma_layout_bindable(layout: FrameLayout)
    requires
        forall|i: int| 0 <= i < 10 ==> #[trigger] layout.regions()[i].end() <= usize::MAX,
    ensures
        forall|i: int| 0 <= i < 10 ==> #[trigger] bindable(layout.regions()[i]),
        bindable(layout.paths),
        bindable(layout.points),
        bindable(layout.triangles),
        bindable(layout.triangle_list_indices),
        bindable(layout.triangle_indices),
        bindable(layout.temp_keys),
        bindable(layout.temp_lists),
        bindable(layout.histograms),
        bindable(layout.list_ranges),
        bindable(layout.params),
{
    assert forall|i: int| 0 <= i < 10 implies #[trigger] bindable(layout.regions()[i]) by {
        let r = layout.regions()[i];
        assert(layout.regions()[i].end() <= usize::MAX);
        if r.len != 0 {
            vstd::arithmetic::mul::lemma_mul_is_commutative(r.len as int, r.elem_size as int);
        }
        assert(r.len * r.elem_size <= r.footprint());
        assert(usize::MAX <= u64::MAX);
    }
    lemma_region_fields(layout);
}

/// The regions of a layout, in layout order, are its fields.
proof fn lemma_region_fields(layout: FrameLayout)
    ensures
        layout.regions().len() == 10,
        layout.regions()[0] == layout.paths,
        layout.regions()[1] == layout.points,
        layout.regions()[2] == layout.triangles,
        layout.regions()[3] == layout.triangle_list_indices,
        layout.regions()[4] == layout.triangle_indices,
        layout.regions()[5] == layout.temp_keys,
        layout.regions()[6] == layout.temp_lists,
        layout.regions()[7] == layout.histograms,
        layout.regions()[8] == layout.list_ranges,
        layout.regions()[9] == layout.params,
{
}

/// The uploads of the scene: the sample fraction bits, the path and the
/// points, their words converted to bytes together so that they share one
/// byte order.
fn plan_scene_uploads(block_sizes: &Vec<usize>, layout: &FrameLayout, sample_fraction_bits: u32) -> (uploads: (
    Vec<UploadChunk>,
    Vec<UploadChunk>,
    Vec<UploadChunk>,
))
    requires
        block_sizes.len() == STAGING_POOL_COUNT,
        forall|i: int| 0 <= i < block_sizes.len() ==> block_sizes@[i] == staging_block_size(i as nat),
        layout.params.elem_size == WORD_SIZE,
        layout.params.len == 1,
        layout.paths.elem_size == PATH_SIZE,
        layout.paths.len == 1,
        layout.points.elem_size == POINT_SIZE,
        layout.points.len == SCENE_POINTS,
        layout.params.end() <= usize::MAX,
        layout.paths.end() <= usize::MAX,
        layout.points.end() <= usize::MAX,
    ensures
        scene_uploads(
            uploads.0@,
            uploads.1@,
            uploads.2@,
            block_sizes@,
            *layout,
            sample_fraction_bits,
            true,
        ) || scene_uploads(
            uploads.0@,
            uploads.1@,
            uploads.2@,
            block_sizes@,
            *layout,
            sample_fraction_bits,
            false,
        ),
        uploads.0.len() == 1,
        uploads.1.len() == 1,
        uploads.2.len() == 1,
{
    proof {
        vstd::arithmetic::power2::lemma2_to64();
        assert(block_sizes@.last() == staging_block_size(5));
        assert(usize::MAX <= u64::MAX);
        assert(layout.params.footprint() == 4);
        assert(layout.paths.footprint() == 16);
        assert(layout.points.footprint() == 48);
    }
    let mut words: Vec<u32> = Vec::new();
    words.push(sample_fraction_bits);

    let mut paths: Vec<Path> = Vec::new();
    paths.push(Path { fraction_bits: 0, material: u32::MAX, offset: 0, length: 3 });
    let mut path_data = path_words(&paths);
    proof {
        assert(paths@ =~= scene_paths());
    }
    words.append(&mut path_data);

    let mut points: Vec<Point> = Vec::new();
    points.push(Point { value: [100, 100], path: 0, padding: 0 });
    points.push(Point { value: [200, 100], path: 0, padding: 0 });
    points.push(Point { value: [150, 200], path: 0, padding: 0 });
    let mut point_data = point_words(&points);
    proof {
        assert(points@ =~= scene_points());
    }
    words.append(&mut point_data);

    let ghost params_words = seq![sample_fraction_bits];
    let ghost path_words_seq = path_records(scene_paths());
    let ghost point_words_seq = point_records(scene_points());
    proof {
        assert(words@ =~= params_words + path_words_seq + point_words_seq);
    }
    let bytes = words_as_bytes(words.as_slice());
    let ghost little = bytes@ == words_le_bytes(words@);
    proof {
        lemma_words_bytes_concat(params_words + path_words_seq, point_words_seq);
        lemma_words_bytes_concat(params_words, path_words_seq);
        lemma_words_bytes_len(params_words);
        lemma_words_bytes_len(path_words_seq);
        lemma_words_bytes_len(point_words_seq);
        let all = word_bytes(words@, little);
        assert(bytes@ == all);
        assert(all == word_bytes(params_words, little) + word_bytes(path_words_seq, little)
            + word_bytes(point_words_seq, little));
        assert(all.subrange(0, 4) =~= word_bytes(params_words, little));
        assert(all.subrange(4, 20) =~= word_bytes(path_words_seq, little));
        assert(all.subrange(20, 68) =~= word_bytes(point_words_seq, little));
    }
    let params_bytes = vstd::slice::slice_to_vec(vstd::slice::slice_subrange(bytes.as_slice(), 0, 4));
    let path_bytes = vstd::slice::slice_to_vec(vstd::slice::slice_subrange(bytes.as_slice(), 4, 20));
    let point_bytes = vstd::slice::slice_to_vec(vstd::slice::slice_subrange(bytes.as_slice(), 20, 68));
    let params_upload = plan_upload(block_sizes, layout.params.offset as u64, &params_bytes);
    let paths_upload = plan_upload(block_sizes, layout.paths.offset as u64, &path_bytes);
    let points_upload = plan_upload(block_sizes, layout.points.offset as u64, &point_bytes);
    (params_upload, paths_upload, points_upload)
}

/// Runs the frame of every staging pool, handing out one buffer per chunk
/// that the pool carries; gives the buffers handed out and the arrived ones
/// left over.
fn cycle_staging_pools<B>(
    pools: &mut StagingPools<B>,
    returned: Vec<Vec<B>>,
    arrived: Vec<Vec<B>>,
    params_upload: &Vec<UploadChunk>,
    paths_upload: &Vec<UploadChunk>,
    points_upload: &Vec<UploadChunk>,
) -> (handed: (Vec<Vec<Option<B>>>, Vec<Vec<B>>))
    requires
        old(pools).lists().len() == STAGING_POOL_COUNT,
        returned.len() == STAGING_POOL_COUNT,
        arrived.len() == STAGING_POOL_COUNT,
        forall|p: int|
            0 <= p < STAGING_POOL_COUNT ==> #[trigger] old(pools).lists()[p].frame_index() < usize::MAX,
        params_upload.len() == 1,
        paths_upload.len() == 1,
        points_upload.len() == 1,
    ensures
        final(pools).lists().len() == STAGING_POOL_COUNT,
        handed.0.len() == STAGING_POOL_COUNT,
        handed.1.len() == STAGING_POOL_COUNT,
        forall|p: int|
            0 <= p < STAGING_POOL_COUNT ==> {
                let before = #[trigger] old(pools).lists()[p];
                let after = final(pools).lists()[p];
                let uses = pool_uses(params_upload@ + paths_upload@ + points_upload@, p);
                &&& after.frame_index() == before.frame_index() + 1
                &&& handed.1@[p]@ == still_pending(arrived@[p]@, uses)
                &&& handed.0@[p]@ == handed_out_in_frame(
                    before.frame_index(),
                    before.entries(),
                    returned@[p]@,
                    arrived@[p]@,
                    uses,
                )
                &&& after.entries() == after_frame(
                    before.frame_index(),
                    before.entries(),
                    returned@[p]@,
                    arrived@[p]@,
                    uses,
                )
                &&& before.is_ordered() ==> after.is_ordered()
            },
{
    let mut uses: Vec<usize> = Vec::new();
    while uses.len() < STAGING_POOL_COUNT
        invariant
            uses.len() <= STAGING_POOL_COUNT,
            forall|p: int| 0 <= p < uses.len() ==> #[trigger] uses@[p] == 0,
        decreases STAGING_POOL_COUNT - uses.len(),
    {
        uses.push(0);
    }
    add_pool_uses(&mut uses, params_upload);
    add_pool_uses(&mut uses, paths_upload);
    add_pool_uses(&mut uses, points_upload);
    proof {
        assert forall|p: int| 0 <= p < STAGING_POOL_COUNT implies #[trigger] uses@[p] == pool_uses(
            params_upload@ + paths_upload@ + points_upload@,
            p,
        ) by {
            lemma_pool_uses_add(params_upload@, paths_upload@, p);
            lemma_pool_uses_add(params_upload@ + paths_upload@, points_upload@, p);
        }
    }
    pools.cycle(returned, arrived, &uses)
}

/// The compute passes of a frame, in the order in which they run.
fn plan_passes(layout: &FrameLayout, uniform_offsets: &Vec<u32>, width: u32, height: u32) -> (passes: (
    Option<PassPlan>,
    Option<PassPlan>,
    Option<PassPlan>,
    Option<PassPlan>,
))
    requires
        layout.triangles.len == layout.triangle_list_indices.len,
        layout.points.len == layout.triangles.len,
        forall|i: int| 0 <= i < 10 ==> #[trigger] bindable(layout.regions()[i]),
        regions_apart(*layout),
    ensures
        pass_view(passes.0) == tessellation_pass_spec(layout.tessellation_buffers()),
        pass_view(passes.1) == sort_pass_spec(layout.sort_buffers(), uniform_offsets@),
        pass_view(passes.2) == index_pass_spec(layout.index_buffers()),
        pass_view(passes.3) == tile_pass_spec(layout.tile_buffers(), width, height),
        passes_hand_on(*layout, passes.0, passes.1, passes.2, passes.3, width, height),
{
    proof {
        lemma_region_fields(*layout);
        lemma_frame_passes_share_regions(*layout, uniform_offsets@, width, height);
        lemma_frame_pass_bindings_distinct(*layout, uniform_offsets@, width, height);
    }
    let tessellation = tessellation_pass(
        &TessellationBuffers {
            points: layout.points,
            paths: layout.paths,
            triangle_list_indices: layout.triangle_list_indices,
            triangle_indices: layout.triangle_indices,
            triangles: layout.triangles,
            uniforms: layout.params,
        },
    );
    let sort = sort_pass(
        &SortBuffers {
            keys: layout.triangle_list_indices,
            temp_keys: layout.temp_keys,
            histograms: layout.histograms,
        },
        uniform_offsets,
    );
    let index = index_pass(
        &IndexBuffers {
            sorted_list_keys: layout.triangle_list_indices,
            list_ranges: layout.list_ranges,
        },
    );
    let tile = tile_pass(
        &TileBuffers {
            params: layout.params,
            lists: layout.triangle_indices,
            list_ranges: layout.list_ranges,
        },
        width,
        height,
    );
    (tessellation, sort, index, tile)
}

} // verus!
