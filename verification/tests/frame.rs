use canvas::memory::{Allocation, BufferChoice, BufferRange};
use canvas::pass::{Command, Pipeline, Resource, Stage};
use canvas::staging::{StagingPools, UploadChunk};
use canvas::tile::TargetFormat;
use canvas::DrawContext;

fn region(offset: usize, len: usize, elem_size: usize) -> Allocation {
    Allocation { offset, len, elem_size }
}

fn no_returns() -> Vec<Vec<u32>> {
    vec![Vec::new(); 6]
}

fn words(values: &[u32]) -> Vec<u8> {
    values.iter().flat_map(|w| w.to_ne_bytes()).collect()
}

#[test]
fn context_keeps_sort_uniforms_and_pools() {
    let context = DrawContext::new(TargetFormat::Rgba8Unorm, 256, 256);
    assert_eq!(context.sort_uniforms().offsets, vec![0, 256, 512, 768, 1024, 1280, 1536, 1792]);
    assert_eq!(context.staging_block_sizes().len(), 6);
    assert_eq!(context.staging_block_sizes()[0], 262144);
}

#[test]
fn full_hd_frame() {
    let mut context = DrawContext::new(TargetFormat::Rgba8Unorm, 256, 256);
    let mut pools: StagingPools<u32> = StagingPools::new();
    assert!(context.can_render(1920, 1080));
    let plan = context.render(1920, 1080, None, &mut pools, no_returns(), no_returns());
    assert_eq!(plan.sample_fraction_bits, 4);
    assert_eq!(plan.list_count, 40337);
    let layout = plan.layout;
    assert_eq!(layout.paths, region(0, 1, 16));
    assert_eq!(layout.points, region(256, 3, 16));
    assert_eq!(layout.triangles, region(512, 3, 32));
    assert_eq!(layout.triangle_list_indices, region(768, 3, 4));
    assert_eq!(layout.triangle_indices, region(1024, 3, 4));
    assert_eq!(layout.temp_keys, region(1280, 3, 4));
    assert_eq!(layout.temp_lists, region(1536, 3, 4));
    assert_eq!(layout.histograms, region(1792, 2, 64));
    assert_eq!(layout.list_ranges, region(2048, 40337, 8));
    assert_eq!(layout.params, region(324864, 1, 4));
    assert_eq!(plan.buffer_size, 324868);
    assert_eq!(plan.buffer, BufferChoice::Create(524288));
    assert_eq!(
        plan.params_upload,
        vec![UploadChunk { pool: 0, offset: 324864, bytes: words(&[4]) }]
    );
    assert_eq!(
        plan.paths_upload,
        vec![UploadChunk { pool: 0, offset: 0, bytes: words(&[0, u32::MAX, 0, 3]) }]
    );
    assert_eq!(
        plan.points_upload,
        vec![UploadChunk {
            pool: 0,
            offset: 256,
            bytes: words(&[100, 100, 0, 0, 200, 100, 0, 0, 150, 200, 0, 0]),
        }]
    );
    assert_eq!(plan.clear, Some(BufferRange { offset: 2048, size: Some(322696) }));
    // All three uploads go through the smallest pool, which has no buffer yet.
    assert_eq!(plan.staging_buffers[0], vec![None, None, None]);
    assert!(plan.staging_buffers[1..].iter().all(|b| b.is_empty()));
    assert_eq!(pools.current_frame(0), 1);
    let tessellation = plan.tessellation.unwrap();
    assert_eq!(tessellation.pipeline, Pipeline::Tessellation);
    assert_eq!(tessellation.commands[2], Command::Dispatch(1, 1, 1));
    let sort = plan.sort.unwrap();
    assert_eq!(sort.commands.len(), 8 * 11);
    assert_eq!(sort.commands[0], Command::SetBindGroup(Some(0)));
    assert_eq!(sort.commands[11], Command::SetBindGroup(Some(256)));
    let index = plan.index.unwrap();
    assert_eq!(
        index.resources,
        vec![
            Resource::Frame(BufferRange { offset: 768, size: Some(12) }),
            Resource::Frame(BufferRange { offset: 2048, size: Some(322696) }),
        ]
    );
    let tile = plan.tile.unwrap();
    assert_eq!(
        tile.commands,
        vec![
            Command::SetBindGroup(None),
            Command::SetPipeline(Stage::Main),
            Command::Dispatch(120, 68, 1),
        ]
    );
}

#[test]
fn frames_reuse_a_large_enough_buffer() {
    let mut context = DrawContext::new(TargetFormat::Rgba8Unorm, 4, 256);
    let mut pools: StagingPools<u32> = StagingPools::new();
    let first = context.render(64, 64, None, &mut pools, no_returns(), no_returns());
    let capacity = match first.buffer {
        BufferChoice::Create(capacity) => capacity,
        BufferChoice::Keep => panic!("the first frame has no buffer to keep"),
    };
    assert!(capacity >= first.buffer_size);
    assert!(capacity.is_power_of_two());
    let second = context.render(64, 64, Some(capacity), &mut pools, no_returns(), no_returns());
    assert_eq!(second.buffer, BufferChoice::Keep);
    // The second frame lays out the same regions from the start of the buffer.
    assert_eq!(second.layout, first.layout);
    // A larger target needs more lists and outgrows the buffer.
    let third = context.render(4000, 3000, Some(capacity), &mut pools, no_returns(), no_returns());
    assert!(third.list_count > second.list_count);
    assert!(matches!(third.buffer, BufferChoice::Create(_)));
}

#[test]
fn frame_regions_do_not_overlap() {
    let mut context = DrawContext::new(TargetFormat::Rgba8Unorm, 64, 256);
    let mut pools: StagingPools<u32> = StagingPools::new();
    let plan = context.render(800, 600, None, &mut pools, no_returns(), no_returns());
    let l = plan.layout;
    let regions = [
        l.paths, l.points, l.triangles, l.triangle_list_indices, l.triangle_indices,
        l.temp_keys, l.temp_lists, l.histograms, l.list_ranges, l.params,
    ];
    for (i, a) in regions.iter().enumerate() {
        assert_eq!(a.offset % 64, 0);
        let a_end = a.offset + a.elem_size * a.len.max(1);
        assert!(a_end as u64 <= plan.buffer_size);
        for b in regions.iter().skip(i + 1) {
            assert!(a_end <= b.offset);
        }
    }
}

#[test]
fn too_large_targets_cannot_be_rendered() {
    let context = DrawContext::new(TargetFormat::Rgba8Unorm, 256, 256);
    assert!(!context.can_render(8192, 10));
    assert!(context.can_render(8191, 10));
}

#[test]
fn frames_take_staging_buffers_that_came_back() {
    let mut context = DrawContext::new(TargetFormat::Bgra8Unorm, 256, 256);
    assert_eq!(context.get_target_format(), TargetFormat::Bgra8Unorm);
    let mut pools: StagingPools<u32> = StagingPools::new();
    let mut returned = no_returns();
    returned[0] = vec![7, 8];
    returned[3] = vec![9];
    let plan = context.render(64, 64, None, &mut pools, returned, no_returns());
    // The newest buffer first; the third chunk finds the pool empty.
    assert_eq!(plan.staging_buffers[0], vec![Some(8), Some(7), None]);
    assert!(plan.staging_buffers[3].is_empty());
    for p in 0..6 {
        assert_eq!(pools.current_frame(p), 1);
    }
    // Pool 3 keeps its buffer for the next frame.
    let plan = context.render(64, 64, Some(1 << 20), &mut pools, no_returns(), no_returns());
    assert_eq!(plan.staging_buffers[0], vec![None, None, None]);
    assert_eq!(pools.current_frame(3), 2);
}

#[test]
fn buffers_that_arrive_during_a_frame_go_first() {
    let mut context = DrawContext::new(TargetFormat::Rgba8Unorm, 256, 256);
    let mut pools: StagingPools<u32> = StagingPools::new();
    let mut returned = no_returns();
    returned[0] = vec![7, 8];
    let mut arrived = no_returns();
    arrived[0] = vec![5];
    arrived[2] = vec![6];
    let plan = context.render(64, 64, None, &mut pools, returned, arrived);
    // The arrived buffer serves the first chunk, then the free list, newest first.
    assert_eq!(plan.staging_buffers[0], vec![Some(5), Some(8), Some(7)]);
    // Pool 2 carries no chunk: its arrived buffer waits for the next frame.
    assert!(plan.staging_buffers[2].is_empty());
    assert_eq!(plan.still_pending[0], Vec::<u32>::new());
    assert_eq!(plan.still_pending[2], vec![6]);
}
