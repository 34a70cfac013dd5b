use canvas::index::{index_pass, IndexBuffers};
use canvas::memory::{Allocation, BufferRange};
use canvas::pass::{Command, Pipeline, Resource, Stage};
use canvas::tessellation::{path_words, point_words, tessellation_pass, Path, Point, TessellationBuffers};
use canvas::tile::{tile_pass, TileBuffers};

fn region(offset: usize, len: usize, elem_size: usize) -> Allocation {
    Allocation { offset, len, elem_size }
}

fn frame(offset: u64, size: u64) -> Resource {
    Resource::Frame(BufferRange { offset, size: Some(size) })
}

#[test]
fn point_records_are_four_words() {
    let words = point_words(&vec![
        Point { value: [100, -1], path: 2, padding: 0 },
        Point { value: [-100, 7], path: 3, padding: 9 },
    ]);
    assert_eq!(words, vec![100, u32::MAX, 2, 0, (-100i32) as u32, 7, 3, 9]);
}

#[test]
fn path_records_are_four_words() {
    let words = path_words(&vec![Path { fraction_bits: 4, material: !0, offset: 6, length: 3 }]);
    assert_eq!(words, vec![4, u32::MAX, 6, 3]);
}

#[test]
fn tessellation_dispatches_per_256_points() {
    let buffers = TessellationBuffers {
        points: region(0, 300, 16),
        paths: region(4800, 1, 16),
        triangle_list_indices: region(5120, 300, 4),
        triangle_indices: region(6400, 300, 4),
        triangles: region(7680, 300, 32),
        uniforms: region(17408, 1, 4),
    };
    let plan = tessellation_pass(&buffers).unwrap();
    assert_eq!(plan.pipeline, Pipeline::Tessellation);
    assert_eq!(
        plan.resources,
        vec![
            frame(0, 4800),
            frame(4800, 16),
            frame(5120, 1200),
            frame(6400, 1200),
            frame(7680, 9600),
            frame(17408, 4),
        ]
    );
    assert_eq!(
        plan.commands,
        vec![
            Command::SetBindGroup(None),
            Command::SetPipeline(Stage::Main),
            Command::Dispatch(2, 1, 1),
        ]
    );
}

#[test]
fn tessellation_skips_empty_buffers() {
    let buffers = TessellationBuffers {
        points: region(0, 3, 16),
        paths: region(64, 0, 16),
        triangle_list_indices: region(128, 3, 4),
        triangle_indices: region(192, 3, 4),
        triangles: region(256, 3, 32),
        uniforms: region(384, 1, 4),
    };
    assert_eq!(tessellation_pass(&buffers), None);
}

#[test]
fn index_dispatches_per_256_keys() {
    let plan = index_pass(&IndexBuffers {
        sorted_list_keys: region(0, 257, 4),
        list_ranges: region(2048, 5, 8),
    })
    .unwrap();
    assert_eq!(plan.pipeline, Pipeline::Index);
    assert_eq!(plan.resources, vec![frame(0, 1028), frame(2048, 40)]);
    assert_eq!(
        plan.commands,
        vec![
            Command::SetBindGroup(None),
            Command::SetPipeline(Stage::Main),
            Command::Dispatch(2, 1, 1),
        ]
    );
    assert_eq!(
        index_pass(&IndexBuffers { sorted_list_keys: region(0, 0, 4), list_ranges: region(64, 5, 8) }),
        None
    );
}

#[test]
fn tile_dispatches_per_16_pixels() {
    let plan = tile_pass(
        &TileBuffers { params: region(512, 1, 4), lists: region(0, 3, 4), list_ranges: region(256, 5, 8) },
        1920,
        1080,
    )
    .unwrap();
    assert_eq!(plan.pipeline, Pipeline::Tile);
    assert_eq!(plan.resources, vec![Resource::Target, frame(0, 12), frame(256, 40), frame(512, 4)]);
    assert_eq!(
        plan.commands,
        vec![
            Command::SetBindGroup(None),
            Command::SetPipeline(Stage::Main),
            Command::Dispatch(120, 68, 1),
        ]
    );
}
