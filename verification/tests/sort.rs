use canvas::memory::{Allocation, BufferRange};
use canvas::pass::{Command, Pipeline, Resource, Stage};
use canvas::sort::{
    min_histogram_capacity, sort_dispatches, sort_pass, uniform_layout, uniform_layout_fits,
    SortBuffers,
};

#[test]
fn uniforms_at_aligned_offsets() {
    let layout = uniform_layout(256);
    assert_eq!(layout.offsets, vec![0, 256, 512, 768, 1024, 1280, 1536, 1792]);
    assert_eq!(layout.contents.len(), 7 * 256 + 4);
    for k in 0..8usize {
        let start = k * 256;
        assert_eq!(&layout.contents[start..start + 4], &(4 * k as u32).to_ne_bytes()[..]);
        if k < 7 {
            assert!(layout.contents[start + 4..start + 256].iter().all(|b| *b == 0));
        }
    }
}

#[test]
fn uniforms_packed_without_alignment() {
    let layout = uniform_layout(1);
    assert_eq!(layout.offsets, vec![0, 4, 8, 12, 16, 20, 24, 28]);
    let mut expected = Vec::new();
    for shift in (0..32u32).step_by(4) {
        expected.extend_from_slice(&shift.to_ne_bytes());
    }
    assert_eq!(layout.contents, expected);
}

#[test]
fn uniforms_with_an_odd_alignment() {
    // Four bytes rounded up to a multiple of three.
    let layout = uniform_layout(3);
    assert_eq!(layout.offsets, vec![0, 6, 12, 18, 24, 30, 36, 42]);
    assert_eq!(layout.contents.len(), 46);
}

#[test]
fn uniform_layout_needs_an_alignment() {
    assert!(!uniform_layout_fits(0));
    assert!(uniform_layout_fits(1));
    assert!(uniform_layout_fits(256));
}

#[test]
fn dispatches_for_few_keys() {
    let d = sort_dispatches(3);
    assert_eq!(d.init, 1);
    assert_eq!(d.merges, vec![1]);
    let d = sort_dispatches(0);
    assert_eq!(d.init, 1);
    assert_eq!(d.merges, vec![1]);
}

#[test]
fn dispatches_for_many_keys() {
    // 1000 keys: 4 workgroups, then one merge.
    let d = sort_dispatches(1000);
    assert_eq!(d.init, 4);
    assert_eq!(d.merges, vec![1]);
    // 100000 keys: 391 workgroups, merged by 2, then 1.
    let d = sort_dispatches(100000);
    assert_eq!(d.init, 391);
    assert_eq!(d.merges, vec![2, 1]);
    let d = sort_dispatches(u32::MAX);
    assert_eq!(d.init, 16777216);
    assert_eq!(d.merges, vec![65536, 256, 1]);
}

#[test]
fn histogram_capacity_counts_workgroups() {
    assert_eq!(min_histogram_capacity(3), 2);
    assert_eq!(min_histogram_capacity(1000), 5);
    assert_eq!(min_histogram_capacity(100000), 394);
}

#[test]
fn sort_pass_rounds() {
    let buffers = SortBuffers {
        keys: Allocation { offset: 0, len: 1000, elem_size: 4 },
        temp_keys: Allocation { offset: 4096, len: 1000, elem_size: 4 },
        histograms: Allocation { offset: 8192, len: 5, elem_size: 64 },
    };
    let plan = sort_pass(&buffers, &vec![0, 256]).unwrap();
    assert_eq!(plan.pipeline, Pipeline::Sort);
    assert_eq!(
        plan.resources,
        vec![
            Resource::Frame(BufferRange { offset: 0, size: Some(4000) }),
            Resource::Frame(BufferRange { offset: 4096, size: Some(4000) }),
            Resource::Frame(BufferRange { offset: 8192, size: Some(320) }),
            Resource::SortUniforms(BufferRange { offset: 0, size: Some(4) }),
        ]
    );
    let round = |offset: u32| {
        vec![
            Command::SetBindGroup(Some(offset)),
            Command::SetPipeline(Stage::CountKeys),
            Command::Dispatch(4, 1, 1),
            Command::SetPipeline(Stage::MergeHistograms),
            Command::Dispatch(1, 1, 1),
            Command::SetPipeline(Stage::InitOffsetHistogram),
            Command::Dispatch(1, 1, 1),
            Command::SetPipeline(Stage::ScanHistograms),
            Command::Dispatch(1, 1, 1),
            Command::SetPipeline(Stage::ScanKeys),
            Command::Dispatch(4, 1, 1),
        ]
    };
    let mut expected = round(0);
    expected.extend(round(256));
    assert_eq!(plan.commands, expected);
}

#[test]
fn sort_scan_mirrors_the_merges() {
    let buffers = SortBuffers {
        keys: Allocation { offset: 0, len: 100000, elem_size: 4 },
        temp_keys: Allocation { offset: 400000, len: 100000, elem_size: 4 },
        histograms: Allocation { offset: 800000, len: 394, elem_size: 64 },
    };
    let plan = sort_pass(&buffers, &vec![64]).unwrap();
    let dispatches: Vec<u32> = plan
        .commands
        .iter()
        .filter_map(|c| match c {
            Command::Dispatch(x, _, _) => Some(*x),
            _ => None,
        })
        .collect();
    assert_eq!(dispatches, vec![391, 2, 1, 1, 1, 2, 391]);
}

#[test]
fn sort_pass_needs_every_buffer() {
    let buffers = SortBuffers {
        keys: Allocation { offset: 0, len: 3, elem_size: 4 },
        temp_keys: Allocation { offset: 16, len: 3, elem_size: 4 },
        histograms: Allocation { offset: 32, len: 0, elem_size: 64 },
    };
    assert_eq!(sort_pass(&buffers, &vec![0]), None);
}
