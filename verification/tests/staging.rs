use canvas::memory::Allocation;
use canvas::staging::{
    plan_upload, plan_word_upload, staging_block_sizes, StagingFreeList, StagingPools, UploadChunk,
};

#[test]
fn staging_pools_double_in_size() {
    assert_eq!(
        staging_block_sizes(),
        vec![262144, 524288, 1048576, 2097152, 4194304, 8388608]
    );
}

#[test]
fn uploads_are_cut_into_largest_blocks() {
    let bytes: Vec<u8> = (0..20u8).collect();
    let chunks = plan_upload(&vec![4, 8], 100, &bytes);
    assert_eq!(
        chunks,
        vec![
            UploadChunk { pool: 1, offset: 100, bytes: (0..8u8).collect() },
            UploadChunk { pool: 1, offset: 108, bytes: (8..16u8).collect() },
            UploadChunk { pool: 0, offset: 116, bytes: (16..20u8).collect() },
        ]
    );
}

#[test]
fn small_uploads_take_the_smallest_pool() {
    let chunks = plan_upload(&staging_block_sizes(), 0, &vec![1, 2, 3]);
    assert_eq!(chunks, vec![UploadChunk { pool: 0, offset: 0, bytes: vec![1, 2, 3] }]);
    let big = vec![7u8; 300000];
    let chunks = plan_upload(&staging_block_sizes(), 0, &big);
    assert_eq!(chunks.len(), 1);
    assert_eq!(chunks[0].pool, 1);
}

#[test]
fn empty_uploads_have_no_chunks() {
    assert_eq!(plan_upload(&vec![16], 0, &vec![]), vec![]);
}

#[test]
fn word_uploads_use_native_byte_order() {
    let target = Allocation { offset: 64, len: 2, elem_size: 4 };
    let chunks = plan_word_upload(&vec![16], target, &[0x0403_0201, 7]);
    let mut expected = 0x0403_0201u32.to_ne_bytes().to_vec();
    expected.extend_from_slice(&7u32.to_ne_bytes());
    assert_eq!(chunks, vec![UploadChunk { pool: 0, offset: 64, bytes: expected }]);
}

#[test]
fn free_list_files_returned_buffers_under_the_frame() {
    let mut list: StagingFreeList<&str> = StagingFreeList::new();
    assert_eq!(list.current_frame(), 0);
    list.begin_frame(vec!["a", "b"]);
    assert_eq!(list.current_frame(), 1);
    list.end_frame();
    assert_eq!(list.take(), Some("b"));
    list.begin_frame(vec!["c"]);
    assert_eq!(list.take(), Some("c"));
    assert_eq!(list.take(), Some("a"));
    assert_eq!(list.take(), None);
}

#[test]
fn free_list_drops_buffers_after_thirty_two_frames() {
    let mut list: StagingFreeList<u32> = StagingFreeList::new();
    list.begin_frame(vec![1]);
    list.end_frame();
    for _ in 0..30 {
        list.begin_frame(vec![]);
        list.end_frame();
    }
    // Frame 32: the buffer from frame 1 is 31 frames old and still kept.
    list.begin_frame(vec![2]);
    list.end_frame();
    assert_eq!(list.take(), Some(2));
    assert_eq!(list.take(), Some(1));
    list.begin_frame(vec![1]);
    list.end_frame();
    for _ in 0..31 {
        list.begin_frame(vec![]);
        list.end_frame();
    }
    // Frame 65: the buffer from frame 33 is 32 frames old and dropped.
    list.begin_frame(vec![3]);
    list.end_frame();
    assert_eq!(list.take(), Some(3));
    assert_eq!(list.take(), None);
}

#[test]
fn free_list_hands_out_newest_first() {
    let mut list: StagingFreeList<u32> = StagingFreeList::new();
    list.begin_frame(vec![1, 2, 3]);
    assert_eq!(list.take_many(2), vec![Some(3), Some(2)]);
    assert_eq!(list.take_many(2), vec![Some(1), None]);
}

#[test]
fn free_list_cycle_runs_a_whole_frame() {
    let mut list: StagingFreeList<u32> = StagingFreeList::new();
    assert_eq!(list.cycle(vec![4, 5], vec![], 1), (vec![Some(5)], vec![]));
    assert_eq!(list.current_frame(), 1);
    assert_eq!(list.take(), Some(4));
}

#[test]
fn pools_cycle_each_pool() {
    let mut pools: StagingPools<u32> = StagingPools::new();
    assert_eq!(pools.count(), 6);
    let (handed, pending) = pools.cycle(
        vec![vec![1], vec![], vec![2, 3], vec![], vec![], vec![]],
        vec![vec![], vec![4], vec![], vec![], vec![5], vec![]],
        &vec![1, 1, 1, 0, 0, 0],
    );
    assert_eq!(handed, vec![vec![Some(1)], vec![Some(4)], vec![Some(3)], vec![], vec![], vec![]]);
    assert_eq!(pending, vec![vec![], vec![], vec![], vec![], vec![5], vec![]]);
    for p in 0..6 {
        assert_eq!(pools.current_frame(p), 1);
    }
}

#[test]
fn free_list_cycle_serves_arrived_buffers_first() {
    let mut list: StagingFreeList<u32> = StagingFreeList::new();
    let (handed, pending) = list.cycle(vec![1, 2], vec![3, 4, 5], 2);
    assert_eq!(handed, vec![Some(3), Some(4)]);
    assert_eq!(pending, vec![5]);
    // The free list keeps what it filed.
    assert_eq!(list.take(), Some(2));
    assert_eq!(list.take(), Some(1));
    let (handed, pending) = list.cycle(vec![], vec![6], 3);
    assert_eq!(handed, vec![Some(6), None, None]);
    assert!(pending.is_empty());
}
