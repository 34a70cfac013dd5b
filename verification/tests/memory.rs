use canvas::memory::{
    choose_buffer, layout_fits, new_buffer_capacity, next_multiple_of, Allocation, Allocator,
    BufferChoice, BufferRange,
};

#[test]
fn rounding_to_a_multiple() {
    assert_eq!(next_multiple_of(0, 256), 0);
    assert_eq!(next_multiple_of(1, 256), 256);
    assert_eq!(next_multiple_of(256, 256), 256);
    assert_eq!(next_multiple_of(257, 256), 512);
    assert_eq!(next_multiple_of(10, 3), 12);
}

#[test]
fn allocator_alignment_is_at_least_four() {
    assert_eq!(Allocator::new(0).get_alignment(), 4);
    assert_eq!(Allocator::new(1).get_alignment(), 4);
    assert_eq!(Allocator::new(256).get_alignment(), 256);
}

#[test]
fn allocations_follow_each_other_aligned() {
    let mut allocator = Allocator::new(256);
    let a = allocator.allocate(16, 1);
    let b = allocator.allocate(16, 3);
    let c = allocator.allocate(4, 0);
    let d = allocator.allocate(8, 40);
    assert_eq!(a, Allocation { offset: 0, len: 1, elem_size: 16 });
    assert_eq!(b, Allocation { offset: 256, len: 3, elem_size: 16 });
    // An empty region still takes one element.
    assert_eq!(c, Allocation { offset: 512, len: 0, elem_size: 4 });
    assert_eq!(d, Allocation { offset: 768, len: 40, elem_size: 8 });
    assert_eq!(d.len(), 40);
    assert_eq!(allocator.finalize(), 768 + 320);
    // The next frame starts again at the front of the buffer.
    assert_eq!(allocator.allocate(4, 1).offset, 0);
}

#[test]
fn allocate_all_places_every_request() {
    let mut allocator = Allocator::new(4);
    let regions = allocator.allocate_all(&vec![(4, 3), (2, 1), (8, 2)]);
    assert_eq!(
        regions,
        vec![
            Allocation { offset: 0, len: 3, elem_size: 4 },
            Allocation { offset: 12, len: 1, elem_size: 2 },
            Allocation { offset: 16, len: 2, elem_size: 8 },
        ]
    );
    assert_eq!(allocator.finalize(), 32);
}

#[test]
fn layout_fits_detects_overflow() {
    assert!(layout_fits(0, 4, &vec![(4, 3), (8, 2)]));
    assert!(!layout_fits(0, 4, &vec![(usize::MAX, 2)]));
    assert!(!layout_fits(usize::MAX - 1, 4, &vec![(1, 1)]));
    assert!(layout_fits(0, 4, &vec![]));
}

#[test]
fn binding_of_regions() {
    let empty = Allocation { offset: 64, len: 0, elem_size: 4 };
    assert_eq!(empty.binding(), None);
    let words = Allocation { offset: 256, len: 3, elem_size: 4 };
    assert_eq!(words.binding(), Some(BufferRange { offset: 256, size: Some(12) }));
    let zero_sized = Allocation { offset: 8, len: 5, elem_size: 0 };
    assert_eq!(zero_sized.binding(), Some(BufferRange { offset: 8, size: None }));
}

#[test]
fn new_buffer_capacity_is_a_power_of_two() {
    assert_eq!(new_buffer_capacity(0), 8);
    assert_eq!(new_buffer_capacity(1), 8);
    assert_eq!(new_buffer_capacity(8), 8);
    assert_eq!(new_buffer_capacity(9), 16);
    assert_eq!(new_buffer_capacity(1000), 1024);
    assert_eq!(new_buffer_capacity(1024), 1024);
    assert_eq!(new_buffer_capacity(324868), 524288);
    assert_eq!(new_buffer_capacity(1 << 63), 1 << 63);
    assert_eq!(new_buffer_capacity((1 << 63) + 1), u64::MAX);
    assert_eq!(new_buffer_capacity(u64::MAX), u64::MAX);
}

#[test]
fn buffer_is_kept_while_large_enough() {
    assert_eq!(choose_buffer(Some(1024), 1000), BufferChoice::Keep);
    assert_eq!(choose_buffer(Some(1000), 1000), BufferChoice::Keep);
    assert_eq!(choose_buffer(Some(999), 1000), BufferChoice::Create(1024));
    assert_eq!(choose_buffer(None, 3), BufferChoice::Create(8));
}
