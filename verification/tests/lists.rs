use canvas::DrawContext;

#[test]
fn list_count_of_a_single_level() {
    assert_eq!(DrawContext::total_list_count(11), 1);
    assert_eq!(DrawContext::total_list_count(12), 1);
    assert_eq!(DrawContext::total_list_count(u32::MAX), 1);
}

#[test]
fn list_count_of_two_levels() {
    // The root list, then a 2 by 2 grid.
    assert_eq!(DrawContext::total_list_count(10), 1 + 4);
}

#[test]
fn list_count_of_three_levels() {
    // The root list, a 2^2 + 4 = 8 wide ringed grid, then a 4 by 4 grid.
    assert_eq!(DrawContext::total_list_count(9), 1 + 64 + 16);
}

#[test]
fn list_count_for_typical_fraction_bits() {
    assert_eq!(DrawContext::total_list_count(4), 40337);
    assert_eq!(DrawContext::total_list_count(2), 619953);
}

#[test]
fn list_count_clamps_low_fraction_bits() {
    assert_eq!(DrawContext::total_list_count(0), 2463169);
    assert_eq!(DrawContext::total_list_count(1), 2463169);
}

#[test]
fn list_count_matches_level_sums() {
    // Level k > 0 above the finest holds (2^(k+1) + 4)^2 lists; level 0 holds one;
    // the finest level r holds 4^r.
    fn lists_on_level(k: u32) -> u64 {
        if k == 0 { 1 } else { let side = (1u64 << (k + 1)) + 4; side * side }
    }
    for bits in 1..=11u32 {
        let root = 11 - bits;
        let above: u64 = (0..root).map(lists_on_level).sum();
        let expected = above + (1u64 << (2 * root));
        assert_eq!(DrawContext::total_list_count(bits) as u64, expected, "bits {}", bits);
    }
}
