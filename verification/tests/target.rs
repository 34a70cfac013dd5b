use canvas::target::sample_fraction_bits;

#[test]
fn fraction_bits_of_an_empty_target() {
    assert_eq!(sample_fraction_bits(0, 0), Some(15));
}

#[test]
fn fraction_bits_of_a_full_hd_target() {
    // 1920 needs eleven bits, which leaves four of fifteen.
    assert_eq!(sample_fraction_bits(1920, 1080), Some(4));
    assert_eq!(sample_fraction_bits(1080, 1920), Some(4));
}

#[test]
fn fraction_bits_at_the_limit() {
    assert_eq!(sample_fraction_bits(8191, 1), Some(2));
    assert_eq!(sample_fraction_bits(4096, 4096), Some(2));
    assert_eq!(sample_fraction_bits(4095, 4095), Some(3));
}

#[test]
fn fraction_bits_of_a_too_large_target() {
    assert_eq!(sample_fraction_bits(8192, 1), None);
    assert_eq!(sample_fraction_bits(1, 65536), None);
    assert_eq!(sample_fraction_bits(u32::MAX, u32::MAX), None);
}

#[test]
fn fraction_bits_keep_samples_within_fifteen_bits() {
    for extent in [1u32, 2, 3, 100, 255, 256, 1000, 1920, 4095, 4096, 8191] {
        let bits = sample_fraction_bits(extent, 0).unwrap();
        let scaled = (extent as u64) << bits;
        assert!(scaled < 1 << 15, "extent {}", extent);
        assert!(scaled >= 1 << 14, "extent {}", extent);
    }
}
