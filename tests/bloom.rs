use rust_indexer::bloom::BloomFilter;
use rust_indexer::byte_bloom::BloomFilter as ByteBloomFilter;

#[test]
fn bloom_empty() {
    let filter = BloomFilter::new(&[], 4);

    // Empty matches empty.
    let empty_query = BloomFilter::new(&[], 4);
    assert!(filter.possibly_contains(&empty_query));

    // Empty does not match non-empty.
    let non_empty_query = BloomFilter::new(&[10], 4);

    assert!(!filter.possibly_contains(&non_empty_query));
}

#[test]
fn bloom_exact_match() {
    let filter = BloomFilter::new(&[4, 1], 4);

    let query = BloomFilter::new(&[1, 4], 4);
    assert!(filter.possibly_contains(&query));
}

#[test]
fn bloom_subset() {
    let filter = BloomFilter::new(&[1, 2, 4], 4);

    let query = BloomFilter::new(&[4, 1], 4);
    assert!(filter.possibly_contains(&query));
    assert!(!query.possibly_contains(&filter));
}

#[test]
fn bloom_bloom_empty() {
    let filter = ByteBloomFilter::new(&[], 4);

    // Empty matches empty.
    let empty_query = ByteBloomFilter::new(&[], 4);
    assert!(filter.possibly_contains(&empty_query));

    // Empty does not match non-empty.
    let non_empty_query = ByteBloomFilter::new(&[10], 4);

    assert!(!filter.possibly_contains(&non_empty_query));
}

#[test]
fn bloom_bloom_exact_match() {
    let filter = ByteBloomFilter::new(&[4, 1], 4);

    let query = ByteBloomFilter::new(&[1, 4], 4);
    assert!(filter.possibly_contains(&query));
}

#[test]
fn bloom_bloom_bitwrapping() {
    let filter = ByteBloomFilter::new(&[0], 1);
    assert_eq!(0b0000_0001, filter.filter_array[0]);

    let filter = ByteBloomFilter::new(&[1], 1);
    assert_eq!(0b0000_0010, filter.filter_array[0]);

    let filter = ByteBloomFilter::new(&[2], 1);
    assert_eq!(0b0000_0100, filter.filter_array[0]);

    let filter = ByteBloomFilter::new(&[3], 1);
    assert_eq!(0b0000_1000, filter.filter_array[0]);

    let filter = ByteBloomFilter::new(&[4], 1);
    assert_eq!(0b0001_0000, filter.filter_array[0]);

    let filter = ByteBloomFilter::new(&[5], 1);
    assert_eq!(0b0010_0000, filter.filter_array[0]);

    let filter = ByteBloomFilter::new(&[6], 1);
    assert_eq!(0b0100_0000, filter.filter_array[0]);

    let filter = ByteBloomFilter::new(&[7], 1);
    assert_eq!(0b1000_0000, filter.filter_array[0]);

    let filter = ByteBloomFilter::new(&[8], 1);
    assert_eq!(0b0000_0001, filter.filter_array[0]);
}

#[test]
fn bloom_bloom_bytemapping() {
    let filter = ByteBloomFilter::new(&[0], 2);
    assert_eq!(0b0000_0001, filter.filter_array[0]);
    assert_eq!(0b0000_0000, filter.filter_array[1]);

    let filter = ByteBloomFilter::new(&[1], 2);
    assert_eq!(0b0000_0010, filter.filter_array[0]);
    assert_eq!(0b0000_0000, filter.filter_array[1]);

    let filter = ByteBloomFilter::new(&[2], 2);
    assert_eq!(0b0000_0100, filter.filter_array[0]);
    assert_eq!(0b0000_0000, filter.filter_array[1]);

    let filter = ByteBloomFilter::new(&[3], 2);
    assert_eq!(0b0000_1000, filter.filter_array[0]);
    assert_eq!(0b0000_0000, filter.filter_array[1]);

    let filter = ByteBloomFilter::new(&[4], 2);
    assert_eq!(0b0001_0000, filter.filter_array[0]);
    assert_eq!(0b0000_0000, filter.filter_array[1]);

    let filter = ByteBloomFilter::new(&[5], 2);
    assert_eq!(0b0010_0000, filter.filter_array[0]);
    assert_eq!(0b0000_0000, filter.filter_array[1]);

    let filter = ByteBloomFilter::new(&[6], 2);
    assert_eq!(0b0100_0000, filter.filter_array[0]);
    assert_eq!(0b0000_0000, filter.filter_array[1]);

    let filter = ByteBloomFilter::new(&[7], 2);
    assert_eq!(0b1000_0000, filter.filter_array[0]);
    assert_eq!(0b0000_0000, filter.filter_array[1]);

    let filter = ByteBloomFilter::new(&[8], 2);
    assert_eq!(0b0000_0000, filter.filter_array[0]);
    assert_eq!(0b0000_0001, filter.filter_array[1]);
}

#[test]
fn bloom_bitwrapping() {
    // With 64-bit words, input 8 sets bit 8 of word 0; bits wrap only past 63.
    let filter = BloomFilter::new(&[0], 1);
    assert_eq!(0b0000_0001, filter.filter_array[0]);

    let filter = BloomFilter::new(&[1], 1);
    assert_eq!(0b0000_0010, filter.filter_array[0]);

    let filter = BloomFilter::new(&[2], 1);
    assert_eq!(0b0000_0100, filter.filter_array[0]);

    let filter = BloomFilter::new(&[3], 1);
    assert_eq!(0b0000_1000, filter.filter_array[0]);

    let filter = BloomFilter::new(&[4], 1);
    assert_eq!(0b0001_0000, filter.filter_array[0]);

    let filter = BloomFilter::new(&[5], 1);
    assert_eq!(0b0010_0000, filter.filter_array[0]);

    let filter = BloomFilter::new(&[6], 1);
    assert_eq!(0b0100_0000, filter.filter_array[0]);

    let filter = BloomFilter::new(&[7], 1);
    assert_eq!(0b1000_0000, filter.filter_array[0]);

    let filter = BloomFilter::new(&[8], 1);
    assert_eq!(1u64 << 8, filter.filter_array[0]);

    let filter = BloomFilter::new(&[63], 1);
    assert_eq!(1u64 << 63, filter.filter_array[0]);

    let filter = BloomFilter::new(&[64], 1);
    assert_eq!(0b0000_0001, filter.filter_array[0]);
}

#[test]
fn bloom_bytemapping() {
    // With 64-bit words, inputs 0 to 63 stay in word 0 and input 64 starts word 1.
    for i in 0..8u32 {
        let filter = BloomFilter::new(&[i], 2);
        assert_eq!(1u64 << i, filter.filter_array[0]);
        assert_eq!(0, filter.filter_array[1]);
    }

    let filter = BloomFilter::new(&[8], 2);
    assert_eq!(1u64 << 8, filter.filter_array[0]);
    assert_eq!(0, filter.filter_array[1]);

    let filter = BloomFilter::new(&[64], 2);
    assert_eq!(0, filter.filter_array[0]);
    assert_eq!(0b0000_0001, filter.filter_array[1]);

    let filter = BloomFilter::new(&[65], 2);
    assert_eq!(0, filter.filter_array[0]);
    assert_eq!(0b0000_0010, filter.filter_array[1]);

    let filter = BloomFilter::new(&[128], 2);
    assert_eq!(0b0000_0001, filter.filter_array[0]);
    assert_eq!(0, filter.filter_array[1]);
}

#[test]
fn word_filter_empty_is_all_zero() {
    assert_eq!(vec![0u64; 12], BloomFilter::new(&[], 12).filter_array);
    let zero = BloomFilter::new(&[], 3);
    let some = BloomFilter::new(&[5, 70, 150], 3);
    assert!(some.possibly_contains(&zero));
    assert!(zero.possibly_contains(&zero));
    assert!(!zero.possibly_contains(&some));
}

#[test]
fn union_covers_both_inputs() {
    let a = BloomFilter::new(&[1, 100, 200], 4);
    let b = BloomFilter::new(&[3, 64, 255], 4);
    let u = BloomFilter::from_filters(&[a.duplicate(), b.duplicate()]);
    assert!(u.possibly_contains(&a));
    assert!(u.possibly_contains(&b));
    assert_eq!(
        vec![(1u64 << 1) | (1 << 3), 1 | (1 << 36), 0, (1 << 8) | (1 << 63)],
        u.filter_array
    );
    assert!(!a.possibly_contains(&u));
}

#[test]
fn union_of_one_filter_is_itself() {
    let a = BloomFilter::new(&[9, 77], 2);
    let u = BloomFilter::from_filters(&[a.duplicate()]);
    assert_eq!(a.filter_array, u.filter_array);
}

#[test]
fn subset_of_inputs_is_covered() {
    let all = BloomFilter::new(&[11, 500, 9000, 123456], 12);
    let part = BloomFilter::new(&[9000, 11], 12);
    assert!(all.possibly_contains(&part));
    let same = BloomFilter::new(&[123456, 9000, 500, 11, 11], 12);
    assert_eq!(all.filter_array, same.filter_array);
}

#[test]
fn bloom_bloom_subset() {
    let filter = ByteBloomFilter::new(&[0b0001, 0b0010, 0b0100], 4);

    // Input 5 sets bit 5, which inputs 1, 2 and 4 never set, so the filter
    // does not cover the query.
    let query = ByteBloomFilter::new(&[0b0100, 0b0101], 4);
    assert!(!filter.possibly_contains(&query));
    assert!(!query.possibly_contains(&filter));

    let query = ByteBloomFilter::new(&[4, 1], 4);
    assert!(filter.possibly_contains(&query));
}

#[test]
fn bloom_same_bytes_different_combo() {
    let filter = ByteBloomFilter::new(&[0b0001, 0b0010, 0b0100], 4);

    // Inputs are bit positions, not bit masks: 5 sets bit 5, which 1, 2 and 4
    // do not, so the filter does not cover the query.
    let query = ByteBloomFilter::new(&[0b0101], 4);
    assert!(!filter.possibly_contains(&query));
    assert!(!query.possibly_contains(&filter));
}
