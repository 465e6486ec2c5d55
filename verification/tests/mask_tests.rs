use sudoku_propagation::mask::{candidates, count_bits, digit_of, is_resolved, ALL_CANDIDATES};

#[test]
fn count_bits_counts_the_nine_candidate_bits() {
    assert_eq!(count_bits(0), 0);
    assert_eq!(count_bits(ALL_CANDIDATES), 9);
    assert_eq!(count_bits(0b101), 2);
    assert_eq!(count_bits(0b000010000), 1);
    assert_eq!(count_bits(0b110101011), 6);
}

#[test]
fn count_bits_ignores_higher_bits() {
    assert_eq!(count_bits(0xFE00), 0);
    assert_eq!(count_bits(0xFE01), 1);
}

#[test]
fn is_resolved_means_exactly_one_candidate() {
    assert!(is_resolved(0b000010000));
    assert!(is_resolved(1));
    assert!(is_resolved(0b100000000));
    assert!(!is_resolved(0));
    assert!(!is_resolved(0b11));
    assert!(!is_resolved(ALL_CANDIDATES));
}

#[test]
fn digit_of_maps_a_singleton_mask_to_its_digit() {
    assert_eq!(digit_of(0b000000001), Some(1));
    assert_eq!(digit_of(0b000010000), Some(5));
    assert_eq!(digit_of(0b100000000), Some(9));
    assert_eq!(digit_of(0), None);
    assert_eq!(digit_of(0b11), None);
    assert_eq!(digit_of(ALL_CANDIDATES), None);
}

#[test]
fn candidates_lists_the_possible_digits_in_order() {
    assert_eq!(candidates(0b101), vec![1, 3]);
    assert_eq!(candidates(0), Vec::<u8>::new());
    assert_eq!(candidates(ALL_CANDIDATES), vec![1, 2, 3, 4, 5, 6, 7, 8, 9]);
    assert_eq!(candidates(0b110101011), vec![1, 2, 4, 6, 8, 9]);
}
