use bitonic_sorter::seqs::is_valid_len;

#[test]
fn valid_lengths_are_zero_and_powers_of_two() {
    for n in [0usize, 1, 2, 4, 8, 16, 1024, 1 << 40] {
        assert!(is_valid_len(n), "{}", n);
    }
    for n in [3usize, 5, 6, 7, 12, 1000, (1 << 40) + 1, usize::MAX] {
        assert!(!is_valid_len(n), "{}", n);
    }
}
