use bitonic_sorter::first::sort;

#[test]
fn first_sort_u32_ascending() {
    let mut x = vec![10, 30, 11, 20, 4, 330, 21, 110];
    sort(&mut x, true);
    assert_eq!(x, vec![4, 10, 11, 20, 21, 30, 110, 330]);
}

#[test]
fn first_sort_u32_descending() {
    let mut x = vec![10, 30, 11, 20, 4, 330, 21, 110];
    sort(&mut x, false);
    assert_eq!(x, vec![330, 110, 30, 21, 20, 11, 10, 4]);
}

#[test]
fn first_sort_already_sorted_is_unchanged() {
    let mut x = vec![1, 2, 2, 5, 7, 9, 9, 12];
    sort(&mut x, true);
    assert_eq!(x, vec![1, 2, 2, 5, 7, 9, 9, 12]);
    let mut y = vec![12, 9, 9, 7, 5, 2, 2, 1];
    sort(&mut y, false);
    assert_eq!(y, vec![12, 9, 9, 7, 5, 2, 2, 1]);
}

#[test]
fn first_sort_trivial_lengths() {
    let mut e: Vec<u32> = vec![];
    sort(&mut e, true);
    assert!(e.is_empty());
    let mut one = vec![42];
    sort(&mut one, false);
    assert_eq!(one, vec![42]);
    let mut two = vec![u32::MAX, 0];
    sort(&mut two, true);
    assert_eq!(two, vec![0, u32::MAX]);
}

#[test]
fn first_sort_keeps_duplicates() {
    let mut x = vec![3, 1, 3, 1, 2, 2, 3, 1, 0, 0, 5, 5, 4, 4, 9, 9];
    sort(&mut x, true);
    assert_eq!(x, vec![0, 0, 1, 1, 1, 2, 2, 3, 3, 3, 4, 4, 5, 5, 9, 9]);
}
