use bitonic_sorter::third::{sort, sort_by};
use bitonic_sorter::SortOrder::{Ascending, Descending};

#[derive(Debug, PartialEq)]
struct Student {
    first_name: String,
    last_name: String,
    age: u8,
}

impl Student {
    fn new(first_name: &str, last_name: &str, age: u8) -> Self {
        Self {
            first_name: first_name.to_string(),
            last_name: last_name.to_string(),
            age,
        }
    }
}

#[test]
fn sort_to_fail() {
    let mut x = vec![10, 30, 11];
    assert!(sort(&mut x, &Ascending).is_err());
}

#[test]
fn third_sort_u32_ascending() {
    let mut x: Vec<u32> = vec![10, 30, 11, 20, 4, 330, 21, 110];
    assert_eq!(sort(&mut x, &Ascending), Ok(()));
    assert_eq!(x, vec![4, 10, 11, 20, 21, 30, 110, 330]);
}

#[test]
fn third_sort_u32_descending() {
    let mut x: Vec<u32> = vec![10, 30, 11, 20, 4, 330, 21, 110];
    assert_eq!(sort(&mut x, &Descending), Ok(()));
    assert_eq!(x, vec![330, 110, 30, 21, 20, 11, 10, 4]);
}

#[test]
fn sort_str_ascending() {
    let mut x = vec!["Rust", "is", "fast", "and", "memory-efficient", "with", "no", "GC"];
    assert_eq!(sort(&mut x, &Ascending), Ok(()));
    assert_eq!(x, vec!["GC", "Rust", "and", "fast", "is", "memory-efficient", "no", "with"]);
}

#[test]
fn sort_str_descending() {
    let mut x = vec!["Rust", "is", "fast", "and", "memory-efficient", "with", "no", "GC"];
    assert_eq!(sort(&mut x, &Descending), Ok(()));
    assert_eq!(x, vec!["with", "no", "memory-efficient", "is", "fast", "and", "Rust", "GC"]);
}

#[test]
fn sort_students_aby_age_ascending() {
    let taro = Student::new("Taro", "Yamada", 16);
    let hanako = Student::new("Hanako", "Yamada", 14);
    let kyoko = Student::new("Kyoko", "Ito", 15);
    let ryosuke = Student::new("Ryosuke", "Hayashi", 17);

    let mut x = vec![&taro, &hanako, &kyoko, &ryosuke];
    let expected = vec![&ryosuke, &kyoko, &hanako, &taro];

    assert_eq!(
        sort_by(&mut x, &|a, b| a
            .last_name
            .cmp(&b.last_name)
            .then_with(|| a.first_name.cmp(&b.first_name))),
        Ok(())
    );
    assert_eq!(x, expected);
    assert_eq!(x[0].age, 17);
}

#[test]
fn rejects_lengths_that_are_not_powers_of_two() {
    for n in [3usize, 5, 6, 7, 12] {
        let mut x: Vec<u32> = (0..n as u32).rev().collect();
        let before = x.clone();
        let r = sort(&mut x, &Ascending);
        assert!(r.is_err());
        assert!(r.unwrap_err().contains(&n.to_string()));
        assert_eq!(x, before);
        assert!(sort(&mut x, &Descending).is_err());
    }
}

#[test]
fn accepts_empty_and_single() {
    let mut e: Vec<u32> = vec![];
    assert_eq!(sort(&mut e, &Ascending), Ok(()));
    let mut one = vec![7u32];
    assert_eq!(sort(&mut one, &Descending), Ok(()));
    assert_eq!(one, vec![7]);
}

#[test]
fn sort_is_idempotent() {
    let mut x: Vec<u32> = vec![9, 3, 7, 1, 8, 2, 6, 4];
    assert_eq!(sort(&mut x, &Ascending), Ok(()));
    let once = x.clone();
    assert_eq!(sort(&mut x, &Ascending), Ok(()));
    assert_eq!(x, once);
}

#[test]
fn chained_comparator_matches_combined_key() {
    let recs: Vec<(u32, u32)> = vec![(2, 5), (1, 9), (2, 1), (0, 4), (1, 2), (3, 3), (0, 0), (2, 2)];
    let mut chained = recs.clone();
    assert_eq!(
        sort_by(&mut chained, &|a: &(u32, u32), b: &(u32, u32)| a.0.cmp(&b.0).then_with(|| a.1.cmp(&b.1))),
        Ok(())
    );
    let mut keyed = recs.clone();
    assert_eq!(
        sort_by(&mut keyed, &|a: &(u32, u32), b: &(u32, u32)| {
            (a.0 as u64 * 1000 + a.1 as u64).cmp(&(b.0 as u64 * 1000 + b.1 as u64))
        }),
        Ok(())
    );
    assert_eq!(chained, keyed);
    assert_eq!(chained[0], (0, 0));
    assert_eq!(chained[7], (3, 3));
}

#[test]
fn descending_last_name_then_first_name() {
    let mut x = vec![("Taro", "Yamada"), ("Hanako", "Yamada"), ("Kyoko", "Ito"), ("Ryosuke", "Hayashi")];
    assert_eq!(
        sort_by(&mut x, &|a: &(&str, &str), b: &(&str, &str)| b.1.cmp(a.1).then_with(|| a.0.cmp(b.0))),
        Ok(())
    );
    assert_eq!(x, vec![("Hanako", "Yamada"), ("Taro", "Yamada"), ("Kyoko", "Ito"), ("Ryosuke", "Hayashi")]);
}

#[test]
fn error_reports_the_length() {
    let mut x = vec![10, 30, 11];
    assert_eq!(
        sort(&mut x, &Ascending),
        Err("The length of x is not a power of two. (x.len(): 3)".to_string())
    );
    let mut y: Vec<u32> = (0..12).collect();
    assert_eq!(
        sort_by(&mut y, &|a: &u32, b: &u32| a.cmp(b)),
        Err("The length of x is not a power of two. (x.len(): 12)".to_string())
    );
}

#[test]
fn descending_sort_matches_swapped_comparator() {
    let input: Vec<u32> = vec![5, 5, 1, 9, 3, 3, 7, 0];
    let mut a = input.clone();
    let mut b = input.clone();
    assert_eq!(sort(&mut a, &Descending), Ok(()));
    assert_eq!(sort_by(&mut b, &|p: &u32, q: &u32| q.cmp(p)), Ok(()));
    assert_eq!(a, b);
    assert_eq!(a, vec![9, 7, 5, 5, 3, 3, 1, 0]);
}

#[test]
fn single_element_is_unchanged() {
    let mut one = vec![(2u8, 'a')];
    assert_eq!(sort_by(&mut one, &|p: &(u8, char), q: &(u8, char)| p.0.cmp(&q.0)), Ok(()));
    assert_eq!(one, vec![(2, 'a')]);
}
