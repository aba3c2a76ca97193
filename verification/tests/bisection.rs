use meeting_rooms::indices::generate_indices;

#[test]
fn indices_come_middle_first() {
    let mut indices: Vec<u64> = vec![];
    generate_indices(1, 7, &mut indices);
    assert_eq!(indices, vec![4, 2, 1, 3, 6, 5, 7]);
}

#[test]
fn indices_of_an_even_range() {
    let mut indices: Vec<u64> = vec![];
    generate_indices(1, 4, &mut indices);
    assert_eq!(indices, vec![2, 1, 3, 4]);
}

#[test]
fn indices_are_appended() {
    let mut indices: Vec<u64> = vec![99];
    generate_indices(5, 5, &mut indices);
    generate_indices(6, 5, &mut indices);
    assert_eq!(indices, vec![99, 5]);
}

#[test]
fn indices_cover_the_range_once() {
    let mut indices: Vec<u64> = vec![];
    generate_indices(1, 1000, &mut indices);
    assert_eq!(indices.len(), 1000);
    indices.sort();
    let expected: Vec<u64> = (1..=1000).collect();
    assert_eq!(indices, expected);
}

#[test]
fn indices_at_the_ends_of_the_number_range() {
    let mut indices: Vec<u64> = vec![];
    generate_indices(0, 2, &mut indices);
    assert_eq!(indices, vec![1, 0, 2]);

    let mut indices: Vec<u64> = vec![];
    generate_indices(u64::MAX - 1, u64::MAX, &mut indices);
    assert_eq!(indices, vec![u64::MAX - 1, u64::MAX]);
}
