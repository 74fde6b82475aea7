use advent_of_code::helpers::iter::AocIteratorExtensions;

#[test]
fn the_highest_items_come_out_ascending() {
    let top: [usize; 3] = vec![5, 1, 9, 3, 7, 9, 2].k_highest::<3>();
    assert_eq!(top, [7, 9, 9]);
    let top: [usize; 2] = vec![4, 8, 6].k_highest::<2>();
    assert_eq!(top, [6, 8]);
}

#[test]
fn zeros_fill_in_for_missing_items() {
    let top: [usize; 4] = vec![3, 1].k_highest::<4>();
    assert_eq!(top, [0, 0, 1, 3]);
    let top: [usize; 2] = Vec::new().k_highest::<2>();
    assert_eq!(top, [0, 0]);
    let top: [usize; 0] = vec![1, 2, 3].k_highest::<0>();
    assert_eq!(top, []);
}

#[test]
fn equal_items_are_all_counted() {
    let top: [usize; 3] = vec![2, 2, 2, 2].k_highest::<3>();
    assert_eq!(top, [2, 2, 2]);
    let top: [usize; 3] = vec![5, 2, 5, 1, 5, 5].k_highest::<3>();
    assert_eq!(top, [5, 5, 5]);
    let top: [usize; 2] = vec![usize::MAX, 0, usize::MAX - 1].k_highest::<2>();
    assert_eq!(top, [usize::MAX - 1, usize::MAX]);
}
