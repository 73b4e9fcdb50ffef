use polars_kernels::merge::get_merge_indicator;

fn get_merge_indicator_sliced<T: PartialOrd>(a: &[T], b: &[T]) -> Vec<u8> {
    get_merge_indicator(a, b)
}

#[test]
fn test_merge_sorted() {
    let a = [1, 2, 4, 6, 9];
    let b = [2, 3, 4, 5, 10];

    let out = get_merge_indicator_sliced(&a, &b);
    let expected = [0, 0, 1, 1, 0, 1, 1, 0, 0, 1];
    //               1  2  2  3  4  4  5  6  9  10
    assert_eq!(out, expected);

    // swap
    // it is not the inverse because left is preferred when both are equal
    let out = get_merge_indicator_sliced(&b, &a);
    let expected = [1, 0, 1, 0, 0, 1, 0, 1, 1, 0];
    assert_eq!(out, expected);

    let a = [5, 6, 7, 10];
    let b = [1, 2, 5];
    let out = get_merge_indicator_sliced(&a, &b);
    let expected = [1, 1, 0, 1, 0, 0, 0];
    assert_eq!(out, expected);

    // swap
    // it is not the inverse because left is preferred when both are equal
    let out = get_merge_indicator_sliced(&b, &a);
    let expected = [0, 0, 0, 1, 1, 1, 1];
    assert_eq!(out, expected);
}

#[test]
fn empty_sides_leave_one_source() {
    assert_eq!(get_merge_indicator::<i32>(&[], &[3, 4]), vec![1, 1]);
    assert_eq!(get_merge_indicator(&[3, 4, 5], &[]), vec![0, 0, 0]);
    assert_eq!(get_merge_indicator::<i32>(&[], &[]), Vec::<u8>::new());
}

#[test]
fn nulls_go_first() {
    let a = [None, Some(2)];
    let b = [None, None, Some(1)];
    assert_eq!(get_merge_indicator(&a, &b), vec![0, 1, 1, 1, 0]);
}

#[test]
fn all_equal_takes_the_left_side_first() {
    assert_eq!(get_merge_indicator(&[7u8, 7], &[7, 7]), vec![0, 0, 1, 1]);
}

#[test]
fn unsorted_sides_are_merged_as_they_come() {
    assert_eq!(get_merge_indicator(&[5, 1], &[3, 4]), vec![1, 1, 0, 0]);
    assert_eq!(get_merge_indicator(&[1, 9, 2], &[5, 3]), vec![0, 1, 1, 0, 0]);
}
