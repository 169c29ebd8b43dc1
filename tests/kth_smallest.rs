use yumorithm::searching::kth_smallest;
use yumorithm::searching::kth_smallest::partition;

#[test]
fn kth_smallest_partition() {
    let mut arr = [6, 10, 13, 5, 8, 3, 2, 11];
    let len = arr.len() - 1;
    let index = partition(&mut arr, 0, len);

    assert_eq!(3, index); // return index of arr[3] = 6
}

#[test]
fn kth_smallest_empty_test() {
    let mut zero: [u8; 0] = [];
    let first = kth_smallest(1, &mut zero);

    assert_eq!(None, first);
}

#[test]
fn kth_smallest_has_one_element_test() {
    let mut one = [1];
    let first = kth_smallest(1, &mut one);

    assert_eq!(Some(1), first);
}

#[test]
fn kth_smallest_gt_len() {
    let mut arr = [1, 2, 3];
    let elm10th = kth_smallest(10, &mut arr);

    assert_eq!(None, elm10th);
}

#[test]
fn kth_smallest_has_n_elements_test() {
    // 0 1 3 4 5 7 8 9 9 10 12 13 16 17
    let mut arr = [9, 17, 3, 16, 13, 10, 1, 5, 7, 12, 4, 8, 9, 0];

    let first = kth_smallest(1, &mut arr);
    let third = kth_smallest(3, &mut arr);
    let sixth = kth_smallest(6, &mut arr);
    let fourteenth = kth_smallest(14, &mut arr);

    assert_eq!(0, first.unwrap());
    assert_eq!(3, third.unwrap());
    assert_eq!(7, sixth.unwrap());
    assert_eq!(17, fourteenth.unwrap());
}

#[test]
fn kth_smallest_second_of_three() {
    let mut arr = vec![101, 20, 305];
    assert_eq!(Some(101), kth_smallest(2, &mut arr));
}

#[test]
fn kth_smallest_zero_rank() {
    let mut arr = [4, 2, 9];
    assert_eq!(None, kth_smallest(0, &mut arr));
    assert_eq!([4, 2, 9], arr);
}

#[test]
fn kth_smallest_last_rank_is_maximum() {
    let mut arr = [4, 2, 9];
    assert_eq!(Some(9), kth_smallest(3, &mut arr));
}

#[test]
fn kth_smallest_matches_sorted_copy() {
    let original = vec![9, 17, 3, 16, 13, 10, 1, 5, 7, 12, 4, 8, 9, 0];
    let mut sorted = original.clone();
    sorted.sort();
    for k in 1..=original.len() {
        let mut arr = original.clone();
        assert_eq!(Some(sorted[k - 1]), kth_smallest(k, &mut arr));
    }
}

#[test]
fn kth_smallest_only_reorders() {
    let original = vec![5, 3, 5, 1, 8, 3, 0, 5];
    let mut sorted = original.clone();
    sorted.sort();
    for k in 1..=original.len() {
        let mut arr = original.clone();
        kth_smallest(k, &mut arr);
        arr.sort();
        assert_eq!(sorted, arr);
    }
}

#[test]
fn kth_smallest_leaves_selected_in_place() {
    let mut arr = [7, 1, 9, 3, 5, 2];
    assert_eq!(Some(5), kth_smallest(4, &mut arr));
    assert_eq!(5, arr[3]);
    assert!(arr[..3].iter().all(|x| *x <= 5));
    assert!(arr[4..].iter().all(|x| *x >= 5));
}

#[test]
fn kth_smallest_all_equal() {
    let mut arr = [4, 4, 4, 4];
    assert_eq!(Some(4), kth_smallest(2, &mut arr));
}

#[test]
fn kth_smallest_sorted_and_reversed_inputs() {
    let mut up = [1, 2, 3, 4, 5, 6];
    let mut down = [6, 5, 4, 3, 2, 1];
    assert_eq!(Some(2), kth_smallest(2, &mut up));
    assert_eq!(Some(5), kth_smallest(5, &mut down));
}

#[test]
fn partition_splits_around_first_element() {
    let mut arr = [6, 10, 13, 5, 8, 3, 2, 11];
    let p = partition(&mut arr, 0, 7);
    assert_eq!(3, p);
    assert_eq!(6, arr[3]);
    assert!(arr[..3].iter().all(|x| *x <= 6));
    assert!(arr[4..].iter().all(|x| *x >= 6));
}

#[test]
fn partition_sub_range_keeps_outside() {
    let mut arr = [100, 4, 9, 1, 7, 0];
    let p = partition(&mut arr, 1, 4);
    assert_eq!(2, p);
    assert_eq!(4, arr[2]);
    assert_eq!(100, arr[0]);
    assert_eq!(0, arr[5]);
    assert_eq!(1, arr[1]);
    assert!(arr[3] >= 4 && arr[4] >= 4);
}

#[test]
fn partition_last_element_counts() {
    let mut arr = [5, 9, 1];
    let p = partition(&mut arr, 0, 2);
    assert_eq!(1, p);
    assert_eq!([1, 5, 9], arr);
}
