use sumcheck::sort_arr;
use sumcheck::sorting::{merge, merge_sort, partition, quick_sort, quick_sort_partition};

#[test]
fn sort_arr_sorts() {
    let mut v: Vec<u64> = vec![5, 3, 9, 1, 1, 8];
    sort_arr(&mut v);
    assert_eq!(v, vec![1, 1, 3, 5, 8, 9]);
}

#[test]
fn merge_sort_handles_small_and_large() {
    let mut empty: Vec<u64> = vec![];
    merge_sort(&mut empty);
    assert_eq!(empty, Vec::<u64>::new());

    let mut one: Vec<u64> = vec![7];
    merge_sort(&mut one);
    assert_eq!(one, vec![7]);

    let mut v: Vec<u64> = vec![10, 2, 33, 2, 0, 99, 5];
    merge_sort(&mut v);
    assert_eq!(v, vec![0, 2, 2, 5, 10, 33, 99]);
}

#[test]
fn merge_interleaves_sorted_inputs() {
    let l: Vec<u64> = vec![1, 4, 6];
    let r: Vec<u64> = vec![2, 3, 7];
    let mut out: Vec<u64> = vec![];
    merge(&l, &r, &mut out);
    assert_eq!(out, vec![1, 2, 3, 4, 6, 7]);
}

#[test]
fn quick_sort_sorts() {
    let mut v: Vec<u64> = vec![9, 0, 4, 4, 100, 3];
    quick_sort(&mut v);
    assert_eq!(v, vec![0, 3, 4, 4, 9, 100]);
}

#[test]
fn quick_sort_partition_sorts_a_range() {
    let mut v: Vec<u64> = vec![42, 5, 4, 3, 77];
    quick_sort_partition(&mut v, 1, 3);
    assert_eq!(v, vec![42, 3, 4, 5, 77]);
}

#[test]
fn partition_splits_around_the_pivot() {
    let mut v: Vec<u64> = vec![8, 2, 9, 1, 5];
    let p = partition(&mut v, 0, 4);
    let pivot = v[p as usize];
    assert_eq!(pivot, 5);
    for k in 0..p as usize {
        assert!(v[k] <= pivot);
    }
    for k in (p as usize + 1)..v.len() {
        assert!(v[k] > pivot);
    }
}
