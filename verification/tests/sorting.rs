use algs::sorting::heap::{sink, swim};
use algs::sorting::is_sorted;
use algs::sorting::merge::merge;
use algs::sorting::pq::MaxPQ;
use algs::sorting::quick::partition;
use algs::sorting::{bottom_up, heapsort, insertion, quick, selection, shell, top_down};

fn test_sort<F>(sort: F)
where
    F: Fn(&mut Vec<i64>) -> (),
{
    let test_data: Vec<(Vec<i64>, Vec<i64>)> = vec![
        (vec![], vec![]),
        (vec![42], vec![42]),
        (vec![2, 3], vec![2, 3]),
        (vec![2, 3], vec![3, 2]),
        (vec![1, 2, 3, 4, 5], vec![4, 1, 2, 5, 3]),
    ];
    for pair in test_data {
        let mut input = pair.1;
        sort(&mut input);
        assert_eq!(input, pair.0);
    }
}

#[test]
fn is_sorted_works() {
    assert!(is_sorted(&vec![-9, -8, -6, -2, 0, 2, 2, 5, 6, 9]));
    assert!(!is_sorted(&vec![-4, -3, -1, 2, 1, 4, 5, 7, 8, 9]));
}

#[test]
fn insertion_sort_works() {
    test_sort(insertion::sort);
}

#[test]
fn selection_sort_works() {
    test_sort(selection::sort);
}

#[test]
fn shell_sort_works() {
    test_sort(shell::sort);
}

#[test]
fn quick_sort_works() {
    test_sort(quick::sort);
}

#[test]
fn top_down_sort_works() {
    test_sort(top_down::sort);
}

#[test]
fn bottom_up_sort_works() {
    test_sort(bottom_up::sort);
}

#[test]
fn sort_sort_works() {
    test_sort(heapsort::sort);
}

fn is_partitioned(v: &Vec<i64>, lo: usize, hi: usize, i: usize) -> bool {
    for j in lo..i {
        if v[j] > v[i] {
            return false;
        }
    }
    for j in i + 1..hi {
        if v[j] < v[i] {
            return false;
        }
    }
    return true;
}

#[test]
fn is_partitioned_works() {
    //                              0 1 2 3 4
    assert!(is_partitioned(&vec![2, 5, 9, 7, 3], 0, 5, 0));
    assert!(is_partitioned(&vec![5, 2, 6, 9, 7], 0, 5, 2));
    assert!(is_partitioned(&vec![6, 3, 4, 1, 9], 0, 5, 4));
    assert!(!is_partitioned(&vec![2, 5, 1, 7, 3], 0, 5, 0));
    assert!(!is_partitioned(&vec![5, 7, 6, 9, 7], 0, 5, 2));
    assert!(!is_partitioned(&vec![6, 3, 4, 1, 5], 0, 5, 4));
}

#[test]
fn partition_works() {
    let test_data: Vec<Vec<i64>> = vec![
        vec![1, 9, 4, 1, 9],
        vec![1, 9, 4, 3, 1, 9],
        vec![1, 9, 1, 5, 7, 2, 3, 1, 9],
        vec![1, 9, 9, 4, 2, 6, 3, 1, 9],
        vec![1, 9, 5, 3, 4, 3, 8, 1, 9],
        vec![1, 9, 5, 3, 8, 5, 6, 1, 9],
    ];

    for input in test_data {
        let mut output = input.clone();
        let n = output.len();
        let lo = 2;
        let hi = n - 2;

        let i = partition(&mut output, lo, hi);

        for j in 0..lo {
            assert!(input[j] == output[j]);
        }
        for j in hi..n {
            assert!(input[j] == output[j]);
        }
        assert!(is_partitioned(&output, lo, hi, i));
    }
}

#[test]
fn merge_works() {
    //                                                 0 1 2 3 4 5 6 7
    let mut aux: Vec<i64> = vec![0; 8];
    let mut v: Vec<i64> = vec![2, 5, 7, 4, 1, 3, 8, 9];
    merge(&mut v, &mut aux, 2, 3, 4);
    assert_eq!(v, vec![2, 5, 4, 7, 1, 3, 8, 9]);
    merge(&mut v, &mut aux, 0, 2, 4);
    assert_eq!(v, vec![2, 4, 5, 7, 1, 3, 8, 9]);
    merge(&mut v, &mut aux, 0, 4, 8);
    assert_eq!(v, vec![1, 2, 3, 4, 5, 7, 8, 9]);
}

#[test]
fn swim_works() {
    let mut v: Vec<i64> = vec![10, 6, 9, 4, 3, 7, 2, 1];
    swim(&mut v, 7);
    assert_eq!(vec![10, 6, 9, 4, 3, 7, 2, 1], v);

    let mut v: Vec<i64> = vec![10, 6, 9, 4, 3, 7, 2, 5];
    swim(&mut v, 7);
    assert_eq!(vec![10, 6, 9, 5, 3, 7, 2, 4], v);

    let mut v: Vec<i64> = vec![10, 6, 9, 4, 3, 7, 2, 8];
    swim(&mut v, 7);
    assert_eq!(vec![10, 8, 9, 6, 3, 7, 2, 4], v);

    let mut v: Vec<i64> = vec![10, 6, 9, 4, 3, 7, 2, 20];
    swim(&mut v, 7);
    assert_eq!(vec![20, 10, 9, 6, 3, 7, 2, 4], v);
}

#[test]
fn sink_works() {
    let mut v: Vec<i64> = vec![10, 9, 4, 6, 7, 3, 1];
    sink(&mut v, 0, 7);
    assert_eq!(vec![10, 9, 4, 6, 7, 3, 1], v);

    let mut v: Vec<i64> = vec![8, 9, 4, 6, 7, 3, 1];
    sink(&mut v, 0, 7);
    assert_eq!(vec![9, 8, 4, 6, 7, 3, 1], v);

    let mut v: Vec<i64> = vec![5, 9, 4, 6, 7, 3, 1];
    sink(&mut v, 0, 7);
    assert_eq!(vec![9, 7, 4, 6, 5, 3, 1], v);
}

#[test]
fn priority_queue_works_for_1_element() {
    let mut pq = MaxPQ::new();
    assert!(pq.is_empty());
    assert_eq!(0, pq.size());

    pq.insert(42);
    assert!(!pq.is_empty());
    assert_eq!(1, pq.size());

    assert_eq!(Some(42), pq.pop_max());
    assert!(pq.is_empty());
    assert_eq!(0, pq.size());
}

#[test]
fn priority_queue_works_for_10_elements() {
    let input: Vec<i64> = vec![5, 2, 8, 7, 4, 9, 0, 1, 3, 6];
    let expected: Vec<i64> = vec![9, 8, 7, 6, 5, 4, 3, 2, 1, 0];
    let mut output: Vec<i64> = vec![];
    let mut pq = MaxPQ::new();
    for i in input {
        pq.insert(i);
    }
    assert!(!pq.is_empty());
    assert_eq!(10, pq.size());
    for _ in 0..10 {
        output.push(pq.pop_max().unwrap());
    }
    assert_eq!(expected, output);
    assert!(pq.is_empty());
    assert_eq!(0, pq.size());
}
