use algokit::fenwick::FenwickTree;

#[test]
fn prefix_sums_match_a_naive_scan() {
    let inp: Vec<isize> = vec![1, 2, 3, 4, 5, 6, 7, 8];
    let fw = FenwickTree::new(&inp);
    let mut acc = 0isize;
    for (i, v) in inp.iter().enumerate() {
        acc += v;
        assert_eq!(fw.get_sum(i), acc);
    }
}

#[test]
fn range_sum_and_update_walkthrough() {
    let inp: Vec<isize> = vec![1, 2, 3, 4, 5, 6, 7, 8];
    let mut fw = FenwickTree::new(&inp);
    assert_eq!(fw.get_sum_range(1, 5), Some(20));
    fw.update(2, 10);
    assert_eq!(fw.get_sum_range(1, 5), Some(30));
    assert_eq!(fw.get_sum_range(0, 7), Some(46));
}

#[test]
fn reversed_range_yields_nothing() {
    let inp: Vec<isize> = vec![5, -3, 7];
    let fw = FenwickTree::new(&inp);
    assert_eq!(fw.get_sum_range(2, 1), None);
    assert_eq!(fw.get_sum_range(0, 0), Some(5));
    assert_eq!(fw.get_sum_range(1, 1), Some(-3));
}

#[test]
fn negative_values_and_repeated_updates() {
    let inp: Vec<isize> = vec![0; 16];
    let mut fw = FenwickTree::new(&inp);
    for i in 0..16 {
        fw.update(i, (i as isize) - 8);
    }
    let mut acc = 0isize;
    for i in 0..16usize {
        acc += (i as isize) - 8;
        assert_eq!(fw.get_sum(i), acc);
    }
}
