use algokit::skiplist::SkipList;

#[test]
fn round_trip_point_inserts() {
    let mut sl = SkipList::new(32, 0);
    let vals: [i64; 6] = [5, 3, 8, 1, 9, 2];
    for (i, v) in vals.iter().enumerate() {
        sl.insert(v, i);
    }
    assert_eq!(sl.search(8), vec![2]);
    assert_eq!(sl.search(42), Vec::<usize>::new());
}

#[test]
fn range_queries_on_sorted_load() {
    let mut sl = SkipList::new(32, 0);
    sl.insert_initial(&vec![1, 3, 3, 5, 7, 9]);

    let mut gte = sl.search_gte(3);
    gte.sort();
    assert_eq!(gte, vec![1, 2, 3, 4, 5]);

    assert_eq!(sl.search_lt(3), vec![0]);
}

#[test]
fn delete_removes_one_duplicate_at_a_time() {
    let mut sl = SkipList::new(32, 0);
    sl.insert_initial(&vec![1, 3, 3, 5, 7, 9]);

    sl.delete(&3);
    let left = sl.search(3);
    assert_eq!(left.len(), 1);
    assert_eq!(left, vec![2]);

    sl.delete(&3);
    assert_eq!(sl.search(3), Vec::<usize>::new());
}

#[test]
fn delete_absent_is_a_no_op() {
    let mut sl = SkipList::new(16, 0);
    sl.insert_initial(&vec![2, 4, 6, 8]);
    let before_all: Vec<Vec<usize>> = (0..10).map(|v| sl.search(v)).collect();
    sl.delete(&5);
    let after_all: Vec<Vec<usize>> = (0..10).map(|v| sl.search(v)).collect();
    assert_eq!(before_all, after_all);
}

#[test]
fn bulk_load_round_trip_small_sizes() {
    for n in [0usize, 1, 2, 5, 37] {
        let mut sl = SkipList::new(n, 0);
        let vals: Vec<i64> = (0..n as i64).collect();
        sl.insert_initial(&vals);
        for j in 0..n {
            assert_eq!(sl.search(j as i64), vec![j]);
        }
    }
}

#[test]
fn bulk_load_round_trip_stress() {
    let n: usize = 100_000;
    let mut sl = SkipList::new(n, 0);
    let vals: Vec<i64> = (0..n as i64).map(|v| v * 2).collect();
    sl.insert_initial(&vals);
    for j in (0..n).step_by(97) {
        assert_eq!(sl.search(2 * j as i64), vec![j]);
    }
    assert_eq!(sl.search(1), Vec::<usize>::new());
}

#[test]
fn search_variants_agree_with_a_naive_scan() {
    let mut sl = SkipList::new(64, 0);
    let vals: [i64; 9] = [-4, -1, 0, 2, 2, 3, 7, 7, 11];
    sl.insert_initial(&vals.to_vec());
    let target = 2;

    let naive = |pred: &dyn Fn(i64) -> bool| -> Vec<usize> {
        vals.iter()
            .enumerate()
            .filter(|(_, v)| pred(**v))
            .map(|(i, _)| i)
            .collect()
    };

    let mut lt = sl.search_lt(target);
    lt.sort();
    assert_eq!(lt, naive(&|v| v < target));

    let mut lte = sl.search_lte(target);
    lte.sort();
    assert_eq!(lte, naive(&|v| v <= target));

    let mut gt = sl.search_gt(target);
    gt.sort();
    assert_eq!(gt, naive(&|v| v > target));

    let mut gte = sl.search_gte(target);
    gte.sort();
    assert_eq!(gte, naive(&|v| v >= target));

    let mut eq = sl.search(target);
    eq.sort();
    assert_eq!(eq, naive(&|v| v == target));
}

#[test]
fn empty_and_degenerate_capacity() {
    let mut sl = SkipList::new(0, 0);
    assert_eq!(sl.search(1), Vec::<usize>::new());
    assert_eq!(sl.search_gte(0), Vec::<usize>::new());
    sl.insert(&7, 0);
    assert_eq!(sl.search(7), vec![0]);
    let dump = sl.dump_levels();
    assert_eq!(dump.len(), 1);
    assert_eq!(dump[0], vec![7]);
}

#[test]
fn dump_levels_bottom_row_is_the_sorted_chain() {
    let mut sl = SkipList::new(8, 0);
    sl.insert(&3, 0);
    sl.insert(&1, 1);
    sl.insert(&2, 2);
    let dump = sl.dump_levels();
    assert_eq!(dump.len(), 4);
    assert_eq!(dump[dump.len() - 1], vec![1, 2, 3]);
    for row in dump.iter() {
        let mut sorted = row.clone();
        sorted.sort();
        assert_eq!(*row, sorted);
    }
}

#[test]
fn levels_follow_the_capacity_hint() {
    let sl = SkipList::new(32, 0);
    assert_eq!(sl.dump_levels().len(), 6);
    let sl2 = SkipList::new(1, 0);
    assert_eq!(sl2.dump_levels().len(), 1);
}

#[test]
fn interleaved_inserts_and_deletes_stay_sorted() {
    let mut sl = SkipList::new(64, 0);
    let vals: [i64; 12] = [9, 4, 4, -2, 17, 0, 4, 25, -2, 13, 8, 1];
    for (i, v) in vals.iter().enumerate() {
        sl.insert(v, i);
    }
    sl.delete(&4);
    sl.delete(&-2);
    sl.delete(&99);
    let dump = sl.dump_levels();
    let bottom = &dump[dump.len() - 1];
    assert_eq!(bottom.len(), 10);
    let mut sorted = bottom.clone();
    sorted.sort();
    assert_eq!(*bottom, sorted);
    assert_eq!(sl.search(4).len(), 2);
    assert_eq!(sl.search(-2).len(), 1);
}
