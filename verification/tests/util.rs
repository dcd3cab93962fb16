use algokit::util::{get_trailing_zeros, update_vector};

#[test]
fn trailing_zeros_of_zero_is_the_width() {
    assert_eq!(get_trailing_zeros(0, 31), 31);
    assert_eq!(get_trailing_zeros(0, 8), 8);
}

#[test]
fn trailing_zeros_counts_low_zero_bits() {
    assert_eq!(get_trailing_zeros(1, 31), 0);
    assert_eq!(get_trailing_zeros(6, 31), 1);
    assert_eq!(get_trailing_zeros(8, 31), 3);
    assert_eq!(get_trailing_zeros(0x8000_0000, 31), 31);
}

#[test]
fn update_vector_increments_each_element() {
    let mut v = Box::new(vec![1usize, 2, 3]);
    update_vector(&mut v);
    assert_eq!(*v, vec![2usize, 3, 4]);

    let mut empty = Box::new(Vec::<usize>::new());
    update_vector(&mut empty);
    assert!(empty.is_empty());
}
