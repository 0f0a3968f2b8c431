use sudoku::{difference, is_unique};

#[test]
fn test_is_unique() {
    assert!(is_unique(&[2, 3, 4]));
    assert!(is_unique(&[]));
    assert!(!is_unique(&[3, 3]));
}

#[test]
fn single_digit_is_unique() {
    assert!(is_unique(&[7]));
}

#[test]
fn repeat_at_a_distance_is_found() {
    assert!(!is_unique(&[1, 2, 3, 4, 5, 6, 7, 8, 1]));
    assert!(!is_unique(&[4, 9, 9]));
    assert!(is_unique(&[9, 8, 7, 6, 5, 4, 3, 2, 1]));
}

#[test]
fn difference_keeps_order_of_left() {
    assert_eq!(difference(&[1, 2, 3, 4, 5], &[2, 4]), vec![1, 3, 5]);
    assert_eq!(difference(&[9, 1, 5], &[5, 7]), vec![9, 1]);
}

#[test]
fn difference_with_nothing_to_remove() {
    assert_eq!(difference(&[1, 2, 3], &[]), vec![1, 2, 3]);
    assert_eq!(difference(&[1, 2, 3], &[4, 5]), vec![1, 2, 3]);
    assert_eq!(difference(&[], &[1]), Vec::<u8>::new());
}

#[test]
fn difference_can_remove_everything() {
    assert_eq!(difference(&[3, 3, 1], &[1, 3]), Vec::<u8>::new());
}
