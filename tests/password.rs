use intcode::password::{
    digit_counts_exactly_two, digits_do_not_decrease, has_adjacent_equal_digits, valid_passwords,
};

#[test]
fn adjacent_equal_digits() {
    assert!(has_adjacent_equal_digits(122345));
    assert!(!has_adjacent_equal_digits(123789));
    assert!(!has_adjacent_equal_digits(7));
}

#[test]
fn non_decreasing_digits() {
    assert!(digits_do_not_decrease(111123));
    assert!(!digits_do_not_decrease(223450));
    assert!(digits_do_not_decrease(0));
}

#[test]
fn some_digit_exactly_twice() {
    assert!(digit_counts_exactly_two(112233));
    assert!(!digit_counts_exactly_two(123444));
    assert!(digit_counts_exactly_two(111122));
}

#[test]
fn passwords_in_a_range() {
    assert_eq!(valid_passwords(111120, 111125), vec![111122]);
    assert_eq!(valid_passwords(10, 1), Vec::<i32>::new());
}
