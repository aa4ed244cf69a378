use mandelbrot::{checked_gcd, gcd, gcd_all};

#[test]
fn gcd_test() {
    assert_eq!(gcd(14, 15), 1);
    assert_eq!(gcd(2 * 3 * 5 * 11 * 17, 3 * 7 * 11 * 13 * 19), 3 * 11);
}

#[test]
fn gcd_of_equal_and_dividing_numbers() {
    assert_eq!(gcd(12, 12), 12);
    assert_eq!(gcd(4, 12), 4);
    assert_eq!(gcd(12, 4), 4);
    assert_eq!(gcd(1, u64::MAX), 1);
    assert_eq!(gcd(u64::MAX, u64::MAX), u64::MAX);
}

#[test]
fn checked_gcd_rejects_zero() {
    assert_eq!(checked_gcd(0, 5), None);
    assert_eq!(checked_gcd(5, 0), None);
    assert_eq!(checked_gcd(0, 0), None);
    assert_eq!(checked_gcd(18, 24), Some(6));
}

#[test]
fn gcd_of_a_list() {
    assert_eq!(gcd_all(&vec![7]), 7);
    assert_eq!(gcd_all(&vec![12, 18, 30]), 6);
    assert_eq!(gcd_all(&vec![12, 18, 35]), 1);
    assert_eq!(gcd_all(&vec![2 * 3 * 5 * 11 * 17, 3 * 7 * 11 * 13 * 19, 33]), 33);
}
