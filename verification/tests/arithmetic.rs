use amq_filters::arithmetic::{at_most, one, times, times_power};

fn equal(a: &Vec<u64>, b: &Vec<u64>) -> bool {
    at_most(a, b) && at_most(b, a)
}

#[test]
fn one_is_one() {
    assert!(equal(&one(), &vec![1]));
    assert!(!at_most(&one(), &vec![0]));
    assert!(at_most(&vec![0], &one()));
}

#[test]
fn times_carries_into_the_next_limb() {
    assert!(equal(&times(&vec![u64::MAX], 2), &vec![u64::MAX - 1, 1]));
    assert!(equal(&times(&vec![u64::MAX, u64::MAX], u64::MAX), &vec![1, u64::MAX, u64::MAX - 1]));
    assert!(equal(&times(&vec![7, 9], 0), &vec![0]));
    assert!(equal(&times(&vec![7, 9], 1), &vec![7, 9]));
    assert!(equal(&times(&Vec::new(), 5), &Vec::new()));
    assert!(equal(&times(&vec![3], 5), &vec![15]));
}

#[test]
fn times_power_multiplies_by_a_power() {
    assert!(equal(&times_power(one(), 2, 64), &vec![0, 1]));
    assert!(equal(&times_power(one(), 2, 130), &vec![0, 0, 4]));
    assert!(equal(&times_power(vec![3], 10, 3), &vec![3000]));
    assert!(equal(&times_power(vec![3], 10, 0), &vec![3]));
    assert!(equal(&times_power(one(), 0, 5), &vec![0]));
    assert!(equal(&times_power(one(), 0, 0), &vec![1]));
    // 24^50 = 2^150 * 3^50, and 3^50 = 717897987691852588770249.
    let three_50: u128 = 717_897_987_691_852_588_770_249;
    let low = three_50 as u64;
    let high = (three_50 >> 64) as u64;
    let expected = times_power(vec![low, high], 2, 150);
    assert!(equal(&times_power(one(), 24, 50), &expected));
}

#[test]
fn at_most_compares_numbers_of_any_length() {
    assert!(at_most(&vec![5], &vec![5]));
    assert!(at_most(&vec![5], &vec![6]));
    assert!(!at_most(&vec![6], &vec![5]));
    assert!(at_most(&vec![u64::MAX], &vec![0, 1]));
    assert!(!at_most(&vec![0, 1], &vec![u64::MAX]));
    assert!(at_most(&vec![9, 0, 0], &vec![9]));
    assert!(at_most(&vec![9], &vec![9, 0, 0]));
    assert!(at_most(&Vec::new(), &vec![0, 0]));
    assert!(at_most(&vec![0, 0], &Vec::new()));
    assert!(at_most(&vec![1, 2, 3], &vec![0, 3, 3]));
    assert!(!at_most(&vec![0, 3, 3], &vec![u64::MAX, 2, 3]));
}
