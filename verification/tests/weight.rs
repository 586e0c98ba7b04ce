use constrained_hmm::weight::Weight;
use num_traits::ToPrimitive;

fn parts(weight: &Weight) -> (u64, u64) {
    let (numerator, denominator) = weight.to_parts();
    (numerator.to_u64().unwrap(), denominator.to_u64().unwrap())
}

fn ratio(n: u64, d: u64) -> Weight {
    Weight::from_ratio(n, d).unwrap()
}

#[test]
fn zero_and_one() {
    assert_eq!((0, 1), parts(&Weight::zero()));
    assert_eq!((1, 1), parts(&Weight::one()));
    assert!(Weight::zero().is_zero());
    assert!(!Weight::one().is_zero());
}

#[test]
fn whole_numbers() {
    assert_eq!((7, 1), parts(&Weight::from_count(7)));
    assert_eq!((0, 1), parts(&Weight::from_count(0)));
    assert_eq!((u64::MAX, 1), parts(&Weight::from_count(u64::MAX)));
}

#[test]
fn fractions_are_kept_in_lowest_terms() {
    assert_eq!((3, 4), parts(&ratio(6, 8)));
    assert_eq!((5, 1), parts(&ratio(10, 2)));
    assert_eq!((0, 1), parts(&ratio(0, 9)));
    assert_eq!((2, 3), parts(&ratio(2, 3)));
}

#[test]
fn a_fraction_over_zero_is_refused() {
    assert!(Weight::from_ratio(1, 0).is_none());
    assert!(Weight::from_ratio(0, 0).is_none());
}

#[test]
fn sums() {
    assert_eq!((5, 6), parts(&ratio(1, 2).plus(&ratio(1, 3))));
    assert_eq!((1, 1), parts(&ratio(1, 4).plus(&ratio(3, 4))));
    assert_eq!((1, 2), parts(&ratio(1, 2).plus(&Weight::zero())));
}

#[test]
fn products() {
    assert_eq!((1, 2), parts(&ratio(2, 3).times(&ratio(3, 4))));
    assert_eq!((0, 1), parts(&ratio(2, 3).times(&Weight::zero())));
    assert_eq!((2, 3), parts(&ratio(2, 3).times(&Weight::one())));
}

#[test]
fn quotients() {
    assert_eq!((8, 9), parts(&ratio(2, 3).divided_by(&ratio(3, 4))));
    assert_eq!((1, 1), parts(&ratio(2, 3).divided_by(&ratio(2, 3))));
    assert_eq!((0, 1), parts(&Weight::zero().divided_by(&ratio(2, 3))));
}

#[test]
fn sums_beyond_machine_integers() {
    let big = Weight::from_count(u64::MAX);
    let square = big.times(&big);
    let back = square.divided_by(&big);
    assert_eq!((u64::MAX, 1), parts(&back));
    let (numerator, denominator) = square.plus(&Weight::one()).to_parts();
    assert_eq!("340282366920938463426481119284349108226", numerator.to_string());
    assert_eq!("1", denominator.to_string());
}

#[test]
fn a_weight_exceeds_the_draws_below_it() {
    let half = ratio(1, 2);
    assert!(half.exceeds(0));
    assert!(half.exceeds((1u64 << 63) - 1));
    assert!(!half.exceeds(1u64 << 63));
    assert!(!half.exceeds(u64::MAX));
    assert!(Weight::one().exceeds(u64::MAX));
    assert!(!Weight::zero().exceeds(0));
}

#[test]
fn copies_are_equal_in_value() {
    let weight = ratio(9, 12);
    assert_eq!(parts(&weight), parts(&weight.duplicate()));
    assert_eq!(parts(&weight), parts(&weight.clone()));
    assert_eq!((3, 4), parts(&weight.clone()));
}
