use intermediate_fraction::error::FractionError;
use intermediate_fraction::fraction::simplest_intermediate_fraction;

/// a/b < p/q < c/d, checked by cross-multiplication.
fn lies_between(a: u32, b: u32, c: u32, d: u32, p: u64, q: u64) -> bool {
    let (a, b, c, d) = (a as u128, b as u128, c as u128, d as u128);
    let (p, q) = (p as u128, q as u128);
    a * q < p * b && p * d < c * q
}

#[test]
fn it_works() {
    assert_eq!(simplest_intermediate_fraction(2, 5, 4, 5), Ok([1, 2]));
    assert_eq!(simplest_intermediate_fraction(1, 1, 2, 1), Ok([3, 2]));
    assert_eq!(simplest_intermediate_fraction(5, 13, 7, 18), Ok([12, 31]));
    assert_eq!(simplest_intermediate_fraction(12, 31, 7, 18), Ok([19, 49]));
}

#[test]
fn between_two_fifths_and_four_fifths() {
    assert_eq!(simplest_intermediate_fraction(2, 5, 4, 5), Ok([1, 2]));
}

#[test]
fn between_one_and_two() {
    assert_eq!(simplest_intermediate_fraction(1, 1, 2, 1), Ok([3, 2]));
}

#[test]
fn equal_bounds_are_invalid() {
    assert_eq!(simplest_intermediate_fraction(1, 2, 1, 2), Err(FractionError::InvalidInput));
}

#[test]
fn equal_values_written_differently_are_invalid() {
    assert_eq!(simplest_intermediate_fraction(2, 4, 1, 2), Err(FractionError::InvalidInput));
}

#[test]
fn reversed_bounds_are_invalid() {
    assert_eq!(simplest_intermediate_fraction(4, 5, 2, 5), Err(FractionError::InvalidInput));
}

#[test]
fn zero_denominators_are_invalid() {
    assert_eq!(simplest_intermediate_fraction(1, 0, 2, 1), Err(FractionError::InvalidInput));
    assert_eq!(simplest_intermediate_fraction(0, 1, 2, 0), Err(FractionError::InvalidInput));
}

#[test]
fn zero_lower_bound() {
    assert_eq!(simplest_intermediate_fraction(0, 1, 1, 1), Ok([1, 2]));
    assert_eq!(simplest_intermediate_fraction(0, 1, 1, 3), Ok([1, 4]));
}

#[test]
fn integer_strictly_inside_uses_denominator_one() {
    assert_eq!(simplest_intermediate_fraction(1, 2, 5, 2), Ok([1, 1]));
}

#[test]
fn narrow_interval_above_three_fifths() {
    assert_eq!(simplest_intermediate_fraction(3, 5, 2, 3), Ok([5, 8]));
}

#[test]
fn numerator_too_large_is_exhausted() {
    assert_eq!(
        simplest_intermediate_fraction(u32::MAX - 1, 1, u32::MAX, 1),
        Err(FractionError::SearchExhausted)
    );
}

#[test]
fn largest_representable_answer() {
    assert_eq!(simplest_intermediate_fraction(u32::MAX - 2, 1, u32::MAX, 1), Ok([u32::MAX - 1, 1]));
}

#[test]
fn repeated_calls_agree() {
    let first = simplest_intermediate_fraction(5, 13, 7, 18);
    let second = simplest_intermediate_fraction(5, 13, 7, 18);
    assert_eq!(first, second);
    assert_eq!(first, Ok([12, 31]));
}

#[test]
fn results_lie_strictly_between_and_have_least_denominator() {
    for a in 0..7u32 {
        for b in 1..7u32 {
            for c in 0..7u32 {
                for d in 1..7u32 {
                    let r = simplest_intermediate_fraction(a, b, c, d);
                    if (a as u64) * (d as u64) >= (c as u64) * (b as u64) {
                        assert_eq!(r, Err(FractionError::InvalidInput));
                        continue;
                    }
                    let [p, q] = r.unwrap();
                    assert!(lies_between(a, b, c, d, p as u64, q as u64));
                    for q2 in 1..(q as u64) {
                        for p2 in 0..=(q2 * 7) {
                            assert!(!lies_between(a, b, c, d, p2, q2));
                        }
                    }
                    for p2 in 0..(p as u64) {
                        assert!(!lies_between(a, b, c, d, p2, q as u64));
                    }
                }
            }
        }
    }
}
