use jp2gmd::rationals::Rational;
use jp2gmd::text::{int_to_string, nat_to_string};
use jp2gmd::traits::{CheckedOps, LaTeXable, MatrixNumber};

#[test]
fn test_simple_fraction() {
    let r = Rational::new(7, 21);
    assert_eq!(r.to_latex(), "\\frac{1}{3}");
}

#[test]
fn test_negative_fraction() {
    let r = Rational::new(-42, 2 * 42);
    assert_eq!(r.to_latex(), "-\\frac{1}{2}");
}

#[test]
fn test_negative_denominator() {
    let r = Rational::new(151, -2 * 151);
    assert_eq!(r.to_latex(), "-\\frac{1}{2}");
}

#[test]
fn test_negative_numerator_and_denominator() {
    let r = Rational::new(-10, -20);
    assert_eq!(r.to_latex(), "\\frac{1}{2}");
}

#[test]
fn test_fraction_normalization() {
    let r = Rational::new(4, 1);
    assert_eq!(r.to_latex(), "4");
}

#[test]
fn test_fraction_zero() {
    let r = Rational::new(0, 1);
    assert_eq!(r.to_latex(), "0");
}

#[test]
fn test_matrix_num() {
    fn test<T: MatrixNumber>(_: T) {}

    let r = Rational::new(4, 1);
    test(r);
}

#[test]
fn test_matrix_number() {
    fn test<T: MatrixNumber>() {
        let t = T::one();
        assert_eq!(t.to_latex(), t.to_text());
    }

    test::<i8>();
    test::<i16>();
    test::<i32>();
    test::<i64>();
    test::<i128>();
    test::<isize>();
}

#[test]
fn fractions_are_kept_in_lowest_terms() {
    let r = Rational::new(6, -8);
    assert_eq!((r.numer(), r.denom()), (-3, 4));
    let r = Rational::new(0, -5);
    assert_eq!((r.numer(), r.denom()), (0, 1));
    assert!(Rational::new(10, 5).is_integer());
    assert!(!Rational::new(10, 4).is_integer());
    assert_eq!(Rational::from_integer(-7), Rational::new(-14, 2));
}

#[test]
fn checked_arithmetic_of_fractions() {
    let half = Rational::new(1, 2);
    let third = Rational::new(1, 3);
    assert_eq!(half.checked_add(&third), Some(Rational::new(5, 6)));
    assert_eq!(half.checked_sub(&third), Some(Rational::new(1, 6)));
    assert_eq!(half.checked_mul(&third), Some(Rational::new(1, 6)));
    assert_eq!(half.checked_div(&third), Some(Rational::new(3, 2)));
    assert_eq!(half.checked_div(&Rational::zero()), None);
    assert_eq!(Rational::zero().checked_div(&half), Some(Rational::zero()));
    assert_eq!(
        Rational::zero().checked_div(&Rational::new(i64::MIN, 3)),
        Some(Rational::zero())
    );
    assert_eq!(half.checked_pow(3), Some(Rational::new(1, 8)));
    assert_eq!(half.checked_pow(0), Some(Rational::one()));
    assert_eq!(Rational::new(-2, 3).checked_pow(2), Some(Rational::new(4, 9)));
}

#[test]
fn checked_arithmetic_of_fractions_overflows() {
    let big = Rational::from_integer(i64::MAX);
    assert_eq!(big.checked_add(&Rational::one()), None);
    assert_eq!(big.checked_mul(&big), None);
    assert_eq!(Rational::new(1, i64::MAX).checked_div(&big), None);
    assert_eq!(Rational::from_integer(i64::MIN).checked_sub(&Rational::one()), None);
    assert_eq!(Rational::from_integer(3).checked_pow(64), None);
}

#[test]
fn signs_and_constants_of_fractions() {
    assert!(Rational::zero().is_zero());
    assert!(!Rational::zero().is_one());
    assert!(Rational::one().is_one());
    assert!(Rational::new(3, 3).is_one());
    assert!(Rational::new(1, 5).is_positive());
    assert!(!Rational::new(1, 5).is_negative());
    assert!(Rational::new(-1, 5).is_negative());
    assert!(!Rational::zero().is_positive());
    assert!(!Rational::zero().is_negative());
    assert!(Rational::new(2, 4).same(&Rational::new(1, 2)));
    assert!(!Rational::new(2, 4).same(&Rational::new(1, 3)));
}

#[test]
fn fractions_convert_from_and_to_integers() {
    assert_eq!(Rational::from_u64(12), Some(Rational::from_integer(12)));
    assert_eq!(Rational::from_u64(u64::MAX), None);
    assert_eq!(Rational::from_integer(9).to_usize(), Some(9));
    assert_eq!(Rational::new(7, 2).to_usize(), Some(3));
    assert_eq!(Rational::new(-1, 2).to_usize(), Some(0));
    assert_eq!(Rational::new(-3, 2).to_usize(), None);
    assert_eq!(Rational::from_integer(-1).to_usize(), None);
}

#[test]
fn fractions_as_text() {
    assert_eq!(Rational::new(3, 4).to_string(), "3/4");
    assert_eq!(Rational::new(-3, 4).to_string(), "-3/4");
    assert_eq!(Rational::new(8, 4).to_string(), "2");
    assert_eq!(Rational::new(-3, 4).to_text(), "-3/4");
    assert_eq!(Rational::new(3, 4).to_latex_single(), "\\frac{3}{4}");
    assert_eq!(Rational::new(-3, 4).to_latex_single(), "\\left(-\\frac{3}{4}\\right)");
    assert_eq!(Rational::from_integer(-2).to_latex_single(), "\\left(-2\\right)");
    assert_eq!(Rational::zero().to_latex_single(), "\\left(0\\right)");
    assert_eq!(
        Rational::from_integer(i64::MIN).to_latex(),
        "-9223372036854775808"
    );
    assert_eq!(
        Rational::new(i64::MIN, 3).to_latex(),
        "-\\frac{9223372036854775808}{3}"
    );
}

#[test]
fn integers_as_text() {
    assert_eq!(int_to_string(0), "0");
    assert_eq!(int_to_string(7), "7");
    assert_eq!(int_to_string(-7), "-7");
    assert_eq!(int_to_string(1234567890), "1234567890");
    assert_eq!(int_to_string(i128::MIN), i128::MIN.to_string());
    assert_eq!(int_to_string(i128::MAX), i128::MAX.to_string());
    assert_eq!(nat_to_string(usize::MAX), usize::MAX.to_string());
    assert_eq!(nat_to_string(10), "10");
}

#[test]
fn checked_arithmetic_of_integers() {
    assert_eq!(CheckedOps::checked_add(&2i64, &3), Some(5));
    assert_eq!(CheckedOps::checked_add(&i64::MAX, &1), None);
    assert_eq!(CheckedOps::checked_sub(&2i64, &3), Some(-1));
    assert_eq!(CheckedOps::checked_sub(&i64::MIN, &1), None);
    assert_eq!(CheckedOps::checked_mul(&-4i64, &3), Some(-12));
    assert_eq!(CheckedOps::checked_mul(&i64::MAX, &2), None);
    assert_eq!(CheckedOps::checked_div(&7i64, &2), Some(3));
    assert_eq!(CheckedOps::checked_div(&-7i64, &2), Some(-3));
    assert_eq!(CheckedOps::checked_div(&7i64, &-2), Some(-3));
    assert_eq!(CheckedOps::checked_div(&-7i64, &-2), Some(3));
    assert_eq!(CheckedOps::checked_div(&7i64, &0), None);
    assert_eq!(CheckedOps::checked_div(&i64::MIN, &-1), None);
    assert_eq!(MatrixNumber::checked_pow(&2i64, 10), Some(1024));
    assert_eq!(MatrixNumber::checked_pow(&-2i64, 63), Some(i64::MIN));
    assert_eq!(MatrixNumber::checked_pow(&2i64, 63), None);
    assert_eq!(MatrixNumber::checked_pow(&0i64, 0), Some(1));
    assert_eq!(MatrixNumber::checked_pow(&-3i8, 5), None);
    assert_eq!(MatrixNumber::checked_pow(&-2i8, 7), Some(-128));
}

#[test]
fn integers_convert_and_render() {
    assert_eq!(<i64 as MatrixNumber>::from_u64(5), Some(5));
    assert_eq!(<i64 as MatrixNumber>::from_u64(u64::MAX), None);
    assert_eq!(<i8 as MatrixNumber>::from_u64(127), Some(127));
    assert_eq!(<i8 as MatrixNumber>::from_u64(128), None);
    assert_eq!(MatrixNumber::to_usize(&5i64), Some(5));
    assert_eq!(MatrixNumber::to_usize(&-5i64), None);
    assert_eq!((-5i32).to_latex(), "-5");
    assert_eq!((-5i32).to_latex_single(), "-5");
    assert_eq!(i128::MIN.to_text(), i128::MIN.to_string());
    assert!(MatrixNumber::is_zero(&0i16));
    assert!(MatrixNumber::is_one(&1isize));
    assert!(MatrixNumber::is_positive(&3i64));
    assert!(MatrixNumber::is_negative(&-3i64));
    assert!(MatrixNumber::same(&3i64, &3i64));
}

#[test]
fn powers_of_every_integer_type() {
    assert_eq!(MatrixNumber::checked_pow(&3i8, 4), Some(81));
    assert_eq!(MatrixNumber::checked_pow(&3i8, 5), None);
    assert_eq!(MatrixNumber::checked_pow(&-7i16, 5), Some(-16807));
    assert_eq!(MatrixNumber::checked_pow(&7i16, 6), None);
    assert_eq!(MatrixNumber::checked_pow(&10i32, 9), Some(1_000_000_000));
    assert_eq!(MatrixNumber::checked_pow(&10i32, 10), None);
    assert_eq!(MatrixNumber::checked_pow(&10i64, 18), Some(1_000_000_000_000_000_000));
    assert_eq!(MatrixNumber::checked_pow(&10i64, 19), None);
    assert_eq!(
        MatrixNumber::checked_pow(&10i128, 38),
        Some(100_000_000_000_000_000_000_000_000_000_000_000_000)
    );
    assert_eq!(MatrixNumber::checked_pow(&10i128, 39), None);
    assert_eq!(MatrixNumber::checked_pow(&-2isize, 3), Some(-8));
    assert_eq!(MatrixNumber::checked_pow(&5isize, 0), Some(1));
}

#[test]
fn every_integer_type_divides_towards_zero() {
    assert_eq!(CheckedOps::checked_div(&-7i8, &2), Some(-3));
    assert_eq!(CheckedOps::checked_div(&i8::MIN, &-1), None);
    assert_eq!(CheckedOps::checked_div(&-7i16, &-2), Some(3));
    assert_eq!(CheckedOps::checked_div(&7i32, &-2), Some(-3));
    assert_eq!(CheckedOps::checked_div(&i128::MIN, &-1), None);
    assert_eq!(CheckedOps::checked_div(&isize::MIN, &-1), None);
    assert_eq!(CheckedOps::checked_div(&isize::MIN, &1), Some(isize::MIN));
    assert_eq!(CheckedOps::checked_div(&-9isize, &4), Some(-2));
    assert_eq!(CheckedOps::checked_add(&i8::MAX, &1), None);
    assert_eq!(CheckedOps::checked_sub(&i16::MIN, &1), None);
    assert_eq!(CheckedOps::checked_mul(&i32::MAX, &2), None);
    assert_eq!(CheckedOps::checked_mul(&-4i128, &5), Some(-20));
}
