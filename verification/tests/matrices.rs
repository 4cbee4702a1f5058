use jp2gmd::error::Error;
use jp2gmd::matrices::Matrix;
use jp2gmd::rationals::Rational;
use jp2gmd::sampling::{calculate_n, take_every_nth};
use jp2gmd::traits::LaTeXable;

fn ri(n: i64) -> Rational {
    Rational::from_integer(n)
}

fn rv(row: Vec<i64>) -> Vec<Rational> {
    row.into_iter().map(ri).collect()
}

fn rm(rows: Vec<Vec<i64>>) -> Matrix<Rational> {
    Matrix::new_unsafe(rows.into_iter().map(rv).collect())
}

fn im(rows: Vec<Vec<i64>>) -> Matrix<i64> {
    Matrix::new_unsafe(rows)
}

#[test]
fn test_matrix() {
    let matrix = im(vec![vec![1, 2, 3], vec![4, 5, 6]]);
    assert_eq!(
        matrix.to_latex(),
        r"\left[\begin{array}{ccc}1 & 2 & 3\\4 & 5 & 6\end{array}\right]"
    );
}

#[test]
fn test_new_unsafe() {
    let matrix = Matrix::new_unsafe(vec![vec![1i64, 2, 3], vec![4, 5, 6]]);
    let matrix2 = Matrix::new(vec![vec![1i64, 2, 3], vec![4, 5, 6]]).unwrap();
    assert_eq!(matrix, matrix2);
}

#[test]
fn test_new() {
    let matrix = Matrix::new(vec![vec![1i64, 2, 3], vec![4, 5, 6]]).unwrap();
    assert_eq!(matrix, im(vec![vec![1, 2, 3], vec![4, 5, 6]]));
    let invalid = Matrix::new(vec![vec![1i64, 2, 3], vec![4, 5]]);
    assert!(invalid.is_err());
}

#[test]
fn test_is_valid() {
    let matrix = Matrix::new_unsafe(vec![vec![1i64, 2, 3], vec![4, 5, 6]]);
    assert!(matrix.is_valid());
    let matrix = Matrix::new_unsafe(vec![vec![1i64, 2, 3], vec![4, 5]]);
    assert!(!matrix.is_valid());
}

#[test]
fn test_filled() {
    let matrix = Matrix::filled((4, 5), |x, y| ri((x * y) as i64));
    assert_eq!(
        matrix,
        rm(vec![
            vec![0, 0, 0, 0, 0],
            vec![0, 1, 2, 3, 4],
            vec![0, 2, 4, 6, 8],
            vec![0, 3, 6, 9, 12],
        ])
    );
    let matrix = Matrix::filled((4, 5), |x, y| ri((x + y) as i64));
    assert_eq!(
        matrix,
        rm(vec![
            vec![0, 1, 2, 3, 4],
            vec![1, 2, 3, 4, 5],
            vec![2, 3, 4, 5, 6],
            vec![3, 4, 5, 6, 7],
        ])
    );
}

#[test]
fn test_zeros() {
    let matrix = Matrix::zeros((4, 5));
    assert_eq!(
        matrix,
        rm(vec![
            vec![0, 0, 0, 0, 0],
            vec![0, 0, 0, 0, 0],
            vec![0, 0, 0, 0, 0],
            vec![0, 0, 0, 0, 0],
        ])
    );
}

#[test]
fn test_ones() {
    let matrix = Matrix::ones((4, 5));
    assert_eq!(
        matrix,
        rm(vec![
            vec![1, 1, 1, 1, 1],
            vec![1, 1, 1, 1, 1],
            vec![1, 1, 1, 1, 1],
            vec![1, 1, 1, 1, 1],
        ])
    );
}

#[test]
fn test_identity() {
    let matrix = Matrix::identity(4);
    assert_eq!(
        matrix,
        rm(vec![
            vec![1, 0, 0, 0],
            vec![0, 1, 0, 0],
            vec![0, 0, 1, 0],
            vec![0, 0, 0, 1],
        ])
    );
}

#[test]
fn test_empty() {
    let matrix = Matrix::<Rational>::empty();

    assert_eq!(matrix, Matrix::zeros((0, 0)));
    assert_eq!(matrix, Matrix::zeros((0, 7)));
    assert_eq!(matrix, Matrix::zeros((2, 0)));

    assert_eq!(matrix, Matrix::new_unsafe(vec![]));
    assert_eq!(matrix, Matrix::new_unsafe(vec![vec![]]));
}

#[test]
fn test_simple_addition() {
    let m = im(vec![vec![1, 2, 3], vec![4, 5, 6]]);
    let n = im(vec![vec![1, 2, 3], vec![4, 5, 6]]);

    let result = m + n;
    assert_eq!(
        result.to_latex(),
        r"\left[\begin{array}{ccc}2 & 4 & 6\\8 & 10 & 12\end{array}\right]"
    );
}

#[test]
fn test_simple_subtraction() {
    let m = im(vec![vec![1, 2, 3], vec![4, 5, 6]]);
    let n = im(vec![vec![1, 2, 3], vec![4, 5, 6]]);

    let result = m - n;
    assert_eq!(
        result.to_latex(),
        r"\left[\begin{array}{ccc}0 & 0 & 0\\0 & 0 & 0\end{array}\right]"
    );
}

#[test]
fn test_simple_negation() {
    let m = im(vec![vec![1, 2, 3], vec![4, 5, 6]]);

    let result = -m;
    assert_eq!(
        result.to_latex(),
        r"\left[\begin{array}{ccc}-1 & -2 & -3\\-4 & -5 & -6\end{array}\right]"
    );
}

#[test]
fn test_simple_multiplication() {
    let m = im(vec![vec![1, 2, 3], vec![4, 5, 6]]);
    let n = im(vec![vec![1, 2], vec![3, 4], vec![5, 6]]);

    let result = m * n;
    assert_eq!(
        result.to_latex(),
        r"\left[\begin{array}{cc}22 & 28\\49 & 64\end{array}\right]"
    );
}

#[test]
fn test_simple_multiplication_with_scalar() {
    let m = im(vec![vec![1, 2, 3], vec![4, 5, 6]]);

    let result = m * 2;
    assert_eq!(
        result.to_latex(),
        r"\left[\begin{array}{ccc}2 & 4 & 6\\8 & 10 & 12\end{array}\right]"
    );
}

#[test]
fn test_simple_multiplication_with_rational() {
    let m = rm(vec![vec![1, 2, 3], vec![4, 5, 6]]);

    let result = m * ri(2);
    assert_eq!(
        result.to_latex(),
        r"\left[\begin{array}{ccc}2 & 4 & 6\\8 & 10 & 12\end{array}\right]"
    );
}

#[test]
fn test_simple_exponentiation() {
    let m = im(vec![vec![1, 1], vec![1, 0]]);
    assert_eq!(m.checked_pow(0).unwrap(), im(vec![vec![1, 0], vec![0, 1]]));
    assert_eq!(m.checked_pow(1).unwrap(), im(vec![vec![1, 1], vec![1, 0]]));
    assert_eq!(m.checked_pow(2).unwrap(), im(vec![vec![2, 1], vec![1, 1]]));
    assert_eq!(m.checked_pow(9).unwrap(), im(vec![vec![55, 34], vec![34, 21]]));
    assert_eq!(m.checked_pow(10).unwrap(), im(vec![vec![89, 55], vec![55, 34]]));

    let m2 = Matrix::new(vec![
        vec![Rational::new(1, 1), Rational::new(1, 2)],
        vec![Rational::new(1, 3), Rational::new(1, 4)],
    ])
    .expect("Failed to create matrix - something is wrong with the test");
    assert_eq!(m2.checked_pow(0).unwrap(), rm(vec![vec![1, 0], vec![0, 1]]));
    assert_eq!(m2.checked_pow(1).unwrap(), m2);
    assert_eq!(m2.checked_pow(2).unwrap(), m2.clone() * m2.clone());
    assert_eq!(m2.checked_pow(3).unwrap(), m2.clone() * m2.clone() * m2);
}

#[test]
fn test_from_vec() {
    let m = Matrix::from_vec(rv(vec![1, 2, 3, 4, 5, 6]), (2, 3)).expect("Failed to create matrix");
    assert_eq!(m, rm(vec![vec![1, 2, 3], vec![4, 5, 6]]));

    let m = Matrix::from_vec(vec![1i64, 2, 3, 4, 5, 6], (2, 3)).expect("Failed to create matrix");
    assert_eq!(m, im(vec![vec![1, 2, 3], vec![4, 5, 6]]));
}

#[test]
fn test_reshape() {
    let m = im(vec![vec![1, 2, 3, 4, 5, 6]]);
    let reshape = |m: &Matrix<i64>, shape| m.reshape(shape).expect("Failed to reshape matrix");
    assert_eq!(reshape(&m, (2, 3)), im(vec![vec![1, 2, 3], vec![4, 5, 6]]));
    assert_eq!(reshape(&m, (3, 2)), im(vec![vec![1, 2], vec![3, 4], vec![5, 6]]));
    assert_eq!(
        reshape(&m, (6, 1)),
        im(vec![vec![1], vec![2], vec![3], vec![4], vec![5], vec![6]])
    );
    assert_eq!(reshape(&m, (1, 6)), im(vec![vec![1, 2, 3, 4, 5, 6]]));
}

#[test]
fn new_turns_every_empty_shape_into_the_matrix_without_rows() {
    let m = Matrix::<i64>::new(vec![vec![], vec![], vec![]]).unwrap();
    assert_eq!(m.get_shape(), (0, 0));
    assert!(m.get_data().is_empty());
    let m = Matrix::<i64>::new(vec![]).unwrap();
    assert!(m.is_empty());
    assert_eq!(Matrix::<i64>::new(vec![vec![1], vec![]]).unwrap_err(), Error::InvalidMatrix);
}

#[test]
fn shapes_and_separators() {
    let mut m = im(vec![vec![1, 2, 3], vec![4, 5, 6]]);
    assert_eq!(m.get_shape(), (2, 3));
    assert_eq!(m.get_separator(), None);
    m.set_separator(Some(1));
    assert_eq!(m.get_separator(), Some(1));
    assert_eq!(
        m.to_latex(),
        r"\left[\begin{array}{c|cc}1 & 2 & 3\\4 & 5 & 6\end{array}\right]"
    );
    let m = m.with_separator(None);
    assert_eq!(m.get_separator(), None);
    assert_eq!(m.clone().consume(), vec![vec![1, 2, 3], vec![4, 5, 6]]);
    assert!(m.same_shapes(&im(vec![vec![0, 0, 0], vec![0, 0, 0]])));
    assert!(!m.same_shapes(&im(vec![vec![0, 0], vec![0, 0]])));
    assert_eq!(m.to_string(), "1 2 3\n4 5 6");
}

#[test]
fn from_vec_rejects_a_wrong_length() {
    assert_eq!(
        Matrix::from_vec(vec![1i64, 2, 3], (2, 2)).unwrap_err(),
        Error::InvalidMatrix
    );
    assert_eq!(
        Matrix::from_vec(vec![1i64, 2, 3], (usize::MAX, 2)).unwrap_err(),
        Error::InvalidMatrix
    );
    assert!(Matrix::from_vec(Vec::<i64>::new(), (0, 5)).unwrap().is_empty());
    assert_eq!(
        im(vec![vec![1, 2], vec![3, 4]]).reshape((3, 1)).unwrap_err(),
        Error::InvalidMatrix
    );
}

#[test]
fn adding_or_subtracting_different_shapes_fails() {
    let a = im(vec![vec![1, 2, 3], vec![4, 5, 6]]);
    let b = im(vec![vec![1, 2], vec![3, 4]]);
    assert_eq!(a.checked_add(&b).unwrap_err(), Error::ShapeMismatch);
    assert_eq!(a.checked_sub(&b).unwrap_err(), Error::ShapeMismatch);
    assert_eq!(b.checked_add(&a).unwrap_err(), Error::ShapeMismatch);
    assert_eq!(a.checked_add(&Matrix::empty()).unwrap_err(), Error::ShapeMismatch);
}

#[test]
fn multiplying_incompatible_shapes_fails() {
    let a = im(vec![vec![1, 2, 3], vec![4, 5, 6]]);
    assert_eq!(a.checked_mul(&a).unwrap_err(), Error::ShapeMismatch);
    assert_eq!(a.checked_mul(&Matrix::empty()).unwrap_err(), Error::ShapeMismatch);
    assert!(Matrix::<i64>::empty().checked_mul(&Matrix::empty()).unwrap().is_empty());
}

#[test]
fn overflow_fails_the_whole_operation() {
    let a = im(vec![vec![1, i64::MAX]]);
    let b = im(vec![vec![1, 1]]);
    assert_eq!(a.checked_add(&b).unwrap_err(), Error::ArithmeticFailure);
    assert_eq!(a.checked_mul_scl(&2).unwrap_err(), Error::ArithmeticFailure);
    let c = im(vec![vec![i64::MAX, 1], vec![1, 1]]);
    assert_eq!(c.checked_mul(&c).unwrap_err(), Error::ArithmeticFailure);
    assert_eq!(c.checked_pow(2).unwrap_err(), Error::ArithmeticFailure);
    assert_eq!(im(vec![vec![i64::MIN]]).checked_neg().unwrap_err(), Error::ArithmeticFailure);
}

#[test]
fn power_needs_a_square_matrix() {
    let a = im(vec![vec![1, 2, 3], vec![4, 5, 6]]);
    assert_eq!(a.checked_pow(2).unwrap_err(), Error::NonSquare);
    assert_eq!(a.checked_pow(0).unwrap_err(), Error::NonSquare);
}

#[test]
fn power_zero_is_the_identity() {
    let a = im(vec![vec![7, -3], vec![2, 9]]);
    assert_eq!(a.checked_pow(0).unwrap(), Matrix::identity(2));
    let e = Matrix::<i64>::empty();
    assert!(e.checked_pow(0).unwrap().is_empty());
}

#[test]
fn power_of_a_sum_is_the_product_of_the_powers() {
    let a = im(vec![vec![1, 1], vec![1, 0]]);
    for x in 0..6usize {
        for y in 0..6usize {
            let left = a.checked_pow(x + y).unwrap();
            let right = a.checked_pow(x).unwrap().checked_mul(&a.checked_pow(y).unwrap()).unwrap();
            assert_eq!(left, right);
        }
    }
}

#[test]
fn concat_and_split() {
    let a = im(vec![vec![1, 2], vec![3, 4]]);
    let b = im(vec![vec![5, 6], vec![7, 8]]);
    let joined = a.clone().concat(b.clone()).unwrap();
    assert_eq!(joined, im(vec![vec![1, 2, 5, 6], vec![3, 4, 7, 8]]));
    assert_eq!(joined.get_separator(), Some(2));
    let (left, right) = joined.clone().split(2).unwrap();
    assert_eq!(left, a);
    assert_eq!(right, b);
    assert_eq!(left.get_separator(), None);
    assert_eq!(right.get_separator(), None);
    assert_eq!(joined.clone().split(5).unwrap_err(), Error::ShapeMismatch);
    let (all, none) = joined.clone().split(4).unwrap();
    assert_eq!(all, joined);
    assert!(none.is_empty());
    assert_eq!(
        a.concat(im(vec![vec![1, 2, 3]])).unwrap_err(),
        Error::ShapeMismatch
    );
}

#[test]
fn transpose_mirrors_the_matrix() {
    let a = im(vec![vec![1, 2, 3], vec![4, 5, 6]]);
    assert_eq!(a.transpose(), im(vec![vec![1, 4], vec![2, 5], vec![3, 6]]));
    assert!(Matrix::<i64>::empty().transpose().is_empty());
}

#[test]
fn elementwise_operations_with_a_closure() {
    let a = im(vec![vec![1, 2], vec![3, 4]]);
    let b = im(vec![vec![10, 20], vec![30, 40]]);
    let sum = a.checked_operation_on_two(&b, |x, y| Some(x + y)).unwrap();
    assert_eq!(sum, im(vec![vec![11, 22], vec![33, 44]]));
    let failed = a.checked_operation(|x| if *x == 3 { None } else { Some(*x) });
    assert_eq!(failed.unwrap_err(), Error::ArithmeticFailure);
    let doubled = a.checked_operation(|x| Some(2 * x)).unwrap();
    assert_eq!(doubled, im(vec![vec![2, 4], vec![6, 8]]));
}

#[test]
fn equality_ignores_the_separator() {
    let a = im(vec![vec![1, 2], vec![3, 4]]);
    let b = a.clone().with_separator(Some(1));
    assert_eq!(a, b);
    assert_ne!(a, im(vec![vec![1, 2], vec![3, 5]]));
    assert_ne!(a, im(vec![vec![1, 2]]));
}

#[test]
fn a_power_may_fail_in_a_square_that_is_never_used() {
    let two = im(vec![vec![2]]);
    let half = two.checked_pow(31).unwrap();
    assert_eq!(half, im(vec![vec![1 << 31]]));
    assert_eq!(half.checked_mul(&half).unwrap(), im(vec![vec![1 << 62]]));
    assert_eq!(two.checked_pow(62).unwrap_err(), Error::ArithmeticFailure);
}

#[test]
fn sampling_keeps_every_nth_entry() {
    assert_eq!(calculate_n(1000, 10), 10);
    assert_eq!(calculate_n(1000, 1000), 1);
    assert_eq!(calculate_n(1000, 4500), 4);
    assert_eq!(take_every_nth(vec![0, 1, 2, 3, 4, 5, 6], 3), vec![0, 3, 6]);
    assert_eq!(take_every_nth(vec![0, 1, 2, 3, 4, 5], 3), vec![0, 3]);
    assert_eq!(take_every_nth(vec![0, 1, 2], 1), vec![0, 1, 2]);
    assert_eq!(take_every_nth(vec![0, 1, 2], 5), vec![0]);
    assert_eq!(take_every_nth(Vec::<i32>::new(), 2), Vec::<i32>::new());
}

#[test]
fn a_matrix_becomes_the_vector_of_its_entries_row_after_row() {
    let m = Matrix::new(vec![vec![1i64, 2, 3], vec![4, 5, 6]]).unwrap();
    assert_eq!(Vec::from(m.clone()), vec![1, 2, 3, 4, 5, 6]);
    assert_eq!(Vec::from(m.clone()), m.flatten());
    let flat: Vec<i64> = Matrix::<i64>::empty().into();
    assert_eq!(flat, Vec::<i64>::new());
    let ragged = Matrix::new_unsafe(vec![vec![1i64], vec![2, 3], vec![]]);
    assert_eq!(Vec::from(ragged), vec![1, 2, 3]);
}
