use jp2gmd::error::Error;
use jp2gmd::matrices::Matrix;
use jp2gmd::rationals::Rational;
use jp2gmd::traits::LaTeXable;

fn ri(n: i64) -> Rational {
    Rational::from_integer(n)
}

fn rm(rows: Vec<Vec<i64>>) -> Matrix<Rational> {
    Matrix::new_unsafe(
        rows.into_iter()
            .map(|row| row.into_iter().map(ri).collect())
            .collect(),
    )
}

#[test]
fn test_echelon_rational1() {
    let m = rm(vec![vec![-2, 1], vec![1, 1]]);
    let expected = rm(vec![vec![1, 0], vec![0, 1]]);

    let aftermath = m.echelon().unwrap();

    assert_eq!(aftermath.result.to_latex(), expected.to_latex());
    assert_eq!(
        aftermath.steps,
        vec![
            r"\left[\begin{array}{cc}-2 & 1\\1 & 1\end{array}\right]",
            r"\xrightarrow{w_{1} \leftrightarrow w_{2}} \left[\begin{array}{cc}1 & 1\\-2 & 1\end{array}\right]",
            r"\xrightarrow{\substack{w_{2} + 2w_{1}}} \left[\begin{array}{cc}1 & 1\\0 & 3\end{array}\right]",
            r"\xrightarrow{w_{2} : 3} \left[\begin{array}{cc}1 & 1\\0 & 1\end{array}\right]",
            r"\xrightarrow{\substack{w_{1} - w_{2}}} \left[\begin{array}{cc}1 & 0\\0 & 1\end{array}\right]",
        ]
    );
}

#[test]
fn test_echelon_rational2() {
    let m = rm(vec![vec![4, 3], vec![2, 1]]);
    let expected = rm(vec![vec![1, 0], vec![0, 1]]);

    let aftermath = m.echelon().unwrap();

    assert_eq!(aftermath.result.to_latex(), expected.to_latex());
    assert_eq!(
        aftermath.steps,
        vec![
            r"\left[\begin{array}{cc}4 & 3\\2 & 1\end{array}\right]",
            r"\xrightarrow{w_{1} : 4} \left[\begin{array}{cc}1 & \frac{3}{4}\\2 & 1\end{array}\right]",
            r"\xrightarrow{\substack{w_{2} - 2w_{1}}} \left[\begin{array}{cc}1 & \frac{3}{4}\\0 & -\frac{1}{2}\end{array}\right]",
            r"\xrightarrow{w_{2} : \left(-\frac{1}{2}\right)} \left[\begin{array}{cc}1 & \frac{3}{4}\\0 & 1\end{array}\right]",
            r"\xrightarrow{\substack{w_{1} - \frac{3}{4}w_{2}}} \left[\begin{array}{cc}1 & 0\\0 & 1\end{array}\right]",
        ]
    );
}

#[test]
fn test_echelon_rational3() {
    let id = rm(vec![vec![1, 0], vec![0, 1]]);

    let aftermath = id.echelon().unwrap();

    assert_eq!(aftermath.result.to_latex(), id.to_latex());
    assert_eq!(
        aftermath.steps,
        vec![r"\left[\begin{array}{cc}1 & 0\\0 & 1\end{array}\right]"]
    );
}

#[test]
fn test_echelon_rational4() {
    let m = rm(vec![vec![1, -1, 1], vec![1, 1, -1], vec![-1, 1, -1]]);
    let expected = rm(vec![vec![1, 0, 0], vec![0, 1, -1], vec![0, 0, 0]]);

    let aftermath = m.echelon().unwrap();

    assert_eq!(aftermath.result.to_latex(), expected.to_latex());
    assert_eq!(
        aftermath.steps,
        vec![
            r"\left[\begin{array}{ccc}1 & -1 & 1\\1 & 1 & -1\\-1 & 1 & -1\end{array}\right]",
            r"\xrightarrow{\substack{w_{2} - w_{1}\\w_{3} + w_{1}}} \left[\begin{array}{ccc}1 & -1 & 1\\0 & 2 & -2\\0 & 0 & 0\end{array}\right]",
            r"\xrightarrow{w_{2} : 2} \left[\begin{array}{ccc}1 & -1 & 1\\0 & 1 & -1\\0 & 0 & 0\end{array}\right]",
            r"\xrightarrow{\substack{w_{1} + w_{2}}} \left[\begin{array}{ccc}1 & 0 & 0\\0 & 1 & -1\\0 & 0 & 0\end{array}\right]",
        ]
    );
}

#[test]
fn test_inverse_rational1() {
    let m = rm(vec![vec![1, 2], vec![3, 4]]);
    let expected = Matrix::new(vec![
        vec![ri(-2), ri(1)],
        vec![Rational::new(3, 2), Rational::new(-1, 2)],
    ])
    .unwrap();

    let aftermath = m.inverse().unwrap();

    assert_eq!(aftermath.result.to_latex(), expected.to_latex());
    assert_eq!(
        aftermath.steps,
        vec![
            r"\left[\begin{array}{cc|cc}1 & 2 & 1 & 0\\3 & 4 & 0 & 1\end{array}\right]",
            r"\xrightarrow{\substack{w_{2} - 3w_{1}}} \left[\begin{array}{cc|cc}1 & 2 & 1 & 0\\0 & -2 & -3 & 1\end{array}\right]",
            r"\xrightarrow{w_{2} : \left(-2\right)} \left[\begin{array}{cc|cc}1 & 2 & 1 & 0\\0 & 1 & \frac{3}{2} & -\frac{1}{2}\end{array}\right]",
            r"\xrightarrow{\substack{w_{1} - 2w_{2}}} \left[\begin{array}{cc|cc}1 & 0 & -2 & 1\\0 & 1 & \frac{3}{2} & -\frac{1}{2}\end{array}\right]"
        ]
    );
}

#[test]
fn echelon_of_a_reduced_matrix_is_the_matrix_itself() {
    let reduced = rm(vec![
        vec![1, 2, 0, 3, 0],
        vec![0, 0, 1, 4, 0],
        vec![0, 0, 0, 0, 1],
        vec![0, 0, 0, 0, 0],
    ]);
    let aftermath = reduced.echelon().unwrap();
    assert_eq!(aftermath.result, reduced);
    assert_eq!(aftermath.steps, vec![reduced.to_latex()]);
}

#[test]
fn echelon_twice_changes_nothing() {
    let m = rm(vec![vec![2, 4, 6], vec![1, 3, 5], vec![7, 8, 10]]);
    let once = m.echelon().unwrap();
    let twice = once.result.echelon().unwrap();
    assert_eq!(twice.result, once.result);
    assert_eq!(twice.steps.len(), 1);
}

#[test]
fn echelon_of_an_empty_matrix_has_no_steps() {
    let aftermath = Matrix::<Rational>::empty().echelon().unwrap();
    assert!(aftermath.result.is_empty());
    assert!(aftermath.steps.is_empty());
}

#[test]
fn echelon_prefers_a_one_then_a_minus_one() {
    let m = rm(vec![vec![3, 1], vec![-1, 1], vec![1, 2]]);
    let aftermath = m.echelon().unwrap();
    assert_eq!(
        aftermath.steps[1],
        r"\xrightarrow{w_{1} \leftrightarrow w_{3}} \left[\begin{array}{cc}1 & 2\\-1 & 1\\3 & 1\end{array}\right]"
    );
    let m = rm(vec![vec![3, 1], vec![-1, 1], vec![2, 2]]);
    let aftermath = m.echelon().unwrap();
    assert_eq!(
        aftermath.steps[1],
        r"\xrightarrow{w_{1} \leftrightarrow w_{2}} \left[\begin{array}{cc}-1 & 1\\3 & 1\\2 & 2\end{array}\right]"
    );
}

#[test]
fn echelon_skips_a_column_of_zeros() {
    let m = rm(vec![vec![0, 2], vec![0, 4]]);
    let aftermath = m.echelon().unwrap();
    assert_eq!(aftermath.result, rm(vec![vec![0, 1], vec![0, 0]]));
    assert_eq!(aftermath.steps.len(), 3);
}

#[test]
fn echelon_fails_on_overflow() {
    let m = Matrix::new_unsafe(vec![
        vec![ri(1), Rational::new(1, i64::MAX)],
        vec![ri(1), Rational::new(1, i64::MAX - 1)],
    ]);
    assert_eq!(m.echelon().unwrap_err(), Error::ArithmeticFailure);
}

#[test]
fn inverse_times_the_matrix_is_the_identity() {
    let a = rm(vec![vec![1, 2], vec![3, 4]]);
    let inverse = a.inverse().unwrap().result;
    assert_eq!(
        inverse,
        Matrix::new_unsafe(vec![
            vec![ri(-2), ri(1)],
            vec![Rational::new(3, 2), Rational::new(-1, 2)],
        ])
    );
    assert_eq!(a.checked_mul(&inverse).unwrap(), Matrix::identity(2));
    assert_eq!(inverse.checked_mul(&a).unwrap(), Matrix::identity(2));

    let b = rm(vec![vec![2, 0, 1], vec![1, 3, 2], vec![1, 1, 2]]);
    let inverse = b.inverse().unwrap().result;
    assert_eq!(b.checked_mul(&inverse).unwrap(), Matrix::identity(3));
}

#[test]
fn inverse_of_a_singular_matrix_fails() {
    let zero_row = rm(vec![vec![1, 2], vec![0, 0]]);
    assert_eq!(zero_row.inverse().unwrap_err(), Error::Singular);
    let dependent = rm(vec![vec![1, 2], vec![2, 4]]);
    assert_eq!(dependent.inverse().unwrap_err(), Error::Singular);
    let zeros = Matrix::<Rational>::zeros((3, 3));
    assert_eq!(zeros.inverse().unwrap_err(), Error::Singular);
}

#[test]
fn inverse_needs_a_square_matrix_with_entries() {
    let wide = rm(vec![vec![1, 2, 3], vec![4, 5, 6]]);
    assert_eq!(wide.inverse().unwrap_err(), Error::NonSquare);
    assert_eq!(Matrix::<Rational>::empty().inverse().unwrap_err(), Error::EmptyMatrix);
}

#[test]
fn the_product_with_an_inverse_may_not_fit() {
    let a = rm(vec![vec![4294967296, 4294967295], vec![1, 1]]);
    let inverse = a.inverse().unwrap().result;
    assert_eq!(inverse, rm(vec![vec![1, -4294967295], vec![-1, 4294967296]]));
    assert_eq!(
        a.checked_mul(&inverse).unwrap_err(),
        Error::ArithmeticFailure
    );
    assert_eq!(inverse.checked_mul(&a).unwrap(), Matrix::identity(2));
}
