use jp2gmd::environment::{Callable, Environment, Identifier, Type};
use jp2gmd::error::Error;
use jp2gmd::matrices::Matrix;
use jp2gmd::rationals::Rational;
use jp2gmd::order::{compare_texts, Order};
use jp2gmd::traits::LaTeXable;
use jp2gmd::windows::{insert_to_env, WindowState, Windows};

fn name(text: &str) -> Identifier {
    Identifier::new(text.to_string()).unwrap()
}

#[test]
fn test_identifier_validation() {
    assert!(Identifier::is_valid("f32_sdsa3_"));
    assert!(Identifier::is_valid("_fsd3_"));
    assert!(!Identifier::is_valid("4fd"));
    assert!(!Identifier::is_valid(""));
    assert!(!Identifier::is_valid("gdfg+gdf"));
}

#[test]
fn test_identifier_new() {
    assert!(matches!(Identifier::new("pociąg".to_string()), Ok(_)));
    assert!(matches!(Identifier::new("32".to_string()), Err(_)));
    assert!(matches!(Identifier::new("".to_string()), Err(_)));
}

#[test]
fn the_result_identifier() {
    let result = Identifier::result();
    assert!(result.is_result());
    assert_eq!(result.to_string(), "$");
    assert_eq!(Identifier::RESULT, "$");
    let a = Identifier::new("a".to_string()).unwrap();
    assert!(!a.is_result());
    assert_eq!(a.to_string(), "a");
    assert_eq!(
        Identifier::new("$".to_string()).unwrap_err(),
        Error::InvalidIdentifier
    );
}

#[test]
fn insert_overwrites_and_keeps_the_names_in_order() {
    let mut env = Environment::<i64>::new();
    let a = Identifier::new("a".to_string()).unwrap();
    let b = Identifier::new("b".to_string()).unwrap();
    let ab = Identifier::new("ab".to_string()).unwrap();
    let upper = Identifier::new("Z".to_string()).unwrap();
    assert!(env.get_value(&a).is_none());
    env.insert(b.clone(), Type::Scalar(1));
    env.insert(a.clone(), Type::Scalar(2));
    env.insert(b.clone(), Type::Scalar(3));
    env.insert(Identifier::result(), Type::Scalar(4));
    env.insert(ab.clone(), Type::Scalar(5));
    env.insert(upper.clone(), Type::Scalar(6));
    assert_eq!(env.len(), 5);
    assert_eq!(env.get_value(&a), Some(&Type::Scalar(2)));
    assert_eq!(env.get_value(&b), Some(&Type::Scalar(3)));
    assert_eq!(env.entry(0), (&Identifier::result(), &Type::Scalar(4)));
    assert_eq!(env.entry(1), (&upper, &Type::Scalar(6)));
    assert_eq!(env.entry(2), (&a, &Type::Scalar(2)));
    assert_eq!(env.entry(3), (&ab, &Type::Scalar(5)));
    assert_eq!(env.entry(4), (&b, &Type::Scalar(3)));
    let mut sorted = vec![b.clone(), a.clone(), Identifier::result(), ab.clone(), upper.clone()];
    sorted.sort();
    for (i, id) in sorted.iter().enumerate() {
        assert_eq!(env.entry(i).0, id);
    }
}

#[test]
fn values_convert_to_scalars_and_matrices() {
    let s = Type::<i64>::Scalar(5);
    let m = Type::Matrix(Matrix::new_unsafe(vec![vec![1i64, 2]]));
    assert_eq!(s.clone().as_scalar().unwrap(), 5);
    assert_eq!(s.clone().as_matrix().unwrap_err(), Error::TypeMismatch);
    assert_eq!(m.clone().as_scalar().unwrap_err(), Error::TypeMismatch);
    assert_eq!(m.clone().as_matrix().unwrap(), Matrix::new_unsafe(vec![vec![1i64, 2]]));
    assert_eq!(Type::from_scalar_option(Some(3i64)).unwrap(), Type::Scalar(3));
    assert_eq!(
        Type::<i64>::from_scalar_option(None).unwrap_err(),
        Error::ArithmeticFailure
    );
    assert_eq!(
        Type::<i64>::from_matrix_result(Err(Error::NonSquare)).unwrap_err(),
        Error::NonSquare
    );
    assert_eq!(s.to_string(), "5");
    assert_eq!(m.to_string(), "1 2");
    assert_eq!(s.to_latex(), "5");
    assert_eq!(m.to_latex(), r"\left[\begin{array}{cc}1 & 2\end{array}\right]");
}

#[test]
fn the_three_functions_are_known_by_name() {
    let env = Environment::<Rational>::new();
    let name = |s: &str| Identifier::new(s.to_string()).unwrap();
    assert_eq!(env.get_function(&name("transpose")), Some(Callable::Transpose));
    assert_eq!(env.get_function(&name("identity")), Some(Callable::Identity));
    assert_eq!(env.get_function(&name("inverse")), Some(Callable::Inverse));
    assert_eq!(env.get_function(&name("determinant")), None);
}

#[test]
fn calling_the_functions() {
    let ri = Rational::from_integer;
    let m = Matrix::new_unsafe(vec![vec![ri(1), ri(2)], vec![ri(3), ri(4)]]);
    let transposed = Callable::Transpose.call(Type::Matrix(m.clone())).unwrap();
    assert_eq!(
        transposed,
        Type::Matrix(Matrix::new_unsafe(vec![vec![ri(1), ri(3)], vec![ri(2), ri(4)]]))
    );
    let identity = Callable::Identity.call(Type::Scalar(ri(2))).unwrap();
    assert_eq!(identity, Type::Matrix(Matrix::identity(2)));
    let inverse = Callable::Inverse.call(Type::Matrix(m.clone())).unwrap();
    assert_eq!(
        inverse,
        Type::Matrix(Matrix::new_unsafe(vec![
            vec![ri(-2), ri(1)],
            vec![Rational::new(3, 2), Rational::new(-1, 2)]
        ]))
    );
    assert_eq!(
        Callable::Transpose.call(Type::Scalar(ri(2))).unwrap_err(),
        Error::TypeMismatch
    );
    assert_eq!(
        Callable::Identity.call(Type::Matrix(m)).unwrap_err(),
        Error::TypeMismatch
    );
    assert_eq!(
        Callable::Identity.call(Type::Scalar(ri(-2))).unwrap_err(),
        Error::InvalidMatrix
    );
}

#[test]
fn texts_in_the_order_of_the_dictionary() {
    assert_eq!(compare_texts("a", "b"), Order::Before);
    assert_eq!(compare_texts("b", "a"), Order::After);
    assert_eq!(compare_texts("ab", "ab"), Order::Same);
    assert_eq!(compare_texts("a", "ab"), Order::Before);
    assert_eq!(compare_texts("ab", "a"), Order::After);
    assert_eq!(compare_texts("", ""), Order::Same);
    assert_eq!(compare_texts("", "a"), Order::Before);
    assert_eq!(compare_texts("Z", "a"), Order::Before);
    assert_eq!(compare_texts("ż", "z"), Order::After);
    for (a, b) in [("kot", "koń"), ("x1", "x10"), ("_", "A"), ("$", "_")] {
        let expected = match a.cmp(b) {
            std::cmp::Ordering::Less => Order::Before,
            std::cmp::Ordering::Equal => Order::Same,
            std::cmp::Ordering::Greater => Order::After,
        };
        assert_eq!(compare_texts(a, b), expected);
    }
}

#[test]
fn every_error_has_its_message() {
    assert_eq!(Error::Lex.message(), "Unreadable token.");
    assert_eq!(Error::Syntax.message(), "Invalid expression!");
    assert_eq!(Error::UndefinedIdentifier.message(), "Undefined identifier!");
    assert_eq!(
        Error::TypeMismatch.message(),
        "Operation is not supported for these operand kinds!"
    );
    assert_eq!(Error::ShapeMismatch.message(), "Matrices have incompatible shapes!");
    assert_eq!(
        Error::ArithmeticFailure.message(),
        "Arithmetic operation resulted in overflow!"
    );
    assert_eq!(Error::NonSquare.message(), "Matrix is not square!");
    assert_eq!(Error::Singular.message(), "Matrix is not invertible!");
    assert_eq!(Error::InvalidMatrix.message(), "Invalid matrix.");
    assert_eq!(Error::InvalidIdentifier.message(), "Invalid identifier.");
    assert_eq!(
        Error::EmptyMatrix.message(),
        "Cannot calculate inverse of an empty matrix!"
    );
}

#[test]
fn a_new_value_gets_a_closed_window() {
    let mut env = Environment::<i64>::new();
    let mut windows = Windows::new();
    insert_to_env(&mut env, name("a"), Type::Scalar(7), &mut windows);
    assert_eq!(env.get_value(&name("a")), Some(&Type::Scalar(7)));
    assert_eq!(windows.get(&name("a")), Some(WindowState { is_open: false }));
    assert_eq!(windows.get(&name("b")), None);
    assert_eq!(windows.len(), 1);
}

#[test]
fn a_window_keeps_its_place_when_its_state_changes() {
    let mut windows = Windows::new();
    windows.insert(name("b"), WindowState { is_open: false });
    windows.insert(name("a"), WindowState { is_open: false });
    windows.insert(name("b"), WindowState { is_open: true });
    assert_eq!(windows.len(), 2);
    let (first, state) = windows.entry(0);
    assert!(first.same_as(&name("b")));
    assert!(state.is_open);
    let (second, state) = windows.entry(1);
    assert!(second.same_as(&name("a")));
    assert!(!state.is_open);
}

#[test]
fn inserting_a_value_again_closes_its_window() {
    let mut env = Environment::<i64>::new();
    let mut windows = Windows::new();
    insert_to_env(&mut env, name("a"), Type::Scalar(1), &mut windows);
    windows.insert(name("a"), WindowState { is_open: true });
    insert_to_env(&mut env, name("a"), Type::Scalar(2), &mut windows);
    assert_eq!(env.get_value(&name("a")), Some(&Type::Scalar(2)));
    assert_eq!(windows.get(&name("a")), Some(WindowState { is_open: false }));
    assert_eq!(env.len(), 1);
    assert_eq!(windows.len(), 1);
}

#[test]
fn the_values_are_listed_in_the_order_of_their_names() {
    let mut env = Environment::<i64>::default();
    assert_eq!(env.len(), 0);
    assert!(env.iter_mut().is_empty());
    env.insert(name("b"), Type::Scalar(2));
    env.insert(name("a"), Type::Scalar(1));
    env.insert(name("c"), Type::Scalar(3));
    env.insert(name("b"), Type::Scalar(4));
    let listed: Vec<(String, Type<i64>)> = env
        .iter_mut()
        .into_iter()
        .map(|(id, value)| (id.to_string(), value.clone()))
        .collect();
    assert_eq!(
        listed,
        vec![
            ("a".to_string(), Type::Scalar(1)),
            ("b".to_string(), Type::Scalar(4)),
            ("c".to_string(), Type::Scalar(3)),
        ]
    );
}
