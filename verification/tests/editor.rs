use jp2gmd::editor::{
    parse_matrix_data, parse_scalar_data, parse_scalar_with_env, set_editor_to_existing_matrix,
    set_editor_to_existing_scalar, set_editor_to_matrix, set_editor_to_scalar, EditorState,
    EditorType,
};
use jp2gmd::environment::{Environment, Identifier, Type};
use jp2gmd::error::Error;
use jp2gmd::matrices::Matrix;
use jp2gmd::rationals::Rational;

fn texts(items: &[&str]) -> Vec<String> {
    items.iter().map(|s| s.to_string()).collect()
}

#[test]
fn the_editor_opens_on_a_new_matrix() {
    let mut state = EditorState::default();
    assert!(state.editor_content.is_none());
    set_editor_to_matrix(&mut state, "0");
    let content = state.editor_content.unwrap();
    assert_eq!(content.identifier_name, "");
    match content.editor_type {
        EditorType::Matrix(h, w, data) => {
            assert_eq!((h, w), (2, 3));
            assert_eq!(data, texts(&["0", "0", "0", "0", "0", "0"]));
        }
        EditorType::Scalar(_) => panic!("a matrix was asked for"),
    }
}

#[test]
fn the_editor_opens_on_an_existing_matrix() {
    let mut state = EditorState::default();
    let m = Matrix::new_unsafe(vec![
        vec![Rational::new(1, 2), Rational::from_integer(2)],
        vec![Rational::from_integer(-3), Rational::new(4, 3)],
        vec![Rational::from_integer(5), Rational::from_integer(6)],
    ]);
    set_editor_to_existing_matrix(&mut state, &m, "M".to_string());
    let content = state.editor_content.unwrap();
    assert_eq!(content.identifier_name, "M");
    match content.editor_type {
        EditorType::Matrix(h, w, data) => {
            assert_eq!((h, w), (3, 2));
            assert_eq!(data, texts(&["1/2", "2", "-3", "4/3", "5", "6"]));
        }
        EditorType::Scalar(_) => panic!("a matrix was asked for"),
    }
}

#[test]
fn the_editor_opens_on_scalars() {
    let mut state = EditorState::default();
    set_editor_to_scalar(&mut state, "7");
    match state.editor_content.clone().unwrap().editor_type {
        EditorType::Scalar(text) => assert_eq!(text, "7"),
        EditorType::Matrix(..) => panic!("a scalar was asked for"),
    }
    set_editor_to_existing_scalar(&mut state, &Rational::new(-1, 3), "x".to_string());
    let content = state.editor_content.unwrap();
    assert_eq!(content.identifier_name, "x");
    match content.editor_type {
        EditorType::Scalar(text) => assert_eq!(text, "-1/3"),
        EditorType::Matrix(..) => panic!("a scalar was asked for"),
    }
}

#[test]
fn edited_texts_become_values() {
    let mut env = Environment::<i64>::new();
    env.insert(Identifier::new("a".to_string()).unwrap(), Type::Scalar(3));
    env.insert(
        Identifier::new("M".to_string()).unwrap(),
        Type::Matrix(Matrix::new_unsafe(vec![vec![1]])),
    );
    assert_eq!(parse_scalar_with_env("a*2", &env).unwrap(), 6);
    assert_eq!(parse_scalar_with_env("M", &env).unwrap_err(), Error::TypeMismatch);
    assert_eq!(parse_scalar_with_env("b", &env).unwrap_err(), Error::UndefinedIdentifier);
    assert_eq!(parse_scalar_data("a+1", &env).unwrap(), Type::Scalar(4));
    assert_eq!(
        parse_matrix_data((2, 2), &texts(&["1", "a", "a*a", "-1"]), &env).unwrap(),
        Type::Matrix(Matrix::new_unsafe(vec![vec![1, 3], vec![9, -1]]))
    );
    assert_eq!(
        parse_matrix_data((2, 2), &texts(&["1", "a", "a*a"]), &env).unwrap_err(),
        Error::InvalidMatrix
    );
    assert_eq!(
        parse_matrix_data((2, 2), &texts(&["1", "(", "b", "-1"]), &env).unwrap_err(),
        Error::Syntax
    );
    assert_eq!(
        parse_matrix_data((1, 3), &texts(&["1", "M", "b"]), &env).unwrap_err(),
        Error::TypeMismatch
    );
}
