//! The texts that the editor of a value holds, and the value that they stand for.

use crate::environment::{Environment, Type, Value};
use crate::error::Error;
use crate::evaluation::evaluate_text;
use crate::grid::{chunked, flattened};
use crate::matrices::Matrix;
use crate::parser::parse_expression;
use crate::text::texts_of;
use crate::traits::MatrixNumber;
use vstd::prelude::*;
use vstd::string::*;

verus! {

/// What is being edited: a matrix with its height, its width and the texts of its
/// entries in reading order, or a scalar with its text.
#[derive(Debug, Clone)]
pub enum EditorType {
    Matrix(usize, usize, Vec<String>),
    Scalar(String),
}

/// The value being edited and the name it is to get.
#[derive(Debug, Clone)]
pub struct EditorContent {
    pub identifier_name: String,
    pub editor_type: EditorType,
}

/// The editor: closed, or editing one value.
#[derive(Debug, Clone)]
pub struct EditorState {
    pub editor_content: Option<EditorContent>,
}

impl Default for EditorState {
    fn default() -> (state: Self)
        ensures
            state.editor_content.is_none(),
    {
        EditorState { editor_content: None }
    }
}

/// `count` copies of a text.
fn copies(text: &str, count: usize) -> (v: Vec<String>)
    ensures
        v@.len() == count,
        forall|i: int| 0 <= i < count ==> (#[trigger] v@[i])@ == text@,
{
    let mut v: Vec<String> = Vec::new();
    let mut i: usize = 0;
    while i < count
        invariant
            i <= count,
            v@.len() == i,
            forall|k: int| 0 <= k < i ==> (#[trigger] v@[k])@ == text@,
        decreases count - i,
    {
        v.push(String::from_str(text));
        i += 1;
    }
    v
}

/// Opens the editor on a new matrix of two rows and three columns, every entry
/// with the text `def`, and no name yet.
pub fn set_editor_to_matrix(state: &mut EditorState, def: &str)
    ensures
        final(state).editor_content matches Some(content) && content.identifier_name@.len() == 0
            && (content.editor_type matches EditorType::Matrix(h, w, data) && h == 2 && w == 3
            && data@.len() == 6 && forall|i: int| 0 <= i < 6 ==> (#[trigger] data@[i])@ == def@),
{
    state.editor_content = Some(
        EditorContent {
            identifier_name: String::new(),
            editor_type: EditorType::Matrix(2, 3, copies(def, 6)),
        },
    );
}

/// Opens the editor on a matrix that has the name `name`: its shape, and the
/// texts of its entries in reading order.
pub fn set_editor_to_existing_matrix<K: MatrixNumber>(
    state: &mut EditorState,
    matrix: &Matrix<K>,
    name: String,
)
    requires
        matrix.valid(),
    ensures
        final(state).editor_content matches Some(content) && content.identifier_name@ == name@ && (
        content.editor_type matches EditorType::Matrix(h, w, data) && h == crate::grid::height(
            matrix@,
        ) && w == crate::grid::width(matrix@) && data@.len() == flattened(matrix@).len()
            && forall|i: int|
            0 <= i < data@.len() ==> (#[trigger] data@[i])@ == flattened(matrix@)[i].text_spec()),
{
    let (h, w) = matrix.get_shape();
    let flat = matrix.flatten();
    let mut data: Vec<String> = Vec::new();
    let mut i: usize = 0;
    while i < flat.len()
        invariant
            i <= flat.len(),
            data@.len() == i,
            forall|k: int| 0 <= k < i ==> (#[trigger] data@[k])@ == flat@[k].text_spec(),
        decreases flat.len() - i,
    {
        data.push(flat[i].to_text());
        i += 1;
    }
    state.editor_content = Some(
        EditorContent { identifier_name: name, editor_type: EditorType::Matrix(h, w, data) },
    );
}

/// Opens the editor on a new scalar with the text `def`, and no name yet.
pub fn set_editor_to_scalar(state: &mut EditorState, def: &str)
    ensures
        final(state).editor_content matches Some(content) && content.identifier_name@.len() == 0
            && (content.editor_type matches EditorType::Scalar(text) && text@ == def@),
{
    state.editor_content = Some(
        EditorContent {
            identifier_name: String::new(),
            editor_type: EditorType::Scalar(String::from_str(def)),
        },
    );
}

/// Opens the editor on a scalar that has the name `name`.
pub fn set_editor_to_existing_scalar<K: MatrixNumber>(
    state: &mut EditorState,
    value: &K,
    name: String,
)
    ensures
        final(state).editor_content matches Some(content) && content.identifier_name@ == name@ && (
        content.editor_type matches EditorType::Scalar(text) && text@ == value.text_spec()),
{
    state.editor_content = Some(
        EditorContent { identifier_name: name, editor_type: EditorType::Scalar(value.to_text()) },
    );
}

/// The scalar that a text evaluates to; a matrix is a type mismatch.
pub open spec fn scalar_of<K: MatrixNumber>(data: Seq<char>, env: Map<Seq<char>, Value<K>>) -> Result<
    K,
    Error,
> {
    match evaluate_text(data, env) {
        Err(e) => Err(e),
        Ok(Value::Scalar(s)) => Ok(s),
        Ok(Value::Matrix(_, _)) => Err(Error::TypeMismatch),
    }
}

/// The scalars that the first `n` texts evaluate to, or the error of the first
/// text that has none.
pub open spec fn scalars_of<K: MatrixNumber>(
    data: Seq<Seq<char>>,
    env: Map<Seq<char>, Value<K>>,
    n: nat,
) -> Result<Seq<K>, Error>
    decreases n,
{
    if n == 0 {
        Ok(Seq::empty())
    } else {
        match scalars_of(data, env, (n - 1) as nat) {
            Err(e) => Err(e),
            Ok(values) => match scalar_of(data[n - 1], env) {
                Err(e) => Err(e),
                Ok(s) => Ok(values.push(s)),
            },
        }
    }
}

/// Evaluates a text that must give a scalar.
pub fn parse_scalar_with_env<K: MatrixNumber>(data: &str, env: &Environment<K>) -> (r: Result<
    K,
    Error,
>)
    requires
        env.wf(),
    ensures
        r == scalar_of(data@, env@),
{
    match parse_expression(data, env) {
        Err(e) => Err(e),
        Ok(Type::Scalar(scalar)) => Ok(scalar),
        Ok(Type::Matrix(_)) => Err(Error::TypeMismatch),
    }
}

/// The value of the scalar being edited.
pub fn parse_scalar_data<K: MatrixNumber>(data: &str, env: &Environment<K>) -> (r: Result<
    Type<K>,
    Error,
>)
    requires
        env.wf(),
    ensures
        match scalar_of(data@, env@) {
            Err(e) => r matches Err(f) && f == e,
            Ok(s) => r matches Ok(t) && t@ == Value::Scalar(s),
        },
{
    match parse_scalar_with_env(data, env) {
        Err(e) => Err(e),
        Ok(s) => Ok(Type::Scalar(s)),
    }
}

/// The value of the matrix being edited: every text is evaluated to a scalar, and
/// the scalars are cut into `shape.0` rows of `shape.1` entries. Fails with the
/// error of the first text that gives no scalar, or when the texts do not fill
/// the shape.
pub fn parse_matrix_data<K: MatrixNumber>(
    shape: (usize, usize),
    data: &Vec<String>,
    env: &Environment<K>,
) -> (r: Result<Type<K>, Error>)
    requires
        env.wf(),
    ensures
        match scalars_of(texts_of(data@), env@, data@.len()) {
            Err(e) => r matches Err(f) && f == e,
            Ok(values) => if values.len() == shape.0 * shape.1 {
                r matches Ok(t) && t@ == Value::Matrix(
                    chunked(values, shape.0 as nat, shape.1 as nat),
                    None,
                )
            } else {
                r matches Err(f) && f == Error::InvalidMatrix
            },
        },
{
    let mut result: Vec<K> = Vec::new();
    let mut i: usize = 0;
    while i < data.len()
        invariant
            i <= data.len(),
            env.wf(),
            scalars_of(texts_of(data@), env@, i as nat) == Ok::<Seq<K>, Error>(result@),
        decreases data.len() - i,
    {
        assert(texts_of(data@)[i as int] == data@[i as int]@);
        match parse_scalar_with_env(data[i].as_str(), env) {
            Err(e) => {
                proof {
                    lemma_scalars_fail(texts_of(data@), env@, i as nat + 1, data@.len());
                }
                return Err(e);
            },
            Ok(s) => {
                result.push(s);
            },
        }
        i += 1;
    }
    proof {
        lemma_scalars_length(texts_of(data@), env@, data@.len());
    }
    match Matrix::from_vec(result, shape) {
        Err(e) => Err(e),
        Ok(m) => Ok(Type::Matrix(m)),
    }
}

/// Once a text has given no scalar, the error stays.
pub proof fn lemma_scalars_fail<K: MatrixNumber>(
    data: Seq<Seq<char>>,
    env: Map<Seq<char>, Value<K>>,
    k: nat,
    n: nat,
)
    requires
        k <= n,
        scalars_of(data, env, k) is Err,
    ensures
        scalars_of(data, env, n) == scalars_of(data, env, k),
    decreases n - k,
{
    if k < n {
        lemma_scalars_fail(data, env, k, (n - 1) as nat);
    }
}

/// As many scalars come back as texts went in.
pub proof fn lemma_scalars_length<K: MatrixNumber>(
    data: Seq<Seq<char>>,
    env: Map<Seq<char>, Value<K>>,
    n: nat,
)
    ensures
        scalars_of(data, env, n) matches Ok(values) ==> values.len() == n,
    decreases n,
{
    if n > 0 {
        lemma_scalars_length(data, env, (n - 1) as nat);
    }
}

} // verus!
