//! Identifiers, values, and the environment that binds the one to the other.

use crate::chars::{chars_of, is_word_char, is_word_start, word_char, word_start};
use crate::error::Error;
use crate::grid::{identity_grid, matrix_text, rectangular, transposed};
use crate::matrices::Matrix;
use crate::order::{
    ascending, compare_texts, count_before, lemma_order_is_total, lemma_order_is_transitive,
    text_before, with_name, Order,
};
use crate::reduction::inverse_of;
use crate::traits::{LaTeXable, MatrixNumber};
use vstd::prelude::*;
use vstd::string::*;

verus! {

/// The text of an identifier: a letter or an underscore, then letters, numbers and
/// underscores.
pub open spec fn valid_identifier(s: Seq<char>) -> bool {
    &&& s.len() > 0
    &&& is_word_start(s[0])
    &&& forall|i: int| 0 <= i < s.len() ==> is_word_char(#[trigger] s[i])
}

/// The name of a value: a valid identifier, or the reserved name of the last
/// result.
#[derive(Debug, Clone, PartialEq, Eq, Hash, PartialOrd, Ord)]
pub struct Identifier {
    id: String,
}

impl View for Identifier {
    type V = Seq<char>;

    closed spec fn view(&self) -> Seq<char> {
        self.id@
    }
}

impl Identifier {
    /// The reserved name under which the last result is kept.
    pub const RESULT: &'static str = "$";

    /// Checks the text and makes an identifier of it.
    pub fn new(id: String) -> (r: Result<Self, Error>)
        ensures
            valid_identifier(id@) ==> r.is_ok(),
            r matches Ok(i) ==> valid_identifier(id@) && i@ == id@,
            r matches Err(e) ==> e == Error::InvalidIdentifier,
    {
        if Self::is_valid(id.as_str()) {
            Ok(Self { id })
        } else {
            Err(Error::InvalidIdentifier)
        }
    }

    /// Makes an identifier of a text that is known to be a name.
    fn new_unsafe(id: String) -> (r: Self)
        ensures
            r@ == id@,
    {
        Self { id }
    }

    /// The name of the last result.
    pub fn result() -> (r: Self)
        ensures
            r@ == "$"@,
    {
        Self { id: String::from_str("$") }
    }

    /// Whether this is the name of the last result.
    pub fn is_result(&self) -> (b: bool)
        ensures
            b == (self@ == "$"@),
    {
        let reserved = String::from_str("$");
        self.id == reserved
    }

    /// Whether the text is a valid identifier.
    pub fn is_valid(id: &str) -> (b: bool)
        ensures
            b == valid_identifier(id@),
    {
        let chars = chars_of(id);
        if chars.len() == 0 {
            return false;
        }
        if !word_start(chars[0]) {
            return false;
        }
        let mut i: usize = 0;
        while i < chars.len()
            invariant
                i <= chars.len(),
                chars@ == id@,
                forall|k: int| 0 <= k < i ==> is_word_char(#[trigger] id@[k]),
            decreases chars.len() - i,
        {
            if !word_char(chars[i]) {
                return false;
            }
            i += 1;
        }
        true
    }

    /// The text of the identifier.
    pub fn to_string(&self) -> (s: String)
        ensures
            s@ == self@,
    {
        self.id.clone()
    }

    /// A copy of the identifier.
    pub fn duplicate(&self) -> (r: Self)
        ensures
            r@ == self@,
    {
        Self { id: self.id.clone() }
    }

    /// Whether two identifiers have the same text.
    pub fn same_as(&self, other: &Self) -> (b: bool)
        ensures
            b == (self@ == other@),
    {
        self.id == other.id
    }
}

/// A value of the calculator: a number or a matrix.
#[derive(Debug, Clone, PartialEq, Eq)]
pub enum Type<T: MatrixNumber> {
    Scalar(T),
    Matrix(Matrix<T>),
}

/// What a value of the calculator stands for: a number, or the rows of a matrix
/// with its separator.
pub enum Value<T> {
    Scalar(T),
    Matrix(Seq<Seq<T>>, Option<usize>),
}

/// A value whose rows, if it is a matrix, are of equal length.
pub open spec fn valid_value<T>(v: Value<T>) -> bool {
    match v {
        Value::Scalar(_) => true,
        Value::Matrix(g, _) => rectangular(g),
    }
}

impl<T: MatrixNumber> View for Type<T> {
    type V = Value<T>;

    open spec fn view(&self) -> Value<T> {
        match self {
            Type::Scalar(s) => Value::Scalar(*s),
            Type::Matrix(m) => Value::Matrix(m@, m.separator),
        }
    }
}

impl<T: MatrixNumber> Type<T> {
    /// The scalar, or an arithmetic failure where there is none.
    pub fn from_scalar_option(opt: Option<T>) -> (r: Result<Self, Error>)
        ensures
            match opt {
                Some(val) => r matches Ok(v) && v@ == Value::Scalar(val),
                None => r matches Err(e) && e == Error::ArithmeticFailure,
            },
    {
        match opt {
            Some(val) => Ok(Type::Scalar(val)),
            None => Err(Error::ArithmeticFailure),
        }
    }

    /// The matrix as a value, or the error that came instead of it.
    pub fn from_matrix_result(opt: Result<Matrix<T>, Error>) -> (r: Result<Self, Error>)
        ensures
            match opt {
                Ok(m) => r matches Ok(v) && v@ == Value::Matrix(m@, m.separator),
                Err(e) => r matches Err(f) && f == e,
            },
    {
        match opt {
            Ok(m) => Ok(Type::Matrix(m)),
            Err(e) => Err(e),
        }
    }

    /// The number that the value is; fails for a matrix.
    pub fn as_scalar(self) -> (r: Result<T, Error>)
        ensures
            match self {
                Type::Scalar(s) => r == Ok::<T, Error>(s),
                Type::Matrix(_) => r == Err::<T, Error>(Error::TypeMismatch),
            },
    {
        match self {
            Type::Scalar(s) => Ok(s),
            Type::Matrix(_) => Err(Error::TypeMismatch),
        }
    }

    /// The matrix that the value is; fails for a number.
    pub fn as_matrix(self) -> (r: Result<Matrix<T>, Error>)
        ensures
            match self {
                Type::Scalar(_) => r matches Err(e) && e == Error::TypeMismatch,
                Type::Matrix(m) => r matches Ok(out) && out == m,
            },
    {
        match self {
            Type::Matrix(m) => Ok(m),
            Type::Scalar(_) => Err(Error::TypeMismatch),
        }
    }

    /// A copy of the value.
    pub fn duplicate(&self) -> (r: Self)
        ensures
            r@ == self@,
    {
        match self {
            Type::Scalar(s) => Type::Scalar(*s),
            Type::Matrix(m) => Type::Matrix(m.duplicate()),
        }
    }

    /// The plain text of the value.
    pub fn to_string(&self) -> (s: String)
        ensures
            s@ == value_text(self@),
    {
        match self {
            Type::Scalar(s) => s.to_text(),
            Type::Matrix(m) => m.to_string(),
        }
    }
}

/// The plain text of a value.
pub open spec fn value_text<T: MatrixNumber>(v: Value<T>) -> Seq<char> {
    match v {
        Value::Scalar(s) => s.text_spec(),
        Value::Matrix(g, _) => matrix_text(g),
    }
}

impl<T: MatrixNumber> LaTeXable for Type<T> {
    open spec fn renderable(&self) -> bool {
        match self {
            Type::Scalar(_) => true,
            Type::Matrix(m) => m.renderable(),
        }
    }

    open spec fn latex_spec(&self) -> Seq<char> {
        match self {
            Type::Scalar(s) => s.latex_spec(),
            Type::Matrix(m) => m.latex_spec(),
        }
    }

    open spec fn latex_single_spec(&self) -> Seq<char> {
        match self {
            Type::Scalar(s) => s.latex_spec(),
            Type::Matrix(m) => m.latex_spec(),
        }
    }

    fn to_latex(&self) -> (s: String) {
        match self {
            Type::Scalar(s) => {
                proof {
                    T::lemma_numbers_render(*s);
                }
                s.to_latex()
            },
            Type::Matrix(m) => m.to_latex(),
        }
    }

    fn to_latex_single(&self) -> (s: String) {
        self.to_latex()
    }
}

/// A function that the calculator knows by name.
#[derive(Debug, Clone, Copy, PartialEq, Eq, Structural)]
pub enum Callable {
    /// The matrix mirrored at its diagonal.
    Transpose,
    /// The identity matrix of the side that a scalar gives.
    Identity,
    /// The inverse of a matrix.
    Inverse,
}

/// What a function of the calculator returns for an argument.
pub open spec fn apply_builtin<T: MatrixNumber>(f: Callable, arg: Value<T>) -> Result<
    Value<T>,
    Error,
> {
    match f {
        Callable::Transpose => match arg {
            Value::Scalar(_) => Err(Error::TypeMismatch),
            Value::Matrix(g, _) => Ok(Value::Matrix(transposed(g), None)),
        },
        Callable::Identity => match arg {
            Value::Matrix(_, _) => Err(Error::TypeMismatch),
            Value::Scalar(s) => match s.to_usize_spec() {
                None => Err(Error::InvalidMatrix),
                Some(n) => Ok(Value::Matrix(identity_grid::<T>(n as nat), None)),
            },
        },
        Callable::Inverse => match arg {
            Value::Scalar(_) => Err(Error::TypeMismatch),
            Value::Matrix(g, _) => match inverse_of(g) {
                Err(e) => Err(e),
                Ok(p) => Ok(Value::Matrix(p.grid, None)),
            },
        },
    }
}

impl Callable {
    /// Applies the function to an argument.
    pub fn call<T: MatrixNumber>(&self, arg: Type<T>) -> (r: Result<Type<T>, Error>)
        requires
            valid_value(arg@),
        ensures
            match apply_builtin(*self, arg@) {
                Ok(v) => r matches Ok(out) && out@ == v,
                Err(e) => r matches Err(f) && f == e,
            },
    {
        match self {
            Callable::Transpose => {
                let m = match arg.as_matrix() {
                    Ok(m) => m,
                    Err(e) => { return Err(e); },
                };
                Ok(Type::Matrix(m.transpose()))
            },
            Callable::Identity => {
                let s = match arg.as_scalar() {
                    Ok(s) => s,
                    Err(e) => { return Err(e); },
                };
                match s.to_usize() {
                    None => Err(Error::InvalidMatrix),
                    Some(n) => Ok(Type::Matrix(Matrix::identity(n))),
                }
            },
            Callable::Inverse => {
                let m = match arg.as_matrix() {
                    Ok(m) => m,
                    Err(e) => { return Err(e); },
                };
                match m.inverse() {
                    Err(e) => Err(e),
                    Ok(aftermath) => Ok(Type::Matrix(aftermath.result)),
                }
            },
        }
    }
}

/// The values that have a name, each name bound once, and the functions that the
/// calculator knows.
pub struct Environment<T: MatrixNumber> {
    env: Vec<(Identifier, Type<T>)>,
    fun: Vec<(Identifier, Callable)>,
}

/// The functions that every environment knows, by name.
fn builtin_functions() -> (table: Vec<(Identifier, Callable)>)
    ensures
        table@.len() == 3,
        table@[0].0@ == "transpose"@ && table@[0].1 == Callable::Transpose,
        table@[1].0@ == "identity"@ && table@[1].1 == Callable::Identity,
        table@[2].0@ == "inverse"@ && table@[2].1 == Callable::Inverse,
{
    let mut table: Vec<(Identifier, Callable)> = Vec::new();
    table.push((Identifier::new_unsafe(String::from_str("transpose")), Callable::Transpose));
    table.push((Identifier::new_unsafe(String::from_str("identity")), Callable::Identity));
    table.push((Identifier::new_unsafe(String::from_str("inverse")), Callable::Inverse));
    table
}

/// The function that a name stands for.
pub open spec fn builtin_named(name: Seq<char>) -> Option<Callable> {
    if name == "transpose"@ {
        Some(Callable::Transpose)
    } else if name == "identity"@ {
        Some(Callable::Identity)
    } else if name == "inverse"@ {
        Some(Callable::Inverse)
    } else {
        None
    }
}

impl<T: MatrixNumber> Environment<T> {
    /// The names stand in ascending order, so that none is bound twice, every
    /// matrix has rows of equal length, and the functions are the three that
    /// every environment knows.
    pub closed spec fn wf(&self) -> bool {
        &&& ascending(self.names())
        &&& forall|i: int| 0 <= i < self.env@.len() ==> valid_value((#[trigger] self.env@[i]).1@)
        &&& self.fun@.len() == 3
        &&& self.fun@[0].0@ == "transpose"@ && self.fun@[0].1 == Callable::Transpose
        &&& self.fun@[1].0@ == "identity"@ && self.fun@[1].1 == Callable::Identity
        &&& self.fun@[2].0@ == "inverse"@ && self.fun@[2].1 == Callable::Inverse
    }

    /// Whether the binding at `i` is the one for `name`.
    spec fn binds(self, i: int, name: Seq<char>) -> bool {
        0 <= i < self.env@.len() && self.env@[i].0@ == name
    }

    /// Where the binding for `name` stands.
    spec fn position(self, name: Seq<char>) -> int {
        choose|i: int| self.binds(i, name)
    }

    /// The values by name.
    pub closed spec fn view(&self) -> Map<Seq<char>, Value<T>> {
        Map::new(
            |name: Seq<char>| exists|i: int| self.binds(i, name),
            |name: Seq<char>| self.env@[self.position(name)].1@,
        )
    }

    /// The names that are bound, in the order of the dictionary.
    pub closed spec fn names(&self) -> Seq<Seq<char>> {
        Seq::new(self.env@.len(), |i: int| self.env@[i].0@)
    }

    /// The names of a well-formed environment stand in ascending order, and they
    /// are the names that have a value.
    pub proof fn lemma_names(self)
        requires
            self.wf(),
        ensures
            ascending(self.names()),
            forall|name: Seq<char>| self.names().contains(name) <==> self@.contains_key(name),
    {
        assert forall|name: Seq<char>| self.names().contains(name) implies self@.contains_key(
            name,
        ) by {
            let i = choose|i: int| 0 <= i < self.names().len() && self.names()[i] == name;
            assert(self.binds(i, name));
        }
        assert forall|name: Seq<char>| self@.contains_key(name) implies self.names().contains(
            name,
        ) by {
            let i = self.position(name);
            assert(self.binds(i, name));
            assert(self.names()[i] == name);
        }
    }

    /// An environment without values.
    pub fn new() -> (r: Self)
        ensures
            r.wf(),
            r@ == Map::<Seq<char>, Value<T>>::empty(),
            r.names() == Seq::<Seq<char>>::empty(),
    {
        let r = Self { env: Vec::new(), fun: builtin_functions() };
        assert(r@ =~= Map::<Seq<char>, Value<T>>::empty());
        assert(r.names() =~= Seq::<Seq<char>>::empty());
        r
    }

    /// The place of `id` among the names: how many names stand before it, and
    /// whether the name at that place is `id` itself.
    fn find_place(&self, id: &Identifier) -> (r: (usize, bool))
        requires
            self.wf(),
        ensures
            r.0 == count_before(self.names(), id@),
            r.0 <= self.env@.len(),
            forall|k: int| 0 <= k < r.0 ==> text_before(#[trigger] self.names()[k], id@),
            r.1 ==> self.binds(r.0 as int, id@),
            !r.1 ==> forall|k: int| !self.binds(k, id@),
            !r.1 && r.0 < self.env@.len() ==> text_before(id@, self.names()[r.0 as int]),
    {
        let mut i: usize = 0;
        assert(self.names().skip(0) =~= self.names());
        while i < self.env.len()
            invariant
                self.wf(),
                i <= self.env.len(),
                count_before(self.names(), id@) == i + count_before(
                    self.names().skip(i as int),
                    id@,
                ),
                forall|k: int| 0 <= k < i ==> text_before(#[trigger] self.names()[k], id@),
            decreases self.env.len() - i,
        {
            let ghost rest = self.names().skip(i as int);
            assert(rest[0] == self.names()[i as int]);
            assert(rest.drop_first() =~= self.names().skip(i + 1));
            proof {
                lemma_order_is_total(self.names()[i as int], id@);
            }
            match compare_texts(self.env[i].0.id.as_str(), id.id.as_str()) {
                Order::Before => {
                    i += 1;
                },
                Order::Same => {
                    return (i, true);
                },
                Order::After => {
                    proof {
                        self.lemma_nothing_later(i as int, id@);
                    }
                    return (i, false);
                },
            }
        }
        assert(self.names().skip(i as int).len() == 0);
        proof {
            assert forall|k: int| !self.binds(k, id@) by {
                if self.binds(k, id@) {
                    assert(text_before(self.names()[k], id@));
                    lemma_order_is_total(self.names()[k], id@);
                }
            }
        }
        (i, false)
    }

    /// A name that stands before the name at `i`, and after all names before `i`,
    /// is not bound.
    proof fn lemma_nothing_later(self, i: int, name: Seq<char>)
        requires
            self.wf(),
            0 <= i < self.env@.len(),
            text_before(name, self.names()[i]),
            forall|k: int| 0 <= k < i ==> text_before(#[trigger] self.names()[k], name),
        ensures
            forall|k: int| !self.binds(k, name),
    {
        assert forall|k: int| !self.binds(k, name) by {
            if self.binds(k, name) {
                assert(self.names()[k] == name);
                if k < i {
                    lemma_order_is_total(self.names()[k], name);
                } else if k == i {
                    lemma_order_is_total(name, self.names()[i]);
                } else {
                    assert(text_before(self.names()[i], self.names()[k]));
                    lemma_order_is_total(name, self.names()[i]);
                }
            }
        }
    }

    /// Binds `id` to `value`; an earlier binding of `id` is replaced. The names
    /// stay in the order of the dictionary.
    pub fn insert(&mut self, id: Identifier, value: Type<T>)
        requires
            old(self).wf(),
            valid_value(value@),
        ensures
            final(self).wf(),
            final(self)@ == old(self)@.insert(id@, value@),
            final(self).names() == with_name(old(self).names(), id@),
    {
        let ghost before = *self;
        let (place, found) = self.find_place(&id);
        if found {
            self.env[place] = (id, value);
            assert forall|name: Seq<char>, k: int| self.binds(k, name) <==> before.binds(
                k,
                name,
            ) by {}
            assert(self.names() =~= before.names());
            assert(self.wf());
            assert forall|name: Seq<char>|
                before@.insert(id@, value@).contains_key(name) implies #[trigger]
                self@.contains_key(name) && self@[name] == before@.insert(id@, value@)[name] by {
                if name == id@ {
                    self.lemma_bound(place as int, name);
                } else {
                    let b = before.position(name);
                    assert(before.binds(b, name));
                    before.lemma_bound(b, name);
                    self.lemma_bound(b, name);
                }
            }
            assert forall|name: Seq<char>| #[trigger]
                self@.contains_key(name) implies before@.insert(id@, value@).contains_key(
                name,
            ) by {
                let k = self.position(name);
                assert(self.binds(k, name));
                assert(before.binds(k, name));
            }
            assert(self@ =~= before@.insert(id@, value@));
            assert(before.names()[place as int] == id@);
        } else {
            self.env.insert(place, (id, value));
            let ghost at = place as int;
            assert(!before.binds(at, id@));
            assert(self.names() =~= before.names().insert(at, id@));
            assert(self.binds(at, id@));
            assert(ascending(self.names())) by {
                assert forall|i: int, j: int| 0 <= i < j < self.names().len() implies text_before(
                    #[trigger] self.names()[i],
                    #[trigger] self.names()[j],
                ) by {
                    if j < at {
                        assert(text_before(before.names()[i], before.names()[j]));
                    } else if j == at {
                        assert(text_before(before.names()[i], id@));
                    } else if i == at {
                        assert(text_before(id@, before.names()[at]));
                        if j - 1 > at {
                            assert(text_before(before.names()[at], before.names()[j - 1]));
                            lemma_order_is_transitive(
                                id@,
                                before.names()[at],
                                before.names()[j - 1],
                            );
                        }
                    } else if i < at {
                        assert(text_before(before.names()[i], before.names()[j - 1]));
                    } else {
                        assert(text_before(before.names()[i - 1], before.names()[j - 1]));
                    }
                }
            }
            assert(self.wf()) by {
                assert forall|a: int| 0 <= a < self.env@.len() implies valid_value(
                    (#[trigger] self.env@[a]).1@,
                ) by {
                    if a < at {
                        assert(self.env@[a] == before.env@[a]);
                    } else if a > at {
                        assert(self.env@[a] == before.env@[a - 1]);
                    }
                }
            }
            assert forall|name: Seq<char>|
                before@.insert(id@, value@).contains_key(name) implies #[trigger]
                self@.contains_key(name) && self@[name] == before@.insert(id@, value@)[name] by {
                if name == id@ {
                    self.lemma_bound(at, name);
                } else {
                    let b = before.position(name);
                    assert(before.binds(b, name));
                    before.lemma_bound(b, name);
                    if b < at {
                        assert(self.env@[b] == before.env@[b]);
                        self.lemma_bound(b, name);
                    } else {
                        assert(self.env@[b + 1] == before.env@[b]);
                        self.lemma_bound(b + 1, name);
                    }
                }
            }
            assert forall|name: Seq<char>| #[trigger]
                self@.contains_key(name) implies before@.insert(id@, value@).contains_key(
                name,
            ) by {
                let k = self.position(name);
                assert(self.binds(k, name));
                if name != id@ {
                    if k < at {
                        assert(before.binds(k, name));
                    } else {
                        assert(self.env@[k] == before.env@[k - 1]);
                        assert(before.binds(k - 1, name));
                    }
                }
            }
            assert(self@ =~= before@.insert(id@, value@));
        }
    }

    /// A name has its binding in one place only, and the environment holds the
    /// value that stands there.
    proof fn lemma_bound(self, i: int, name: Seq<char>)
        requires
            self.wf(),
            self.binds(i, name),
        ensures
            self.position(name) == i,
            self@.contains_key(name),
            self@[name] == self.env@[i].1@,
    {
        let k = self.position(name);
        assert(self.binds(k, name));
        if k < i {
            assert(text_before(self.names()[k], self.names()[i]));
            lemma_order_is_total(self.names()[k], self.names()[i]);
        } else if i < k {
            assert(text_before(self.names()[i], self.names()[k]));
            lemma_order_is_total(self.names()[i], self.names()[k]);
        }
    }

    /// The value bound to `id`, if there is one.
    pub fn get_value(&self, id: &Identifier) -> (r: Option<&Type<T>>)
        requires
            self.wf(),
        ensures
            match r {
                Some(v) => self@.contains_key(id@) && self@[id@] == v@ && valid_value(v@),
                None => !self@.contains_key(id@),
            },
    {
        let (place, found) = self.find_place(id);
        if found {
            proof {
                self.lemma_bound(place as int, id@);
            }
            Some(&self.env[place].1)
        } else {
            None
        }
    }

    /// The function that `id` names, if it names one.
    pub fn get_function(&self, id: &Identifier) -> (r: Option<Callable>)
        requires
            self.wf(),
        ensures
            r == builtin_named(id@),
    {
        let mut i: usize = 0;
        while i < self.fun.len()
            invariant
                i <= self.fun.len(),
                self.fun@.len() == 3,
                self.fun@[0].0@ == "transpose"@ && self.fun@[0].1 == Callable::Transpose,
                self.fun@[1].0@ == "identity"@ && self.fun@[1].1 == Callable::Identity,
                self.fun@[2].0@ == "inverse"@ && self.fun@[2].1 == Callable::Inverse,
                forall|k: int| 0 <= k < i ==> (#[trigger] self.fun@[k]).0@ != id@,
            decreases self.fun.len() - i,
        {
            if self.fun[i].0.same_as(id) {
                proof {
                    reveal_strlit("transpose");
                    reveal_strlit("identity");
                    reveal_strlit("inverse");
                }
                return Some(self.fun[i].1);
            }
            i += 1;
        }
        None
    }

    /// How many names are bound.
    pub fn len(&self) -> (n: usize)
        ensures
            n == self.names().len(),
    {
        self.env.len()
    }

    /// The `i`-th name in the order of the dictionary, with its value.
    pub fn entry(&self, i: usize) -> (r: (&Identifier, &Type<T>))
        requires
            self.wf(),
            i < self.names().len(),
        ensures
            r.0@ == self.names()[i as int],
            self@.contains_key(r.0@),
            self@[r.0@] == r.1@,
            valid_value(r.1@),
    {
        proof {
            self.lemma_bound(i as int, self.env@[i as int].0@);
        }
        (&self.env[i].0, &self.env[i].1)
    }

    /// The names in the order of the dictionary, each with its value.
    pub fn iter_mut(&self) -> (r: Vec<(&Identifier, &Type<T>)>)
        requires
            self.wf(),
        ensures
            r@.len() == self.names().len(),
            forall|i: int|
                0 <= i < r@.len() ==> (#[trigger] r@[i]).0@ == self.names()[i]
                    && self@.contains_key(r@[i].0@) && self@[r@[i].0@] == r@[i].1@,
    {
        let mut all: Vec<(&Identifier, &Type<T>)> = Vec::new();
        let mut i: usize = 0;
        while i < self.len()
            invariant
                self.wf(),
                i <= self.names().len(),
                all@.len() == i,
                forall|k: int|
                    0 <= k < i ==> (#[trigger] all@[k]).0@ == self.names()[k]
                        && self@.contains_key(all@[k].0@) && self@[all@[k].0@] == all@[k].1@,
            decreases self.names().len() - i,
        {
            all.push(self.entry(i));
            i += 1;
        }
        all
    }
}

impl<T: MatrixNumber> Default for Environment<T> {
    /// An environment without values.
    fn default() -> (r: Self)
        ensures
            r.wf(),
            r@ == Map::<Seq<char>, Value<T>>::empty(),
            r.names() == Seq::<Seq<char>>::empty(),
    {
        Self::new()
    }
}

} // verus!
