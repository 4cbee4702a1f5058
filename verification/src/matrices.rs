//! Matrices: construction, shape, and checked arithmetic.

use crate::error::Error;
use crate::grid::{
    matrix_latex, matrix_text, row_latex, row_text, dot, grid_mul, grid_pow, joined, left_part,
    matrix_eq, pow_by_squaring, product_cell, lemma_product_shape, product_fails, right_part,
    canonical, chunked, constant_grid, elementwise, flattened, grid_add, grid_from, grid_neg,
    difference_of, grid_scale, grid_sub, height, identity_grid, is_empty_grid, lemma_grid_from,
    multiple_of, rectangular, rows_of, same_shape, sum_of, transposed, width, zip_fails,
};
use crate::text::{append_repeated, join, texts_of};
use crate::traits::{LaTeXable, MatrixNumber};
use vstd::string::*;
use vstd::prelude::*;

verus! {

/// A matrix over `T`: a grid of rows, and the index of the column before which a
/// vertical separator is drawn when the matrix is rendered.
///
/// Every empty shape counts as the shape `(0, 0)`.
#[derive(Debug, Clone)]
pub struct Matrix<T: MatrixNumber> {
    pub data: Vec<Vec<T>>,
    pub separator: Option<usize>,
}

impl<T: MatrixNumber> View for Matrix<T> {
    type V = Seq<Seq<T>>;

    open spec fn view(&self) -> Seq<Seq<T>> {
        rows_of(self.data)
    }
}

impl<T: MatrixNumber> Matrix<T> {
    /// The rows are of equal length.
    pub open spec fn valid(&self) -> bool {
        rectangular(self@)
    }

    /// The rows are of equal length and the separator, if any, lies within the
    /// columns of a matrix that has at least one row.
    pub open spec fn wf(&self) -> bool {
        &&& rectangular(self@)
        &&& self.separator matches Some(s) ==> self@.len() > 0 && s <= self@[0].len()
    }

    /// Takes the rows as they are, without checking them.
    pub fn new_unsafe(data: Vec<Vec<T>>) -> (m: Self)
        ensures
            m.data == data,
            m.separator.is_none(),
    {
        Self { data, separator: None }
    }

    /// Checks that the rows are of equal length; an empty shape becomes the matrix
    /// without rows.
    pub fn new(data: Vec<Vec<T>>) -> (r: Result<Self, Error>)
        ensures
            rectangular(rows_of(data)) ==> r.is_ok(),
            r matches Ok(m) ==> rectangular(rows_of(data)) && m@ == canonical(rows_of(data))
                && m.separator.is_none(),
            r matches Err(e) ==> e == Error::InvalidMatrix,
    {
        let matrix = Self { data, separator: None };
        if !matrix.is_valid() {
            Err(Error::InvalidMatrix)
        } else if matrix.is_empty() {
            Ok(Self::empty())
        } else {
            Ok(matrix)
        }
    }

    /// The matrix without rows.
    pub fn empty() -> (m: Self)
        ensures
            m@ == Seq::<Seq<T>>::empty(),
            m.separator.is_none(),
    {
        let m = Self::new_unsafe(Vec::new());
        assert(m@ =~= Seq::<Seq<T>>::empty());
        m
    }

    /// A matrix of the given shape whose entry at `(i, j)` is what `supp` gives for
    /// `(i, j)`; the matrix without rows when the shape is empty.
    pub fn filled<F>(shape: (usize, usize), supp: F) -> (m: Self) where F: Fn(usize, usize) -> T
        requires
            forall|i: usize, j: usize| i < shape.0 && j < shape.1 ==> call_requires(supp, (i, j)),
        ensures
            m.separator.is_none(),
            rectangular(m@),
            shape.0 == 0 || shape.1 == 0 ==> m@.len() == 0,
            shape.0 > 0 && shape.1 > 0 ==> m@.len() == shape.0 && m@[0].len() == shape.1,
            forall|i: usize, j: usize|
                i < shape.0 && j < shape.1 ==> call_ensures(
                    supp,
                    (i, j),
                    #[trigger] m@[i as int][j as int],
                ),
    {
        let (h, w) = shape;
        if h == 0 || w == 0 {
            return Self::empty();
        }
        let mut data: Vec<Vec<T>> = Vec::new();
        let mut i: usize = 0;
        while i < h
            invariant
                i <= h,
                w > 0,
                data@.len() == i,
                forall|a: usize, b: usize| a < h && b < w ==> call_requires(supp, (a, b)),
                forall|a: int| 0 <= a < i ==> (#[trigger] data@[a])@.len() == w,
                forall|a: usize, b: usize|
                    a < i && b < w ==> call_ensures(
                        supp,
                        (a, b),
                        #[trigger] data@[a as int]@[b as int],
                    ),
            decreases h - i,
        {
            let mut row: Vec<T> = Vec::new();
            let mut j: usize = 0;
            while j < w
                invariant
                    i < h,
                    j <= w,
                    row@.len() == j,
                    forall|a: usize, b: usize| a < h && b < w ==> call_requires(supp, (a, b)),
                    forall|b: usize| b < j ==> call_ensures(supp, (i, b), #[trigger] row@[b as int]),
                decreases w - j,
            {
                let value = supp(i, j);
                row.push(value);
                j += 1;
            }
            data.push(row);
            i += 1;
        }
        let m = Self { data, separator: None };
        assert forall|a: usize, b: usize| a < h && b < w implies call_ensures(
            supp,
            (a, b),
            #[trigger] m@[a as int][b as int],
        ) by {
            assert(m@[a as int] == m.data@[a as int]@);
        }
        m
    }

    /// The matrix of the given shape filled with zeros.
    pub fn zeros(shape: (usize, usize)) -> (m: Self)
        ensures
            m@ == constant_grid(shape.0 as nat, shape.1 as nat, T::zero_spec()),
            m.separator.is_none(),
    {
        let m = Self::filled(shape, |i: usize, j: usize| -> (r: T)
            ensures
                r == T::zero_spec(),
            { T::zero() });
        proof {
            lemma_grid_from(shape.0 as nat, shape.1 as nat, |i: int, j: int| T::zero_spec());
            Self::lemma_filled_is_grid(m@, shape.0 as nat, shape.1 as nat, |i: int, j: int| T::zero_spec());
        }
        m
    }

    /// The matrix of the given shape filled with ones.
    pub fn ones(shape: (usize, usize)) -> (m: Self)
        ensures
            m@ == constant_grid(shape.0 as nat, shape.1 as nat, T::one_spec()),
            m.separator.is_none(),
    {
        let m = Self::filled(shape, |i: usize, j: usize| -> (r: T)
            ensures
                r == T::one_spec(),
            { T::one() });
        proof {
            Self::lemma_filled_is_grid(m@, shape.0 as nat, shape.1 as nat, |i: int, j: int| T::one_spec());
        }
        m
    }

    /// The identity matrix of side `n`.
    pub fn identity(n: usize) -> (m: Self)
        ensures
            m@ == identity_grid::<T>(n as nat),
            m.separator.is_none(),
    {
        let m = Self::filled((n, n), |i: usize, j: usize| -> (r: T)
            ensures
                r == (if i == j {
                    T::one_spec()
                } else {
                    T::zero_spec()
                }),
            {
                if i == j {
                    T::one()
                } else {
                    T::zero()
                }
            });
        proof {
            Self::lemma_filled_is_grid(
                m@,
                n as nat,
                n as nat,
                |i: int, j: int|
                    if i == j {
                        T::one_spec()
                    } else {
                        T::zero_spec()
                    },
            );
        }
        m
    }

    /// A grid with the shape and the entries of `grid_from(h, w, f)` is that grid.
    pub proof fn lemma_filled_is_grid(g: Seq<Seq<T>>, h: nat, w: nat, f: spec_fn(int, int) -> T)
        requires
            rectangular(g),
            h == 0 || w == 0 ==> g.len() == 0,
            h > 0 && w > 0 ==> g.len() == h && g[0].len() == w,
            forall|i: int, j: int| 0 <= i < h && 0 <= j < w ==> #[trigger] g[i][j] == f(i, j),
        ensures
            g == grid_from(h, w, f),
    {
        lemma_grid_from(h, w, f);
        let e = grid_from(h, w, f);
        assert(g.len() == e.len());
        assert forall|i: int| 0 <= i < g.len() implies g[i] == e[i] by {
            assert(g[i].len() == g[0].len());
            assert(g[i] =~= e[i]);
        }
        assert(g =~= e);
    }

    /// Cuts a flat vector into `shape.0` rows of `shape.1` entries. Fails when the
    /// vector does not hold exactly that many entries.
    pub fn from_vec(data: Vec<T>, shape: (usize, usize)) -> (r: Result<Self, Error>)
        ensures
            data@.len() == shape.0 * shape.1 ==> r.is_ok(),
            r matches Ok(m) ==> data@.len() == shape.0 * shape.1 && m@ == chunked(
                data@,
                shape.0 as nat,
                shape.1 as nat,
            ) && m.separator.is_none(),
            r matches Err(e) ==> e == Error::InvalidMatrix,
    {
        let (rows, cols) = shape;
        let len = data.len();
        match rows.checked_mul(cols) {
            None => { return Err(Error::InvalidMatrix); },
            Some(n) => {
                if n != len {
                    return Err(Error::InvalidMatrix);
                }
            },
        }
        if rows == 0 || cols == 0 {
            return Ok(Self::empty());
        }
        let mut grid: Vec<Vec<T>> = Vec::new();
        let mut i: usize = 0;
        let mut k: usize = 0;
        while i < rows
            invariant
                i <= rows,
                cols > 0,
                k == i * cols,
                len == data@.len(),
                data@.len() == rows * cols,
                grid@.len() == i,
                forall|a: int| 0 <= a < i ==> (#[trigger] grid@[a])@.len() == cols,
                forall|a: int, b: int|
                    0 <= a < i && 0 <= b < cols ==> #[trigger] grid@[a]@[b] == data@[a * cols + b],
            decreases rows - i,
        {
            let mut row: Vec<T> = Vec::new();
            let mut j: usize = 0;
            assert((i + 1) * cols <= rows * cols) by (nonlinear_arith)
                requires
                    i < rows,
            ;
            assert((i + 1) * cols == i * cols + cols) by (nonlinear_arith);
            while j < cols
                invariant
                    i < rows,
                    j <= cols,
                    k == i * cols + j,
                    i * cols + cols <= rows * cols,
                    len == data@.len(),
                    data@.len() == rows * cols,
                    row@.len() == j,
                    forall|b: int| 0 <= b < j ==> #[trigger] row@[b] == data@[i * cols + b],
                decreases cols - j,
            {
                row.push(data[k]);
                j += 1;
                k += 1;
            }
            grid.push(row);
            i += 1;
        }
        let m = Self { data: grid, separator: None };
        proof {
            Self::lemma_filled_is_grid(
                m@,
                rows as nat,
                cols as nat,
                |a: int, b: int| data@[a * (cols as nat) + b],
            );
        }
        Ok(m)
    }

    /// The entries in reading order.
    pub fn flatten(&self) -> (flat: Vec<T>)
        requires
            self.valid(),
        ensures
            flat@ == flattened(self@),
    {
        let (h, w) = self.get_shape();
        let mut flat: Vec<T> = Vec::new();
        let mut i: usize = 0;
        while i < h
            invariant
                i <= h,
                self.valid(),
                h == height(self@),
                w == width(self@),
                flat@.len() == i * w,
                forall|k: int|
                    0 <= k < flat@.len() ==> #[trigger] flat@[k] == self@[k / (w as int)][k % (
                    w as int)],
            decreases h - i,
        {
            let mut j: usize = 0;
            assert(self@[i as int].len() == self@[0].len());
            while j < w
                invariant
                    i < h,
                    j <= w,
                    self.valid(),
                    h == height(self@),
                    w == width(self@),
                    self@[i as int].len() == w,
                    flat@.len() == i * w + j,
                    forall|k: int|
                        0 <= k < flat@.len() ==> #[trigger] flat@[k] == self@[k / (w as int)][k % (
                        w as int)],
                decreases w - j,
            {
                proof {
                    vstd::arithmetic::div_mod::lemma_fundamental_div_mod_converse(
                        i * w + j,
                        w as int,
                        i as int,
                        j as int,
                    );
                }
                flat.push(self.data[i][j]);
                j += 1;
            }
            assert((i + 1) * w == i * w + w) by (nonlinear_arith);
            i += 1;
        }
        assert(flat@ =~= flattened(self@));
        flat
    }

    /// The same entries in reading order, cut into another shape. Fails when the
    /// new shape holds another number of entries.
    pub fn reshape(&self, shape: (usize, usize)) -> (r: Result<Self, Error>)
        requires
            self.valid(),
        ensures
            height(self@) * width(self@) == shape.0 * shape.1 ==> r.is_ok(),
            r matches Ok(m) ==> height(self@) * width(self@) == shape.0 * shape.1 && m@ == chunked(
                flattened(self@),
                shape.0 as nat,
                shape.1 as nat,
            ) && m.separator.is_none(),
            r matches Err(e) ==> e == Error::InvalidMatrix,
    {
        let flat = self.flatten();
        Self::from_vec(flat, shape)
    }

    /// The matrix mirrored at its diagonal.
    pub fn transpose(&self) -> (m: Self)
        requires
            self.valid(),
        ensures
            m@ == transposed(self@),
            m.separator.is_none(),
    {
        let (h, w) = self.get_shape();
        let m = Self::filled((w, h), |i: usize, j: usize| -> (r: T)
            requires
                i < w,
                j < h,
                h == height(self@),
                w == width(self@),
                self.valid(),
            ensures
                r == self@[j as int][i as int],
            {
                assert(self@[j as int].len() == self@[0].len());
                self.data[j][i]
            });
        proof {
            Self::lemma_filled_is_grid(m@, w as nat, h as nat, |i: int, j: int| self@[j][i]);
        }
        m
    }

    /// Combines two matrices of the same shape entry by entry with `operation`.
    /// Fails when the shapes differ or when `operation` gives no value for some
    /// pair of entries; no partial result is ever returned.
    pub fn checked_operation_on_two<F>(&self, other: &Self, operation: F) -> (r: Result<
        Self,
        Error,
    >) where F: Fn(&T, &T) -> Option<T>
        requires
            self.valid(),
            other.valid(),
            forall|a: T, b: T| call_requires(operation, (&a, &b)),
        ensures
            !same_shape(self@, other@) ==> r == Err::<Self, Error>(Error::ShapeMismatch),
            r matches Ok(m) ==> {
                &&& same_shape(self@, other@)
                &&& m.separator.is_none()
                &&& rectangular(m@)
                &&& m@.len() == height(self@)
                &&& height(self@) > 0 ==> m@[0].len() == width(self@)
                &&& forall|i: int, j: int|
                    0 <= i < height(self@) && 0 <= j < width(self@) ==> call_ensures(
                        operation,
                        (&self@[i][j], &other@[i][j]),
                        Some(#[trigger] m@[i][j]),
                    )
            },
            r matches Err(e) ==> {
                ||| e == Error::ShapeMismatch && !same_shape(self@, other@)
                ||| e == Error::ArithmeticFailure && same_shape(self@, other@) && exists|
                    i: int,
                    j: int,
                |
                    0 <= i < height(self@) && 0 <= j < width(self@) && #[trigger] call_ensures(
                        operation,
                        (&self@[i][j], &other@[i][j]),
                        None,
                    )
            },
    {
        if !self.same_shapes(other) {
            return Err(Error::ShapeMismatch);
        }
        let (h, w) = self.get_shape();
        let mut data: Vec<Vec<T>> = Vec::new();
        let mut i: usize = 0;
        while i < h
            invariant
                i <= h,
                self.valid(),
                other.valid(),
                same_shape(self@, other@),
                h == height(self@),
                w == width(self@),
                forall|a: T, b: T| call_requires(operation, (&a, &b)),
                data@.len() == i,
                forall|a: int| 0 <= a < i ==> (#[trigger] data@[a])@.len() == w,
                forall|a: int, b: int|
                    0 <= a < i && 0 <= b < w ==> call_ensures(
                        operation,
                        (&self@[a][b], &other@[a][b]),
                        Some(#[trigger] data@[a]@[b]),
                    ),
            decreases h - i,
        {
            let mut row: Vec<T> = Vec::new();
            let mut j: usize = 0;
            assert(self@[i as int].len() == self@[0].len());
            assert(other@[i as int].len() == other@[0].len());
            while j < w
                invariant
                    i < h,
                    j <= w,
                    h == height(self@),
                    w == width(self@),
                    same_shape(self@, other@),
                    self@[i as int].len() == w,
                    other@[i as int].len() == w,
                    forall|a: T, b: T| call_requires(operation, (&a, &b)),
                    row@.len() == j,
                    forall|b: int|
                        0 <= b < j ==> call_ensures(
                            operation,
                            (&self@[i as int][b], &other@[i as int][b]),
                            Some(#[trigger] row@[b]),
                        ),
                decreases w - j,
            {
                match operation(&self.data[i][j], &other.data[i][j]) {
                    Some(value) => {
                        row.push(value);
                    },
                    None => {
                        assert(call_ensures(
                            operation,
                            (&self@[i as int][j as int], &other@[i as int][j as int]),
                            None,
                        ));
                        return Err(Error::ArithmeticFailure);
                    },
                }
                j += 1;
            }
            data.push(row);
            i += 1;
        }
        let m = Self { data, separator: None };
        assert forall|a: int, b: int| 0 <= a < h && 0 <= b < w implies call_ensures(
            operation,
            (&self@[a][b], &other@[a][b]),
            Some(#[trigger] m@[a][b]),
        ) by {
            assert(m@[a] == m.data@[a]@);
        }
        Ok(m)
    }

    /// Applies `operation` to every entry. Fails when it gives no value for some
    /// entry.
    pub fn checked_operation<F>(&self, operation: F) -> (r: Result<Self, Error>) where
        F: Fn(&T) -> Option<T>,

        requires
            self.valid(),
            forall|a: T| call_requires(operation, (&a,)),
        ensures
            r matches Ok(m) ==> {
                &&& m.separator.is_none()
                &&& rectangular(m@)
                &&& m@.len() == height(self@)
                &&& height(self@) > 0 ==> m@[0].len() == width(self@)
                &&& forall|i: int, j: int|
                    0 <= i < height(self@) && 0 <= j < width(self@) ==> call_ensures(
                        operation,
                        (&self@[i][j],),
                        Some(#[trigger] m@[i][j]),
                    )
            },
            r matches Err(e) ==> e == Error::ArithmeticFailure && exists|i: int, j: int|
                0 <= i < height(self@) && 0 <= j < width(self@) && #[trigger] call_ensures(
                    operation,
                    (&self@[i][j],),
                    None,
                ),
    {
        let r = self.checked_operation_on_two(self, |a: &T, b: &T| -> (out: Option<T>)
            requires
                call_requires(operation, (a,)),
            ensures
                call_ensures(operation, (a,), out),
            { operation(a) });
        r
    }

    /// A result that holds what `f` gives place by place, or fails where `f` gives
    /// nothing, is the entry-wise combination of `a` and `b`.
    pub proof fn lemma_elementwise(
        r: Result<Self, Error>,
        a: Seq<Seq<T>>,
        b: Seq<Seq<T>>,
        f: spec_fn(T, T) -> Option<T>,
    )
        requires
            !same_shape(a, b) ==> r == Err::<Self, Error>(Error::ShapeMismatch),
            r matches Ok(m) ==> {
                &&& same_shape(a, b)
                &&& m.separator.is_none()
                &&& rectangular(m@)
                &&& m@.len() == height(a)
                &&& height(a) > 0 ==> m@[0].len() == width(a)
                &&& forall|i: int, j: int|
                    0 <= i < height(a) && 0 <= j < width(a) ==> f(a[i][j], b[i][j]) == Some(
                        #[trigger] m@[i][j],
                    )
            },
            r matches Err(e) ==> {
                ||| e == Error::ShapeMismatch && !same_shape(a, b)
                ||| e == Error::ArithmeticFailure && same_shape(a, b) && exists|i: int, j: int|
                    0 <= i < height(a) && 0 <= j < width(a) && (#[trigger] f(
                        a[i][j],
                        b[i][j],
                    )).is_none()
            },
        ensures
            match elementwise(a, b, f) {
                Ok(g) => r matches Ok(m) && m@ == g && m.separator.is_none(),
                Err(e) => r == Err::<Self, Error>(e),
            },
    {
        match r {
            Ok(m) => {
                Self::lemma_filled_is_grid(
                    m@,
                    height(a),
                    width(a),
                    |i: int, j: int| f(a[i][j], b[i][j]).unwrap(),
                );
                if zip_fails(a, b, f) {
                    let (i, j) = choose|i: int, j: int|
                        0 <= i < height(a) && 0 <= j < width(a) && (#[trigger] f(
                            a[i][j],
                            b[i][j],
                        )).is_none();
                    assert(f(a[i][j], b[i][j]) == Some(m@[i][j]));
                }
            },
            Err(e) => {},
        }
    }

    /// Entry-wise sum. Fails when the shapes differ or an entry overflows.
    pub fn checked_add(&self, rhs: &Self) -> (r: Result<Self, Error>)
        requires
            self.valid(),
            rhs.valid(),
        ensures
            match grid_add(self@, rhs@) {
                Ok(g) => r matches Ok(m) && m@ == g && m.separator.is_none(),
                Err(e) => r == Err::<Self, Error>(e),
            },
            r matches Ok(m) ==> m.valid(),
            !same_shape(self@, rhs@) ==> r == Err::<Self, Error>(Error::ShapeMismatch),
    {
        let operation = |a: &T, b: &T| -> (out: Option<T>)
            ensures
                out == a.add_spec(*b),
            { a.checked_add(b) };
        let r = self.checked_operation_on_two(rhs, operation);
        proof {
            if r is Err && r->Err_0 == Error::ArithmeticFailure {
                let (i, j) = choose|i: int, j: int|
                    0 <= i < height(self@) && 0 <= j < width(self@) && #[trigger] call_ensures(
                        operation,
                        (&self@[i][j], &rhs@[i][j]),
                        None,
                    );
                assert(sum_of::<T>()(self@[i][j], rhs@[i][j]).is_none());
            }
            Self::lemma_elementwise(r, self@, rhs@, sum_of::<T>());
        }
        r
    }

    /// Entry-wise difference. Fails when the shapes differ or an entry overflows.
    pub fn checked_sub(&self, rhs: &Self) -> (r: Result<Self, Error>)
        requires
            self.valid(),
            rhs.valid(),
        ensures
            match grid_sub(self@, rhs@) {
                Ok(g) => r matches Ok(m) && m@ == g && m.separator.is_none(),
                Err(e) => r == Err::<Self, Error>(e),
            },
            r matches Ok(m) ==> m.valid(),
            !same_shape(self@, rhs@) ==> r == Err::<Self, Error>(Error::ShapeMismatch),
    {
        let operation = |a: &T, b: &T| -> (out: Option<T>)
            ensures
                out == a.sub_spec(*b),
            { a.checked_sub(b) };
        let r = self.checked_operation_on_two(rhs, operation);
        proof {
            if r is Err && r->Err_0 == Error::ArithmeticFailure {
                let (i, j) = choose|i: int, j: int|
                    0 <= i < height(self@) && 0 <= j < width(self@) && #[trigger] call_ensures(
                        operation,
                        (&self@[i][j], &rhs@[i][j]),
                        None,
                    );
                assert(difference_of::<T>()(self@[i][j], rhs@[i][j]).is_none());
            }
            Self::lemma_elementwise(r, self@, rhs@, difference_of::<T>());
        }
        r
    }

    /// The negated matrix: the zero matrix of the same shape minus this one.
    pub fn checked_neg(&self) -> (r: Result<Self, Error>)
        requires
            self.valid(),
        ensures
            match grid_neg(self@) {
                Ok(g) => r matches Ok(m) && m@ == g && m.separator.is_none(),
                Err(e) => r == Err::<Self, Error>(e),
            },
            r matches Ok(m) ==> m.valid(),
    {
        let zeros = Self::zeros(self.get_shape());
        proof {
            lemma_grid_from(height(self@), width(self@), |i: int, j: int| T::zero_spec());
        }
        zeros.checked_sub(self)
    }

    /// Every entry multiplied by `other`. Fails when an entry overflows.
    pub fn checked_mul_scl(&self, other: &T) -> (r: Result<Self, Error>)
        requires
            self.valid(),
        ensures
            match grid_scale(self@, *other) {
                Ok(g) => r matches Ok(m) && m@ == g && m.separator.is_none(),
                Err(e) => r == Err::<Self, Error>(e),
            },
            r matches Ok(m) ==> m.valid(),
    {
        let operation = |a: &T| -> (out: Option<T>)
            ensures
                out == a.mul_spec(*other),
            { a.checked_mul(other) };
        let r = self.checked_operation(operation);
        proof {
            if r is Err {
                let (i, j) = choose|i: int, j: int|
                    0 <= i < height(self@) && 0 <= j < width(self@) && #[trigger] call_ensures(
                        operation,
                        (&self@[i][j],),
                        None,
                    );
                assert(multiple_of::<T>(*other)(self@[i][j], self@[i][j]).is_none());
            }
            Self::lemma_elementwise(r, self@, self@, multiple_of::<T>(*other));
        }
        r
    }

    /// The shape of the product with `other`. Fails when the width of this matrix
    /// is not the height of the other.
    pub fn result_shape_for_mul(&self, other: &Self) -> (r: Result<(usize, usize), Error>)
        ensures
            width(self@) == height(other@) ==> r.is_ok(),
            r matches Ok(shape) ==> width(self@) == height(other@) && shape.0 == height(self@)
                && shape.1 == width(other@),
            r matches Err(e) ==> e == Error::ShapeMismatch,
    {
        let (h, self_w) = self.get_shape();
        let (other_h, w) = other.get_shape();
        if self_w == other_h {
            Ok((h, w))
        } else {
            Err(Error::ShapeMismatch)
        }
    }

    /// One entry of the product: row `i` of this matrix times column `j` of `v`.
    fn product_entry(&self, v: &Self, i: usize, j: usize) -> (r: Option<T>)
        requires
            self.valid(),
            v.valid(),
            width(self@) == height(v@),
            i < height(self@),
            j < width(v@),
        ensures
            r == product_cell(self@, v@, i as int, j as int),
    {
        let n = self.data[i].len();
        assert(self@[i as int].len() == self@[0].len());
        let mut acc = T::zero();
        let mut k: usize = 0;
        while k < n
            invariant
                k <= n,
                n == width(self@),
                n == height(v@),
                self@[i as int].len() == n,
                v.valid(),
                i < height(self@),
                j < width(v@),
                dot(self@, v@, i as int, j as int, k as nat) == Some(acc),
            decreases n - k,
        {
            assert(v@[k as int].len() == v@[0].len());
            let p = match self.data[i][k].checked_mul(&v.data[k][j]) {
                Some(p) => p,
                None => {
                    proof {
                        Self::lemma_dot_stays_none(self@, v@, i as int, j as int, k as nat + 1, n as nat);
                    }
                    return None;
                },
            };
            acc = match p.checked_add(&acc) {
                Some(s) => s,
                None => {
                    proof {
                        Self::lemma_dot_stays_none(self@, v@, i as int, j as int, k as nat + 1, n as nat);
                    }
                    return None;
                },
            };
            k += 1;
        }
        Some(acc)
    }

    /// Once a partial sum has overflowed, every longer one has too.
    pub proof fn lemma_dot_stays_none(a: Seq<Seq<T>>, b: Seq<Seq<T>>, i: int, j: int, k: nat, n: nat)
        requires
            k <= n,
            dot(a, b, i, j, k).is_none(),
        ensures
            dot(a, b, i, j, n).is_none(),
        decreases n - k,
    {
        if k < n {
            Self::lemma_dot_stays_none(a, b, i, j, k, (n - 1) as nat);
        }
    }

    /// The matrix product. Fails when the width of this matrix is not the height
    /// of `v`, or when an entry overflows.
    pub fn checked_mul(&self, v: &Self) -> (r: Result<Self, Error>)
        requires
            self.valid(),
            v.valid(),
        ensures
            match grid_mul(self@, v@) {
                Ok(g) => r matches Ok(m) && m@ == g && m.separator.is_none(),
                Err(e) => r == Err::<Self, Error>(e),
            },
            r matches Ok(m) ==> m.valid(),
            width(self@) != height(v@) ==> r == Err::<Self, Error>(Error::ShapeMismatch),
    {
        let (h, w) = match self.result_shape_for_mul(v) {
            Ok(shape) => shape,
            Err(e) => { return Err(e); },
        };
        if h == 0 || w == 0 {
            return Ok(Self::empty());
        }
        let mut data: Vec<Vec<T>> = Vec::new();
        let mut i: usize = 0;
        while i < h
            invariant
                i <= h,
                w > 0,
                self.valid(),
                v.valid(),
                width(self@) == height(v@),
                h == height(self@),
                w == width(v@),
                data@.len() == i,
                forall|a: int| 0 <= a < i ==> (#[trigger] data@[a])@.len() == w,
                forall|a: int, b: int|
                    0 <= a < i && 0 <= b < w ==> product_cell(self@, v@, a, b) == Some(
                        #[trigger] data@[a]@[b],
                    ),
            decreases h - i,
        {
            let mut row: Vec<T> = Vec::new();
            let mut j: usize = 0;
            while j < w
                invariant
                    i < h,
                    j <= w,
                    self.valid(),
                    v.valid(),
                    width(self@) == height(v@),
                    h == height(self@),
                    w == width(v@),
                    row@.len() == j,
                    forall|b: int|
                        0 <= b < j ==> product_cell(self@, v@, i as int, b) == Some(
                            #[trigger] row@[b],
                        ),
                decreases w - j,
            {
                match self.product_entry(v, i, j) {
                    Some(value) => {
                        row.push(value);
                    },
                    None => {
                        assert(product_cell(self@, v@, i as int, j as int).is_none());
                        return Err(Error::ArithmeticFailure);
                    },
                }
                j += 1;
            }
            data.push(row);
            i += 1;
        }
        let m = Self { data, separator: None };
        proof {
            assert forall|a: int, b: int| 0 <= a < h && 0 <= b < w implies #[trigger] m@[a][b]
                == product_cell(self@, v@, a, b).unwrap() by {
                assert(m@[a] == m.data@[a]@);
                assert(product_cell(self@, v@, a, b) == Some(m.data@[a]@[b]));
            }
            Self::lemma_filled_is_grid(
                m@,
                h as nat,
                w as nat,
                |a: int, b: int| product_cell(self@, v@, a, b).unwrap(),
            );
            if product_fails(self@, v@) {
                let (a, b) = choose|a: int, b: int|
                    0 <= a < height(self@) && 0 <= b < width(v@) && (#[trigger] product_cell(
                        self@,
                        v@,
                        a,
                        b,
                    )).is_none();
                assert(product_cell(self@, v@, a, b) == Some(m.data@[a]@[b]));
            }
        }
        Ok(m)
    }

    /// A copy with the same rows and the same separator.
    pub fn duplicate(&self) -> (m: Self)
        ensures
            m@ == self@,
            m.separator == self.separator,
    {
        let mut data: Vec<Vec<T>> = Vec::new();
        let mut i: usize = 0;
        while i < self.data.len()
            invariant
                i <= self.data.len(),
                data@.len() == i,
                forall|a: int| 0 <= a < i ==> (#[trigger] data@[a])@ == self@[a],
            decreases self.data.len() - i,
        {
            let mut row: Vec<T> = Vec::new();
            let mut j: usize = 0;
            while j < self.data[i].len()
                invariant
                    i < self.data.len(),
                    j <= self.data[i as int].len(),
                    row@.len() == j,
                    forall|b: int| 0 <= b < j ==> #[trigger] row@[b] == self@[i as int][b],
                decreases self.data[i as int].len() - j,
            {
                row.push(self.data[i][j]);
                j += 1;
            }
            assert(row@ =~= self@[i as int]);
            data.push(row);
            i += 1;
        }
        let m = Self { data, separator: self.separator };
        assert(m@ =~= self@);
        m
    }

    /// The matrix raised to `exponent` by repeated squaring; the identity for
    /// exponent zero. Fails when the matrix is not square or a product overflows.
    pub fn checked_pow(&self, exponent: usize) -> (r: Result<Self, Error>)
        requires
            self.valid(),
        ensures
            match grid_pow(self@, exponent as nat) {
                Ok(g) => r matches Ok(m) && m@ == g && m.separator.is_none(),
                Err(e) => r == Err::<Self, Error>(e),
            },
            r matches Ok(m) ==> m.valid(),
            height(self@) != width(self@) ==> r == Err::<Self, Error>(Error::NonSquare),
            exponent == 0 && height(self@) == width(self@) ==> (r matches Ok(m) && m@
                == identity_grid::<T>(height(self@))),
    {
        let (h, w) = self.get_shape();
        if h != w {
            return Err(Error::NonSquare);
        }
        let mut e = exponent;
        let mut pow2 = self.duplicate();
        let mut result = Self::identity(h);
        proof {
            lemma_grid_from(
                h as nat,
                h as nat,
                |i: int, j: int|
                    if i == j {
                        T::one_spec()
                    } else {
                        T::zero_spec()
                    },
            );
        }
        while e > 0
            invariant
                pow2.valid(),
                result.valid(),
                result.separator.is_none(),
                pow_by_squaring(result@, pow2@, e as nat) == grid_pow(self@, exponent as nat),
            decreases e,
        {
            proof {
                lemma_product_shape(result@, pow2@);
                lemma_product_shape(pow2@, pow2@);
            }
            if e % 2 == 1 {
                result = match result.checked_mul(&pow2) {
                    Ok(m) => m,
                    Err(err) => { return Err(err); },
                };
            }
            pow2 = match pow2.checked_mul(&pow2) {
                Ok(m) => m,
                Err(err) => { return Err(err); },
            };
            e = e / 2;
        }
        Ok(result)
    }

    /// Whether the matrix has no rows or no columns.
    pub fn is_empty(&self) -> (b: bool)
        ensures
            b == is_empty_grid(self@),
    {
        self.data.len() == 0 || self.data[0].len() == 0
    }

    /// Whether all rows have the same length.
    pub fn is_valid(&self) -> (b: bool)
        ensures
            b == self.valid(),
    {
        if self.data.len() == 0 {
            return true;
        }
        let first = self.data[0].len();
        let mut i: usize = 1;
        while i < self.data.len()
            invariant
                1 <= i <= self.data.len(),
                first == self@[0].len(),
                forall|k: int| 0 <= k < i ==> (#[trigger] self@[k]).len() == first,
            decreases self.data.len() - i,
        {
            if self.data[i].len() != first {
                assert(self@[i as int].len() != self@[0].len());
                return false;
            }
            i += 1;
        }
        true
    }

    /// Height and width; `(0, 0)` for every empty matrix.
    pub fn get_shape(&self) -> (shape: (usize, usize))
        ensures
            shape.0 == height(self@),
            shape.1 == width(self@),
    {
        if self.is_empty() {
            (0, 0)
        } else {
            (self.data.len(), self.data[0].len())
        }
    }

    /// The column before which the separator is drawn.
    pub fn get_separator(&self) -> (s: Option<usize>)
        ensures
            s == self.separator,
    {
        self.separator
    }

    /// Moves or removes the separator.
    pub fn set_separator(&mut self, separator: Option<usize>)
        ensures
            final(self).data == old(self).data,
            final(self).separator == separator,
    {
        self.separator = separator;
    }

    /// The same matrix with another separator.
    pub fn with_separator(self, separator: Option<usize>) -> (m: Self)
        ensures
            m.data == self.data,
            m.separator == separator,
    {
        let mut m = self;
        m.set_separator(separator);
        m
    }

    /// The rows.
    pub fn get_data(&self) -> (d: &Vec<Vec<T>>)
        ensures
            *d == self.data,
    {
        &self.data
    }

    /// Gives up the matrix for its rows.
    pub fn consume(self) -> (d: Vec<Vec<T>>)
        ensures
            d == self.data,
    {
        self.data
    }

    /// Whether both matrices have the same height and width.
    pub fn same_shapes(&self, other: &Self) -> (b: bool)
        ensures
            b == (height(self@) == height(other@) && width(self@) == width(other@)),
    {
        let self_shape = self.get_shape();
        let other_shape = other.get_shape();
        self_shape.0 == other_shape.0 && self_shape.1 == other_shape.1
    }
    /// Puts the rows of `other` to the right of the rows of this matrix and sets
    /// the separator between the two. Fails when the heights differ.
    pub fn concat(self, other: Self) -> (r: Result<Self, Error>)
        ensures
            height(self@) != height(other@) ==> r == Err::<Self, Error>(Error::ShapeMismatch),
            height(self@) == height(other@) ==> (r matches Ok(m) && m@ == joined(self@, other@)
                && m.separator == Some(width(self@) as usize)),
    {
        let (rows, columns) = self.get_shape();
        if rows != other.get_shape().0 {
            return Err(Error::ShapeMismatch);
        }
        let mut data: Vec<Vec<T>> = Vec::new();
        let mut i: usize = 0;
        while i < self.data.len()
            invariant
                i <= self.data.len(),
                data@.len() == i,
                forall|a: int| 0 <= a < i ==> (#[trigger] data@[a])@ == joined(self@, other@)[a],
            decreases self.data.len() - i,
        {
            let mut row: Vec<T> = Vec::new();
            let mut j: usize = 0;
            while j < self.data[i].len()
                invariant
                    i < self.data.len(),
                    j <= self.data[i as int].len(),
                    row@ == self@[i as int].take(j as int),
                decreases self.data[i as int].len() - j,
            {
                row.push(self.data[i][j]);
                j += 1;
                assert(row@ =~= self@[i as int].take(j as int));
            }
            assert(self@[i as int].take(j as int) =~= self@[i as int]);
            if i < other.data.len() {
                let mut k: usize = 0;
                while k < other.data[i].len()
                    invariant
                        i < other.data.len(),
                        k <= other.data[i as int].len(),
                        row@ == self@[i as int] + other@[i as int].take(k as int),
                    decreases other.data[i as int].len() - k,
                {
                    row.push(other.data[i][k]);
                    k += 1;
                    assert(row@ =~= self@[i as int] + other@[i as int].take(k as int));
                }
                assert(other@[i as int].take(k as int) =~= other@[i as int]);
            }
            data.push(row);
            i += 1;
        }
        let m = Self { data, separator: Some(columns) };
        assert(m@ =~= joined(self@, other@));
        Ok(m)
    }

    /// Cuts every row before `column`: the left parts and the right parts, both
    /// without a separator. Fails when `column` lies beyond the width.
    pub fn split(self, column: usize) -> (r: Result<(Self, Self), Error>)
        requires
            self.valid(),
        ensures
            column > width(self@) ==> r == Err::<(Self, Self), Error>(Error::ShapeMismatch),
            column <= width(self@) ==> (r matches Ok(pair) && pair.0@ == left_part(
                self@,
                column as int,
            ) && pair.1@ == right_part(self@, column as int) && pair.0.separator.is_none()
                && pair.1.separator.is_none()),
    {
        let (_, columns) = self.get_shape();
        if column > columns {
            return Err(Error::ShapeMismatch);
        }
        let mut left: Vec<Vec<T>> = Vec::new();
        let mut right: Vec<Vec<T>> = Vec::new();
        let mut i: usize = 0;
        while i < self.data.len()
            invariant
                i <= self.data.len(),
                self.valid(),
                column <= width(self@),
                left@.len() == i,
                right@.len() == i,
                forall|a: int|
                    0 <= a < i ==> (#[trigger] left@[a])@ == left_part(self@, column as int)[a],
                forall|a: int|
                    0 <= a < i ==> (#[trigger] right@[a])@ == right_part(self@, column as int)[a],
            decreases self.data.len() - i,
        {
            assert(self@[i as int].len() == self@[0].len());
            let n = self.data[i].len();
            let mut head: Vec<T> = Vec::new();
            let mut tail: Vec<T> = Vec::new();
            let mut j: usize = 0;
            while j < n
                invariant
                    i < self.data.len(),
                    n == self@[i as int].len(),
                    column <= n,
                    j <= n,
                    j <= column ==> head@ == self@[i as int].subrange(0, j as int) && tail@.len()
                        == 0,
                    j > column ==> head@ == self@[i as int].subrange(0, column as int) && tail@
                        == self@[i as int].subrange(column as int, j as int),
                decreases n - j,
            {
                if j < column {
                    head.push(self.data[i][j]);
                    assert(head@ =~= self@[i as int].subrange(0, j + 1));
                } else {
                    if j == column {
                        assert(head@ =~= self@[i as int].subrange(0, column as int));
                    }
                    tail.push(self.data[i][j]);
                    assert(tail@ =~= self@[i as int].subrange(column as int, j + 1));
                }
                j += 1;
            }
            assert(tail@ =~= self@[i as int].subrange(column as int, n as int));
            left.push(head);
            right.push(tail);
            i += 1;
        }
        let l = Self { data: left, separator: None };
        let r = Self::new_unsafe(right);
        assert(l@ =~= left_part(self@, column as int));
        assert(r@ =~= right_part(self@, column as int));
        Ok((l, r))
    }

    /// Whether both matrices are empty or have the same rows.
    pub fn equals(&self, other: &Self) -> (b: bool)
        ensures
            b == matrix_eq(self@, other@),
    {
        if self.is_empty() && other.is_empty() {
            return true;
        }
        if !self.same_shapes(other) {
            return false;
        }
        if self.data.len() != other.data.len() {
            return false;
        }
        let mut i: usize = 0;
        while i < self.data.len()
            invariant
                i <= self.data.len(),
                self.data.len() == other.data.len(),
                !(is_empty_grid(self@) && is_empty_grid(other@)),
                forall|a: int| 0 <= a < i ==> #[trigger] self@[a] == other@[a],
            decreases self.data.len() - i,
        {
            if self.data[i].len() != other.data[i].len() {
                assert(self@[i as int] != other@[i as int]);
                return false;
            }
            let mut j: usize = 0;
            while j < self.data[i].len()
                invariant
                    i < self.data.len(),
                    self.data.len() == other.data.len(),
                    !(is_empty_grid(self@) && is_empty_grid(other@)),
                    self.data[i as int].len() == other.data[i as int].len(),
                    j <= self.data[i as int].len(),
                    forall|b: int| 0 <= b < j ==> self@[i as int][b] == other@[i as int][b],
                decreases self.data[i as int].len() - j,
            {
                if !self.data[i][j].same(&other.data[i][j]) {
                    assert(self@[i as int][j as int] != other@[i as int][j as int]);
                    assert(self@[i as int] != other@[i as int]);
                    return false;
                }
                j += 1;
            }
            assert(self@[i as int] =~= other@[i as int]);
            i += 1;
        }
        assert(self@ =~= other@);
        true
    }

    /// The plain text of the matrix: entries separated by spaces, one row per line.
    pub fn to_string(&self) -> (s: String)
        ensures
            s@ == matrix_text(self@),
    {
        let mut lines: Vec<String> = Vec::new();
        let mut i: usize = 0;
        while i < self.data.len()
            invariant
                i <= self.data.len(),
                lines@.len() == i,
                forall|a: int| 0 <= a < i ==> (#[trigger] lines@[a])@ == row_text(self@[a]),
            decreases self.data.len() - i,
        {
            let mut cells: Vec<String> = Vec::new();
            let mut j: usize = 0;
            while j < self.data[i].len()
                invariant
                    i < self.data.len(),
                    j <= self.data[i as int].len(),
                    cells@.len() == j,
                    forall|b: int|
                        0 <= b < j ==> (#[trigger] cells@[b])@ == self@[i as int][b].text_spec(),
                decreases self.data[i as int].len() - j,
            {
                cells.push(self.data[i][j].to_text());
                j += 1;
            }
            let line = join(&cells, " ");
            assert(texts_of(cells@) =~= Seq::new(
                self@[i as int].len(),
                |b: int| self@[i as int][b].text_spec(),
            ));
            lines.push(line);
            i += 1;
        }
        let s = join(&lines, "\n");
        assert(texts_of(lines@) =~= Seq::new(self@.len(), |a: int| row_text(self@[a])));
        s
    }
}

impl<T: MatrixNumber> LaTeXable for Matrix<T> {
    open spec fn renderable(&self) -> bool {
        &&& self@.len() > 0
        &&& self.separator matches Some(s) ==> s <= self@[0].len()
    }

    open spec fn latex_spec(&self) -> Seq<char> {
        matrix_latex(self@, self.separator)
    }

    open spec fn latex_single_spec(&self) -> Seq<char> {
        matrix_latex(self@, self.separator)
    }

    fn to_latex(&self) -> (s: String) {
        let mut lines: Vec<String> = Vec::new();
        let mut i: usize = 0;
        while i < self.data.len()
            invariant
                i <= self.data.len(),
                lines@.len() == i,
                forall|a: int| 0 <= a < i ==> (#[trigger] lines@[a])@ == row_latex(self@[a]),
            decreases self.data.len() - i,
        {
            let mut cells: Vec<String> = Vec::new();
            let mut j: usize = 0;
            while j < self.data[i].len()
                invariant
                    i < self.data.len(),
                    j <= self.data[i as int].len(),
                    cells@.len() == j,
                    forall|b: int|
                        0 <= b < j ==> (#[trigger] cells@[b])@ == self@[i as int][b].latex_spec(),
                decreases self.data[i as int].len() - j,
            {
                proof {
                    T::lemma_numbers_render(self@[i as int][j as int]);
                }
                cells.push(self.data[i][j].to_latex());
                j += 1;
            }
            let line = join(&cells, " & ");
            assert(texts_of(cells@) =~= Seq::new(
                self@[i as int].len(),
                |b: int| self@[i as int][b].latex_spec(),
            ));
            lines.push(line);
            i += 1;
        }
        let body = join(&lines, "\\\\");
        assert(texts_of(lines@) =~= Seq::new(self@.len(), |a: int| row_latex(self@[a])));
        let n = self.data[0].len();
        let mut s = String::from_str("\\left[\\begin{array}{");
        match self.separator {
            None => {
                append_repeated(&mut s, "c", n);
            },
            Some(at) => {
                append_repeated(&mut s, "c", at);
                s.append("|");
                append_repeated(&mut s, "c", n - at);
            },
        }
        s.append("}");
        s.append(body.as_str());
        s.append("\\end{array}\\right]");
        assert(s@ =~= matrix_latex(self@, self.separator));
        s
    }

    fn to_latex_single(&self) -> (s: String) {
        self.to_latex()
    }
}

} // verus!
