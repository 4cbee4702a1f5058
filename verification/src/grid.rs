//! Matrices as grids of entries, and what the operations on them give.

use crate::error::Error;
use crate::text::{join_with, repeated};
use crate::traits::MatrixNumber;
use vstd::prelude::*;

verus! {

/// The rows held by a vector of vectors.
pub open spec fn rows_of<T>(data: Vec<Vec<T>>) -> Seq<Seq<T>> {
    Seq::new(data@.len(), |i: int| data@[i]@)
}

/// All rows have the same length.
pub open spec fn rectangular<T>(g: Seq<Seq<T>>) -> bool {
    forall|i: int| 0 <= i < g.len() ==> (#[trigger] g[i]).len() == g[0].len()
}

/// No rows, or rows without columns.
pub open spec fn is_empty_grid<T>(g: Seq<Seq<T>>) -> bool {
    g.len() == 0 || g[0].len() == 0
}

/// Number of rows that count: zero for an empty grid.
pub open spec fn height<T>(g: Seq<Seq<T>>) -> nat {
    if is_empty_grid(g) {
        0
    } else {
        g.len()
    }
}

/// Number of columns that count: zero for an empty grid.
pub open spec fn width<T>(g: Seq<Seq<T>>) -> nat {
    if is_empty_grid(g) {
        0
    } else {
        g[0].len()
    }
}

/// The grid with every empty shape replaced by the one without rows.
pub open spec fn canonical<T>(g: Seq<Seq<T>>) -> Seq<Seq<T>> {
    if is_empty_grid(g) {
        Seq::empty()
    } else {
        g
    }
}

/// A grid of `h` rows and `w` columns whose entry at `(i, j)` is `f(i, j)`; the
/// grid without rows when `h` or `w` is zero.
pub open spec fn grid_from<T>(h: nat, w: nat, f: spec_fn(int, int) -> T) -> Seq<Seq<T>> {
    if h == 0 || w == 0 {
        Seq::empty()
    } else {
        Seq::new(h, |i: int| Seq::new(w, |j: int| f(i, j)))
    }
}

/// The grid of `h` rows and `w` columns filled with `value`.
pub open spec fn constant_grid<T>(h: nat, w: nat, value: T) -> Seq<Seq<T>> {
    grid_from(h, w, |i: int, j: int| value)
}

/// The identity matrix of side `n`.
pub open spec fn identity_grid<T: MatrixNumber>(n: nat) -> Seq<Seq<T>> {
    grid_from(
        n,
        n,
        |i: int, j: int|
            if i == j {
                T::one_spec()
            } else {
                T::zero_spec()
            },
    )
}

/// The rows of `flat` cut into `h` rows of `w` entries.
pub open spec fn chunked<T>(flat: Seq<T>, h: nat, w: nat) -> Seq<Seq<T>> {
    grid_from(h, w, |i: int, j: int| flat[i * w + j])
}

/// The entries of a rectangular grid in reading order.
pub open spec fn flattened<T>(g: Seq<Seq<T>>) -> Seq<T> {
    Seq::new(height(g) * width(g), |k: int| g[k / (width(g) as int)][k % (width(g) as int)])
}

/// The transposed grid.
pub open spec fn transposed<T>(g: Seq<Seq<T>>) -> Seq<Seq<T>> {
    grid_from(width(g), height(g), |i: int, j: int| g[j][i])
}

/// Two grids have the same height and width.
pub open spec fn same_shape<T>(a: Seq<Seq<T>>, b: Seq<Seq<T>>) -> bool {
    height(a) == height(b) && width(a) == width(b)
}

/// Some entry of `a`, combined by `f` with the entry of `b` at the same place, gives
/// no value.
pub open spec fn zip_fails<T>(a: Seq<Seq<T>>, b: Seq<Seq<T>>, f: spec_fn(T, T) -> Option<T>) -> bool {
    exists|i: int, j: int|
        0 <= i < height(a) && 0 <= j < width(a) && (#[trigger] f(a[i][j], b[i][j])).is_none()
}

/// The grid of the values that `f` gives for the entries of `a` and `b` place by place.
pub open spec fn zipped<T>(a: Seq<Seq<T>>, b: Seq<Seq<T>>, f: spec_fn(T, T) -> Option<T>) -> Seq<
    Seq<T>,
> {
    grid_from(height(a), width(a), |i: int, j: int| f(a[i][j], b[i][j]).unwrap())
}

/// Combines two grids of the same shape entry by entry; nothing is returned unless
/// every entry could be computed.
pub open spec fn elementwise<T>(
    a: Seq<Seq<T>>,
    b: Seq<Seq<T>>,
    f: spec_fn(T, T) -> Option<T>,
) -> Result<Seq<Seq<T>>, Error> {
    if !same_shape(a, b) {
        Err(Error::ShapeMismatch)
    } else if zip_fails(a, b, f) {
        Err(Error::ArithmeticFailure)
    } else {
        Ok(zipped(a, b, f))
    }
}

/// Checked addition as a function of two numbers.
pub open spec fn sum_of<T: MatrixNumber>() -> spec_fn(T, T) -> Option<T> {
    |x: T, y: T| x.add_spec(y)
}

/// Checked subtraction as a function of two numbers.
pub open spec fn difference_of<T: MatrixNumber>() -> spec_fn(T, T) -> Option<T> {
    |x: T, y: T| x.sub_spec(y)
}

/// Checked multiplication of the first number by `k`; the second number is ignored.
pub open spec fn multiple_of<T: MatrixNumber>(k: T) -> spec_fn(T, T) -> Option<T> {
    |x: T, y: T| x.mul_spec(k)
}

/// Entry-wise sum.
pub open spec fn grid_add<T: MatrixNumber>(a: Seq<Seq<T>>, b: Seq<Seq<T>>) -> Result<
    Seq<Seq<T>>,
    Error,
> {
    elementwise(a, b, sum_of::<T>())
}

/// Entry-wise difference.
pub open spec fn grid_sub<T: MatrixNumber>(a: Seq<Seq<T>>, b: Seq<Seq<T>>) -> Result<
    Seq<Seq<T>>,
    Error,
> {
    elementwise(a, b, difference_of::<T>())
}

/// Every entry negated: zero minus the entry.
pub open spec fn grid_neg<T: MatrixNumber>(a: Seq<Seq<T>>) -> Result<Seq<Seq<T>>, Error> {
    grid_sub(constant_grid(height(a), width(a), T::zero_spec()), a)
}

/// Every entry multiplied by `k`, the entry on the left.
pub open spec fn grid_scale<T: MatrixNumber>(a: Seq<Seq<T>>, k: T) -> Result<Seq<Seq<T>>, Error> {
    elementwise(a, a, multiple_of::<T>(k))
}

/// The sum of the first `k` products of row `i` of `a` with column `j` of `b`, each
/// product added to what was summed before; `None` as soon as a product or a sum
/// overflows.
pub open spec fn dot<T: MatrixNumber>(a: Seq<Seq<T>>, b: Seq<Seq<T>>, i: int, j: int, k: nat) -> Option<
    T,
>
    decreases k,
{
    if k == 0 {
        Some(T::zero_spec())
    } else {
        match dot(a, b, i, j, (k - 1) as nat) {
            None => None,
            Some(acc) => match a[i][k - 1].mul_spec(b[k - 1][j]) {
                None => None,
                Some(p) => p.add_spec(acc),
            },
        }
    }
}

/// The entry at `(i, j)` of the product of `a` and `b`.
pub open spec fn product_cell<T: MatrixNumber>(a: Seq<Seq<T>>, b: Seq<Seq<T>>, i: int, j: int) -> Option<
    T,
> {
    dot(a, b, i, j, width(a))
}

/// Some entry of the product overflows.
pub open spec fn product_fails<T: MatrixNumber>(a: Seq<Seq<T>>, b: Seq<Seq<T>>) -> bool {
    exists|i: int, j: int|
        0 <= i < height(a) && 0 <= j < width(b) && (#[trigger] product_cell(a, b, i, j)).is_none()
}

/// The matrix product. Fails when the width of `a` is not the height of `b`, or
/// when an entry overflows.
pub open spec fn grid_mul<T: MatrixNumber>(a: Seq<Seq<T>>, b: Seq<Seq<T>>) -> Result<
    Seq<Seq<T>>,
    Error,
> {
    if width(a) != height(b) {
        Err(Error::ShapeMismatch)
    } else if product_fails(a, b) {
        Err(Error::ArithmeticFailure)
    } else {
        Ok(grid_from(height(a), width(b), |i: int, j: int| product_cell(a, b, i, j).unwrap()))
    }
}

/// Exponentiation by squaring: `result` times `square` raised to `e`, where each
/// round multiplies `result` by `square` if `e` is odd and then squares `square`.
pub open spec fn pow_by_squaring<T: MatrixNumber>(
    result: Seq<Seq<T>>,
    square: Seq<Seq<T>>,
    e: nat,
) -> Result<Seq<Seq<T>>, Error>
    decreases e,
{
    if e == 0 {
        Ok(result)
    } else {
        let next = if e % 2 == 1 {
            grid_mul(result, square)
        } else {
            Ok(result)
        };
        match next {
            Err(err) => Err(err),
            Ok(r) => match grid_mul(square, square) {
                Err(err) => Err(err),
                Ok(s) => pow_by_squaring(r, s, e / 2),
            },
        }
    }
}

/// A square matrix raised to a power; the identity for the power zero.
pub open spec fn grid_pow<T: MatrixNumber>(a: Seq<Seq<T>>, e: nat) -> Result<Seq<Seq<T>>, Error> {
    if height(a) != width(a) {
        Err(Error::NonSquare)
    } else {
        pow_by_squaring(identity_grid::<T>(height(a)), a, e)
    }
}

/// The rows of `a`, each followed by the row of `b` at the same place.
pub open spec fn joined<T>(a: Seq<Seq<T>>, b: Seq<Seq<T>>) -> Seq<Seq<T>> {
    Seq::new(
        a.len(),
        |i: int|
            if i < b.len() {
                a[i] + b[i]
            } else {
                a[i]
            },
    )
}

/// The first `column` entries of every row.
pub open spec fn left_part<T>(a: Seq<Seq<T>>, column: int) -> Seq<Seq<T>> {
    Seq::new(a.len(), |i: int| a[i].subrange(0, column))
}

/// Every row without its first `column` entries.
pub open spec fn right_part<T>(a: Seq<Seq<T>>, column: int) -> Seq<Seq<T>> {
    Seq::new(a.len(), |i: int| a[i].subrange(column, a[i].len() as int))
}

/// What `==` means for matrices: both are empty, or they have the same rows.
pub open spec fn matrix_eq<T>(a: Seq<Seq<T>>, b: Seq<Seq<T>>) -> bool {
    (is_empty_grid(a) && is_empty_grid(b)) || (same_shape(a, b) && a == b)
}

/// The LaTeX text of one row: its entries joined by ` & `.
pub open spec fn row_latex<T: MatrixNumber>(row: Seq<T>) -> Seq<char> {
    join_with(Seq::new(row.len(), |j: int| row[j].latex_spec()), " & "@)
}

/// The LaTeX text of all rows: the rows joined by a double backslash.
pub open spec fn rows_latex<T: MatrixNumber>(g: Seq<Seq<T>>) -> Seq<char> {
    join_with(Seq::new(g.len(), |i: int| row_latex(g[i])), "\\\\"@)
}

/// One `c` for each of `n` columns, with a bar before column `s` where there is a
/// separator.
pub open spec fn column_format(n: nat, separator: Option<usize>) -> Seq<char> {
    match separator {
        None => repeated("c"@, n),
        Some(s) => repeated("c"@, s as nat) + "|"@ + repeated("c"@, (n - s) as nat),
    }
}

/// The LaTeX text of a matrix: an `array` environment in square brackets.
pub open spec fn matrix_latex<T: MatrixNumber>(g: Seq<Seq<T>>, separator: Option<usize>) -> Seq<
    char,
> {
    "\\left[\\begin{array}{"@ + column_format(g[0].len(), separator) + "}"@ + rows_latex(g)
        + "\\end{array}\\right]"@
}

/// The plain text of one row: its entries joined by a space.
pub open spec fn row_text<T: MatrixNumber>(row: Seq<T>) -> Seq<char> {
    join_with(Seq::new(row.len(), |j: int| row[j].text_spec()), " "@)
}

/// The plain text of a matrix: its rows, one per line.
pub open spec fn matrix_text<T: MatrixNumber>(g: Seq<Seq<T>>) -> Seq<char> {
    join_with(Seq::new(g.len(), |i: int| row_text(g[i])), "\n"@)
}

/// What `grid_from` holds at each position.
pub proof fn lemma_grid_from<T>(h: nat, w: nat, f: spec_fn(int, int) -> T)
    ensures
        rectangular(grid_from(h, w, f)),
        h > 0 && w > 0 ==> grid_from(h, w, f).len() == h && height(grid_from(h, w, f)) == h
            && width(grid_from(h, w, f)) == w,
        h == 0 || w == 0 ==> grid_from(h, w, f).len() == 0,
        forall|i: int, j: int|
            0 <= i < h && 0 <= j < w ==> (#[trigger] grid_from(h, w, f)[i]).len() == w
                && #[trigger] grid_from(h, w, f)[i][j] == f(i, j),
{
}

/// A product that exists is rectangular, as high as its left factor and as wide as
/// its right factor, unless that leaves it empty.
pub proof fn lemma_product_shape<T: MatrixNumber>(a: Seq<Seq<T>>, b: Seq<Seq<T>>)
    ensures
        grid_mul(a, b) matches Ok(g) ==> rectangular(g) && (height(a) > 0 && width(b) > 0
            ==> height(g) == height(a) && width(g) == width(b)) && (height(a) == 0 || width(b) == 0
            ==> g.len() == 0),
{
    lemma_grid_from(height(a), width(b), |i: int, j: int| product_cell(a, b, i, j).unwrap());
}

/// Matrices of different shapes can neither be added nor subtracted.
pub proof fn lemma_different_shapes_fail<T: MatrixNumber>(a: Seq<Seq<T>>, b: Seq<Seq<T>>)
    requires
        !same_shape(a, b),
    ensures
        grid_add(a, b) == Err::<Seq<Seq<T>>, Error>(Error::ShapeMismatch),
        grid_sub(a, b) == Err::<Seq<Seq<T>>, Error>(Error::ShapeMismatch),
{
}

/// Matrices cannot be multiplied unless the left one is as wide as the right one
/// is high.
pub proof fn lemma_inner_dimensions_must_agree<T: MatrixNumber>(a: Seq<Seq<T>>, b: Seq<Seq<T>>)
    requires
        width(a) != height(b),
    ensures
        grid_mul(a, b) == Err::<Seq<Seq<T>>, Error>(Error::ShapeMismatch),
{
}

/// A square matrix raised to the power zero is the identity of its size.
pub proof fn lemma_power_zero<T: MatrixNumber>(a: Seq<Seq<T>>)
    requires
        height(a) == width(a),
    ensures
        grid_pow(a, 0) == Ok::<Seq<Seq<T>>, Error>(identity_grid::<T>(height(a))),
{
}

} // verus!
