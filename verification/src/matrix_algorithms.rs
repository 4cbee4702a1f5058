//! Reduction to echelon form and inversion, with every step recorded.

use crate::error::Error;
use crate::grid::{is_empty_grid, lemma_grid_from, rows_of};
use crate::matrices::Matrix;
use crate::reduction::{
    after_scale, after_swap, coefficient_text, combination_label, echelon_of, eliminate_from,
    has_shape, inverse_of, pivot_row, pivot_step, rank, reduce, reduce_from, reduced_entry,
    row_name, scale_from, select_from, step_text, swapped, Progress,
};
use crate::theory::reduced::{is_reduced, lemma_echelon_of_reduced};
use crate::theory::singular::{has_zero_row, left_zero, lemma_zero_row_has_no_inverse};
use crate::text::{join, nat_to_string, texts_of};
use crate::traits::{LaTeXable, MatrixNumber};
use vstd::prelude::*;
use vstd::string::*;

verus! {

/// What a transformation of a matrix leaves behind: the matrix it ends with, and
/// the rendered steps that led there, the first of which shows the matrix it
/// began with.
#[derive(Debug, Clone)]
pub struct Aftermath<T: MatrixNumber> {
    pub result: Matrix<T>,
    pub steps: Vec<String>,
}

/// A copy of a row.
fn copy_row<T: MatrixNumber>(row: &Vec<T>) -> (out: Vec<T>)
    ensures
        out@ == row@,
{
    let mut out: Vec<T> = Vec::new();
    let mut k: usize = 0;
    while k < row.len()
        invariant
            k <= row.len(),
            out@ == row@.take(k as int),
        decreases row.len() - k,
    {
        out.push(row[k]);
        k += 1;
        assert(out@ =~= row@.take(k as int));
    }
    assert(row@.take(k as int) =~= row@);
    out
}

/// The name of a row in a step.
fn row_label(i: usize) -> (s: String)
    requires
        i < usize::MAX,
    ensures
        s@ == row_name(i as int),
{
    let mut s = String::from_str("w_{");
    let number = nat_to_string(i + 1);
    s.append(number.as_str());
    s.append("}");
    s
}

impl<T: MatrixNumber> Matrix<T> {
    /// A copy of the rows.
    fn deep_matrix_data_clone(&self) -> (data: Vec<Vec<T>>)
        ensures
            rows_of(data) == self@,
    {
        self.duplicate().consume()
    }

    /// Records one step: the label and the matrix that `data` holds now.
    fn push_step(
        steps: &mut Vec<String>,
        transitions: &str,
        data: Vec<Vec<T>>,
        separator: Option<usize>,
    ) -> (out: Vec<Vec<T>>)
        requires
            data@.len() > 0,
            separator matches Some(s) ==> s <= data@[0]@.len(),
        ensures
            out == data,
            texts_of(final(steps)@) == texts_of(old(steps)@).push(
                step_text(transitions@, rows_of(data), separator),
            ),
    {
        let temp_matrix = Self::new_unsafe(data).with_separator(separator);
        let mut step = String::from_str("\\xrightarrow{");
        step.append(transitions);
        step.append("} ");
        let rendered = temp_matrix.to_latex();
        step.append(rendered.as_str());
        let ghost before = steps@;
        steps.push(step);
        assert(texts_of(steps@) =~= texts_of(before).push(
            step_text(transitions@, rows_of(data), separator),
        ));
        temp_matrix.consume()
    }

    /// How well a row that starts with `coefficient` serves as a pivot row.
    fn nice(coefficient: &T) -> (r: Option<i64>)
        ensures
            r == rank(*coefficient),
    {
        if coefficient.is_zero() {
            Some(1000)
        } else if coefficient.is_one() {
            Some(0)
        } else {
            match T::zero().checked_sub(coefficient) {
                None => None,
                Some(n) => if n.is_one() {
                    Some(1)
                } else {
                    Some(2)
                },
            }
        }
    }

    /// How the subtraction of `coefficient` times a row is written.
    fn sub_coefficient_to_latex(coefficient: &T) -> (r: Option<String>)
        ensures
            match coefficient_text(*coefficient) {
                None => r.is_none(),
                Some(t) => r matches Some(s) && s@ == t,
            },
    {
        if coefficient.is_one() {
            return Some(String::from_str("- "));
        }
        let negated = match T::zero().checked_sub(coefficient) {
            None => { return None; },
            Some(n) => n,
        };
        proof {
            T::lemma_numbers_render(*coefficient);
            T::lemma_numbers_render(negated);
        }
        if negated.is_one() {
            Some(String::from_str("+ "))
        } else if coefficient.is_positive() {
            let mut s = String::from_str("- ");
            s.append(coefficient.to_latex().as_str());
            Some(s)
        } else if coefficient.is_negative() {
            let mut s = String::from_str("+ ");
            s.append(negated.to_latex().as_str());
            Some(s)
        } else {
            None
        }
    }

    /// Chooses the pivot row for column `c` among the rows from `i` on.
    fn select_pivot(data: &Vec<Vec<T>>, c: usize, i: usize, cols: usize) -> (r: Option<usize>)
        requires
            has_shape(rows_of(*data), data@.len() as int, cols as int),
            i < data@.len(),
            c < cols,
        ensures
            match pivot_row(rows_of(*data), c as int, i as int) {
                None => r.is_none(),
                Some(j) => r == Some(j as usize) && i <= j < data@.len(),
            },
    {
        let rows = data.len();
        let mut j = i;
        let mut k = i + 1;
        while k < rows
            invariant
                rows == data@.len(),
                has_shape(rows_of(*data), rows as int, cols as int),
                c < cols,
                i <= j < k <= rows,
                select_from(rows_of(*data), c as int, k as int, j as int) == pivot_row(
                    rows_of(*data),
                    c as int,
                    i as int,
                ),
            decreases rows - k,
        {
            assert(rows_of(*data)[k as int].len() == cols);
            assert(rows_of(*data)[j as int].len() == cols);
            let candidate = match Self::nice(&data[k][c]) {
                None => { return None; },
                Some(a) => a,
            };
            let best = match Self::nice(&data[j][c]) {
                None => { return None; },
                Some(b) => b,
            };
            if candidate < best {
                j = k;
            }
            k += 1;
        }
        Some(j)
    }

    /// Exchanges two rows.
    fn swap_rows(data: &mut Vec<Vec<T>>, i: usize, j: usize)
        requires
            i < old(data)@.len(),
            j < old(data)@.len(),
        ensures
            rows_of(*final(data)) == swapped(rows_of(*old(data)), i as int, j as int),
    {
        let ghost before = rows_of(*data);
        let first = copy_row(&data[i]);
        let second = copy_row(&data[j]);
        data[i] = second;
        data[j] = first;
        assert(rows_of(*data) =~= swapped(before, i as int, j as int));
    }

    /// Divides the entries of row `i` from column `c` on by `d`. Returns whether
    /// every division gave a value.
    fn scale_row(data: &mut Vec<Vec<T>>, i: usize, c: usize, d: T, cols: usize) -> (ok: bool)
        requires
            has_shape(rows_of(*old(data)), old(data)@.len() as int, cols as int),
            i < old(data)@.len(),
            c <= cols,
        ensures
            match scale_from(rows_of(*old(data))[i as int], d, c as int) {
                None => !ok,
                Some(row) => ok && rows_of(*final(data)) == rows_of(*old(data)).update(
                    i as int,
                    row,
                ) && row.len() == cols,
            },
    {
        let ghost before = rows_of(*data);
        let mut k = c;
        while k < cols
            invariant
                c <= k <= cols,
                i < data@.len(),
                before == rows_of(*old(data)),
                data@.len() == before.len(),
                has_shape(rows_of(*data), data@.len() as int, cols as int),
                forall|r: int| 0 <= r < before.len() && r != i ==> rows_of(*data)[r] == before[r],
                scale_from(rows_of(*data)[i as int], d, k as int) == scale_from(
                    before[i as int],
                    d,
                    c as int,
                ),
            decreases cols - k,
        {
            let ghost row = rows_of(*data)[i as int];
            assert(row.len() == cols);
            let ghost grid = rows_of(*data);
            match data[i][k].checked_div(&d) {
                None => {
                    assert(row[k as int].div_spec(d).is_none());
                    assert(scale_from(row, d, k as int).is_none());
                    return false;
                },
                Some(v) => {
                    data[i][k] = v;
                    assert(rows_of(*data)[i as int] == row.update(k as int, v));
                    assert forall|a: int| 0 <= a < before.len() implies (#[trigger] rows_of(
                        *data,
                    )[a]).len() == cols && (a != i ==> rows_of(*data)[a] == before[a]) by {
                        if a != i {
                            assert(rows_of(*data)[a] == grid[a]);
                        }
                    }
                },
            }
            k += 1;
        }
        assert(rows_of(*data) =~= before.update(i as int, rows_of(*data)[i as int]));
        true
    }

    /// Subtracts `p` times row `i` from row `r`, from column `c` on. Returns
    /// whether every entry could be computed.
    fn reduce_row(data: &mut Vec<Vec<T>>, r: usize, i: usize, c: usize, p: T, cols: usize) -> (ok:
        bool)
        requires
            has_shape(rows_of(*old(data)), old(data)@.len() as int, cols as int),
            i < old(data)@.len(),
            r < old(data)@.len(),
            r != i,
            c <= cols,
        ensures
            match reduce_from(
                rows_of(*old(data))[r as int],
                rows_of(*old(data))[i as int],
                p,
                c as int,
            ) {
                None => !ok,
                Some(row) => ok && rows_of(*final(data)) == rows_of(*old(data)).update(
                    r as int,
                    row,
                ) && row.len() == cols,
            },
    {
        let ghost before = rows_of(*data);
        let mut k = c;
        while k < cols
            invariant
                c <= k <= cols,
                i < data@.len(),
                r < data@.len(),
                r != i,
                before == rows_of(*old(data)),
                data@.len() == before.len(),
                has_shape(rows_of(*data), data@.len() as int, cols as int),
                forall|a: int| 0 <= a < before.len() && a != r ==> rows_of(*data)[a] == before[a],
                reduce_from(rows_of(*data)[r as int], before[i as int], p, k as int)
                    == reduce_from(before[r as int], before[i as int], p, c as int),
            decreases cols - k,
        {
            let ghost row = rows_of(*data)[r as int];
            assert(row.len() == cols);
            assert(rows_of(*data)[i as int].len() == cols);
            assert(rows_of(*data)[i as int] == before[i as int]);
            let ghost grid = rows_of(*data);
            let m = match data[i][k].checked_mul(&p) {
                None => {
                    assert(reduced_entry(row[k as int], before[i as int][k as int], p).is_none());
                    assert(reduce_from(row, before[i as int], p, k as int).is_none());
                    return false;
                },
                Some(m) => m,
            };
            match data[r][k].checked_sub(&m) {
                None => {
                    assert(reduced_entry(row[k as int], before[i as int][k as int], p).is_none());
                    assert(reduce_from(row, before[i as int], p, k as int).is_none());
                    return false;
                },
                Some(v) => {
                    data[r][k] = v;
                    assert(rows_of(*data)[r as int] == row.update(k as int, v));
                    assert forall|a: int| 0 <= a < before.len() implies (#[trigger] rows_of(
                        *data,
                    )[a]).len() == cols && (a != r ==> rows_of(*data)[a] == before[a]) by {
                        if a != r {
                            assert(rows_of(*data)[a] == grid[a]);
                        }
                    }
                },
            }
            k += 1;
        }
        assert(rows_of(*data) =~= before.update(r as int, rows_of(*data)[r as int]));
        true
    }

    /// Clears column `c` in all rows but row `i`. Returns the labels of the
    /// subtractions made, or nothing when an operation on the numbers failed.
    fn eliminate(data: &mut Vec<Vec<T>>, i: usize, c: usize, cols: usize) -> (r: Option<
        Vec<String>,
    >)
        requires
            has_shape(rows_of(*old(data)), old(data)@.len() as int, cols as int),
            i < old(data)@.len(),
            c < cols,
        ensures
            match eliminate_from(rows_of(*old(data)), i as int, c as int, 0, Seq::empty()) {
                None => r.is_none(),
                Some((grid, ops)) => r matches Some(labels) && texts_of(labels@) == ops && rows_of(
                    *final(data),
                ) == grid && has_shape(grid, old(data)@.len() as int, cols as int),
            },
    {
        let ghost before = rows_of(*data);
        let rows = data.len();
        let mut step_ops: Vec<String> = Vec::new();
        let mut j: usize = 0;
        assert(texts_of(step_ops@) =~= Seq::<Seq<char>>::empty());
        while j < rows
            invariant
                j <= rows,
                rows == data@.len(),
                rows == before.len(),
                before == rows_of(*old(data)),
                i < rows,
                c < cols,
                has_shape(rows_of(*data), rows as int, cols as int),
                eliminate_from(rows_of(*data), i as int, c as int, j as int, texts_of(step_ops@))
                    == eliminate_from(before, i as int, c as int, 0, Seq::empty()),
            decreases rows - j,
        {
            let ghost grid = rows_of(*data);
            let ghost ops = texts_of(step_ops@);
            assert(grid[j as int].len() == cols);
            assert(grid[i as int].len() == cols);
            if j != i && !data[j][c].is_zero() {
                let p = match data[j][c].checked_div(&data[i][c]) {
                    None => { return None; },
                    Some(p) => p,
                };
                if !Self::reduce_row(data, j, i, c, p, cols) {
                    return None;
                }
                let coefficient = match Self::sub_coefficient_to_latex(&p) {
                    None => { return None; },
                    Some(t) => t,
                };
                let mut label = row_label(j);
                label.append(" ");
                label.append(coefficient.as_str());
                label.append(row_label(i).as_str());
                step_ops.push(label);
                assert(texts_of(step_ops@) =~= ops.push(
                    combination_label(j as int, coefficient@, i as int),
                ));
                assert(has_shape(rows_of(*data), rows as int, cols as int)) by {
                    assert forall|a: int| 0 <= a < rows implies (#[trigger] rows_of(
                        *data,
                    )[a]).len() == cols by {
                        if a != j {
                            assert(rows_of(*data)[a] == grid[a]);
                        }
                    }
                }
            }
            j += 1;
        }
        Some(step_ops)
    }

    /// One round with a usable pivot in row `j`: exchange, division, elimination,
    /// each recorded in `steps`. Returns the rows, or nothing when an operation on
    /// the numbers failed.
    fn use_pivot(
        steps: &mut Vec<String>,
        data: Vec<Vec<T>>,
        i: usize,
        j: usize,
        c: usize,
        cols: usize,
        separator: Option<usize>,
    ) -> (r: Option<Vec<Vec<T>>>)
        requires
            has_shape(rows_of(data), data@.len() as int, cols as int),
            i <= j < data@.len(),
            c < cols,
            separator matches Some(s) ==> s <= cols,
        ensures
            match pivot_step(
                Progress { grid: rows_of(data), steps: texts_of(old(steps)@) },
                i as int,
                j as int,
                c as int,
                separator,
            ) {
                None => r.is_none(),
                Some(next) => r matches Some(out) && rows_of(out) == next.grid && texts_of(
                    final(steps)@,
                ) == next.steps && has_shape(next.grid, data@.len() as int, cols as int),
            },
    {
        let ghost start = Progress { grid: rows_of(data), steps: texts_of(steps@) };
        let rows = data.len();
        let mut data = data;
        assert(rows_of(data)[0].len() == cols);
        if i != j {
            Self::swap_rows(&mut data, i, j);
            assert(has_shape(rows_of(data), rows as int, cols as int));
            let mut label = row_label(i);
            label.append(" \\leftrightarrow ");
            label.append(row_label(j).as_str());
            assert(rows_of(data)[0].len() == cols);
            data = Self::push_step(steps, label.as_str(), data, separator);
        }
        let ghost exchanged = Progress { grid: rows_of(data), steps: texts_of(steps@) };
        assert(exchanged == after_swap(start, i as int, j as int, separator));
        assert(rows_of(data)[i as int].len() == cols);
        if !data[i][c].is_one() {
            let d = data[i][c];
            if !Self::scale_row(&mut data, i, c, d, cols) {
                return None;
            }
            proof {
                T::lemma_numbers_render(d);
            }
            let mut label = row_label(i);
            label.append(" : ");
            label.append(d.to_latex_single().as_str());
            assert(has_shape(rows_of(data), rows as int, cols as int));
            assert(rows_of(data)[0].len() == cols);
            data = Self::push_step(steps, label.as_str(), data, separator);
        }
        let ghost scaled = Progress { grid: rows_of(data), steps: texts_of(steps@) };
        assert(Some(scaled) == after_scale(exchanged, i as int, c as int, separator));
        let step_ops = match Self::eliminate(&mut data, i, c, cols) {
            None => { return None; },
            Some(ops) => ops,
        };
        if step_ops.len() > 0 {
            let mut label = String::from_str("\\substack{");
            label.append(join(&step_ops, "\\\\").as_str());
            label.append("}");
            assert(rows_of(data)[0].len() == cols);
            data = Self::push_step(steps, label.as_str(), data, separator);
        }
        Some(data)
    }

    /// The reduced row echelon form of the matrix, with every exchange, division
    /// and elimination recorded as a rendered step after the rendering of the
    /// matrix itself. An empty matrix is returned as it is, with no steps. Fails
    /// when an operation on the entries overflows or cannot be carried out.
    pub fn echelon(&self) -> (r: Result<Aftermath<T>, Error>)
        requires
            self.wf(),
        ensures
            match echelon_of(self@, self.separator) {
                None => r matches Err(e) && e == Error::ArithmeticFailure,
                Some(p) => r matches Ok(a) && a.result@ == p.grid && texts_of(a.steps@) == p.steps
                    && a.result.separator == (if is_empty_grid(self@) {
                    self.separator
                } else {
                    None
                }),
            },
            r matches Ok(a) ==> !is_empty_grid(self@) ==> has_shape(
                a.result@,
                self@.len() as int,
                self@[0].len() as int,
            ),
            is_reduced(self@) && !is_empty_grid(self@) ==> (r matches Ok(a) && a.result@ == self@
                && a.steps@.len() == 1 && a.steps@[0]@ == self.latex_spec()),
    {
        proof {
            if is_reduced(self@) && !is_empty_grid(self@) {
                lemma_echelon_of_reduced(self@, self.separator);
            }
        }
        if self.is_empty() {
            let steps: Vec<String> = Vec::new();
            assert(texts_of(steps@) =~= Seq::<Seq<char>>::empty());
            return Ok(Aftermath { result: self.duplicate(), steps });
        }
        let (rows, cols) = self.get_shape();
        let separator = self.get_separator();
        let mut steps: Vec<String> = Vec::new();
        steps.push(self.to_latex());
        assert(texts_of(steps@) =~= seq![self.latex_spec()]);
        let mut c: usize = 0;
        let mut i: usize = 0;
        let mut data = self.deep_matrix_data_clone();
        while c < cols && i < rows
            invariant
                i <= rows,
                c <= cols,
                rows > 0,
                cols > 0,
                rows == data@.len(),
                separator matches Some(s) ==> s <= cols,
                has_shape(rows_of(data), rows as int, cols as int),
                reduce(
                    Progress { grid: rows_of(data), steps: texts_of(steps@) },
                    i as int,
                    c as int,
                    cols as int,
                    separator,
                ) == echelon_of(self@, self.separator),
                is_reduced(self@) && !is_empty_grid(self@) ==> echelon_of(self@, self.separator)
                    == Some(Progress { grid: self@, steps: seq![self.latex_spec()] }),
            decreases cols - c,
        {
            let j = match Self::select_pivot(&data, c, i, cols) {
                None => { return Err(Error::ArithmeticFailure); },
                Some(j) => j,
            };
            assert(rows_of(data)[j as int].len() == cols);
            if !data[j][c].is_zero() {
                data = match Self::use_pivot(&mut steps, data, i, j, c, cols, separator) {
                    None => { return Err(Error::ArithmeticFailure); },
                    Some(out) => out,
                };
                i += 1;
            }
            c += 1;
        }
        proof {
            if is_reduced(self@) {
                assert(texts_of(steps@)[0] == steps@[0]@);
            }
        }
        Ok(Aftermath { result: Self::new_unsafe(data), steps })
    }
    /// The inverse of a square matrix, with the steps of the reduction that found
    /// it. Fails for an empty matrix, for one that is not square, for one that has
    /// no inverse, and when an operation on the entries fails.
    pub fn inverse(&self) -> (r: Result<Aftermath<T>, Error>)
        requires
            self.valid(),
        ensures
            match inverse_of(self@) {
                Err(e) => r matches Err(f) && f == e,
                Ok(p) => r matches Ok(a) && a.result@ == p.grid && texts_of(a.steps@) == p.steps
                    && a.result.separator.is_none(),
            },
            has_zero_row(self@) ==> r is Err,
    {
        proof {
            if has_zero_row(self@) {
                let z = choose|z: int|
                    0 <= z < self@.len() && left_zero(#[trigger] self@[z], self@[z].len() as int);
                lemma_zero_row_has_no_inverse(self@, z);
            }
        }
        if self.is_empty() {
            return Err(Error::EmptyMatrix);
        }
        let (rows, cols) = self.get_shape();
        if rows != cols {
            return Err(Error::NonSquare);
        }
        let identity = Self::identity(rows);
        proof {
            lemma_grid_from(
                rows as nat,
                rows as nat,
                |i: int, j: int|
                    if i == j {
                        T::one_spec()
                    } else {
                        T::zero_spec()
                    },
            );
        }
        let extended_matrix = match self.duplicate().concat(identity) {
            Ok(m) => m,
            Err(e) => { return Err(e); },
        };
        let augmented = extended_matrix.with_separator(Some(rows));
        assert(augmented.wf()) by {
            assert forall|a: int| 0 <= a < augmented@.len() implies (#[trigger] augmented@[a]).len()
                == 2 * rows by {
                assert(self@[a].len() == self@[0].len());
            }
        }
        let echelon_aftermath = match augmented.echelon() {
            Ok(a) => a,
            Err(e) => { return Err(e); },
        };
        let steps = echelon_aftermath.steps;
        let (left, right) = match echelon_aftermath.result.split(rows) {
            Ok(pair) => pair,
            Err(e) => { return Err(e); },
        };
        if !left.equals(&Self::identity(rows)) {
            return Err(Error::Singular);
        }
        Ok(Aftermath { result: right, steps })
    }
}

} // verus!
