//! A matrix as the plain sequence of its entries.

use crate::grid::{flattened, rectangular};
use crate::matrices::Matrix;
use crate::traits::MatrixNumber;
use vstd::arithmetic::div_mod::lemma_fundamental_div_mod_converse;
use vstd::prelude::*;
use vstd::std_specs::convert::FromSpecImpl;

verus! {

/// The rows of a grid one after another.
pub open spec fn all_entries<T>(g: Seq<Seq<T>>) -> Seq<T>
    decreases g.len(),
{
    if g.len() == 0 {
        Seq::empty()
    } else {
        all_entries(g.drop_last()) + g.last()
    }
}

/// Rows of `w` entries each, one after another, are `w` entries for each row.
pub proof fn lemma_all_entries_len<T>(g: Seq<Seq<T>>, w: nat)
    requires
        forall|i: int| 0 <= i < g.len() ==> (#[trigger] g[i]).len() == w,
    ensures
        all_entries(g).len() == g.len() * w,
    decreases g.len(),
{
    if g.len() > 0 {
        let shorter = g.drop_last();
        assert forall|i: int| 0 <= i < shorter.len() implies (#[trigger] shorter[i]).len()
            == w by {
            assert(shorter[i] == g[i]);
        }
        lemma_all_entries_len(shorter, w);
        assert(g.last().len() == w);
        assert(g.len() * w == shorter.len() * w + w) by (nonlinear_arith)
            requires
                g.len() == shorter.len() + 1,
        ;
    } else {
        assert(g.len() * w == 0) by (nonlinear_arith)
            requires
                g.len() == 0,
        ;
    }
}

/// Rows of `w` entries each, one after another: the entry at `k` is the one in
/// row `k / w` and column `k % w`.
pub proof fn lemma_all_entries_at<T>(g: Seq<Seq<T>>, w: nat, k: int)
    requires
        forall|i: int| 0 <= i < g.len() ==> (#[trigger] g[i]).len() == w,
        0 <= k < g.len() * w,
    ensures
        0 <= k / (w as int) < g.len(),
        0 <= k % (w as int) < w,
        k < all_entries(g).len(),
        all_entries(g)[k] == g[k / (w as int)][k % (w as int)],
    decreases g.len(),
{
    lemma_all_entries_len(g, w);
    if g.len() > 0 {
        let shorter = g.drop_last();
        let n = shorter.len() as int;
        assert forall|i: int| 0 <= i < shorter.len() implies (#[trigger] shorter[i]).len()
            == w by {
            assert(shorter[i] == g[i]);
        }
        lemma_all_entries_len(shorter, w);
        assert(g.last().len() == w);
        assert(g.len() * w == n * w + w) by (nonlinear_arith)
            requires
                g.len() == n + 1,
        ;
        if k < n * w {
            lemma_all_entries_at(shorter, w, k);
            assert(all_entries(g)[k] == all_entries(shorter)[k]);
            assert(shorter[k / (w as int)] == g[k / (w as int)]);
        } else {
            let r = k - n * w;
            lemma_fundamental_div_mod_converse(k, w as int, n, r);
            assert(all_entries(g)[k] == g.last()[r]);
        }
    } else {
        assert(g.len() * w == 0) by (nonlinear_arith)
            requires
                g.len() == 0,
        ;
    }
}

/// The entries of a rectangular grid, row after row, are its entries in reading
/// order.
pub proof fn lemma_rows_in_reading_order<T>(g: Seq<Seq<T>>)
    requires
        rectangular(g),
    ensures
        all_entries(g) == flattened(g),
{
    if g.len() == 0 {
        assert(all_entries(g) =~= flattened(g));
    } else {
        let w = g[0].len();
        lemma_all_entries_len(g, w);
        if w == 0 {
            assert(g.len() * w == 0) by (nonlinear_arith)
                requires
                    w == 0,
            ;
            assert(all_entries(g) =~= flattened(g));
        } else {
            assert forall|k: int| 0 <= k < all_entries(g).len() implies all_entries(g)[k]
                == flattened(g)[k] by {
                lemma_all_entries_at(g, w, k);
            }
            assert(all_entries(g) =~= flattened(g));
        }
    }
}

impl<T: MatrixNumber> From<Matrix<T>> for Vec<T> {
    /// The entries of the matrix, row after row.
    fn from(value: Matrix<T>) -> (ret: Self)
        ensures
            ret@ == all_entries(value@),
            rectangular(value@) ==> ret@ == flattened(value@),
    {
        let mut flat: Vec<T> = Vec::new();
        let mut i: usize = 0;
        assert(value@.take(0) =~= Seq::<Seq<T>>::empty());
        while i < value.data.len()
            invariant
                i <= value.data.len(),
                value@.len() == value.data.len(),
                flat@ == all_entries(value@.take(i as int)),
            decreases value.data.len() - i,
        {
            let ghost before = flat@;
            let mut j: usize = 0;
            while j < value.data[i].len()
                invariant
                    i < value.data.len(),
                    j <= value.data[i as int].len(),
                    value@.len() == value.data.len(),
                    value@[i as int] == value.data[i as int]@,
                    flat@ == before + value@[i as int].take(j as int),
                decreases value.data[i as int].len() - j,
            {
                flat.push(value.data[i][j]);
                assert(value@[i as int].take(j + 1) =~= value@[i as int].take(j as int).push(
                    value@[i as int][j as int],
                ));
                j += 1;
            }
            assert(value@[i as int].take(j as int) =~= value@[i as int]);
            assert(value@.take(i + 1).drop_last() =~= value@.take(i as int));
            assert(value@.take(i + 1).last() == value@[i as int]);
            i += 1;
        }
        assert(value@.take(i as int) =~= value@);
        proof {
            if rectangular(value@) {
                lemma_rows_in_reading_order(value@);
            }
        }
        flat
    }
}

impl<T: MatrixNumber> FromSpecImpl<Matrix<T>> for Vec<T> {
    open spec fn obeys_from_spec() -> bool {
        false
    }

    open spec fn from_spec(v: Matrix<T>) -> Vec<T> {
        arbitrary()
    }
}

} // verus!
