//! Taking samples at equal distances.

use vstd::prelude::*;

verus! {

/// The step at which a sequence of `actual_points` has to be sampled to keep about
/// `expected_points` of them. Fewer points than expected give their own number.
pub open spec fn sampling_step(expected_points: int, actual_points: int) -> int {
    if actual_points < expected_points {
        actual_points
    } else {
        actual_points / expected_points
    }
}

/// How many of `len` positions are multiples of `n`.
pub open spec fn sample_count(len: int, n: int) -> int {
    if len <= 0 {
        0
    } else {
        (len - 1) / n + 1
    }
}

/// The entries of `source` at the positions that are multiples of `n`.
pub open spec fn every_nth<T>(source: Seq<T>, n: int) -> Seq<T> {
    Seq::new(sample_count(source.len() as int, n) as nat, |k: int| source[k * n])
}

/// The step at which to sample `actual_points` points to keep about
/// `expected_points` of them.
pub fn calculate_n(expected_points: usize, actual_points: usize) -> (n: usize)
    requires
        expected_points > 0,
    ensures
        n == sampling_step(expected_points as int, actual_points as int),
{
    if actual_points < expected_points {
        return actual_points;
    }
    actual_points / expected_points
}

/// Keeps the first entry and every `n`-th after it.
pub fn take_every_nth<T>(source: Vec<T>, n: usize) -> (out: Vec<T>)
    requires
        n > 0,
    ensures
        out@ == every_nth(source@, n as int),
{
    let ghost all = source@;
    let len = source.len();
    let mut out: Vec<T> = Vec::new();
    let mut position: usize = 0;
    let mut phase: usize = 0;
    for x in it: source
        invariant
            n > 0,
            all.len() == len,
            it.seq() == all,
            position == it.index(),
            position <= all.len(),
            phase == position % n,
            out@.len() == sample_count(position as int, n as int),
            forall|k: int| 0 <= k < out@.len() ==> #[trigger] out@[k] == all[k * n],
    {
        proof {
            lemma_count_step(position as int, n as int);
        }
        if phase == 0 {
            out.push(x);
        }
        phase = if phase + 1 < n {
            phase + 1
        } else {
            0
        };
        position += 1;
    }
    assert(out@ =~= every_nth(all, n as int));
    out
}

/// From one position to the next: a multiple of `n` counts and is the next
/// position to be kept, any other position does not count; and the remainder
/// goes up by one or back to zero.
pub proof fn lemma_count_step(position: int, n: int)
    requires
        position >= 0,
        n > 0,
    ensures
        position % n == 0 ==> sample_count(position + 1, n) == sample_count(position, n) + 1
            && sample_count(position, n) * n == position,
        position % n != 0 ==> sample_count(position + 1, n) == sample_count(position, n),
        (position + 1) % n == (if position % n + 1 < n {
            position % n + 1
        } else {
            0
        }),
{
    let q = position / n;
    let r = position % n;
    vstd::arithmetic::div_mod::lemma_fundamental_div_mod(position, n);
    vstd::arithmetic::div_mod::lemma_mod_bound(position, n);
    assert(n * q == q * n) by (nonlinear_arith);
    if r + 1 < n {
        vstd::arithmetic::div_mod::lemma_fundamental_div_mod_converse(position + 1, n, q, r + 1);
    } else {
        assert((q + 1) * n == q * n + n) by (nonlinear_arith);
        vstd::arithmetic::div_mod::lemma_fundamental_div_mod_converse(position + 1, n, q + 1, 0);
    }
    if position > 0 {
        if r == 0 {
            assert((q - 1) * n == q * n - n) by (nonlinear_arith);
            vstd::arithmetic::div_mod::lemma_fundamental_div_mod_converse(
                position - 1,
                n,
                q - 1,
                n - 1,
            );
        } else {
            vstd::arithmetic::div_mod::lemma_fundamental_div_mod_converse(
                position - 1,
                n,
                q,
                r - 1,
            );
        }
    }
}

} // verus!
