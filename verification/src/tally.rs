//! Counting helpers: occurrences of a task id in a wait queue, and column
//! sums over the per-task allocation matrices, with the lemmas the rest of
//! the crate needs about them.

use vstd::prelude::*;

verus! {

/// Number of occurrences of `x` among the elements of `s`.
pub open spec fn occurrences(s: Seq<usize>, x: int) -> int
    decreases s.len(),
{
    if s.len() == 0 {
        0
    } else {
        (if s[0] as int == x {
            1int
        } else {
            0int
        }) + occurrences(s.drop_first(), x)
    }
}

pub proof fn lemma_occurrences_nonneg(s: Seq<usize>, x: int)
    ensures
        occurrences(s, x) >= 0,
    decreases s.len(),
{
    if s.len() > 0 {
        lemma_occurrences_nonneg(s.drop_first(), x);
    }
}

pub proof fn lemma_occurrences_push(s: Seq<usize>, y: usize, x: int)
    ensures
        occurrences(s.push(y), x) == occurrences(s, x) + if y as int == x {
            1int
        } else {
            0int
        },
    decreases s.len(),
{
    if s.len() == 0 {
        assert(s.push(y).drop_first() =~= Seq::<usize>::empty());
        assert(s.push(y)[0] == y);
        assert(occurrences(Seq::<usize>::empty(), x) == 0);
    } else {
        assert(s.push(y).drop_first() =~= s.drop_first().push(y));
        assert(s.push(y)[0] == s[0]);
        lemma_occurrences_push(s.drop_first(), y, x);
        assert(occurrences(s.push(y), x) == (if s[0] as int == x {
            1int
        } else {
            0int
        }) + occurrences(s.drop_first().push(y), x));
    }
}

pub proof fn lemma_occurrences_absent(s: Seq<usize>, x: int)
    requires
        forall|k: int| 0 <= k < s.len() ==> (#[trigger] s[k]) as int != x,
    ensures
        occurrences(s, x) == 0,
    decreases s.len(),
{
    if s.len() > 0 {
        assert(forall|k: int|
            0 <= k < s.drop_first().len() ==> (#[trigger] s.drop_first()[k]) as int != x);
        lemma_occurrences_absent(s.drop_first(), x);
    }
}

/// An element of the sequence accounts for at least one occurrence.
pub proof fn lemma_occurrences_member(s: Seq<usize>, k: int)
    requires
        0 <= k < s.len(),
    ensures
        occurrences(s, s[k] as int) >= 1,
    decreases s.len(),
{
    if k == 0 {
        lemma_occurrences_nonneg(s.drop_first(), s[0] as int);
    } else {
        lemma_occurrences_member(s.drop_first(), k - 1);
    }
}

/// Sum of column `i` over the first `j` rows of an allocation matrix.
pub open spec fn col_sum_upto(rows: Seq<Vec<usize>>, i: int, j: int) -> int
    decreases j,
{
    if j <= 0 {
        0
    } else {
        col_sum_upto(rows, i, j - 1) + rows[j - 1]@[i]
    }
}

/// Sum of column `i` over all rows.
pub open spec fn col_total(rows: Seq<Vec<usize>>, i: int) -> int {
    col_sum_upto(rows, i, rows.len() as int)
}

/// Sum of column `i` over the first `j` rows whose entry in `fin` is false.
pub open spec fn col_unfin_upto(rows: Seq<Vec<usize>>, fin: Seq<bool>, i: int, j: int) -> int
    decreases j,
{
    if j <= 0 {
        0
    } else {
        col_unfin_upto(rows, fin, i, j - 1) + if fin[j - 1] {
            0int
        } else {
            rows[j - 1]@[i] as int
        }
    }
}

/// Sum of column `i` over all rows not yet marked finished.
pub open spec fn col_unfin(rows: Seq<Vec<usize>>, fin: Seq<bool>, i: int) -> int {
    col_unfin_upto(rows, fin, i, rows.len() as int)
}

pub proof fn lemma_col_sum_nonneg(rows: Seq<Vec<usize>>, i: int, j: int)
    ensures
        col_sum_upto(rows, i, j) >= 0,
    decreases j,
{
    if j > 0 {
        lemma_col_sum_nonneg(rows, i, j - 1);
    }
}

/// Replacing row `t` changes a partial column sum by the difference at that row.
pub proof fn lemma_col_sum_update(rows: Seq<Vec<usize>>, t: int, v: Vec<usize>, i: int, j: int)
    requires
        0 <= t < rows.len(),
        j <= rows.len(),
    ensures
        col_sum_upto(rows.update(t, v), i, j) == col_sum_upto(rows, i, j) + if t < j {
            v@[i] - rows[t]@[i]
        } else {
            0int
        },
    decreases j,
{
    if j > 0 {
        lemma_col_sum_update(rows, t, v, i, j - 1);
    }
}

/// Two matrices that agree on a column have the same partial sums there.
pub proof fn lemma_col_sum_congruent(
    rows1: Seq<Vec<usize>>,
    i1: int,
    rows2: Seq<Vec<usize>>,
    i2: int,
    j: int,
)
    requires
        forall|t: int| 0 <= t < j ==> (#[trigger] rows1[t])@[i1] == rows2[t]@[i2],
    ensures
        col_sum_upto(rows1, i1, j) == col_sum_upto(rows2, i2, j),
    decreases j,
{
    if j > 0 {
        lemma_col_sum_congruent(rows1, i1, rows2, i2, j - 1);
    }
}

/// A column that is zero in every row sums to zero.
pub proof fn lemma_col_sum_zero(rows: Seq<Vec<usize>>, i: int, j: int)
    requires
        forall|t: int| 0 <= t < j ==> (#[trigger] rows[t])@[i] == 0,
    ensures
        col_sum_upto(rows, i, j) == 0,
    decreases j,
{
    if j > 0 {
        lemma_col_sum_zero(rows, i, j - 1);
    }
}

/// Appending a row adds its entry to the column total.
pub proof fn lemma_col_total_push(rows: Seq<Vec<usize>>, v: Vec<usize>, i: int)
    ensures
        col_total(rows.push(v), i) == col_total(rows, i) + v@[i],
{
    assert(forall|t: int| 0 <= t < rows.len() ==> (#[trigger] rows.push(v)[t])@[i] == rows[t]@[i]);
    lemma_col_sum_congruent(rows.push(v), i, rows, i, rows.len() as int);
    assert(col_sum_upto(rows.push(v), i, rows.len() as int + 1) == col_sum_upto(
        rows.push(v),
        i,
        rows.len() as int,
    ) + rows.push(v)[rows.len() as int]@[i]);
}

/// Every single entry is bounded by the partial column sum that covers it.
pub proof fn lemma_col_sum_element(rows: Seq<Vec<usize>>, i: int, j: int, t: int)
    requires
        0 <= t < j,
    ensures
        col_sum_upto(rows, i, j) >= rows[t]@[i],
    decreases j,
{
    if t == j - 1 {
        lemma_col_sum_nonneg(rows, i, j - 1);
    } else {
        lemma_col_sum_element(rows, i, j - 1, t);
    }
}

/// Two distinct entries are jointly bounded by a partial column sum.
pub proof fn lemma_col_sum_two_elements(rows: Seq<Vec<usize>>, i: int, j: int, t1: int, t2: int)
    requires
        0 <= t1 < j,
        0 <= t2 < j,
        t1 != t2,
    ensures
        col_sum_upto(rows, i, j) >= rows[t1]@[i] + rows[t2]@[i],
    decreases j,
{
    if t1 == j - 1 {
        lemma_col_sum_element(rows, i, j - 1, t2);
    } else if t2 == j - 1 {
        lemma_col_sum_element(rows, i, j - 1, t1);
    } else {
        lemma_col_sum_two_elements(rows, i, j - 1, t1, t2);
    }
}

pub proof fn lemma_col_unfin_nonneg(rows: Seq<Vec<usize>>, fin: Seq<bool>, i: int, j: int)
    ensures
        col_unfin_upto(rows, fin, i, j) >= 0,
    decreases j,
{
    if j > 0 {
        lemma_col_unfin_nonneg(rows, fin, i, j - 1);
    }
}

/// The unfinished part of a column never exceeds the whole column.
pub proof fn lemma_col_unfin_le_sum(rows: Seq<Vec<usize>>, fin: Seq<bool>, i: int, j: int)
    ensures
        col_unfin_upto(rows, fin, i, j) <= col_sum_upto(rows, i, j),
    decreases j,
{
    if j > 0 {
        lemma_col_unfin_le_sum(rows, fin, i, j - 1);
    }
}

/// With no row finished, the unfinished sum is the whole column sum.
pub proof fn lemma_col_unfin_all_false(rows: Seq<Vec<usize>>, fin: Seq<bool>, i: int, j: int)
    requires
        forall|t: int| 0 <= t < j ==> !(#[trigger] fin[t]),
    ensures
        col_unfin_upto(rows, fin, i, j) == col_sum_upto(rows, i, j),
    decreases j,
{
    if j > 0 {
        lemma_col_unfin_all_false(rows, fin, i, j - 1);
    }
}

/// Marking one more row finished removes exactly its entry from the sum.
pub proof fn lemma_col_unfin_flip(rows: Seq<Vec<usize>>, fin: Seq<bool>, t: int, i: int, j: int)
    requires
        0 <= t < fin.len(),
        !fin[t],
        j <= fin.len(),
    ensures
        col_unfin_upto(rows, fin.update(t, true), i, j) == col_unfin_upto(rows, fin, i, j) - if t
            < j {
            rows[t]@[i] as int
        } else {
            0int
        },
    decreases j,
{
    if j > 0 {
        lemma_col_unfin_flip(rows, fin, t, i, j - 1);
    }
}

/// Finishing more rows never increases the unfinished sum.
pub proof fn lemma_col_unfin_mono(
    rows: Seq<Vec<usize>>,
    fin1: Seq<bool>,
    fin2: Seq<bool>,
    i: int,
    j: int,
)
    requires
        forall|t: int| 0 <= t < j ==> (fin1[t] ==> fin2[t]),
    ensures
        col_unfin_upto(rows, fin2, i, j) <= col_unfin_upto(rows, fin1, i, j),
    decreases j,
{
    if j > 0 {
        lemma_col_unfin_mono(rows, fin1, fin2, i, j - 1);
    }
}

} // verus!
