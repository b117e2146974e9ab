//! The N x N tile matrix: its mathematical view, well-formedness, sums, and
//! the whole-grid helpers (transpose, row reversal, row-wise merge) from which
//! the four move directions are built.

use vstd::prelude::*;

use crate::merge::{
    all_at_least, all_tiles, compact, lemma_merge_full_len, lemma_merge_full_sum,
    lemma_merge_full_tiles, lemma_merge_score_bounds, lemma_compact_sum, lemma_sum_concat,
    lemma_sum_singleton, merge_full, merge_row, merge_score, row_view, sum,
};

verus! {

/// The cells of a grid as a sequence of rows of mathematical integers.
pub open spec fn grid_view(g: Vec<Vec<u128>>) -> Seq<Seq<int>> {
    Seq::new(g@.len() as nat, |i: int| row_view(g@[i]))
}

/// Every row has length `n` and there are `n` rows.
pub open spec fn is_square(gv: Seq<Seq<int>>, n: int) -> bool {
    gv.len() == n && (forall|i: int| 0 <= i < n ==> (#[trigger] gv[i]).len() == n)
}

/// Every cell of the grid is a legal tile value (zero or a power of two).
pub open spec fn grid_tiles(gv: Seq<Seq<int>>) -> bool {
    forall|i: int| 0 <= i < gv.len() ==> all_tiles(#[trigger] gv[i])
}

/// Every cell of the grid is non-negative.
pub open spec fn grid_nonneg(gv: Seq<Seq<int>>) -> bool {
    forall|i: int| 0 <= i < gv.len() ==> all_at_least(#[trigger] gv[i], 0)
}

/// No cell of the grid is empty.
pub open spec fn grid_full(gv: Seq<Seq<int>>, n: int) -> bool {
    forall|x: int, y: int| 0 <= x < n && 0 <= y < n ==> #[trigger] gv[x][y] != 0
}

/// The sum of all cells, row by row.
pub open spec fn grid_sum(gv: Seq<Seq<int>>) -> int
    decreases gv.len(),
{
    if gv.len() == 0 {
        0
    } else {
        sum(gv[0]) + grid_sum(gv.skip(1))
    }
}

/// Column `x` of the grid, read top to bottom.
pub open spec fn col_view(gv: Seq<Seq<int>>, x: int) -> Seq<int> {
    Seq::new(gv.len() as nat, |y: int| gv[y][x])
}

/// The transposed grid: cell `(x, y)` holds what `(y, x)` held.
pub open spec fn transpose_view(gv: Seq<Seq<int>>, n: int) -> Seq<Seq<int>> {
    Seq::new(n as nat, |x: int| col_view(gv, x))
}

/// Each row reversed in place.
pub open spec fn reverse_rows_view(gv: Seq<Seq<int>>) -> Seq<Seq<int>> {
    Seq::new(gv.len() as nat, |i: int| gv[i].reverse())
}

/// Each row compacted and merged toward index 0 and padded to length `n`.
pub open spec fn merge_rows_view(gv: Seq<Seq<int>>, n: nat) -> Seq<Seq<int>> {
    Seq::new(gv.len() as nat, |i: int| merge_full(gv[i], n))
}

/// The total score of one merge pass over every row.
pub open spec fn rows_score(gv: Seq<Seq<int>>) -> int
    decreases gv.len(),
{
    if gv.len() == 0 {
        0
    } else {
        merge_score(compact(gv[0])) + rows_score(gv.skip(1))
    }
}

/// Legal tile values are non-negative, so a grid of tiles is non-negative.
pub proof fn lemma_grid_tiles_nonneg(gv: Seq<Seq<int>>)
    requires
        grid_tiles(gv),
    ensures
        grid_nonneg(gv),
{
    assert forall|i: int| 0 <= i < gv.len() implies all_at_least(#[trigger] gv[i], 0) by {
        assert(all_tiles(gv[i]));
        assert forall|j: int| 0 <= j < gv[i].len() implies gv[i][j] >= 0 by {
            assert(crate::merge::is_tile(gv[i][j]));
        }
    }
}

/// A grid view always consists of non-negative cells.
pub proof fn lemma_grid_view_nonneg(g: Vec<Vec<u128>>)
    ensures
        grid_nonneg(grid_view(g)),
{
    assert forall|i: int| 0 <= i < grid_view(g).len() implies all_at_least(
        #[trigger] grid_view(g)[i],
        0,
    ) by {
        assert(grid_view(g)[i] == row_view(g@[i]));
    }
}

pub proof fn lemma_sum_nonneg(s: Seq<int>)
    requires
        all_at_least(s, 0),
    ensures
        sum(s) >= 0,
    decreases s.len(),
{
    if s.len() > 0 {
        assert(all_at_least(s.skip(1), 0));
        lemma_sum_nonneg(s.skip(1));
    }
}

pub proof fn lemma_grid_sum_nonneg(gv: Seq<Seq<int>>)
    requires
        grid_nonneg(gv),
    ensures
        grid_sum(gv) >= 0,
    decreases gv.len(),
{
    if gv.len() > 0 {
        lemma_sum_nonneg(gv[0]);
        assert(grid_nonneg(gv.skip(1)));
        lemma_grid_sum_nonneg(gv.skip(1));
    }
}

/// Each row's sum is bounded by the whole grid's sum on non-negative grids.
pub proof fn lemma_row_sum_le_grid_sum(gv: Seq<Seq<int>>, i: int)
    requires
        grid_nonneg(gv),
        0 <= i < gv.len(),
    ensures
        sum(gv[i]) <= grid_sum(gv),
    decreases gv.len(),
{
    if i == 0 {
        assert(grid_nonneg(gv.skip(1)));
        lemma_grid_sum_nonneg(gv.skip(1));
    } else {
        assert(grid_nonneg(gv.skip(1)));
        lemma_row_sum_le_grid_sum(gv.skip(1), i - 1);
        lemma_sum_nonneg(gv[0]);
        assert(gv.skip(1)[i - 1] == gv[i]);
    }
}

/// Splitting a grid sum over a prefix and the rest.
pub proof fn lemma_grid_sum_concat(a: Seq<Seq<int>>, b: Seq<Seq<int>>)
    ensures
        grid_sum(a + b) == grid_sum(a) + grid_sum(b),
    decreases a.len(),
{
    if a.len() == 0 {
        assert(a + b =~= b);
    } else {
        assert((a + b).skip(1) =~= a.skip(1) + b);
        lemma_grid_sum_concat(a.skip(1), b);
    }
}

pub proof fn lemma_rows_score_concat(a: Seq<Seq<int>>, b: Seq<Seq<int>>)
    ensures
        rows_score(a + b) == rows_score(a) + rows_score(b),
    decreases a.len(),
{
    if a.len() == 0 {
        assert(a + b =~= b);
    } else {
        assert((a + b).skip(1) =~= a.skip(1) + b);
        lemma_rows_score_concat(a.skip(1), b);
    }
}

/// The total merge score over every row is non-negative and bounded by the
/// grid's sum, on non-negative grids.
pub proof fn lemma_rows_score_bounds(gv: Seq<Seq<int>>)
    requires
        grid_nonneg(gv),
    ensures
        0 <= rows_score(gv) <= grid_sum(gv),
    decreases gv.len(),
{
    if gv.len() > 0 {
        assert(all_at_least(gv[0], 0));
        lemma_compact_sum(gv[0]);
        assert(all_at_least(compact(gv[0]), 0)) by {
            crate::merge::lemma_compact_pos(gv[0]);
        }
        lemma_merge_score_bounds(compact(gv[0]));
        assert(grid_nonneg(gv.skip(1)));
        lemma_rows_score_bounds(gv.skip(1));
    }
}

/// Merging every row conserves the grid's sum.
pub proof fn lemma_merge_rows_sum(gv: Seq<Seq<int>>, n: nat)
    ensures
        grid_sum(merge_rows_view(gv, n)) == grid_sum(gv),
    decreases gv.len(),
{
    if gv.len() > 0 {
        lemma_merge_full_sum(gv[0], n);
        lemma_merge_rows_sum(gv.skip(1), n);
        assert(merge_rows_view(gv, n).skip(1) =~= merge_rows_view(gv.skip(1), n));
    }
}

/// Reversing every row conserves the grid's sum.
pub proof fn lemma_reverse_rows_sum(gv: Seq<Seq<int>>)
    ensures
        grid_sum(reverse_rows_view(gv)) == grid_sum(gv),
    decreases gv.len(),
{
    if gv.len() > 0 {
        lemma_sum_reverse(gv[0]);
        lemma_reverse_rows_sum(gv.skip(1));
        assert(reverse_rows_view(gv).skip(1) =~= reverse_rows_view(gv.skip(1)));
    }
}

pub proof fn lemma_sum_reverse(s: Seq<int>)
    ensures
        sum(s.reverse()) == sum(s),
    decreases s.len(),
{
    if s.len() > 0 {
        let d = s.drop_last();
        lemma_sum_reverse(d);
        assert(s.reverse() =~= seq![s.last()] + d.reverse());
        lemma_sum_concat(seq![s.last()], d.reverse());
        lemma_sum_singleton(s.last());
        assert(s =~= d.push(s.last()));
        assert(d.push(s.last()) =~= d + seq![s.last()]);
        lemma_sum_concat(d, seq![s.last()]);
    }
}

spec fn sum_cols_from(gv: Seq<Seq<int>>, k: int, n: int) -> int
    decreases n - k,
{
    if k < 0 || k >= n {
        0
    } else {
        sum(col_view(gv, k)) + sum_cols_from(gv, k + 1, n)
    }
}

proof fn lemma_sum_cols_empty(gv: Seq<Seq<int>>, k: int, n: int)
    requires
        gv.len() == 0,
    ensures
        sum_cols_from(gv, k, n) == 0,
    decreases n - k,
{
    if 0 <= k < n {
        assert(col_view(gv, k) =~= Seq::<int>::empty());
        lemma_sum_cols_empty(gv, k + 1, n);
    }
}

proof fn lemma_sum_cols_step(gv: Seq<Seq<int>>, k: int, n: int)
    requires
        gv.len() > 0,
        0 <= k <= n,
        gv[0].len() == n,
    ensures
        sum_cols_from(gv, k, n) == sum(gv[0].skip(k)) + sum_cols_from(gv.skip(1), k, n),
    decreases n - k,
{
    if k == n {
        assert(gv[0].skip(n) =~= Seq::<int>::empty());
    } else {
        lemma_sum_cols_step(gv, k + 1, n);
        assert(col_view(gv, k)[0] == gv[0][k]);
        assert(col_view(gv, k).skip(1) =~= col_view(gv.skip(1), k));
        assert(sum(col_view(gv, k)) == gv[0][k] + sum(col_view(gv.skip(1), k)));
        assert(gv[0].skip(k)[0] == gv[0][k]);
        assert(gv[0].skip(k).skip(1) =~= gv[0].skip(k + 1));
        assert(sum(gv[0].skip(k)) == gv[0][k] + sum(gv[0].skip(k + 1)));
    }
}

proof fn lemma_sum_cols_eq_grid_sum(gv: Seq<Seq<int>>, n: int)
    requires
        forall|i: int| 0 <= i < gv.len() ==> (#[trigger] gv[i]).len() == n,
        n >= 0,
    ensures
        sum_cols_from(gv, 0, n) == grid_sum(gv),
    decreases gv.len(),
{
    if gv.len() == 0 {
        lemma_sum_cols_empty(gv, 0, n);
    } else {
        lemma_sum_cols_step(gv, 0, n);
        assert(gv[0].skip(0) =~= gv[0]);
        assert(forall|i: int|
            0 <= i < gv.skip(1).len() ==> (#[trigger] gv.skip(1)[i]).len() == n);
        lemma_sum_cols_eq_grid_sum(gv.skip(1), n);
    }
}

proof fn lemma_transpose_rows_sum(gv: Seq<Seq<int>>, k: int, n: int)
    requires
        0 <= k <= n,
    ensures
        grid_sum(transpose_view(gv, n).skip(k)) == sum_cols_from(gv, k, n),
    decreases n - k,
{
    if k == n {
        assert(transpose_view(gv, n).skip(n) =~= Seq::<Seq<int>>::empty());
    } else {
        lemma_transpose_rows_sum(gv, k + 1, n);
        assert(transpose_view(gv, n).skip(k)[0] == col_view(gv, k));
        assert(transpose_view(gv, n).skip(k).skip(1) =~= transpose_view(gv, n).skip(k + 1));
    }
}

/// Overwriting one entry changes the sum by the difference.
pub proof fn lemma_sum_update(s: Seq<int>, y: int, v: int)
    requires
        0 <= y < s.len(),
    ensures
        sum(s.update(y, v)) == sum(s) - s[y] + v,
    decreases s.len(),
{
    if y == 0 {
        assert(s.update(0, v).skip(1) =~= s.skip(1));
    } else {
        assert(s.update(y, v)[0] == s[0]);
        assert(s.update(y, v).skip(1) =~= s.skip(1).update(y - 1, v));
        lemma_sum_update(s.skip(1), y - 1, v);
    }
}

/// Overwriting one row changes the grid's sum by the difference of the row
/// sums.
pub proof fn lemma_grid_sum_update(gv: Seq<Seq<int>>, x: int, row: Seq<int>)
    requires
        0 <= x < gv.len(),
    ensures
        grid_sum(gv.update(x, row)) == grid_sum(gv) - sum(gv[x]) + sum(row),
    decreases gv.len(),
{
    if x == 0 {
        assert(gv.update(0, row).skip(1) =~= gv.skip(1));
    } else {
        assert(gv.update(x, row)[0] == gv[0]);
        assert(gv.update(x, row).skip(1) =~= gv.skip(1).update(x - 1, row));
        lemma_grid_sum_update(gv.skip(1), x - 1, row);
    }
}

/// Transposing a rectangular grid conserves its sum: summing by columns and
/// summing by rows agree.
pub proof fn lemma_transpose_sum(gv: Seq<Seq<int>>, n: int)
    requires
        n >= 0,
        forall|i: int| 0 <= i < gv.len() ==> (#[trigger] gv[i]).len() == n,
    ensures
        grid_sum(transpose_view(gv, n)) == grid_sum(gv),
{
    lemma_transpose_rows_sum(gv, 0, n);
    assert(transpose_view(gv, n).skip(0) =~= transpose_view(gv, n));
    lemma_sum_cols_eq_grid_sum(gv, n);
}

pub proof fn lemma_rows_score_take_step(gv: Seq<Seq<int>>, i: int)
    requires
        0 <= i < gv.len(),
    ensures
        rows_score(gv.take(i + 1)) == rows_score(gv.take(i)) + merge_score(compact(gv[i])),
{
    assert(gv.take(i + 1) =~= gv.take(i) + seq![gv[i]]);
    lemma_rows_score_concat(gv.take(i), seq![gv[i]]);
    assert(seq![gv[i]].skip(1) =~= Seq::<Seq<int>>::empty());
    assert(rows_score(Seq::<Seq<int>>::empty()) == 0);
    assert(seq![gv[i]][0] == gv[i]);
    assert(rows_score(seq![gv[i]]) == merge_score(compact(gv[i])));
}

/// A prefix of rows never scores more than the whole non-negative grid holds.
pub proof fn lemma_rows_score_take_le(gv: Seq<Seq<int>>, i: int)
    requires
        grid_nonneg(gv),
        0 <= i <= gv.len(),
    ensures
        rows_score(gv.take(i)) <= grid_sum(gv),
{
    assert(gv =~= gv.take(i) + gv.skip(i));
    lemma_rows_score_concat(gv.take(i), gv.skip(i));
    assert(grid_nonneg(gv.skip(i))) by {
        assert(forall|j: int|
            0 <= j < gv.skip(i).len() ==> #[trigger] gv.skip(i)[j] == gv[i + j]);
    }
    lemma_rows_score_bounds(gv.skip(i));
    lemma_rows_score_bounds(gv);
    lemma_grid_sum_concat(gv.take(i), gv.skip(i));
    assert(grid_nonneg(gv.take(i))) by {
        assert(forall|j: int| 0 <= j < gv.take(i).len() ==> #[trigger] gv.take(i)[j] == gv[j]);
    }
    lemma_rows_score_bounds(gv.take(i));
}

/// Transposing preserves legal tile values.
pub proof fn lemma_transpose_tiles(gv: Seq<Seq<int>>, n: int)
    requires
        grid_tiles(gv),
        is_square(gv, n),
    ensures
        grid_tiles(transpose_view(gv, n)),
        is_square(transpose_view(gv, n), n),
{
    let t = transpose_view(gv, n);
    assert forall|i: int| 0 <= i < t.len() implies all_tiles(#[trigger] t[i]) by {
        assert(t[i] == col_view(gv, i));
        assert forall|j: int| 0 <= j < t[i].len() implies crate::merge::is_tile(
            #[trigger] t[i][j],
        ) by {
            assert(t[i][j] == gv[j][i]);
            assert(all_tiles(gv[j]));
        }
    }
}

/// Reversing rows preserves legal tile values.
pub proof fn lemma_reverse_rows_tiles(gv: Seq<Seq<int>>, n: int)
    requires
        grid_tiles(gv),
        is_square(gv, n),
    ensures
        grid_tiles(reverse_rows_view(gv)),
        is_square(reverse_rows_view(gv), n),
{
    let t = reverse_rows_view(gv);
    assert forall|i: int| 0 <= i < t.len() implies all_tiles(#[trigger] t[i]) by {
        assert(t[i] == gv[i].reverse());
        assert forall|j: int| 0 <= j < t[i].len() implies crate::merge::is_tile(
            #[trigger] t[i][j],
        ) by {
            assert(t[i][j] == gv[i][t[i].len() - 1 - j]);
            assert(all_tiles(gv[i]));
        }
    }
}

/// Merging every row preserves legal tile values and squareness.
pub proof fn lemma_merge_rows_tiles(gv: Seq<Seq<int>>, n: int)
    requires
        grid_tiles(gv),
        is_square(gv, n),
        n >= 0,
    ensures
        grid_tiles(merge_rows_view(gv, n as nat)),
        is_square(merge_rows_view(gv, n as nat), n),
{
    let t = merge_rows_view(gv, n as nat);
    assert forall|i: int| 0 <= i < t.len() implies all_tiles(#[trigger] t[i]) && (
    #[trigger] t[i]).len() == n by {
        assert(t[i] == merge_full(gv[i], n as nat));
        lemma_merge_full_tiles(gv[i], n as nat);
        lemma_merge_full_len(gv[i], n as nat);
    }
}

/// Reverse one row.
pub fn reverse_row(v: &Vec<u128>) -> (r: Vec<u128>)
    ensures
        row_view(r) == row_view(*v).reverse(),
        r@.len() == v@.len(),
{
    let n = v.len();
    let mut r: Vec<u128> = Vec::new();
    let mut i: usize = 0;
    while i < n
        invariant
            n == v@.len(),
            i <= n,
            r@.len() == i,
            forall|j: int| 0 <= j < i ==> r@[j] == v@[n - 1 - j],
        decreases n - i,
    {
        r.push(v[n - 1 - i]);
        i = i + 1;
    }
    proof {
        assert(row_view(r) =~= row_view(*v).reverse());
    }
    r
}

/// Reverse every row of the grid.
pub fn reverse_rows(g: &Vec<Vec<u128>>) -> (r: Vec<Vec<u128>>)
    ensures
        grid_view(r) == reverse_rows_view(grid_view(*g)),
        r@.len() == g@.len(),
{
    let ghost gv = grid_view(*g);
    let n = g.len();
    let mut r: Vec<Vec<u128>> = Vec::new();
    let mut i: usize = 0;
    while i < n
        invariant
            gv == grid_view(*g),
            n == g@.len(),
            i <= n,
            r@.len() == i,
            forall|j: int| 0 <= j < i ==> #[trigger] grid_view(r)[j] == gv[j].reverse(),
        decreases n - i,
    {
        let ghost r0 = grid_view(r);
        let row = reverse_row(&g[i]);
        proof {
            assert(row_view(g@[i as int]) == gv[i as int]);
        }
        r.push(row);
        proof {
            assert forall|j: int| 0 <= j < i + 1 implies #[trigger] grid_view(r)[j] == gv[
                j
            ].reverse() by {
                if j < i {
                    assert(grid_view(r)[j] == r0[j]);
                } else {
                    assert(grid_view(r)[j] == row_view(row));
                }
            }
        }
        i = i + 1;
    }
    proof {
        assert(grid_view(r) =~= reverse_rows_view(gv));
    }
    r
}

/// Transpose a square grid.
pub fn transpose(g: &Vec<Vec<u128>>) -> (r: Vec<Vec<u128>>)
    requires
        is_square(grid_view(*g), g@.len() as int),
    ensures
        grid_view(r) == transpose_view(grid_view(*g), g@.len() as int),
        r@.len() == g@.len(),
{
    let ghost gv = grid_view(*g);
    let n = g.len();
    let mut r: Vec<Vec<u128>> = Vec::new();
    let mut x: usize = 0;
    while x < n
        invariant
            gv == grid_view(*g),
            is_square(gv, n as int),
            n == g@.len(),
            x <= n,
            r@.len() == x,
            forall|j: int| 0 <= j < x ==> #[trigger] grid_view(r)[j] == col_view(gv, j),
        decreases n - x,
    {
        let mut col: Vec<u128> = Vec::new();
        let mut y: usize = 0;
        while y < n
            invariant
                gv == grid_view(*g),
                is_square(gv, n as int),
                n == g@.len(),
                x < n,
                y <= n,
                col@.len() == y,
                forall|j: int| 0 <= j < y ==> col@[j] == g@[j]@[x as int],
            decreases n - y,
        {
            proof {
                assert(gv[y as int].len() == n);
                assert(gv[y as int] == row_view(g@[y as int]));
                assert(g@[y as int]@.len() == n);
            }
            col.push(g[y][x]);
            y = y + 1;
        }
        let ghost r0 = grid_view(r);
        r.push(col);
        proof {
            assert(row_view(col) =~= col_view(gv, x as int)) by {
                assert forall|j: int| 0 <= j < n implies row_view(col)[j] == gv[j][x as int] by {
                    assert(col@[j] == g@[j]@[x as int]);
                    assert(gv[j] == row_view(g@[j]));
                }
            }
            assert forall|j: int| 0 <= j < x + 1 implies #[trigger] grid_view(r)[j] == col_view(
                gv,
                j,
            ) by {
                if j < x {
                    assert(grid_view(r)[j] == r0[j]);
                } else {
                    assert(grid_view(r)[j] == row_view(col));
                }
            }
        }
        x = x + 1;
    }
    proof {
        assert(grid_view(r) =~= transpose_view(gv, n as int));
    }
    r
}

/// Merge every row toward index 0, reporting the total score gained.
///
/// The bound on the grid's sum is a machine limit: the score gained by one
/// pass never exceeds that sum.
pub fn merge_rows(g: &Vec<Vec<u128>>, n: usize) -> (res: (Vec<Vec<u128>>, u128))
    requires
        forall|i: int| 0 <= i < grid_view(*g).len() ==> (#[trigger] grid_view(*g)[i]).len() == n,
        grid_sum(grid_view(*g)) <= u128::MAX,
    ensures
        grid_view(res.0) == merge_rows_view(grid_view(*g), n as nat),
        res.0@.len() == g@.len(),
        res.1 as int == rows_score(grid_view(*g)),
{
    let ghost gv = grid_view(*g);
    proof {
        lemma_grid_view_nonneg(*g);
    }
    let m = g.len();
    let mut out: Vec<Vec<u128>> = Vec::new();
    let mut delta: u128 = 0;
    let mut i: usize = 0;
    while i < m
        invariant
            gv == grid_view(*g),
            grid_nonneg(gv),
            forall|j: int| 0 <= j < gv.len() ==> (#[trigger] gv[j]).len() == n,
            grid_sum(gv) <= u128::MAX,
            m == g@.len(),
            i <= m,
            out@.len() == i,
            forall|j: int| 0 <= j < i ==> #[trigger] grid_view(out)[j] == merge_full(
                gv[j],
                n as nat,
            ),
            delta as int == rows_score(gv.take(i as int)),
        decreases m - i,
    {
        proof {
            assert(gv[i as int] == row_view(g@[i as int]));
            lemma_row_sum_le_grid_sum(gv, i as int);
        }
        let (row, d) = merge_row(&g[i]);
        proof {
            lemma_rows_score_take_step(gv, i as int);
            lemma_rows_score_take_le(gv, i as int + 1);
            assert(grid_nonneg(gv.take(i as int))) by {
                assert(forall|j: int|
                    0 <= j < gv.take(i as int).len() ==> #[trigger] gv.take(i as int)[j] == gv[j]);
            }
            lemma_rows_score_bounds(gv.take(i as int));
            lemma_grid_sum_nonneg(gv);
        }
        let ghost out0 = grid_view(out);
        out.push(row);
        delta = delta + d;
        proof {
            assert forall|j: int| 0 <= j < i + 1 implies #[trigger] grid_view(out)[j]
                == merge_full(gv[j], n as nat) by {
                if j < i {
                    assert(grid_view(out)[j] == out0[j]);
                } else {
                    assert(grid_view(out)[j] == row_view(row));
                }
            }
        }
        i = i + 1;
    }
    proof {
        assert(gv.take(m as int) =~= gv);
        assert(grid_view(out) =~= merge_rows_view(gv, n as nat));
    }
    (out, delta)
}

} // verus!
