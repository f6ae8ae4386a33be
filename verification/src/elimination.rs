//! Fraction-free Gaussian elimination as a function on matrices, and what
//! it guarantees: an echelon form with the same null space.

use crate::echelon::{echelon, lead, lemma_lead_is};
use crate::matrix::{in_null, mat_fits_i32, rect, same_null_space, swap_rows};
use crate::num::{abs, lcm_div_spec, lemma_lcm_div};
use crate::span::gen_op;
use crate::vector::{dot, is_zero, lemma_dot_comb, row_comb};
use vstd::prelude::*;

verus! {

/// The first row in `lo..hi` whose entry in column `c` has the least
/// nonzero absolute value, if that column has a nonzero entry there.
pub open spec fn least_pivot(m: Seq<Seq<int>>, c: int, lo: int, hi: int) -> Option<int>
    decreases hi - lo,
{
    if hi <= lo {
        None
    } else {
        let prev = least_pivot(m, c, lo, hi - 1);
        let x = m[hi - 1][c];
        if x == 0 {
            prev
        } else {
            match prev {
                None => Some(hi - 1),
                Some(p) => if abs(x) < abs(m[p][c]) {
                    Some(hi - 1)
                } else {
                    prev
                },
            }
        }
    }
}

/// A row after its entry in column `c` has been cancelled against the pivot
/// row: both rows are scaled to the least common multiple of the two entries
/// and subtracted.
pub open spec fn eliminate_row(row: Seq<int>, pivot_row: Seq<int>, c: int) -> Seq<int> {
    if row[c] == 0 {
        row
    } else {
        let m = lcm_div_spec(row[c], pivot_row[c]);
        row_comb(row, m.0, pivot_row, m.1)
    }
}

/// The matrix after every row below the pivot row `r` has been cancelled
/// in column `c`.
pub open spec fn eliminate(m: Seq<Seq<int>>, r: int, c: int) -> Seq<Seq<int>> {
    Seq::new(
        m.len(),
        |k: int|
            if k > r {
                eliminate_row(m[k], m[r], c)
            } else {
                m[k]
            },
    )
}

/// Fraction-free Gaussian elimination from the cursors `(r, c)` on: the
/// echelon form and the number of pivots, or `None` if an entry leaves the
/// range of `i32` on the way.
pub open spec fn reduce_from(m: Seq<Seq<int>>, cols: nat, r: nat, c: nat) -> Option<
    (Seq<Seq<int>>, nat),
>
    decreases cols - c,
{
    if r >= m.len() || c >= cols {
        Some((m, r))
    } else {
        match least_pivot(m, c as int, r as int, m.len() as int) {
            None => reduce_from(m, cols, r, c + 1),
            Some(p) => {
                let e = eliminate(swap_rows(m, r as int, p), r as int, c as int);
                if mat_fits_i32(e) {
                    reduce_from(e, cols, r + 1, c + 1)
                } else {
                    None
                }
            },
        }
    }
}

/// Fraction-free Gaussian elimination of a whole matrix.
pub open spec fn reduce(m: Seq<Seq<int>>) -> Option<(Seq<Seq<int>>, nat)> {
    reduce_from(m, m[0].len(), 0, 0)
}

/// The state of elimination at the cursors `(r, c)`: the rows above `r` are
/// in echelon form with pivots left of column `c`, and the rows from `r` on
/// are zero left of column `c`.
pub open spec fn partial_echelon(m: Seq<Seq<int>>, cols: nat, r: nat, c: nat) -> bool {
    &&& rect(m, cols)
    &&& r <= m.len()
    &&& c <= cols
    &&& forall|i: int| 0 <= i < r ==> lead(#[trigger] m[i]) < c
    &&& forall|i: int, j: int| 0 <= i < j < r ==> lead(#[trigger] m[i]) < lead(#[trigger] m[j])
    &&& forall|i: int, j: int| r <= i < m.len() && 0 <= j < c ==> #[trigger] m[i][j] == 0
}

/// The factors by which cancelling column `c` against row `r` scales each row.
pub open spec fn elim_xs(m: Seq<Seq<int>>, r: int, c: int) -> Seq<int> {
    Seq::new(
        m.len(),
        |k: int|
            if m[k][c] == 0 {
                1
            } else {
                lcm_div_spec(m[k][c], m[r][c]).0
            },
    )
}

/// The multiples of row `r` that cancelling column `c` subtracts from each row.
pub open spec fn elim_ys(m: Seq<Seq<int>>, r: int, c: int) -> Seq<int> {
    Seq::new(
        m.len(),
        |k: int|
            if m[k][c] == 0 {
                0
            } else {
                lcm_div_spec(m[k][c], m[r][c]).1
            },
    )
}

/// What the row found by `least_pivot` satisfies.
pub proof fn lemma_least_pivot(m: Seq<Seq<int>>, c: int, lo: int, hi: int)
    ensures
        match least_pivot(m, c, lo, hi) {
            Some(p) => {
                &&& lo <= p < hi
                &&& m[p][c] != 0
                &&& forall|k: int|
                    lo <= k < hi && (#[trigger] m[k])[c] != 0 ==> abs(m[p][c]) <= abs(m[k][c]) && (k
                        < p ==> abs(m[p][c]) < abs(m[k][c]))
            },
            None => forall|k: int| lo <= k < hi ==> (#[trigger] m[k])[c] == 0,
        },
    decreases hi - lo,
{
    if hi > lo {
        lemma_least_pivot(m, c, lo, hi - 1);
    }
}

/// Exchanging two rows keeps the null space.
pub proof fn lemma_swap_null_space(m: Seq<Seq<int>>, i: int, j: int)
    requires
        0 <= i < m.len(),
        0 <= j < m.len(),
    ensures
        same_null_space(m, swap_rows(m, i, j)),
{
    let s = swap_rows(m, i, j);
    assert forall|x: Seq<int>| in_null(m, x) <==> in_null(s, x) by {
        if in_null(m, x) {
            assert forall|k: int| 0 <= k < s.len() implies dot(#[trigger] s[k], x) == 0 by {
                if k == j {
                    assert(s[k] == m[i]);
                } else if k == i {
                    assert(s[k] == m[j]);
                } else {
                    assert(s[k] == m[k]);
                }
            }
        }
        if in_null(s, x) {
            assert forall|k: int| 0 <= k < m.len() implies dot(#[trigger] m[k], x) == 0 by {
                if k == j {
                    assert(m[k] == s[i]);
                } else if k == i {
                    assert(m[k] == s[j]);
                } else {
                    assert(m[k] == s[k]);
                }
            }
        }
    }
}

/// What cancelling one row against the pivot row does: the entry in the
/// pivot column becomes zero, zeros left of it stay, and the dot product
/// with any vector is the matching combination of the two dot products.
pub proof fn lemma_eliminate_row(row: Seq<int>, pivot_row: Seq<int>, c: int, x: Seq<int>)
    requires
        row.len() == pivot_row.len(),
        0 <= c < row.len(),
        pivot_row[c] != 0,
    ensures
        eliminate_row(row, pivot_row, c).len() == row.len(),
        eliminate_row(row, pivot_row, c)[c] == 0,
        forall|j: int|
            0 <= j < row.len() && row[j] == 0 && pivot_row[j] == 0 ==> eliminate_row(
                row,
                pivot_row,
                c,
            )[j] == 0,
        dot(pivot_row, x) == 0 ==> (dot(row, x) == 0 <==> dot(eliminate_row(row, pivot_row, c), x)
            == 0),
{
    if row[c] != 0 {
        let m = lcm_div_spec(row[c], pivot_row[c]);
        lemma_lcm_div(row[c], pivot_row[c]);
        let e = row_comb(row, m.0, pivot_row, m.1);
        assert forall|j: int|
            0 <= j < row.len() && row[j] == 0 && pivot_row[j] == 0 implies e[j] == 0 by {
            assert(0 * m.0 - 0 * m.1 == 0);
        }
        lemma_dot_comb(row, m.0, pivot_row, m.1, x, row.len());
        if dot(pivot_row, x) == 0 {
            assert(dot(e, x) == m.0 * dot(row, x)) by (nonlinear_arith)
                requires
                    dot(e, x) == m.0 * dot(row, x) - m.1 * dot(pivot_row, x),
                    dot(pivot_row, x) == 0,
            ;
            assert(dot(row, x) == 0 <==> dot(e, x) == 0) by (nonlinear_arith)
                requires
                    dot(e, x) == m.0 * dot(row, x),
                    m.0 != 0,
            ;
        }
    }
}

/// Cancelling a row against a pivot row that is zero at position `k` keeps
/// the row's entry at `k` zero or nonzero as it was.
pub proof fn lemma_eliminate_row_pattern(row: Seq<int>, pivot_row: Seq<int>, c: int, k: int)
    requires
        row.len() == pivot_row.len(),
        0 <= c < row.len(),
        0 <= k < row.len(),
        pivot_row[c] != 0,
        pivot_row[k] == 0,
    ensures
        eliminate_row(row, pivot_row, c)[k] != 0 <==> row[k] != 0,
{
    if row[c] != 0 {
        let m = lcm_div_spec(row[c], pivot_row[c]);
        lemma_lcm_div(row[c], pivot_row[c]);
        assert(row[k] * m.0 - 0 * m.1 != 0 <==> row[k] != 0) by (nonlinear_arith)
            requires
                m.0 != 0,
        ;
    }
}

/// Cancelling one row against another keeps the null space.
pub proof fn lemma_replace_null_space(m: Seq<Seq<int>>, cols: nat, r: int, k: int, c: int)
    requires
        rect(m, cols),
        0 <= r < m.len(),
        0 <= k < m.len(),
        r != k,
        0 <= c < cols,
        m[r][c] != 0,
    ensures
        same_null_space(m, m.update(k, eliminate_row(m[k], m[r], c))),
{
    let e = m.update(k, eliminate_row(m[k], m[r], c));
    assert forall|x: Seq<int>| in_null(m, x) <==> in_null(e, x) by {
        assert(e[r] == m[r]);
        lemma_eliminate_row(m[k], m[r], c, x);
        if in_null(m, x) {
            assert(dot(m[r], x) == 0);
            assert(dot(m[k], x) == 0);
            assert forall|i: int| 0 <= i < e.len() implies dot(#[trigger] e[i], x) == 0 by {
                if i != k {
                    assert(e[i] == m[i]);
                }
            }
        }
        if in_null(e, x) {
            assert(dot(e[r], x) == 0);
            assert(dot(e[k], x) == 0);
            assert forall|i: int| 0 <= i < m.len() implies dot(#[trigger] m[i], x) == 0 by {
                if i != k {
                    assert(e[i] == m[i]);
                }
            }
        }
    }
}

/// Cancelling a column below a pivot keeps the null space.
pub proof fn lemma_eliminate_null_space(m: Seq<Seq<int>>, cols: nat, r: int, c: int)
    requires
        rect(m, cols),
        0 <= r < m.len(),
        0 <= c < cols,
        m[r][c] != 0,
    ensures
        same_null_space(m, eliminate(m, r, c)),
{
    let e = eliminate(m, r, c);
    assert forall|x: Seq<int>| in_null(m, x) <==> in_null(e, x) by {
        assert(e[r] == m[r]);
        if in_null(m, x) {
            assert(dot(m[r], x) == 0);
            assert forall|k: int| 0 <= k < e.len() implies dot(#[trigger] e[k], x) == 0 by {
                assert(dot(m[k], x) == 0);
                if k > r {
                    lemma_eliminate_row(m[k], m[r], c, x);
                }
            }
        }
        if in_null(e, x) {
            assert(dot(e[r], x) == 0);
            assert forall|k: int| 0 <= k < m.len() implies dot(#[trigger] m[k], x) == 0 by {
                assert(dot(e[k], x) == 0);
                if k > r {
                    lemma_eliminate_row(m[k], m[r], c, x);
                }
            }
        }
    }
}

/// Cancelling a column is a row operation whose scale factors are not zero.
pub proof fn lemma_eliminate_gen_op(m: Seq<Seq<int>>, r: int, c: int)
    requires
        0 <= r < m.len(),
        m[r][c] != 0,
    ensures
        eliminate(m, r, c) == gen_op(m, r, elim_xs(m, r, c), elim_ys(m, r, c)),
        forall|k: int| 0 <= k < m.len() ==> #[trigger] elim_xs(m, r, c)[k] != 0,
{
    let xs = elim_xs(m, r, c);
    let ys = elim_ys(m, r, c);
    let e = eliminate(m, r, c);
    let g = gen_op(m, r, xs, ys);
    assert forall|k: int| 0 <= k < m.len() implies #[trigger] xs[k] != 0 by {
        if m[k][c] != 0 {
            lemma_lcm_div(m[k][c], m[r][c]);
        }
    }
    assert forall|k: int| 0 <= k < m.len() implies #[trigger] e[k] == g[k] by {
        if k > r && m[k][c] == 0 {
            assert(row_comb(m[k], 1, m[r], 0) =~= m[k]);
        }
    }
    assert(e =~= g);
}

/// One pivot step keeps the rows rectangular and carries the echelon state
/// from the cursors `(r, c)` to `(r + 1, c + 1)`.
pub proof fn lemma_pivot_step_echelon(m: Seq<Seq<int>>, cols: nat, r: nat, c: nat, p: int)
    requires
        partial_echelon(m, cols, r, c),
        r <= p < m.len(),
        c < cols,
        m[p][c as int] != 0,
    ensures
        partial_echelon(eliminate(swap_rows(m, r as int, p), r as int, c as int), cols, r + 1, c + 1),
{
    let s = swap_rows(m, r as int, p);
    let e = eliminate(s, r as int, c as int);
    assert(s[r as int] == m[p]);
    assert(rect(s, cols));
    assert forall|i: int| 0 <= i < e.len() implies (#[trigger] e[i]).len() == cols by {
        if i > r {
            lemma_eliminate_row(s[i], s[r as int], c as int, s[i]);
        }
    }
    lemma_lead_is(m[p], c as int);
    assert forall|i: int| 0 <= i < r + 1 implies lead(#[trigger] e[i]) < c + 1 by {
        if i < r {
            assert(e[i] == m[i]);
        }
    }
    assert forall|i: int, j: int| 0 <= i < j < r + 1 implies lead(#[trigger] e[i]) < lead(
        #[trigger] e[j],
    ) by {
        assert(e[i] == m[i]);
        if j < r {
            assert(e[j] == m[j]);
        }
    }
    assert forall|i: int, j: int| r + 1 <= i < e.len() && 0 <= j < c + 1 implies #[trigger] e[i][j]
        == 0 by {
        lemma_eliminate_row(s[i], s[r as int], c as int, s[i]);
        if j < c {
            if i == p {
                assert(s[i] == m[r as int]);
            } else {
                assert(s[i] == m[i]);
            }
            assert(s[i][j] == 0);
            assert(s[r as int][j] == 0);
        }
    }
}

/// Elimination from a valid state ends in echelon form, keeps the shape of
/// the matrix and keeps its null space.
pub proof fn lemma_reduce_from(m: Seq<Seq<int>>, cols: nat, r: nat, c: nat)
    requires
        partial_echelon(m, cols, r, c),
        reduce_from(m, cols, r, c) is Some,
    ensures
        ({
            let e = reduce_from(m, cols, r, c)->Some_0.0;
            let rank = reduce_from(m, cols, r, c)->Some_0.1;
            &&& e.len() == m.len()
            &&& echelon(e, cols, rank)
            &&& same_null_space(m, e)
            &&& r <= rank
        }),
    decreases cols - c,
{
    if r >= m.len() || c >= cols {
        // The cursors have run out: the rows from `r` on are zero.
        assert forall|i: int| r <= i < m.len() implies is_zero(#[trigger] m[i]) by {}
    } else {
        lemma_least_pivot(m, c as int, r as int, m.len() as int);
        match least_pivot(m, c as int, r as int, m.len() as int) {
            None => {
                lemma_reduce_from(m, cols, r, c + 1);
            },
            Some(p) => {
                let s = swap_rows(m, r as int, p);
                let e = eliminate(s, r as int, c as int);
                lemma_pivot_step_echelon(m, cols, r, c, p);
                lemma_swap_null_space(m, r as int, p);
                lemma_eliminate_null_space(s, cols, r as int, c as int);
                lemma_reduce_from(e, cols, r + 1, c + 1);
                let f = reduce_from(e, cols, r + 1, c + 1)->Some_0.0;
                assert forall|x: Seq<int>| in_null(m, x) <==> in_null(f, x) by {
                    assert(in_null(m, x) <==> in_null(s, x));
                    assert(in_null(s, x) <==> in_null(e, x));
                    assert(in_null(e, x) <==> in_null(f, x));
                }
            },
        }
    }
}

} // verus!
