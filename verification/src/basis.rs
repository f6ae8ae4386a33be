//! A basis of a null space of higher dimension, by elimination on the
//! columns of the matrix augmented with an identity.

use crate::echelon::{echelon, lead, lemma_echelon_lead_lower, lemma_echelon_rank_bound, lemma_lead};
use crate::elimination::{
    elim_xs, elim_ys, eliminate, lemma_eliminate_gen_op, lemma_eliminate_row,
    lemma_eliminate_row_pattern,
};
use crate::matrix::{identity, in_null, mat_fits_i32, rect, swap_rows, transpose};
use crate::normal::{
    finish, finish_all, finished_upto, is_normal, lemma_finish, lemma_finished_independent,
};
use crate::span::{
    gen_op, independent, lemma_gen_op_independent, lemma_identity_independent,
    lemma_independent_nonzero, lemma_subrange_independent, lemma_swap_independent,
};
use crate::vector::{
    dot, dot_upto, is_zero, lemma_dot_comb, lemma_dot_symm, lemma_dot_unit, lemma_dot_zero,
    row_comb, unit,
};
use vstd::prelude::*;

verus! {

/// The first `rank` rows of `e` above the identity matrix of size `cols`.
pub open spec fn augmented(e: Seq<Seq<int>>, cols: nat, rank: nat) -> Seq<Seq<int>> {
    Seq::new(
        rank + cols,
        |k: int|
            if k < rank {
                e[k]
            } else {
                unit(cols, k - rank)
            },
    )
}

/// The first row at or after `lo` with a nonzero entry in column `c`, or
/// the number of rows if there is none.
pub open spec fn first_nonzero(w: Seq<Seq<int>>, c: int, lo: int) -> int
    decreases w.len() - lo,
{
    if lo >= w.len() {
        w.len() as int
    } else if w[lo][c] != 0 {
        lo
    } else {
        first_nonzero(w, c, lo + 1)
    }
}

/// Fraction-free elimination on the columns of an augmented matrix, seen as
/// the rows of its transpose `w`: for each of the first `rank` positions
/// `i`, the first row from `i` on with a nonzero entry in position `i`
/// becomes the pivot, and the rows after it are cancelled. `None` if an
/// entry leaves the range of `i32`.
pub open spec fn reduce_upper_from(w: Seq<Seq<int>>, i: nat, rank: nat) -> Option<Seq<Seq<int>>>
    decreases rank - i,
{
    if i >= rank {
        Some(w)
    } else {
        let p = first_nonzero(w, i as int, i as int);
        let e = eliminate(swap_rows(w, i as int, p), i as int, i as int);
        if mat_fits_i32(e) {
            reduce_upper_from(e, i + 1, rank)
        } else {
            None
        }
    }
}

/// The vectors read off the reduced transpose: of each row after the first
/// `rank`, the part that began as the identity.
pub open spec fn basis_raw(w: Seq<Seq<int>>, cols: nat, rank: nat) -> Seq<Seq<int>> {
    Seq::new(
        (cols - rank) as nat,
        |k: int| w[rank + k].subrange(rank as int, (rank + cols) as int),
    )
}

/// A basis of the null space of a matrix in echelon form with `rank`
/// pivots and `cols` columns.
pub open spec fn basis(e: Seq<Seq<int>>, cols: nat, rank: nat) -> Option<Seq<Seq<int>>> {
    match reduce_upper_from(transpose(augmented(e, cols, rank), cols), 0, rank) {
        None => None,
        Some(w) => finish_all(basis_raw(w, cols, rank)),
    }
}

/// The state of column elimination before position `i`, on the transpose
/// `w` of the augmented matrix of `e`: the positions before `i` are
/// cancelled in every later row, and the positions from `i` on still have
/// their zeros where the echelon form `e` has them.
pub open spec fn upper_state(
    w: Seq<Seq<int>>,
    e: Seq<Seq<int>>,
    cols: nat,
    rank: nat,
    total: nat,
    i: nat,
) -> bool {
    &&& w.len() == cols
    &&& rect(w, total)
    &&& rank <= total
    &&& echelon(e, cols, rank)
    &&& i <= rank
    &&& forall|c: int, k: int| 0 <= k < i && k < c < cols ==> #[trigger] w[c][k] == 0
    &&& forall|c: int, k: int|
        i <= k < rank && 0 <= c < cols ==> (#[trigger] w[c][k] != 0 <==> e[k][c] != 0)
}

/// Of each row of the transpose, the part that began as the identity.
pub open spec fn right_parts(w: Seq<Seq<int>>, rank: nat, cols: nat) -> Seq<Seq<int>> {
    Seq::new(w.len(), |c: int| w[c].subrange(rank as int, (rank + cols) as int))
}

/// Whether a row of the transpose records its own origin: each of its
/// first `rank` entries is the dot product of the matching row of `e` with
/// the rest of the row.
pub open spec fn row_rel(v: Seq<int>, e: Seq<Seq<int>>, rank: nat, cols: nat) -> bool {
    &&& v.len() == rank + cols
    &&& forall|k: int|
        0 <= k < rank ==> #[trigger] v[k] == dot_upto(
            e[k],
            v.subrange(rank as int, (rank + cols) as int),
            cols,
        )
}

/// Whether every row of the transpose records its own origin.
pub open spec fn all_row_rel(w: Seq<Seq<int>>, e: Seq<Seq<int>>, rank: nat, cols: nat) -> bool {
    forall|c: int| 0 <= c < w.len() ==> row_rel(#[trigger] w[c], e, rank, cols)
}

/// What `first_nonzero` returns: the entries from `lo` up to it are zero,
/// and the entry at it is not.
pub proof fn lemma_first_nonzero(w: Seq<Seq<int>>, c: int, lo: int)
    requires
        0 <= lo <= w.len(),
    ensures
        lo <= first_nonzero(w, c, lo) <= w.len(),
        forall|k: int| lo <= k < first_nonzero(w, c, lo) ==> (#[trigger] w[k])[c] == 0,
        first_nonzero(w, c, lo) < w.len() ==> w[first_nonzero(w, c, lo)][c] != 0,
    decreases w.len() - lo,
{
    if lo < w.len() && w[lo][c] == 0 {
        lemma_first_nonzero(w, c, lo + 1);
    }
}

/// The transpose of the augmented matrix is a valid state at position 0.
pub proof fn lemma_upper_start(e: Seq<Seq<int>>, cols: nat, rank: nat)
    requires
        echelon(e, cols, rank),
    ensures
        upper_state(transpose(augmented(e, cols, rank), cols), e, cols, rank, rank + cols, 0),
{
    let a = augmented(e, cols, rank);
    let w = transpose(a, cols);
    assert forall|c: int, k: int| 0 <= k < rank && 0 <= c < cols implies (#[trigger] w[c][k] != 0
        <==> e[k][c] != 0) by {
        assert(w[c][k] == a[k][c]);
    }
}

/// At each position the pivot exists: it is the row of the transpose that
/// matches the leading entry of the echelon row. One step leads to the next
/// state.
pub proof fn lemma_upper_step(
    w: Seq<Seq<int>>,
    e: Seq<Seq<int>>,
    cols: nat,
    rank: nat,
    total: nat,
    i: nat,
)
    requires
        upper_state(w, e, cols, rank, total, i),
        i < rank,
    ensures
        first_nonzero(w, i as int, i as int) == lead(e[i as int]),
        i <= first_nonzero(w, i as int, i as int) < cols,
        w[first_nonzero(w, i as int, i as int)][i as int] != 0,
        upper_state(
            eliminate(
                swap_rows(w, i as int, first_nonzero(w, i as int, i as int)),
                i as int,
                i as int,
            ),
            e,
            cols,
            rank,
            total,
            i + 1,
        ),
{
    let p = first_nonzero(w, i as int, i as int);
    let l = lead(e[i as int]) as int;
    lemma_echelon_rank_bound(e, cols, rank);
    lemma_first_nonzero(w, i as int, i as int);
    lemma_echelon_lead_lower(e, cols, rank, i as int);
    lemma_lead(e[i as int]);
    assert(e[i as int].len() == cols);
    assert(w[l][i as int] != 0);
    assert forall|c: int| i <= c < l implies (#[trigger] w[c])[i as int] == 0 by {
        assert(w[c][i as int] != 0 <==> e[i as int][c] != 0);
    }
    assert(p == l);
    let sw = swap_rows(w, i as int, p);
    let n = eliminate(sw, i as int, i as int);
    assert(sw[i as int] == w[p]);
    assert(rect(sw, total));
    assert forall|c: int| 0 <= c < n.len() implies (#[trigger] n[c]).len() == total by {
        if c > i {
            lemma_eliminate_row(sw[c], sw[i as int], i as int, sw[c]);
        }
    }
    assert forall|c: int, k: int| 0 <= k < i + 1 && k < c < cols implies #[trigger] n[c][k]
        == 0 by {
        if c > i {
            lemma_eliminate_row(sw[c], sw[i as int], i as int, sw[c]);
            if k < i {
                assert(w[p][k] == 0);
                if c == p {
                    assert(sw[c] == w[i as int]);
                    assert(w[i as int][k] == 0);
                } else {
                    assert(sw[c] == w[c]);
                    assert(w[c][k] == 0);
                }
            }
        } else if c == i {
            assert(w[p][k] == 0);
        } else {
            assert(n[c] == w[c]);
            assert(w[c][k] == 0);
        }
    }
    assert forall|c: int, k: int| i + 1 <= k < rank && 0 <= c < cols implies (#[trigger] n[c][k]
        != 0 <==> e[k][c] != 0) by {
        lemma_echelon_lead_lower(e, cols, rank, k);
        lemma_lead(e[k]);
        assert(e[k].len() == cols);
        assert(lead(e[i as int]) < lead(e[k]));
        assert(e[k][p] == 0);
        assert(e[k][i as int] == 0);
        assert(w[p][k] != 0 <==> e[k][p] != 0);
        assert(w[i as int][k] != 0 <==> e[k][i as int] != 0);
        assert(w[c][k] != 0 <==> e[k][c] != 0);
        if c > i {
            lemma_eliminate_row_pattern(sw[c], sw[i as int], i as int, k);
            if c == p {
                assert(sw[c] == w[i as int]);
            } else {
                assert(sw[c] == w[c]);
            }
        } else if c == i {
            assert(n[c] == w[p]);
        } else {
            assert(n[c] == w[c]);
        }
    }
}

/// A combination of two rows that record their origin records its own.
pub proof fn lemma_row_rel_comb(
    a: Seq<int>,
    x: int,
    b: Seq<int>,
    y: int,
    e: Seq<Seq<int>>,
    rank: nat,
    cols: nat,
)
    requires
        row_rel(a, e, rank, cols),
        row_rel(b, e, rank, cols),
    ensures
        row_rel(row_comb(a, x, b, y), e, rank, cols),
{
    let v = row_comb(a, x, b, y);
    let lo = rank as int;
    let hi = (rank + cols) as int;
    let ra = a.subrange(lo, hi);
    let rb = b.subrange(lo, hi);
    assert(v.subrange(lo, hi) =~= row_comb(ra, x, rb, y));
    assert forall|k: int| 0 <= k < rank implies #[trigger] v[k] == dot_upto(
        e[k],
        v.subrange(lo, hi),
        cols,
    ) by {
        lemma_dot_symm(e[k], row_comb(ra, x, rb, y), cols);
        lemma_dot_comb(ra, x, rb, y, e[k], cols);
        lemma_dot_symm(ra, e[k], cols);
        lemma_dot_symm(rb, e[k], cols);
        assert(a[k] == dot_upto(e[k], ra, cols));
        assert(b[k] == dot_upto(e[k], rb, cols));
        assert(a[k] * x - b[k] * y == x * a[k] - y * b[k]) by (nonlinear_arith);
    }
}

/// One step of column elimination keeps the right parts independent and
/// the rows recording their origin.
pub proof fn lemma_upper_step_keeps(
    w: Seq<Seq<int>>,
    e: Seq<Seq<int>>,
    cols: nat,
    rank: nat,
    i: nat,
)
    requires
        upper_state(w, e, cols, rank, rank + cols, i),
        i < rank,
        independent(right_parts(w, rank, cols), cols),
        all_row_rel(w, e, rank, cols),
    ensures
        independent(
            right_parts(
                eliminate(
                    swap_rows(w, i as int, first_nonzero(w, i as int, i as int)),
                    i as int,
                    i as int,
                ),
                rank,
                cols,
            ),
            cols,
        ),
        all_row_rel(
            eliminate(
                swap_rows(w, i as int, first_nonzero(w, i as int, i as int)),
                i as int,
                i as int,
            ),
            e,
            rank,
            cols,
        ),
{
    let p = first_nonzero(w, i as int, i as int);
    lemma_upper_step(w, e, cols, rank, rank + cols, i);
    let sw = swap_rows(w, i as int, p);
    let n = eliminate(sw, i as int, i as int);
    let r0 = right_parts(w, rank, cols);
    let r1 = right_parts(sw, rank, cols);
    let r2 = right_parts(n, rank, cols);
    lemma_echelon_rank_bound(e, cols, rank);
    assert(sw[i as int] == w[p]);
    assert(r1 =~= swap_rows(r0, i as int, p));
    lemma_swap_independent(r0, cols, i as int, p);
    lemma_eliminate_gen_op(sw, i as int, i as int);
    let xs = elim_xs(sw, i as int, i as int);
    let ys = elim_ys(sw, i as int, i as int);
    assert(rect(sw, rank + cols));
    assert forall|c: int| 0 <= c < r1.len() implies (#[trigger] r1[c]).len() == cols by {
        assert(sw[c].len() == rank + cols);
    }
    lemma_gen_op_independent(r1, cols, i as int, xs, ys);
    assert(r2 =~= gen_op(r1, i as int, xs, ys)) by {
        assert forall|c: int| 0 <= c < r2.len() implies #[trigger] r2[c] == gen_op(
            r1,
            i as int,
            xs,
            ys,
        )[c] by {
            assert(sw[c].len() == rank + cols);
            if c > i {
                assert(r2[c] =~= row_comb(r1[c], xs[c], r1[i as int], ys[c]));
            }
        }
    }
    assert forall|c: int| 0 <= c < n.len() implies row_rel(#[trigger] n[c], e, rank, cols) by {
        assert(row_rel(w[c], e, rank, cols));
        assert(row_rel(w[p], e, rank, cols));
        assert(row_rel(w[i as int], e, rank, cols));
        assert(row_rel(sw[c], e, rank, cols));
        if c > i {
            lemma_row_rel_comb(sw[c], xs[c], sw[i as int], ys[c], e, rank, cols);
        }
    }
}

/// The transpose of the augmented matrix has the identity as its right
/// parts, and its rows record their origin.
pub proof fn lemma_upper_start_keeps(e: Seq<Seq<int>>, cols: nat, rank: nat)
    requires
        echelon(e, cols, rank),
    ensures
        independent(right_parts(transpose(augmented(e, cols, rank), cols), rank, cols), cols),
        all_row_rel(transpose(augmented(e, cols, rank), cols), e, rank, cols),
{
    let a = augmented(e, cols, rank);
    let w = transpose(a, cols);
    let r = right_parts(w, rank, cols);
    assert(r =~~= identity(cols)) by {
        assert forall|c: int, j: int| 0 <= c < cols && 0 <= j < cols implies #[trigger] r[c][j]
            == identity(cols)[c][j] by {
            assert(w[c][rank + j] == a[rank + j][c]);
        }
    }
    lemma_identity_independent(cols);
    assert forall|c: int| 0 <= c < w.len() implies row_rel(#[trigger] w[c], e, rank, cols) by {
        assert(r[c] == unit(cols, c));
        assert(w[c].subrange(rank as int, (rank + cols) as int) == r[c]);
        assert forall|k: int| 0 <= k < rank implies #[trigger] w[c][k] == dot_upto(
            e[k],
            w[c].subrange(rank as int, (rank + cols) as int),
            cols,
        ) by {
            assert(w[c][k] == a[k][c]);
            lemma_dot_symm(e[k], unit(cols, c), cols);
            lemma_dot_unit(cols, c, e[k], cols);
        }
    }
}

/// Column elimination from a valid state ends in a valid state at position
/// `rank`, with the right parts independent and the rows recording their origin.
pub proof fn lemma_reduce_upper(w: Seq<Seq<int>>, e: Seq<Seq<int>>, cols: nat, rank: nat, i: nat)
    requires
        upper_state(w, e, cols, rank, rank + cols, i),
        independent(right_parts(w, rank, cols), cols),
        all_row_rel(w, e, rank, cols),
        reduce_upper_from(w, i, rank) is Some,
    ensures
        upper_state(reduce_upper_from(w, i, rank)->Some_0, e, cols, rank, rank + cols, rank),
        independent(right_parts(reduce_upper_from(w, i, rank)->Some_0, rank, cols), cols),
        all_row_rel(reduce_upper_from(w, i, rank)->Some_0, e, rank, cols),
    decreases rank - i,
{
    if i < rank {
        let p = first_nonzero(w, i as int, i as int);
        let n = eliminate(swap_rows(w, i as int, p), i as int, i as int);
        lemma_upper_step(w, e, cols, rank, rank + cols, i);
        lemma_upper_step_keeps(w, e, cols, rank, i);
        lemma_reduce_upper(n, e, cols, rank, i + 1);
    }
}

/// The basis of the null space has one vector for each column without
/// pivot; each vector has one entry per column, balances every row and is
/// in normal form; and the vectors are linearly independent.
pub proof fn lemma_basis(e: Seq<Seq<int>>, cols: nat, rank: nat)
    requires
        echelon(e, cols, rank),
        basis(e, cols, rank) is Some,
    ensures
        rank <= cols,
        basis(e, cols, rank)->Some_0.len() == cols - rank,
        forall|k: int|
            0 <= k < cols - rank ==> {
                &&& (#[trigger] basis(e, cols, rank)->Some_0[k]).len() == cols
                &&& in_null(e, basis(e, cols, rank)->Some_0[k])
                &&& is_normal(basis(e, cols, rank)->Some_0[k])
            },
        independent(basis(e, cols, rank)->Some_0, cols),
{
    lemma_echelon_rank_bound(e, cols, rank);
    let w0 = transpose(augmented(e, cols, rank), cols);
    lemma_upper_start(e, cols, rank);
    lemma_upper_start_keeps(e, cols, rank);
    lemma_reduce_upper(w0, e, cols, rank, 0);
    let w = reduce_upper_from(w0, 0, rank)->Some_0;
    let raw = basis_raw(w, cols, rank);
    let b = basis(e, cols, rank)->Some_0;
    let rp = right_parts(w, rank, cols);
    assert(raw =~= rp.subrange(rank as int, cols as int));
    lemma_subrange_independent(rp, cols, rank as int, cols as int);
    assert forall|k: int| 0 <= k < raw.len() implies (#[trigger] raw[k]).len() == cols by {
        assert(w[rank + k].len() == rank + cols);
    }
    assert forall|k: int| 0 <= k < cols - rank implies {
        &&& (#[trigger] b[k]).len() == cols
        &&& in_null(e, b[k])
        &&& is_normal(b[k])
    } by {
        lemma_independent_nonzero(raw, cols, k);
        assert(row_rel(w[rank + k], e, rank, cols));
        assert forall|j: int| 0 <= j < e.len() implies dot(#[trigger] e[j], raw[k]) == 0 by {
            assert(e[j].len() == cols);
            if j < rank {
                assert(w[rank + k][j] == 0);
            } else {
                assert(is_zero(e[j]));
                lemma_dot_zero(e[j], raw[k], cols);
            }
        }
        assert(finish(raw[k]) is Some);
        lemma_finish(e, cols, raw[k]);
    }
    lemma_finished_independent(raw, cols, raw.len());
    assert(b =~= finished_upto(raw, raw.len())) by {
        assert forall|k: int| 0 <= k < raw.len() implies #[trigger] b[k] == finished_upto(
            raw,
            raw.len(),
        )[k] by {
            assert(finish(raw[k]) is Some);
        }
    }
}

} // verus!
