//! Integer matrices as sequences of rows.

use crate::num::in_i32;
use crate::vector::{dot, ints, unit, zeros};
use vstd::prelude::*;

verus! {

/// The view of a matrix of machine integers: its rows as mathematical vectors.
pub open spec fn rows(m: Seq<Vec<i32>>) -> Seq<Seq<int>> {
    Seq::new(m.len(), |i: int| ints(m[i]@))
}

/// Whether every row of `m` has `cols` entries.
pub open spec fn rect(m: Seq<Seq<int>>, cols: nat) -> bool {
    forall|i: int| 0 <= i < m.len() ==> (#[trigger] m[i]).len() == cols
}

/// Whether every entry of `v` can be held in an `i32`.
pub open spec fn fits_i32(v: Seq<int>) -> bool {
    forall|j: int| 0 <= j < v.len() ==> in_i32(#[trigger] v[j])
}

/// Whether every entry of `m` can be held in an `i32`.
pub open spec fn mat_fits_i32(m: Seq<Seq<int>>) -> bool {
    forall|i: int| 0 <= i < m.len() ==> fits_i32(#[trigger] m[i])
}

/// Column `c` of `m`.
pub open spec fn col(m: Seq<Seq<int>>, c: int) -> Seq<int> {
    Seq::new(m.len(), |k: int| m[k][c])
}

/// The transpose of a matrix with `cols` columns: its columns as rows.
pub open spec fn transpose(m: Seq<Seq<int>>, cols: nat) -> Seq<Seq<int>> {
    Seq::new(cols, |c: int| col(m, c))
}

/// The matrix `m` with rows `i` and `j` exchanged.
pub open spec fn swap_rows(m: Seq<Seq<int>>, i: int, j: int) -> Seq<Seq<int>> {
    m.update(i, m[j]).update(j, m[i])
}

/// The identity matrix of size `n`.
pub open spec fn identity(n: nat) -> Seq<Seq<int>> {
    Seq::new(n, |i: int| unit(n, i))
}

/// Whether `x` is orthogonal to every row of `m`: the coefficients `x`
/// balance every row.
pub open spec fn in_null(m: Seq<Seq<int>>, x: Seq<int>) -> bool {
    forall|i: int| 0 <= i < m.len() ==> dot(#[trigger] m[i], x) == 0
}

/// Whether two matrices are balanced by the same vectors.
pub open spec fn same_null_space(a: Seq<Seq<int>>, b: Seq<Seq<int>>) -> bool {
    forall|x: Seq<int>| in_null(a, x) <==> in_null(b, x)
}

/// The transpose of a matrix of machine integers has entries in range.
pub proof fn lemma_transpose_fits(mat: Seq<Vec<i32>>, cols: nat)
    requires
        rect(rows(mat), cols),
    ensures
        mat_fits_i32(transpose(rows(mat), cols)),
{
    let t = transpose(rows(mat), cols);
    assert forall|c: int| 0 <= c < t.len() implies fits_i32(#[trigger] t[c]) by {
        assert forall|r: int| 0 <= r < t[c].len() implies in_i32(#[trigger] t[c][r]) by {
            assert(rows(mat)[r].len() == cols);
        }
    }
}

/// Tells whether every row of a matrix has as many entries as the first.
pub fn is_rectangular(mat: &Vec<Vec<i32>>) -> (b: bool)
    ensures
        b <==> (mat.len() > 0 ==> rect(rows(mat@), mat[0].len() as nat)),
{
    let n = mat.len();
    if n == 0 {
        return true;
    }
    let cols = mat[0].len();
    let mut i: usize = 0;
    while i < n
        invariant
            n == mat.len(),
            n > 0,
            cols == mat[0].len(),
            i <= n,
            forall|k: int| 0 <= k < i ==> (#[trigger] rows(mat@)[k]).len() == cols,
        decreases n - i,
    {
        if mat[i].len() != cols {
            assert(rows(mat@)[i as int].len() != cols);
            return false;
        }
        i += 1;
    }
    true
}

/// Builds a row of `n` zeros.
pub fn zero_row(n: usize) -> (v: Vec<i32>)
    ensures
        ints(v@) == zeros(n as nat),
{
    let mut v: Vec<i32> = Vec::new();
    let mut j: usize = 0;
    while j < n
        invariant
            j <= n,
            v.len() == j,
            forall|k: int| 0 <= k < j ==> v[k] == 0,
        decreases n - j,
    {
        v.push(0);
        j += 1;
    }
    assert(ints(v@) =~= zeros(n as nat));
    v
}

/// Builds the `i`-th unit vector of length `n`.
pub fn unit_vec(n: usize, i: usize) -> (v: Vec<i32>)
    ensures
        ints(v@) == unit(n as nat, i as int),
{
    let mut v: Vec<i32> = Vec::new();
    let mut j: usize = 0;
    while j < n
        invariant
            j <= n,
            v.len() == j,
            forall|k: int| 0 <= k < j ==> v[k] == (if k == i { 1i32 } else { 0i32 }),
        decreases n - j,
    {
        v.push(if j == i { 1 } else { 0 });
        j += 1;
    }
    assert(ints(v@) =~= unit(n as nat, i as int));
    v
}

/// Exchanges rows `i` and `j` of a matrix.
pub fn swap(mat: &mut Vec<Vec<i32>>, i: usize, j: usize)
    requires
        i < old(mat).len(),
        j < old(mat).len(),
    ensures
        final(mat)@ == old(mat)@.update(i as int, old(mat)@[j as int]).update(
            j as int,
            old(mat)@[i as int],
        ),
{
    if i != j {
        let mut held: Vec<i32> = Vec::new();
        core::mem::swap(&mut held, &mut mat[i]);
        core::mem::swap(&mut held, &mut mat[j]);
        core::mem::swap(&mut held, &mut mat[i]);
    }
    assert(mat@ =~= old(mat)@.update(i as int, old(mat)@[j as int]).update(
        j as int,
        old(mat)@[i as int],
    ));
}

} // verus!
