//! Chemical equations and their conservation matrices.

use crate::error::ArithmeticOverflow;
use crate::matrix::{rect, rows, zero_row};
use crate::tally::{
    count_of, distinct, Entries, find_symbol, lemma_position_distinct, lemma_position_from,
    lemma_position_push, position, symbols_of, Tally, views,
};
use crate::term::{atoms, collapse_spec, lemma_collapse_counts, Term};
use vstd::prelude::*;

verus! {

/// A chemical equation.
#[derive(Debug, PartialEq, Eq)]
pub struct ChemEq {
    /// The immediate terms within the equation, starting from the left-hand side.
    pub terms: Vec<Term>,
    /// The number of terms on the left-hand side.
    pub left_len: usize,
}

/// The tally of one term of an equation, collapsed by itself, or `None`
/// on overflow.
pub open spec fn term_tally(term: Term) -> Option<Entries> {
    collapse_spec(term, Seq::empty(), 1)
}

/// The symbols `syms` followed by those of the first `k` entries of `t`
/// that are new, in order.
pub open spec fn merged(syms: Seq<Seq<char>>, t: Entries, k: nat) -> Seq<Seq<char>>
    decreases k,
{
    if k == 0 {
        syms
    } else {
        let prev = merged(syms, t, (k - 1) as nat);
        let sym = t[k - 1].0;
        if position(prev, sym) < prev.len() {
            prev
        } else {
            prev.push(sym)
        }
    }
}

/// The symbols met in the first `n` terms, each once, in the order in which
/// they are first met.
pub open spec fn symbols_upto(terms: Seq<Term>, n: nat) -> Seq<Seq<char>>
    decreases n,
{
    if n == 0 {
        Seq::empty()
    } else {
        let prev = symbols_upto(terms, (n - 1) as nat);
        match term_tally(terms[n - 1]) {
            None => prev,
            Some(t) => merged(prev, t, t.len()),
        }
    }
}

/// The count of `sym` in the tally of term `c`: positive on the left-hand
/// side, negative on the right-hand side.
pub open spec fn signed_count(terms: Seq<Term>, left_len: nat, c: int, sym: Seq<char>) -> int {
    let n = count_of(term_tally(terms[c])->Some_0, sym);
    if c < left_len {
        n
    } else {
        -n
    }
}

/// The atoms of `sym` that term `c` contributes: positive on the left-hand
/// side, negative on the right-hand side.
pub open spec fn signed_atoms(terms: Seq<Term>, left_len: nat, c: int, sym: Seq<char>) -> int {
    if c < left_len {
        atoms(terms[c], sym)
    } else {
        -atoms(terms[c], sym)
    }
}

/// The conservation matrix of an equation: one row for each symbol, in the
/// order of first meeting, and one column for each term; each entry is the
/// number of atoms of the row's symbol in the column's term, negative on
/// the right-hand side.
pub open spec fn conservation_matrix(terms: Seq<Term>, left_len: nat) -> Seq<Seq<int>> {
    let syms = symbols_upto(terms, terms.len());
    Seq::new(
        syms.len(),
        |r: int| Seq::new(terms.len(), |c: int| signed_atoms(terms, left_len, c, syms[r])),
    )
}

/// Whether every count of a tally can be negated in 32 bits.
pub open spec fn negatable(t: Entries) -> bool {
    forall|k: int| 0 <= k < t.len() ==> (#[trigger] t[k]).1 != i32::MIN
}

/// Whether the column of term `c` can be computed in 32 bits: the term
/// collapses without overflow and, on the right-hand side, its counts can
/// be negated.
pub open spec fn term_fits(terms: Seq<Term>, left_len: nat, c: int) -> bool {
    term_tally(terms[c]) is Some && (c >= left_len ==> negatable(term_tally(terms[c])->Some_0))
}

/// Whether the whole conservation matrix can be computed in 32 bits.
pub open spec fn matrix_fits(terms: Seq<Term>, left_len: nat) -> bool {
    forall|c: int| 0 <= c < terms.len() ==> term_fits(terms, left_len, c)
}

/// The entry that the first `k` entries of the tally `t` give for `sym`:
/// its count, with the sign of the side, if it is among them, else zero.
pub open spec fn partial_count(t: Entries, k: nat, left: bool, sym: Seq<char>) -> int {
    let p = position(symbols_of(t), sym);
    if p < k {
        if left {
            t[p as int].1
        } else {
            -t[p as int].1
        }
    } else {
        0
    }
}

/// Whether every symbol of the first `k` entries of `t` is among `syms`.
pub open spec fn covers(syms: Seq<Seq<char>>, t: Entries, k: nat) -> bool {
    forall|q: int| 0 <= q < k ==> position(syms, (#[trigger] t[q]).0) < syms.len()
}

/// The tally of a term that collapses without overflow holds its atoms.
pub proof fn lemma_tally_atoms(term: Term, sym: Seq<char>)
    requires
        term_tally(term) is Some,
    ensures
        count_of(term_tally(term)->Some_0, sym) == atoms(term, sym),
{
    lemma_collapse_counts(term, Seq::empty(), 1, sym);
    assert(count_of(Seq::<(Seq<char>, int)>::empty(), sym) == 0);
}

impl ChemEq {
    /// Whether the equation is well formed: both sides hold a term, and
    /// every term is a list.
    pub open spec fn wf(&self) -> bool {
        &&& 1 <= self.left_len < self.terms.len()
        &&& forall|i: int| 0 <= i < self.terms.len() ==> (#[trigger] self.terms[i]) is List
    }

    /// Sets the coefficients of the terms of this equation, and returns
    /// whether one of them is not positive.
    ///
    /// There must be one coefficient for each term, and every term must be
    /// a list.
    pub fn set_coefs(&mut self, coefs: &[i32]) -> (ill_coef: bool)
        requires
            old(self).terms.len() == coefs.len(),
            forall|i: int| 0 <= i < old(self).terms.len() ==> (#[trigger] old(self).terms[i]) is List,
        ensures
            final(self).left_len == old(self).left_len,
            final(self).terms.len() == old(self).terms.len(),
            forall|i: int|
                0 <= i < coefs.len() ==> #[trigger] final(self).terms[i] == (Term::List {
                    list: old(self).terms[i]->list,
                    n: coefs[i],
                    charge: old(self).terms[i]->charge,
                }),
            ill_coef <==> exists|i: int| 0 <= i < coefs.len() && coefs[i] <= 0,
    {
        let len = self.terms.len();
        let mut ill_coef = false;
        let mut i: usize = 0;
        while i < len
            invariant
                len == coefs.len(),
                len == self.terms.len(),
                len == old(self).terms.len(),
                self.left_len == old(self).left_len,
                i <= len,
                forall|k: int|
                    0 <= k < i ==> #[trigger] self.terms[k] == (Term::List {
                        list: old(self).terms[k]->list,
                        n: coefs[k],
                        charge: old(self).terms[k]->charge,
                    }),
                forall|k: int| i <= k < len ==> #[trigger] self.terms[k] == old(self).terms[k],
                forall|k: int| 0 <= k < len ==> (#[trigger] old(self).terms[k]) is List,
                ill_coef <==> exists|k: int| 0 <= k < i && coefs[k] <= 0,
            decreases len - i,
        {
            let coef = coefs[i];
            match &mut self.terms[i] {
                Term::List { n, .. } => {
                    *n = coef;
                },
                _ => {},
            }
            if coef <= 0 {
                ill_coef = true;
            }
            i += 1;
        }
        ill_coef
    }

    /// Builds the conservation matrix of this equation: one row for each
    /// symbol, in the order in which the symbols are first met, and one
    /// column for each term, negated on the right-hand side.
    ///
    /// Fails if a term does not collapse in 32 bits, or if a count on the
    /// right-hand side cannot be negated.
    pub fn build_matrix(&self) -> (res: Result<Vec<Vec<i32>>, ArithmeticOverflow>)
        ensures
            res is Ok <==> matrix_fits(self.terms@, self.left_len as nat),
            res is Ok ==> rows(res->Ok_0@) == conservation_matrix(
                self.terms@,
                self.left_len as nat,
            ),
            res is Ok ==> rect(rows(res->Ok_0@), self.terms.len() as nat),
    {
        let term_cnt = self.terms.len();
        let ghost terms = self.terms@;
        let ghost left_len = self.left_len as nat;
        let mut names: Vec<String> = Vec::new();
        let mut mat: Vec<Vec<i32>> = Vec::new();

        let mut i: usize = 0;
        while i < term_cnt
            invariant
                term_cnt == self.terms.len(),
                terms == self.terms@,
                left_len == self.left_len,
                i <= term_cnt,
                views(names@) == symbols_upto(terms, i as nat),
                distinct(views(names@)),
                mat.len() == names.len(),
                rect(rows(mat@), term_cnt as nat),
                forall|c: int| 0 <= c < i ==> term_fits(terms, left_len, c),
                forall|c: int|
                    0 <= c < i ==> covers(
                        views(names@),
                        term_tally(#[trigger] terms[c])->Some_0,
                        term_tally(terms[c])->Some_0.len(),
                    ),
                forall|r: int, c: int|
                    0 <= r < mat.len() && 0 <= c < i ==> #[trigger] rows(mat@)[r][c]
                        == signed_count(terms, left_len, c, views(names@)[r]),
                forall|r: int, c: int|
                    0 <= r < mat.len() && i <= c < term_cnt ==> #[trigger] rows(mat@)[r][c] == 0,
            decreases term_cnt - i,
        {
            let mut tally = Tally::new();
            match self.terms[i].collapse(&mut tally, 1) {
                Ok(()) => {},
                Err(err) => {
                    assert(!term_fits(terms, left_len, i as int));
                    return Err(err);
                },
            }
            let ghost t = tally.entries();
            let ghost base = views(names@);
            proof {
                tally.lemma_wf();
                assert(term_tally(terms[i as int]) == Some(t));
            }
            let left = i < self.left_len;
            let cnt = tally.len();
            let mut k: usize = 0;
            while k < cnt
                invariant
                    term_cnt == self.terms.len(),
                    terms == self.terms@,
                    left_len == self.left_len,
                    i < term_cnt,
                    left == (i < left_len),
                    tally.wf(),
                    t == tally.entries(),
                    cnt == t.len(),
                    k <= cnt,
                    distinct(symbols_of(t)),
                    term_tally(terms[i as int]) == Some(t),
                    base == symbols_upto(terms, i as nat),
                    views(names@) == merged(base, t, k as nat),
                    distinct(views(names@)),
                    mat.len() == names.len(),
                    rect(rows(mat@), term_cnt as nat),
                    !left ==> forall|q: int| 0 <= q < k ==> (#[trigger] t[q]).1 != i32::MIN,
                    covers(views(names@), t, k as nat),
                    forall|c: int| 0 <= c < i ==> term_fits(terms, left_len, c),
                    forall|c: int|
                        0 <= c < i ==> covers(
                            views(names@),
                            term_tally(#[trigger] terms[c])->Some_0,
                            term_tally(terms[c])->Some_0.len(),
                        ),
                    forall|r: int, c: int|
                        0 <= r < mat.len() && 0 <= c < i ==> #[trigger] rows(mat@)[r][c]
                            == signed_count(terms, left_len, c, views(names@)[r]),
                    forall|r: int, c: int|
                        0 <= r < mat.len() && i < c < term_cnt ==> #[trigger] rows(mat@)[r][c]
                            == 0,
                    forall|r: int|
                        0 <= r < mat.len() ==> (#[trigger] rows(mat@)[r])[i as int]
                            == partial_count(t, k as nat, left, views(names@)[r]),
                decreases cnt - k,
            {
                let n = tally.count(k);
                if !left && n == i32::MIN {
                    assert(!negatable(t));
                    assert(!term_fits(terms, left_len, i as int));
                    return Err(ArithmeticOverflow);
                }
                let v: i32 = if left { n } else { -n };
                let name = tally.symbol(k);
                let row_i = find_symbol(&names, name);
                let ghost syms = views(names@);
                let ghost sym = t[k as int].0;
                let ghost before = rows(mat@);
                proof {
                    lemma_position_from(syms, sym, 0);
                    lemma_position_distinct(t, k as int);
                }
                if row_i == names.len() {
                    names.push(name.clone());
                    mat.push(zero_row(term_cnt));
                    proof {
                        let ext = views(names@);
                        assert(ext =~= syms.push(sym));
                        assert forall|r: int| 0 <= r < before.len() implies #[trigger] rows(
                            mat@,
                        )[r] == before[r] by {}
                        assert forall|y: Seq<char>| position(syms, y) < syms.len() implies position(
                            ext,
                            y,
                        ) == position(syms, y) by {
                            lemma_position_push(syms, sym, y, 0);
                        }
                        lemma_position_push(syms, sym, sym, 0);
                        assert forall|c: int| 0 <= c < i implies signed_count(
                            terms,
                            left_len,
                            c,
                            sym,
                        ) == 0 by {
                            let tc = term_tally(terms[c])->Some_0;
                            let p = position(symbols_of(tc), sym);
                            lemma_position_from(symbols_of(tc), sym, 0);
                            if p < tc.len() {
                                assert(tc[p as int].0 == sym);
                                assert(position(syms, tc[p as int].0) < syms.len());
                            }
                        }
                    }
                }
                proof {
                    assert(rows(mat@)[row_i as int].len() == term_cnt);
                }
                let ghost mid = rows(mat@);
                let ghost ext = views(names@);
                mat[row_i][i] = v;
                proof {
                    assert(rows(mat@)[row_i as int] =~= mid[row_i as int].update(i as int, v as int));
                    assert forall|r: int| 0 <= r < mid.len() && r != row_i implies #[trigger] rows(
                        mat@,
                    )[r] == mid[r] by {}
                    assert forall|r: int| 0 <= r < mat.len() implies (#[trigger] rows(mat@)[r]).len()
                        == term_cnt by {
                        if r != row_i {
                            assert(mid[r].len() == term_cnt);
                        }
                    }
                    assert(ext[row_i as int] == sym);
                    assert forall|r: int| 0 <= r < mat.len() implies (#[trigger] rows(
                        mat@,
                    )[r])[i as int] == partial_count(t, (k + 1) as nat, left, ext[r]) by {
                        if r != row_i {
                            assert(ext[r] != sym);
                            lemma_position_from(symbols_of(t), ext[r], 0);
                            if r < before.len() {
                                assert(mid[r] == before[r]);
                                assert(ext[r] == syms[r]);
                            }
                        }
                    }
                    assert forall|r: int, c: int|
                        0 <= r < mat.len() && 0 <= c < i implies #[trigger] rows(mat@)[r][c]
                        == signed_count(terms, left_len, c, ext[r]) by {
                        if r < before.len() {
                            assert(mid[r] == before[r]);
                            assert(ext[r] == syms[r]);
                            assert(before[r][c] == signed_count(terms, left_len, c, syms[r]));
                        } else {
                            assert(mid[r][c] == 0);
                        }
                    }
                    assert forall|r: int, c: int|
                        0 <= r < mat.len() && i < c < term_cnt implies #[trigger] rows(mat@)[r][c]
                        == 0 by {
                        if r < before.len() {
                            assert(mid[r] == before[r]);
                            assert(before[r][c] == 0);
                        } else {
                            assert(mid[r][c] == 0);
                        }
                    }
                }
                k += 1;
            }
            proof {
                let syms = views(names@);
                assert forall|r: int, c: int|
                    0 <= r < mat.len() && 0 <= c < i + 1 implies #[trigger] rows(mat@)[r][c]
                    == signed_count(terms, left_len, c, syms[r]) by {
                    if c == i {
                        lemma_position_from(symbols_of(t), syms[r], 0);
                    }
                }
                assert(negatable(t) || left);
            }
            i += 1;
        }
        proof {
            let syms = views(names@);
            assert forall|r: int, c: int|
                0 <= r < mat.len() && 0 <= c < term_cnt implies #[trigger] rows(mat@)[r][c]
                == signed_atoms(terms, left_len, c, syms[r]) by {
                assert(term_fits(terms, left_len, c));
                lemma_tally_atoms(terms[c], syms[r]);
            }
            assert(rows(mat@) =~~= conservation_matrix(terms, left_len));
        }
        Ok(mat)
    }
}

} // verus!
