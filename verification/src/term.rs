//! Terms of a chemical equation, and how a term collapses into a tally.

use crate::error::ArithmeticOverflow;
use crate::num::{in_i32, lemma_product_bound};
use crate::tally::{count_of, Entries, lemma_added_count, record_spec, Tally};
use vstd::prelude::*;

verus! {

/// A term within a chemical equation.
#[derive(Debug, PartialEq, Eq)]
pub enum Term {
    /// An element.
    Elem {
        /// The name.
        name: String,
        /// The coefficient.
        n: i32,
    },
    /// An electron.
    Electron,
    /// A list of terms.
    List {
        /// The list.
        list: Vec<Term>,
        /// The coefficient.
        n: i32,
        /// The electric charge.
        charge: i32,
    },
}

/// The name under which electric charge is counted: `"c"`, lower case so
/// that it cannot be the name of an element.
pub open spec fn charge_name() -> Seq<char> {
    seq!['c']
}

/// Collapsing a term with the multiplier `m` into a tally: an element adds
/// `m` times its coefficient under its name; a list collapses its members
/// in order with `m` times its coefficient, then adds `m` times its charge,
/// if it has one, under the name of charge; an electron adds nothing.
/// `None` if a product or a count leaves the range of `i32`.
pub open spec fn collapse_spec(term: Term, t: Entries, m: int) -> Option<Entries>
    decreases term, 1nat, 0nat,
{
    match term {
        Term::Elem { name, n } => if in_i32(m * n) {
            record_spec(t, name@, m * n)
        } else {
            None
        },
        Term::Electron => Some(t),
        Term::List { list, n, charge } => if in_i32(m * n) {
            match collapse_members(term, list.len() as nat, t, m * n) {
                None => None,
                Some(t2) => if charge != 0 {
                    if in_i32(m * charge) {
                        record_spec(t2, charge_name(), m * charge)
                    } else {
                        None
                    }
                } else {
                    Some(t2)
                },
            }
        } else {
            None
        },
    }
}

/// Collapsing the first `upto` members of a list term, in order.
pub open spec fn collapse_members(term: Term, upto: nat, t: Entries, m: int) -> Option<Entries>
    decreases term, 0nat, upto,
{
    match term {
        Term::List { list, n, charge } => if upto == 0 || upto > list.len() {
            Some(t)
        } else {
            match collapse_members(term, (upto - 1) as nat, t, m) {
                None => None,
                Some(t1) => collapse_spec(list[upto - 1], t1, m),
            }
        },
        _ => Some(t),
    }
}

/// The net count of `sym` in a term taken once: the atoms of an element
/// under its name, and for a list its coefficient times the atoms of its
/// members, plus its charge under the name of charge.
pub open spec fn atoms(term: Term, sym: Seq<char>) -> int
    decreases term, 1nat, 0nat,
{
    match term {
        Term::Elem { name, n } => if name@ == sym {
            n as int
        } else {
            0
        },
        Term::Electron => 0,
        Term::List { list, n, charge } => n * member_atoms(term, list.len() as nat, sym) + if sym
            == charge_name() {
            charge as int
        } else {
            0
        },
    }
}

/// The net count of `sym` in the first `upto` members of a list term.
pub open spec fn member_atoms(term: Term, upto: nat, sym: Seq<char>) -> int
    decreases term, 0nat, upto,
{
    match term {
        Term::List { list, n, charge } => if upto == 0 || upto > list.len() {
            0
        } else {
            member_atoms(term, (upto - 1) as nat, sym) + atoms(list[upto - 1], sym)
        },
        _ => 0,
    }
}

/// Once a member fails to collapse, the whole list fails.
pub proof fn lemma_members_fail(term: Term, k: nat, upto: nat, t: Entries, m: int)
    requires
        term is List,
        k <= upto <= term->list.len(),
        collapse_members(term, k, t, m) is None,
    ensures
        collapse_members(term, upto, t, m) is None,
    decreases upto - k,
{
    if k < upto {
        lemma_members_fail(term, k, (upto - 1) as nat, t, m);
    }
}

/// Collapsing a term with the multiplier `m` adds `m` times the atoms of
/// each symbol to the count of that symbol.
pub proof fn lemma_collapse_counts(term: Term, t: Entries, m: int, sym: Seq<char>)
    requires
        collapse_spec(term, t, m) is Some,
    ensures
        count_of(collapse_spec(term, t, m)->Some_0, sym) == count_of(t, sym) + m * atoms(term, sym),
    decreases term, 1nat, 0nat,
{
    match term {
        Term::Elem { name, n } => {
            lemma_added_count(t, name@, m * n, sym);
            assert(m * 0 == 0);
        },
        Term::Electron => {
            assert(m * 0 == 0);
        },
        Term::List { list, n, charge } => {
            let inner = m * n;
            lemma_members_counts(term, list.len() as nat, t, inner, sym);
            let t2 = collapse_members(term, list.len() as nat, t, inner)->Some_0;
            let ma = member_atoms(term, list.len() as nat, sym);
            if charge != 0 {
                lemma_added_count(t2, charge_name(), m * charge, sym);
            }
            let c: int = if sym == charge_name() { charge as int } else { 0 };
            assert((m * n) * ma + m * c == m * (n * ma + c)) by (nonlinear_arith);
            assert(m * 0 == 0);
        },
    }
}

/// Collapsing the first `upto` members of a list with the multiplier `m`
/// adds `m` times their atoms of each symbol to the count of that symbol.
pub proof fn lemma_members_counts(term: Term, upto: nat, t: Entries, m: int, sym: Seq<char>)
    requires
        term is List,
        upto <= term->list.len(),
        collapse_members(term, upto, t, m) is Some,
    ensures
        count_of(collapse_members(term, upto, t, m)->Some_0, sym) == count_of(t, sym) + m
            * member_atoms(term, upto, sym),
    decreases term, 0nat, upto,
{
    if upto == 0 {
        assert(m * 0 == 0);
    } else {
        let before = (upto - 1) as nat;
        lemma_members_counts(term, before, t, m, sym);
        let t1 = collapse_members(term, before, t, m)->Some_0;
        let member = term->list[upto - 1];
        lemma_collapse_counts(member, t1, m, sym);
        assert(m * member_atoms(term, before, sym) + m * atoms(member, sym) == m * (member_atoms(
            term,
            before,
            sym,
        ) + atoms(member, sym))) by (nonlinear_arith);
    }
}

impl Term {
    /// The name of electric charge as an "element".
    pub const CHARGE_NAME: &'static str = "c";

    /// Collapses the term recursively into symbols and counts with the
    /// given multiplier `m`, and adds the results into the tally.
    ///
    /// Electric charge is counted under the name `"c"`.
    ///
    /// Fails if a product of coefficients or a count leaves the range of
    /// 32 bits; the tally may then hold a part of the term.
    pub fn collapse(&self, tally: &mut Tally, m: i32) -> (res: Result<(), ArithmeticOverflow>)
        requires
            old(tally).wf(),
        ensures
            final(tally).wf(),
            res is Ok <==> collapse_spec(*self, old(tally).entries(), m as int) is Some,
            res is Ok ==> final(tally).entries() == collapse_spec(
                *self,
                old(tally).entries(),
                m as int,
            )->Some_0,
            res is Ok ==> forall|sym: Seq<char>|
                #[trigger] count_of(final(tally).entries(), sym) == count_of(
                    old(tally).entries(),
                    sym,
                ) + m * atoms(*self, sym),
        decreases self,
    {
        proof {
            if collapse_spec(*self, old(tally).entries(), m as int) is Some {
                assert forall|sym: Seq<char>|
                    #[trigger] count_of(
                        collapse_spec(*self, old(tally).entries(), m as int)->Some_0,
                        sym,
                    ) == count_of(old(tally).entries(), sym) + m * atoms(*self, sym) by {
                    lemma_collapse_counts(*self, old(tally).entries(), m as int, sym);
                }
            }
        }
        match self {
            Term::Elem { name, n } => {
                proof {
                    lemma_product_bound(m as int, *n as int);
                }
                let delta: i64 = (m as i64) * (*n as i64);
                if delta < (i32::MIN as i64) || delta > (i32::MAX as i64) {
                    return Err(ArithmeticOverflow);
                }
                tally.record(name, delta as i32)
            },
            Term::Electron => Ok(()),
            Term::List { list, n, charge } => {
                proof {
                    lemma_product_bound(m as int, *n as int);
                }
                let inner: i64 = (m as i64) * (*n as i64);
                if inner < (i32::MIN as i64) || inner > (i32::MAX as i64) {
                    return Err(ArithmeticOverflow);
                }
                let len = list.len();
                let mut i: usize = 0;
                while i < len
                    invariant
                        len == list.len(),
                        i <= len,
                        tally.wf(),
                        *self == (Term::List { list: *list, n: *n, charge: *charge }),
                        inner == m * *n,
                        in_i32(inner as int),
                        collapse_members(*self, i as nat, old(tally).entries(), inner as int)
                            == Some(tally.entries()),
                    decreases len - i,
                {
                    match list[i].collapse(tally, inner as i32) {
                        Ok(()) => {},
                        Err(err) => {
                            proof {
                                lemma_members_fail(
                                    *self,
                                    (i + 1) as nat,
                                    len as nat,
                                    old(tally).entries(),
                                    inner as int,
                                );
                            }
                            return Err(err);
                        },
                    }
                    i += 1;
                }
                if *charge != 0 {
                    proof {
                        lemma_product_bound(m as int, *charge as int);
                    }
                    let delta: i64 = (m as i64) * (*charge as i64);
                    if delta < (i32::MIN as i64) || delta > (i32::MAX as i64) {
                        return Err(ArithmeticOverflow);
                    }
                    let name = Term::CHARGE_NAME.to_owned();
                    proof {
                        reveal_strlit("c");
                        assert(name@ =~= charge_name());
                    }
                    tally.record(&name, delta as i32)
                } else {
                    Ok(())
                }
            },
        }
    }
}

} // verus!
