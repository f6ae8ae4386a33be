//! The grammar of chemical equations, and a parser for it.
//!
//! An equation is two sides around an arrow (`=`, `==`, `->`, `-->`, `→`),
//! each side a list of terms between `+` signs. A term is an optional
//! coefficient and then either elements and bracketed groups, hydrate
//! parts after `·`, `.` or `*`, and a charge such as `(2+)`, or the electron
//! `e(-)`. The grammar is read greedily from the left, without going back
//! over a choice that has succeeded.

use crate::equation::ChemEq;
use crate::term::Term;
use crate::text::chars_of;
use vstd::prelude::*;

verus! {

/// A term as the grammar describes it: the same tree with names as
/// sequences of characters.
pub enum TermModel {
    /// An element.
    Elem { name: Seq<char>, n: int },
    /// An electron.
    Electron,
    /// A list of terms.
    List { list: Seq<TermModel>, n: int, charge: int },
}

/// The model of a term.
pub open spec fn model(term: Term) -> TermModel
    decreases term,
{
    match term {
        Term::Elem { name, n } => TermModel::Elem { name: name@, n: n as int },
        Term::Electron => TermModel::Electron,
        Term::List { list, n, charge } => TermModel::List {
            list: Seq::new(
                list.len() as nat,
                |i: int|
                    if 0 <= i < list.len() {
                        model(list[i])
                    } else {
                        TermModel::Electron
                    },
            ),
            n: n as int,
            charge: charge as int,
        },
    }
}

/// The models of a sequence of terms.
pub open spec fn models(terms: Seq<Term>) -> Seq<TermModel> {
    Seq::new(terms.len(), |i: int| model(terms[i]))
}

/// Whether `c` is an ASCII digit.
pub open spec fn is_digit(c: char) -> bool {
    '0' <= c && c <= '9'
}

/// Whether `c` is an ASCII upper-case letter.
pub open spec fn is_upper(c: char) -> bool {
    'A' <= c && c <= 'Z'
}

/// Whether `c` is an ASCII lower-case letter.
pub open spec fn is_lower(c: char) -> bool {
    'a' <= c && c <= 'z'
}

/// Whether `c` is white space, as Unicode defines it.
pub open spec fn is_space(c: char) -> bool {
    ||| ('\u{9}' <= c && c <= '\u{d}')
    ||| c == ' '
    ||| c == '\u{85}'
    ||| c == '\u{a0}'
    ||| c == '\u{1680}'
    ||| ('\u{2000}' <= c && c <= '\u{200a}')
    ||| c == '\u{2028}'
    ||| c == '\u{2029}'
    ||| c == '\u{202f}'
    ||| c == '\u{205f}'
    ||| c == '\u{3000}'
}

/// Whether `c` separates the parts of a hydrate: `·`, `.` or `*`.
pub open spec fn is_separator(c: char) -> bool {
    c == '\u{b7}' || c == '.' || c == '*'
}

/// The first position from `p` on whose character is not a digit.
pub open spec fn digits_end(s: Seq<char>, p: int) -> int
    decreases s.len() - p,
{
    if 0 <= p < s.len() && is_digit(s[p]) {
        digits_end(s, p + 1)
    } else {
        p
    }
}

/// The first position from `p` on whose character is not a lower-case letter.
pub open spec fn lower_end(s: Seq<char>, p: int) -> int
    decreases s.len() - p,
{
    if 0 <= p < s.len() && is_lower(s[p]) {
        lower_end(s, p + 1)
    } else {
        p
    }
}

/// The first position from `p` on whose character is not white space.
pub open spec fn skip_space(s: Seq<char>, p: int) -> int
    decreases s.len() - p,
{
    if 0 <= p < s.len() && is_space(s[p]) {
        skip_space(s, p + 1)
    } else {
        p
    }
}

/// The first position from `p` on whose character is not `c`.
pub open spec fn run_end(s: Seq<char>, p: int, c: char) -> int
    decreases s.len() - p,
{
    if 0 <= p < s.len() && s[p] == c {
        run_end(s, p + 1, c)
    } else {
        p
    }
}

/// The number that the digits from `lo` up to `hi` spell in decimal.
pub open spec fn number(s: Seq<char>, lo: int, hi: int) -> nat
    decreases hi - lo,
{
    if hi <= lo {
        0
    } else {
        (number(s, lo, hi - 1) * 10 + (s[hi - 1] as int - '0' as int)) as nat
    }
}

/// A coefficient at `p`: a decimal number without leading zero that is not
/// zero and fits in 32 bits, or else 1 with nothing read.
pub open spec fn coef_spec(s: Seq<char>, p: int) -> (int, int) {
    if 0 <= p < s.len() && is_digit(s[p]) && s[p] != '0' && number(
        s,
        p,
        digits_end(s, p),
    ) <= i32::MAX {
        (number(s, p, digits_end(s, p)) as int, digits_end(s, p))
    } else {
        (1, p)
    }
}

/// An element at `p`: an upper-case letter, lower-case letters, and a
/// coefficient.
pub open spec fn elem_spec(s: Seq<char>, p: int) -> Option<(TermModel, int)> {
    if 0 <= p < s.len() && is_upper(s[p]) {
        let q = lower_end(s, p + 1);
        let c = coef_spec(s, q);
        Some((TermModel::Elem { name: s.subrange(p, q), n: c.0 }, c.1))
    } else {
        None
    }
}

/// The bracket that closes `open`, for the two kinds of brackets.
pub open spec fn closing(open: char) -> char {
    if open == '(' {
        ')'
    } else {
        ']'
    }
}

/// An item at `p`: one or more items between `(` and `)` or between `[`
/// and `]` with a coefficient, or an element.
pub open spec fn item_spec(s: Seq<char>, p: int) -> Option<(TermModel, int)>
    decreases s.len() - p, 0nat,
{
    if 0 <= p < s.len() && (s[p] == '(' || s[p] == '[') {
        let inner = items_spec(s, p + 1);
        if inner.0.len() >= 1 && inner.1 < s.len() && s[inner.1] == closing(s[p]) {
            let c = coef_spec(s, inner.1 + 1);
            Some((TermModel::List { list: inner.0, n: c.0, charge: 0 }, c.1))
        } else {
            None
        }
    } else {
        elem_spec(s, p)
    }
}

/// The items from `p` on, as many as there are.
pub open spec fn items_spec(s: Seq<char>, p: int) -> (Seq<TermModel>, int)
    decreases s.len() - p, 1nat,
{
    match item_spec(s, p) {
        Some((t, q)) => if p < q <= s.len() {
            let rest = items_spec(s, q);
            (seq![t] + rest.0, rest.1)
        } else {
            (Seq::empty(), p)
        },
        None => (Seq::empty(), p),
    }
}

/// The hydrate parts from `p` on, each a separator, a coefficient and one
/// or more items, appended to `head` as lists.
pub open spec fn parts_spec(s: Seq<char>, p: int, head: Seq<TermModel>) -> (Seq<TermModel>, int)
    decreases s.len() - p,
{
    if 0 <= p < s.len() && is_separator(s[p]) {
        let c = coef_spec(s, p + 1);
        let sub = items_spec(s, c.1);
        if sub.0.len() >= 1 && p < sub.1 <= s.len() {
            parts_spec(s, sub.1, head.push(TermModel::List { list: sub.0, n: c.0, charge: 0 }))
        } else {
            (head, p)
        }
    } else {
        (head, p)
    }
}

/// A charge at `p`: a coefficient and a sign between parentheses, or else
/// no charge with nothing read.
pub open spec fn charge_spec(s: Seq<char>, p: int) -> (int, int) {
    if 0 <= p < s.len() && s[p] == '(' {
        let c = coef_spec(s, p + 1);
        if c.1 + 1 < s.len() && (s[c.1] == '+' || s[c.1] == '-') && s[c.1 + 1]
            == ')' {
            (
                if s[c.1] == '-' {
                    -c.0
                } else {
                    c.0
                },
                c.1 + 2,
            )
        } else {
            (0, p)
        }
    } else {
        (0, p)
    }
}

/// Whether `e(-)` stands at `p`.
pub open spec fn electron_at(s: Seq<char>, p: int) -> bool {
    0 <= p && p + 4 <= s.len() && s[p] == 'e' && s[p + 1] == '(' && s[p + 2] == '-' && s[p + 3]
        == ')'
}

/// A term at `p`: a coefficient, which is not kept, and then either items,
/// hydrate parts and a charge, or the electron `e(-)`.
pub open spec fn term_spec(s: Seq<char>, p: int) -> Option<(TermModel, int)> {
    let q = coef_spec(s, p).1;
    let head = items_spec(s, q);
    if head.0.len() >= 1 {
        let parts = parts_spec(s, head.1, head.0);
        let c = charge_spec(s, parts.1);
        Some((TermModel::List { list: parts.0, n: 1, charge: c.0 }, c.1))
    } else if electron_at(s, q) {
        Some((TermModel::List { list: seq![TermModel::Electron], n: 1, charge: -1 }, q + 4))
    } else {
        None
    }
}

/// The terms from `p` on that each follow a `+` sign, white space allowed
/// around the sign, appended to `acc`.
pub open spec fn more_terms_spec(s: Seq<char>, p: int, acc: Seq<TermModel>) -> (
    Seq<TermModel>,
    int,
)
    decreases s.len() - p,
{
    let a = skip_space(s, p);
    if p <= a < s.len() && s[a] == '+' {
        match term_spec(s, skip_space(s, a + 1)) {
            Some((t, q)) => if p < q <= s.len() {
                more_terms_spec(s, q, acc.push(t))
            } else {
                (acc, p)
            },
            None => (acc, p),
        }
    } else {
        (acc, p)
    }
}

/// One side of an equation at `p`: one or more terms between `+` signs.
pub open spec fn side_spec(s: Seq<char>, p: int) -> Option<(Seq<TermModel>, int)> {
    match term_spec(s, p) {
        Some((t, q)) => Some(more_terms_spec(s, q, seq![t])),
        None => None,
    }
}

/// An arrow at `p`: one or more `=`, or one or more `-` and a `>`, or `→`.
/// Gives the position after it.
pub open spec fn arrow_spec(s: Seq<char>, p: int) -> Option<int> {
    if 0 <= p < s.len() && s[p] == '=' {
        Some(run_end(s, p, '='))
    } else if 0 <= p < s.len() && s[p] == '-' {
        let q = run_end(s, p, '-');
        if q < s.len() && s[q] == '>' {
            Some(q + 1)
        } else {
            None
        }
    } else if 0 <= p < s.len() && s[p] == '\u{2192}' {
        Some(p + 1)
    } else {
        None
    }
}

/// A whole equation: a side, an arrow with white space allowed around it,
/// and a side, with nothing after it. Gives the terms of both sides and
/// the number of terms on the left-hand side.
pub open spec fn equation_spec(s: Seq<char>) -> Option<(Seq<TermModel>, int)> {
    match side_spec(s, 0) {
        None => None,
        Some((left, p)) => match arrow_spec(s, skip_space(s, p)) {
            None => None,
            Some(q) => match side_spec(s, skip_space(s, q)) {
                None => None,
                Some((right, r)) => if r == s.len() {
                    Some((left + right, left.len() as int))
                } else {
                    None
                },
            },
        },
    }
}

/// The text is not an equation of the grammar.
#[derive(Debug, Clone, Copy, PartialEq, Eq)]
pub struct SyntaxError;

/// Digits after a first digit that is not zero spell a positive number,
/// and more digits spell a number that is not smaller.
pub proof fn lemma_number_grows(s: Seq<char>, lo: int, mid: int, hi: int)
    requires
        0 <= lo < mid <= hi <= s.len(),
        forall|k: int| lo <= k < hi ==> is_digit(#[trigger] s[k]),
        s[lo] != '0',
    ensures
        1 <= number(s, lo, mid) <= number(s, lo, hi),
    decreases hi - lo,
{
    if mid < hi {
        lemma_number_grows(s, lo, mid, hi - 1);
        assert(is_digit(s[hi - 1]));
    } else if lo + 1 < mid {
        lemma_number_grows(s, lo, mid - 1, mid - 1);
        assert(is_digit(s[mid - 1]));
    } else {
        assert(is_digit(s[lo]));
        assert(number(s, lo, lo) == 0);
    }
}

/// The model of a list term holds the models of its members.
pub proof fn lemma_model_list(list: Vec<Term>, n: i32, charge: i32)
    ensures
        model(Term::List { list, n, charge }) == (TermModel::List {
            list: models(list@),
            n: n as int,
            charge: charge as int,
        }),
{
    let m = model(Term::List { list, n, charge });
    assert(m->list =~= models(list@));
}

/// Tells whether `c` is white space.
fn space(c: char) -> (b: bool)
    ensures
        b == is_space(c),
{
    (c >= '\u{9}' && c <= '\u{d}') || c == ' ' || c == '\u{85}' || c == '\u{a0}' || c
        == '\u{1680}' || (c >= '\u{2000}' && c <= '\u{200a}') || c == '\u{2028}' || c
        == '\u{2029}' || c == '\u{202f}' || c == '\u{205f}' || c == '\u{3000}'
}

/// Skips white space from `p` on.
fn skip(s: &Vec<char>, p: usize) -> (q: usize)
    requires
        p <= s.len(),
    ensures
        q == skip_space(s@, p as int),
        p <= q <= s.len(),
{
    let n = s.len();
    let mut q: usize = p;
    while q < n && space(s[q])
        invariant
            n == s.len(),
            p <= q <= n,
            skip_space(s@, p as int) == skip_space(s@, q as int),
        decreases n - q,
    {
        q += 1;
    }
    q
}

/// Reads a coefficient at `p`.
fn coef(s: &Vec<char>, p: usize) -> (r: (i32, usize))
    requires
        p <= s.len(),
    ensures
        (r.0 as int, r.1 as int) == coef_spec(s@, p as int),
        p <= r.1 <= s.len(),
        r.0 >= 1,
{
    let n = s.len();
    if p < n && s[p] >= '1' && s[p] <= '9' {
        let mut q: usize = p;
        let mut acc: u64 = 0;
        let mut over = false;
        while q < n && s[q] >= '0' && s[q] <= '9'
            invariant
                n == s.len(),
                p <= q <= n,
                s[p as int] != '0',
                digits_end(s@, p as int) == digits_end(s@, q as int),
                forall|k: int| p <= k < q ==> is_digit(#[trigger] s@[k]),
                !over ==> acc == number(s@, p as int, q as int) && acc <= i32::MAX,
                over ==> number(s@, p as int, q as int) > i32::MAX,
            decreases n - q,
        {
            let d: u64 = ((s[q] as u32) - ('0' as u32)) as u64;
            if !over {
                acc = acc * 10 + d;
                if acc > 0x7fff_ffff {
                    over = true;
                }
            } else {
                proof {
                    lemma_number_grows(s@, p as int, q as int, q as int + 1);
                }
            }
            q += 1;
        }
        proof {
            assert(q == digits_end(s@, p as int));
            if p < q {
                lemma_number_grows(s@, p as int, q as int, q as int);
            }
        }
        if over {
            (1, p)
        } else {
            (acc as i32, q)
        }
    } else {
        (1, p)
    }
}

/// Reads an element at `p`.
fn elem(s: &Vec<char>, p: usize) -> (r: Option<(Term, usize)>)
    requires
        p <= s.len(),
    ensures
        match r {
            Some((t, q)) => elem_spec(s@, p as int) == Some((model(t), q as int)) && p < q
                <= s.len(),
            None => elem_spec(s@, p as int) is None,
        },
{
    let n = s.len();
    if p < n && s[p] >= 'A' && s[p] <= 'Z' {
        let mut name = String::new();
        name.push(s[p]);
        let mut q: usize = p + 1;
        while q < n && s[q] >= 'a' && s[q] <= 'z'
            invariant
                n == s.len(),
                p < q <= n,
                name@ == s@.subrange(p as int, q as int),
                lower_end(s@, p as int + 1) == lower_end(s@, q as int),
            decreases n - q,
        {
            name.push(s[q]);
            q += 1;
            assert(name@ =~= s@.subrange(p as int, q as int));
        }
        let c = coef(s, q);
        Some((Term::Elem { name, n: c.0 }, c.1))
    } else {
        None
    }
}

/// Reads an item at `p`: a bracketed group with its coefficient, or an element.
fn item(s: &Vec<char>, p: usize) -> (r: Option<(Term, usize)>)
    requires
        p <= s.len(),
    ensures
        match r {
            Some((t, q)) => item_spec(s@, p as int) == Some((model(t), q as int)) && p < q
                <= s.len(),
            None => item_spec(s@, p as int) is None,
        },
    decreases s.len() - p, 0nat,
{
    let n = s.len();
    if p < n && (s[p] == '(' || s[p] == '[') {
        let close = if s[p] == '(' { ')' } else { ']' };
        let inner = items(s, p + 1);
        let list = inner.0;
        let q = inner.1;
        if list.len() >= 1 && q < n && s[q] == close {
            let c = coef(s, q + 1);
            proof {
                lemma_model_list(list, c.0, 0);
            }
            Some((Term::List { list, n: c.0, charge: 0 }, c.1))
        } else {
            None
        }
    } else {
        elem(s, p)
    }
}

/// Reads the items from `p` on, as many as there are.
fn items(s: &Vec<char>, p: usize) -> (r: (Vec<Term>, usize))
    requires
        p <= s.len(),
    ensures
        (models(r.0@), r.1 as int) == items_spec(s@, p as int),
        p <= r.1 <= s.len(),
        r.0.len() >= 1 ==> p < r.1,
    decreases s.len() - p, 1nat,
{
    let mut list: Vec<Term> = Vec::new();
    let mut cur: usize = p;
    loop
        invariant
            p <= cur <= s.len(),
            list.len() >= 1 ==> p < cur,
            items_spec(s@, p as int).0 == models(list@) + items_spec(s@, cur as int).0,
            items_spec(s@, p as int).1 == items_spec(s@, cur as int).1,
        decreases s.len() - cur,
    {
        match item(s, cur) {
            Some((t, q)) => {
                let ghost before = models(list@);
                list.push(t);
                proof {
                    assert(models(list@) =~= before.push(model(t)));
                    assert(before + (seq![model(t)] + items_spec(s@, q as int).0) =~= before.push(
                        model(t),
                    ) + items_spec(s@, q as int).0);
                }
                cur = q;
            },
            None => {
                proof {
                    assert(models(list@) + Seq::<TermModel>::empty() =~= models(list@));
                }
                return (list, cur);
            },
        }
    }
}

/// Reads a charge at `p`.
fn charge(s: &Vec<char>, p: usize) -> (r: (i32, usize))
    requires
        p <= s.len(),
    ensures
        (r.0 as int, r.1 as int) == charge_spec(s@, p as int),
        p <= r.1 <= s.len(),
{
    let n = s.len();
    if p < n && s[p] == '(' {
        let c = coef(s, p + 1);
        let q = c.1;
        if q < n && n - q >= 2 && (s[q] == '+' || s[q] == '-') && s[q + 1] == ')' {
            (
                if s[q] == '-' {
                    -c.0
                } else {
                    c.0
                },
                q + 2,
            )
        } else {
            (0, p)
        }
    } else {
        (0, p)
    }
}

/// Reads a term at `p`.
fn term(s: &Vec<char>, p: usize) -> (r: Option<(Term, usize)>)
    requires
        p <= s.len(),
    ensures
        match r {
            Some((t, q)) => term_spec(s@, p as int) == Some((model(t), q as int)) && p < q
                <= s.len() && t is List,
            None => term_spec(s@, p as int) is None,
        },
{
    let n = s.len();
    let start = coef(s, p).1;
    let head = items(s, start);
    let mut list = head.0;
    let mut cur = head.1;
    if list.len() >= 1 {
        let ghost first = models(list@);
        let ghost from = cur;
        loop
            invariant_except_break
                parts_spec(s@, from as int, first) == parts_spec(s@, cur as int, models(list@)),
            invariant
                n == s.len(),
                p <= cur <= n,
                p < cur,
            ensures
                parts_spec(s@, from as int, first) == (models(list@), cur as int),
            decreases n - cur,
        {
            if cur < n && (s[cur] == '\u{b7}' || s[cur] == '.' || s[cur] == '*') {
                let c = coef(s, cur + 1);
                let sub = items(s, c.1);
                if sub.0.len() >= 1 {
                    let ghost before = models(list@);
                    proof {
                        lemma_model_list(sub.0, c.0, 0);
                    }
                    list.push(Term::List { list: sub.0, n: c.0, charge: 0 });
                    proof {
                        assert(models(list@) =~= before.push(
                            TermModel::List {
                                list: items_spec(s@, c.1 as int).0,
                                n: c.0 as int,
                                charge: 0,
                            },
                        ));
                    }
                    cur = sub.1;
                } else {
                    break ;
                }
            } else {
                break ;
            }
        }
        let c = charge(s, cur);
        proof {
            lemma_model_list(list, 1, c.0);
        }
        Some((Term::List { list, n: 1, charge: c.0 }, c.1))
    } else if start < n && n - start >= 4 && s[start] == 'e' && s[start + 1] == '(' && s[start
        + 2] == '-' && s[start + 3] == ')' {
        let mut list: Vec<Term> = Vec::new();
        list.push(Term::Electron);
        proof {
            lemma_model_list(list, 1, (-1) as i32);
            assert(models(list@) =~= seq![TermModel::Electron]);
        }
        Some((Term::List { list, n: 1, charge: -1 }, start + 4))
    } else {
        None
    }
}

/// Reads one side of an equation at `p`.
fn side(s: &Vec<char>, p: usize) -> (r: Option<(Vec<Term>, usize)>)
    requires
        p <= s.len(),
    ensures
        match r {
            Some((ts, q)) => side_spec(s@, p as int) == Some((models(ts@), q as int)) && p < q
                <= s.len() && ts.len() >= 1 && forall|i: int|
                0 <= i < ts.len() ==> (#[trigger] ts[i]) is List,
            None => side_spec(s@, p as int) is None,
        },
{
    let n = s.len();
    match term(s, p) {
        None => None,
        Some((t, q)) => {
            let mut list: Vec<Term> = Vec::new();
            list.push(t);
            let mut cur: usize = q;
            let ghost first = models(list@);
            proof {
                assert(first =~= seq![model(t)]);
            }
            loop
                invariant_except_break
                    more_terms_spec(s@, q as int, first) == more_terms_spec(
                        s@,
                        cur as int,
                        models(list@),
                    ),
                invariant
                    n == s.len(),
                    p < cur <= n,
                    list.len() >= 1,
                    forall|i: int| 0 <= i < list.len() ==> (#[trigger] list[i]) is List,
                ensures
                    more_terms_spec(s@, q as int, first) == (models(list@), cur as int),
                decreases n - cur,
            {
                let a = skip(s, cur);
                if a < n && s[a] == '+' {
                    let b = skip(s, a + 1);
                    match term(s, b) {
                        Some((t2, q2)) => {
                            let ghost before = models(list@);
                            list.push(t2);
                            proof {
                                assert(models(list@) =~= before.push(model(t2)));
                            }
                            cur = q2;
                        },
                        None => {
                            break ;
                        },
                    }
                } else {
                    break ;
                }
            }
            Some((list, cur))
        },
    }
}

/// Reads an arrow at `p`.
fn arrow(s: &Vec<char>, p: usize) -> (r: Option<usize>)
    requires
        p <= s.len(),
    ensures
        match r {
            Some(q) => arrow_spec(s@, p as int) == Some(q as int) && p < q <= s.len(),
            None => arrow_spec(s@, p as int) is None,
        },
{
    let n = s.len();
    if p >= n {
        return None;
    }
    let first = s[p];
    if first == '=' || first == '-' {
        let mut q: usize = p + 1;
        while q < n && s[q] == first
            invariant
                n == s.len(),
                p < q <= n,
                run_end(s@, p as int, first) == run_end(s@, q as int, first),
            decreases n - q,
        {
            q += 1;
        }
        if first == '=' {
            Some(q)
        } else if q < n && s[q] == '>' {
            Some(q + 1)
        } else {
            None
        }
    } else if first == '\u{2192}' {
        Some(p + 1)
    } else {
        None
    }
}

/// Parses a chemical equation. The text must hold the equation and nothing
/// else, not even white space around it.
pub fn parse_equation(text: &str) -> (res: Result<ChemEq, SyntaxError>)
    ensures
        match res {
            Ok(eq) => equation_spec(text@) == Some((models(eq.terms@), eq.left_len as int))
                && eq.wf(),
            Err(_) => equation_spec(text@) is None,
        },
{
    let s = chars_of(text);
    let n = s.len();
    match side(&s, 0) {
        None => Err(SyntaxError),
        Some((left, p)) => {
            let a = skip(&s, p);
            match arrow(&s, a) {
                None => Err(SyntaxError),
                Some(q) => {
                    let b = skip(&s, q);
                    match side(&s, b) {
                        None => Err(SyntaxError),
                        Some((right, r)) => {
                            if r == n {
                                let left_len = left.len();
                                let mut terms = left;
                                let mut right = right;
                                let ghost lm = models(terms@);
                                let ghost rm = models(right@);
                                let ghost lt = terms@;
                                let ghost rt = right@;
                                terms.append(&mut right);
                                proof {
                                    assert(terms@ =~= lt + rt);
                                    assert(models(terms@) =~= lm + rm);
                                    assert forall|i: int| 0 <= i < terms.len() implies (
                                    #[trigger] terms[i]) is List by {
                                        if i < lt.len() {
                                            assert(terms[i] == lt[i]);
                                        } else {
                                            assert(terms[i] == rt[i - lt.len()]);
                                        }
                                    }
                                }
                                Ok(ChemEq { terms, left_len })
                            } else {
                                Err(SyntaxError)
                            }
                        },
                    }
                },
            }
        },
    }
}

} // verus!
