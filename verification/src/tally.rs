//! Tallies of atoms: symbols with their counts, in the order of first meeting.

use crate::error::ArithmeticOverflow;
use crate::num::in_i32;
use vstd::prelude::*;

verus! {

/// The entries of a tally: symbols with their counts, in the order in which
/// the symbols were first met.
pub type Entries = Seq<(Seq<char>, int)>;

/// The index of the first symbol from `i` on that equals `sym`, or the
/// number of symbols if there is none.
pub open spec fn position_from(syms: Seq<Seq<char>>, sym: Seq<char>, i: nat) -> nat
    decreases syms.len() - i,
{
    if i >= syms.len() {
        syms.len()
    } else if syms[i as int] == sym {
        i
    } else {
        position_from(syms, sym, i + 1)
    }
}

/// The index of the first occurrence of `sym`, or the number of symbols if
/// there is none.
pub open spec fn position(syms: Seq<Seq<char>>, sym: Seq<char>) -> nat {
    position_from(syms, sym, 0)
}

/// The symbols of a tally, in order.
pub open spec fn symbols_of(t: Entries) -> Seq<Seq<char>> {
    Seq::new(t.len(), |i: int| t[i].0)
}

/// The count of `sym` in a tally; zero if the tally does not hold it.
pub open spec fn count_of(t: Entries, sym: Seq<char>) -> int {
    let i = position(symbols_of(t), sym);
    if i < t.len() {
        t[i as int].1
    } else {
        0
    }
}

/// Whether no symbol occurs twice.
pub open spec fn distinct(syms: Seq<Seq<char>>) -> bool {
    forall|i: int, j: int| 0 <= i < j < syms.len() ==> #[trigger] syms[i] != #[trigger] syms[j]
}

/// The tally after `delta` has been added under `sym`: to its entry if it
/// has one, else as a new last entry.
pub open spec fn added(t: Entries, sym: Seq<char>, delta: int) -> Entries {
    let i = position(symbols_of(t), sym);
    if i < t.len() {
        t.update(i as int, (sym, t[i as int].1 + delta))
    } else {
        t.push((sym, delta))
    }
}

/// Adding `delta` under `sym`, or `None` if the new count leaves the range
/// of `i32`.
pub open spec fn record_spec(t: Entries, sym: Seq<char>, delta: int) -> Option<Entries> {
    if in_i32(count_of(t, sym) + delta) {
        Some(added(t, sym, delta))
    } else {
        None
    }
}

/// The symbols that a vector of names holds.
pub open spec fn views(names: Seq<String>) -> Seq<Seq<char>> {
    Seq::new(names.len(), |i: int| names[i]@)
}

/// What `position_from` returns: no symbol from `i` up to it equals `sym`,
/// and the symbol at it does.
pub proof fn lemma_position_from(syms: Seq<Seq<char>>, sym: Seq<char>, i: nat)
    requires
        i <= syms.len(),
    ensures
        i <= position_from(syms, sym, i) <= syms.len(),
        forall|k: int| i <= k < position_from(syms, sym, i) ==> #[trigger] syms[k] != sym,
        position_from(syms, sym, i) < syms.len() ==> syms[position_from(syms, sym, i) as int]
            == sym,
    decreases syms.len() - i,
{
    if i < syms.len() && syms[i as int] != sym {
        lemma_position_from(syms, sym, i + 1);
    }
}

/// A symbol that is among `syms` keeps its position when a symbol is
/// appended; the appended symbol, if new, stands last; and any other
/// symbol stays absent.
pub proof fn lemma_position_push(syms: Seq<Seq<char>>, x: Seq<char>, y: Seq<char>, i: nat)
    requires
        i <= syms.len(),
    ensures
        position_from(syms, y, i) < syms.len() ==> position_from(syms.push(x), y, i)
            == position_from(syms, y, i),
        position_from(syms, y, i) == syms.len() && x == y ==> position_from(syms.push(x), y, i)
            == syms.len(),
        position_from(syms, y, i) == syms.len() && x != y ==> position_from(syms.push(x), y, i)
            == syms.len() + 1,
    decreases syms.len() - i,
{
    let ext = syms.push(x);
    if i < syms.len() {
        assert(ext[i as int] == syms[i as int]);
        if syms[i as int] != y {
            lemma_position_push(syms, x, y, i + 1);
        }
    } else {
        assert(ext[i as int] == x);
        assert(position_from(ext, y, i + 1) == ext.len());
    }
}

/// In a tally without repeated symbols, the position of the symbol of
/// entry `k` is `k`.
pub proof fn lemma_position_distinct(t: Entries, k: int)
    requires
        distinct(symbols_of(t)),
        0 <= k < t.len(),
    ensures
        position(symbols_of(t), t[k].0) == k,
{
    let syms = symbols_of(t);
    lemma_position_from(syms, t[k].0, 0);
    let p = position(syms, t[k].0);
    assert(syms[k] == t[k].0);
    if p < k {
        assert(syms[p as int] == syms[k]);
    }
}

/// Adding under a symbol changes the count of that symbol and of no other.
pub proof fn lemma_added_count(t: Entries, sym: Seq<char>, delta: int, other: Seq<char>)
    ensures
        count_of(added(t, sym, delta), other) == count_of(t, other) + if other == sym {
            delta
        } else {
            0
        },
{
    let syms = symbols_of(t);
    let i = position(syms, sym);
    let a = added(t, sym, delta);
    lemma_position_from(syms, sym, 0);
    lemma_position_from(syms, other, 0);
    lemma_position_from(symbols_of(a), other, 0);
    if i < t.len() {
        assert(symbols_of(a) =~= syms);
        let j = position(syms, other);
        if j < t.len() && j != i {
            assert(syms[j as int] == other);
            assert(syms[i as int] == sym);
        }
    } else {
        assert(symbols_of(a) =~= syms.push(sym));
        lemma_position_push(syms, sym, other, 0);
    }
}

/// Returns the index of the first occurrence of `name` among `names`, or
/// their number if there is none.
pub fn find_symbol(names: &Vec<String>, name: &String) -> (i: usize)
    ensures
        i == position(views(names@), name@),
        i <= names.len(),
{
    let n = names.len();
    let ghost syms = views(names@);
    let mut i: usize = 0;
    while i < n
        invariant
            n == names.len(),
            syms == views(names@),
            i <= n,
            position(syms, name@) == position_from(syms, name@, i as nat),
        decreases n - i,
    {
        if names[i] == *name {
            return i;
        }
        i += 1;
    }
    i
}

/// A tally of atoms: for each symbol met, its net count.
#[derive(Debug, PartialEq, Eq)]
pub struct Tally {
    names: Vec<String>,
    counts: Vec<i32>,
}

impl Tally {
    /// The entries of the tally, in the order in which the symbols were
    /// first met.
    pub closed spec fn entries(&self) -> Entries {
        Seq::new(self.names.len() as nat, |i: int| (self.names[i]@, self.counts[i] as int))
    }

    /// Whether the tally is well formed: every symbol has one count and no
    /// symbol occurs twice.
    pub closed spec fn wf(&self) -> bool {
        self.names.len() == self.counts.len() && distinct(symbols_of(self.entries()))
    }

    /// What holds of the entries of a well-formed tally.
    pub proof fn lemma_wf(&self)
        requires
            self.wf(),
        ensures
            distinct(symbols_of(self.entries())),
            forall|i: int|
                0 <= i < self.entries().len() ==> in_i32((#[trigger] self.entries()[i]).1),
    {
    }

    /// An empty tally.
    pub fn new() -> (t: Tally)
        ensures
            t.wf(),
            t.entries() == Seq::<(Seq<char>, int)>::empty(),
    {
        let t = Tally { names: Vec::new(), counts: Vec::new() };
        assert(t.entries() =~= Seq::<(Seq<char>, int)>::empty());
        t
    }

    /// The number of symbols in the tally.
    pub fn len(&self) -> (n: usize)
        requires
            self.wf(),
        ensures
            n == self.entries().len(),
    {
        self.names.len()
    }

    /// The `i`-th symbol of the tally, in the order of first meeting.
    pub fn symbol(&self, i: usize) -> (s: &String)
        requires
            self.wf(),
            i < self.entries().len(),
        ensures
            s@ == self.entries()[i as int].0,
    {
        &self.names[i]
    }

    /// The count of the `i`-th symbol of the tally.
    pub fn count(&self, i: usize) -> (n: i32)
        requires
            self.wf(),
            i < self.entries().len(),
        ensures
            n == self.entries()[i as int].1,
    {
        self.counts[i]
    }

    /// The index of the entry of `name`, or the number of entries if the
    /// tally does not hold it.
    pub fn find(&self, name: &String) -> (i: usize)
        requires
            self.wf(),
        ensures
            i == position(symbols_of(self.entries()), name@),
            i <= self.entries().len(),
    {
        assert(views(self.names@) =~= symbols_of(self.entries()));
        find_symbol(&self.names, name)
    }

    /// Adds `delta` to the count of `name`, which enters the tally if it is
    /// new. On overflow the tally stays as it is.
    pub fn record(&mut self, name: &String, delta: i32) -> (res: Result<(), ArithmeticOverflow>)
        requires
            old(self).wf(),
        ensures
            final(self).wf(),
            res is Ok <==> record_spec(old(self).entries(), name@, delta as int) is Some,
            res is Ok ==> final(self).entries() == record_spec(
                old(self).entries(),
                name@,
                delta as int,
            )->Some_0,
            res is Err ==> final(self).entries() == old(self).entries(),
    {
        let ghost t = self.entries();
        let i = self.find(name);
        if i < self.names.len() {
            let sum: i64 = self.counts[i] as i64 + delta as i64;
            if sum < (i32::MIN as i64) || sum > (i32::MAX as i64) {
                return Err(ArithmeticOverflow);
            }
            self.counts[i] = sum as i32;
            proof {
                lemma_position_from(symbols_of(t), name@, 0);
                assert(self.entries() =~= added(t, name@, delta as int));
                assert(symbols_of(self.entries()) =~= symbols_of(t));
            }
        } else {
            self.names.push(name.clone());
            self.counts.push(delta);
            proof {
                lemma_position_from(symbols_of(t), name@, 0);
                assert(self.entries() =~= added(t, name@, delta as int));
                assert(symbols_of(self.entries()) =~= symbols_of(t).push(name@));
            }
        }
        Ok(())
    }
}

} // verus!
