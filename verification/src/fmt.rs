//! Formatting chemical equations and terms.

use crate::equation::ChemEq;
use crate::term::Term;
use owo_colors::OwoColorize;
use vstd::prelude::*;
use vstd::string::StringExecFns;

verus! {

/// The ASCII digit for `d`.
pub open spec fn digit_char(d: int) -> char {
    if d == 0 {
        '0'
    } else if d == 1 {
        '1'
    } else if d == 2 {
        '2'
    } else if d == 3 {
        '3'
    } else if d == 4 {
        '4'
    } else if d == 5 {
        '5'
    } else if d == 6 {
        '6'
    } else if d == 7 {
        '7'
    } else if d == 8 {
        '8'
    } else {
        '9'
    }
}

/// The subscript digit for `d`.
pub open spec fn subscript_char(d: int) -> char {
    if d == 0 {
        '\u{2080}'
    } else if d == 1 {
        '\u{2081}'
    } else if d == 2 {
        '\u{2082}'
    } else if d == 3 {
        '\u{2083}'
    } else if d == 4 {
        '\u{2084}'
    } else if d == 5 {
        '\u{2085}'
    } else if d == 6 {
        '\u{2086}'
    } else if d == 7 {
        '\u{2087}'
    } else if d == 8 {
        '\u{2088}'
    } else {
        '\u{2089}'
    }
}

/// The superscript digit for `d`.
pub open spec fn superscript_char(d: int) -> char {
    if d == 0 {
        '\u{2070}'
    } else if d == 1 {
        '\u{b9}'
    } else if d == 2 {
        '\u{b2}'
    } else if d == 3 {
        '\u{b3}'
    } else if d == 4 {
        '\u{2074}'
    } else if d == 5 {
        '\u{2075}'
    } else if d == 6 {
        '\u{2076}'
    } else if d == 7 {
        '\u{2077}'
    } else if d == 8 {
        '\u{2078}'
    } else {
        '\u{2079}'
    }
}

/// The digit `d` as a subscript or as a superscript.
pub open spec fn script_char(d: int, sub: bool) -> char {
    if sub {
        subscript_char(d)
    } else {
        superscript_char(d)
    }
}

/// The decimal digits of `n` as subscripts or as superscripts.
pub open spec fn script_text(n: nat, sub: bool) -> Seq<char>
    decreases n,
{
    if n < 10 {
        seq![script_char(n as int, sub)]
    } else {
        script_text(n / 10, sub).push(script_char((n % 10) as int, sub))
    }
}

/// The decimal digits of `n` in ASCII.
pub open spec fn digits_text(n: nat) -> Seq<char>
    decreases n,
{
    if n < 10 {
        seq![digit_char(n as int)]
    } else {
        digits_text(n / 10).push(digit_char((n % 10) as int))
    }
}

/// The decimal text of an integer, with a minus sign where it is negative.
pub open spec fn decimal(n: int) -> Seq<char> {
    if n < 0 {
        seq!['-'] + digits_text((-n) as nat)
    } else {
        digits_text(n as nat)
    }
}

/// The decimal text of `n` between the escape sequences that make a
/// terminal show it bold and in a colour: green (`32`) where `positive`,
/// yellow (`33`) otherwise.
pub open spec fn painted(n: int, positive: bool) -> Seq<char> {
    seq!['\u{1b}', '[', '1', 'm', '\u{1b}', '[', '3', if positive { '2' } else { '3' }, 'm']
        + decimal(n) + seq!['\u{1b}', '[', '3', '9', 'm', '\u{1b}', '[', '0', 'm']
}

/// The value of a 32-bit signed integer read as unsigned.
pub open spec fn as_unsigned(n: int) -> nat {
    if n < 0 {
        (n + 0x1_0000_0000) as nat
    } else {
        n as nat
    }
}

/// The text of a coefficient: nothing for 1, unless it stands in ASCII
/// before a term and `alternate` asks to keep it; else the number in ASCII
/// and painted (`script` is `None`), or its digits as subscripts
/// (`Some(true)`) or superscripts (`Some(false)`), read as unsigned.
pub open spec fn coef_text(n: int, script: Option<bool>, alternate: bool) -> Seq<char> {
    if n == 1 && !(script is None && alternate) {
        Seq::empty()
    } else {
        match script {
            None => painted(n, n > 0),
            Some(sub) => script_text(as_unsigned(n), sub),
        }
    }
}

/// The absolute value of a 32-bit integer as the machine wraps it: the
/// least integer stays as it is.
pub open spec fn wrapping_abs(n: int) -> int {
    if n < 0 && n != i32::MIN {
        -n
    } else {
        n
    }
}

/// The text of a term. An outermost list stands without parentheses, with
/// its coefficient before it in ASCII; an inner list stands in parentheses
/// with its coefficient after it as a subscript. A charge follows as
/// superscript digits and a superscript sign. An element is its name and a
/// subscript; an electron is `e`.
pub open spec fn term_text(term: Term, outermost: bool, alternate: bool) -> Seq<char>
    decreases term, 1nat, 0nat,
{
    match term {
        Term::Elem { name, n } => name@ + coef_text(n as int, Some(true), alternate),
        Term::Electron => seq!['e'],
        Term::List { list, n, charge } => {
            let members = members_text(term, list.len() as nat, alternate);
            let body = if outermost {
                coef_text(n as int, None, alternate) + members
            } else {
                seq!['('] + members + seq![')'] + coef_text(n as int, Some(true), alternate)
            };
            if charge != 0 {
                body + coef_text(wrapping_abs(charge as int), Some(false), alternate) + seq![
                    if charge < 0 {
                        '\u{207b}'
                    } else {
                        '\u{207a}'
                    },
                ]
            } else {
                body
            }
        },
    }
}

/// The texts of the first `upto` members of a list term, one after another.
pub open spec fn members_text(term: Term, upto: nat, alternate: bool) -> Seq<char>
    decreases term, 0nat, upto,
{
    match term {
        Term::List { list, n, charge } => if upto == 0 || upto > list.len() {
            Seq::empty()
        } else {
            members_text(term, (upto - 1) as nat, alternate) + term_text(
                list[upto - 1],
                false,
                alternate,
            )
        },
        _ => Seq::empty(),
    }
}

/// The text of the first `upto` terms of an equation: the terms of each
/// side joined by ` + `, and ` -> ` before the first term of the
/// right-hand side.
pub open spec fn equation_text(terms: Seq<Term>, left_len: nat, upto: nat, alternate: bool) -> Seq<
    char,
>
    decreases upto,
{
    if upto == 0 {
        Seq::empty()
    } else {
        let i = (upto - 1) as nat;
        let joint = if i == left_len {
            seq![' ', '-', '>', ' ']
        } else if i != 0 {
            seq![' ', '+', ' ']
        } else {
            Seq::empty()
        };
        equation_text(terms, left_len, i, alternate) + joint + term_text(terms[i as int], true, alternate)
    }
}

/// Calls `OwoColorize::green` and `OwoColorize::bold` of owo-colors on `n`
/// and formats the result. The contract claims what the crate's `Display`
/// impls write: the bold sequence, the green foreground sequence, the
/// decimal text of `n`, the sequence that resets the foreground, and the
/// sequence that resets everything.
#[verifier::external_body]
fn green_bold(n: i32) -> (s: String)
    ensures
        s@ == painted(n as int, true),
{
    format!("{}", n.green().bold())
}

/// Calls `OwoColorize::yellow` and `OwoColorize::bold` of owo-colors on `n`
/// and formats the result. The contract claims what the crate's `Display`
/// impls write: the bold sequence, the yellow foreground sequence, the
/// decimal text of `n`, the sequence that resets the foreground, and the
/// sequence that resets everything.
#[verifier::external_body]
fn yellow_bold(n: i32) -> (s: String)
    ensures
        s@ == painted(n as int, false),
{
    format!("{}", n.yellow().bold())
}

/// Returns the digit `d` as a subscript or as a superscript.
fn script_digit(d: u32, sub: bool) -> (c: char)
    requires
        d < 10,
    ensures
        c == script_char(d as int, sub),
{
    if sub {
        if d == 0 {
            '\u{2080}'
        } else if d == 1 {
            '\u{2081}'
        } else if d == 2 {
            '\u{2082}'
        } else if d == 3 {
            '\u{2083}'
        } else if d == 4 {
            '\u{2084}'
        } else if d == 5 {
            '\u{2085}'
        } else if d == 6 {
            '\u{2086}'
        } else if d == 7 {
            '\u{2087}'
        } else if d == 8 {
            '\u{2088}'
        } else {
            '\u{2089}'
        }
    } else {
        if d == 0 {
            '\u{2070}'
        } else if d == 1 {
            '\u{b9}'
        } else if d == 2 {
            '\u{b2}'
        } else if d == 3 {
            '\u{b3}'
        } else if d == 4 {
            '\u{2074}'
        } else if d == 5 {
            '\u{2075}'
        } else if d == 6 {
            '\u{2076}'
        } else if d == 7 {
            '\u{2077}'
        } else if d == 8 {
            '\u{2078}'
        } else {
            '\u{2079}'
        }
    }
}

/// Appends the decimal digits of `n` as subscripts or as superscripts.
fn push_script(out: &mut String, n: u32, sub: bool)
    ensures
        final(out)@ == old(out)@ + script_text(n as nat, sub),
    decreases n,
{
    if n >= 10 {
        push_script(out, n / 10, sub);
    }
    out.push(script_digit(n % 10, sub));
    assert(out@ =~= old(out)@ + script_text(n as nat, sub));
}

/// Formats a coefficient in decimal as ASCII numbers, subscripts, or
/// superscripts.
///
/// The parameter `script` accepts values `None` for ASCII numbers,
/// `Some(true)` for subscripts, and `Some(false)` for superscripts.
///
/// The coefficients of 1 are dropped by default and can only be kept for
/// ASCII numbers by setting `alternate`.
///
/// Non-positive coefficients are only allowed for ASCII numbers and are
/// wrapped to be unsigned for subscripts and superscripts.
pub fn fmt_coef(n: i32, script: Option<bool>, alternate: bool) -> (s: String)
    ensures
        s@ == coef_text(n as int, script, alternate),
{
    let mut out = String::new();
    if n == 1 && !(script.is_none() && alternate) {
        return out;
    }
    match script {
        None => {
            if n > 0 {
                green_bold(n)
            } else {
                yellow_bold(n)
            }
        },
        Some(sub) => {
            let unsigned: u32 = if n < 0 {
                (n as i64 + 0x1_0000_0000) as u32
            } else {
                n as u32
            };
            push_script(&mut out, unsigned, sub);
            assert(out@ =~= script_text(as_unsigned(n as int), sub));
            out
        },
    }
}

/// Formats a term within a chemical equation recursively.
///
/// This function generally parenthesizes the lists, formats the
/// coefficients as subscripts and the charges as superscripts.
///
/// The parameter `outermost` specifies that the term is an outermost list,
/// dropping the parentheses around it and formatting its coefficient as
/// preceding ASCII numbers instead.
pub fn fmt_term(term: &Term, outermost: bool, alternate: bool) -> (s: String)
    ensures
        s@ == term_text(*term, outermost, alternate),
    decreases term,
{
    let mut out = String::new();
    match term {
        Term::Elem { name, n } => {
            out.append(name.as_str());
            let coef = fmt_coef(*n, Some(true), alternate);
            out.append(coef.as_str());
            assert(out@ =~= term_text(*term, outermost, alternate));
        },
        Term::List { list, n, charge } => {
            if outermost {
                let coef = fmt_coef(*n, None, alternate);
                out.append(coef.as_str());
            } else {
                out.push('(');
            }
            let ghost head = out@;
            let len = list.len();
            let mut i: usize = 0;
            while i < len
                invariant
                    len == list.len(),
                    i <= len,
                    *term == (Term::List { list: *list, n: *n, charge: *charge }),
                    out@ == head + members_text(*term, i as nat, alternate),
                decreases len - i,
            {
                let member = fmt_term(&list[i], false, alternate);
                out.append(member.as_str());
                i += 1;
                assert(out@ =~= head + members_text(*term, i as nat, alternate));
            }
            if !outermost {
                out.push(')');
                let coef = fmt_coef(*n, Some(true), alternate);
                out.append(coef.as_str());
            }
            if *charge != 0 {
                let size = if *charge < 0 && *charge != i32::MIN {
                    -*charge
                } else {
                    *charge
                };
                let coef = fmt_coef(size, Some(false), alternate);
                out.append(coef.as_str());
                out.push(if *charge < 0 { '\u{207b}' } else { '\u{207a}' });
            }
            assert(out@ =~= term_text(*term, outermost, alternate));
        },
        Term::Electron => {
            out.push('e');
            assert(out@ =~= term_text(*term, outermost, alternate));
        },
    }
    out
}

impl Term {
    /// The text of this term as an outermost term of an equation. The
    /// coefficient 1 is shown only where `alternate` is set.
    pub fn to_text(&self, alternate: bool) -> (s: String)
        ensures
            s@ == term_text(*self, true, alternate),
    {
        fmt_term(self, true, alternate)
    }
}

impl ChemEq {
    /// The text of this equation: its terms joined by ` + `, with ` -> `
    /// between the two sides. The coefficient 1 is shown only where
    /// `alternate` is set.
    pub fn to_text(&self, alternate: bool) -> (s: String)
        ensures
            s@ == equation_text(
                self.terms@,
                self.left_len as nat,
                self.terms.len() as nat,
                alternate,
            ),
    {
        let mut out = String::new();
        let len = self.terms.len();
        let mut i: usize = 0;
        while i < len
            invariant
                len == self.terms.len(),
                i <= len,
                out@ == equation_text(self.terms@, self.left_len as nat, i as nat, alternate),
            decreases len - i,
        {
            if i == self.left_len {
                out.append(" -> ");
                proof {
                    reveal_strlit(" -> ");
                    assert(" -> "@ =~= seq![' ', '-', '>', ' ']);
                }
            } else if i != 0 {
                out.append(" + ");
                proof {
                    reveal_strlit(" + ");
                    assert(" + "@ =~= seq![' ', '+', ' ']);
                }
            }
            let term = fmt_term(&self.terms[i], true, alternate);
            out.append(term.as_str());
            i += 1;
            assert(out@ =~= equation_text(self.terms@, self.left_len as nat, i as nat, alternate));
        }
        out
    }
}

} // verus!
