use chemcat::fmt::{fmt_coef, fmt_term};
use chemcat::{ChemEq, Term};

fn elem(name: &str, n: i32) -> Term {
    Term::Elem { name: name.to_string(), n }
}

fn list(list: Vec<Term>, n: i32, charge: i32) -> Term {
    Term::List { list, n, charge }
}

fn green(n: &str) -> String {
    format!("\u{1b}[1m\u{1b}[32m{}\u{1b}[39m\u{1b}[0m", n)
}

fn yellow(n: &str) -> String {
    format!("\u{1b}[1m\u{1b}[33m{}\u{1b}[39m\u{1b}[0m", n)
}

#[test]
fn fmt_coef_drops_a_coefficient_of_one() {
    assert_eq!(fmt_coef(1, None, false), "");
    assert_eq!(fmt_coef(1, Some(true), false), "");
    assert_eq!(fmt_coef(1, Some(false), false), "");
    assert_eq!(fmt_coef(1, Some(true), true), "");
    assert_eq!(fmt_coef(1, Some(false), true), "");
    assert_eq!(fmt_coef(1, None, true), green("1"));
}

#[test]
fn fmt_coef_paints_ascii_numbers() {
    assert_eq!(fmt_coef(2, None, false), green("2"));
    assert_eq!(fmt_coef(1234567890, None, true), green("1234567890"));
    assert_eq!(fmt_coef(0, None, false), yellow("0"));
    assert_eq!(fmt_coef(-3, None, false), yellow("-3"));
    assert_eq!(fmt_coef(i32::MIN, None, false), yellow("-2147483648"));
}

#[test]
fn fmt_coef_writes_subscripts_and_superscripts() {
    assert_eq!(fmt_coef(2, Some(true), false), "\u{2082}");
    assert_eq!(
        fmt_coef(1234567890, Some(true), false),
        "\u{2081}\u{2082}\u{2083}\u{2084}\u{2085}\u{2086}\u{2087}\u{2088}\u{2089}\u{2080}"
    );
    assert_eq!(
        fmt_coef(1234567890, Some(false), false),
        "\u{b9}\u{b2}\u{b3}\u{2074}\u{2075}\u{2076}\u{2077}\u{2078}\u{2079}\u{2070}"
    );
    assert_eq!(fmt_coef(0, Some(true), false), "\u{2080}");
    assert_eq!(fmt_coef(10, Some(false), false), "\u{b9}\u{2070}");
}

#[test]
fn fmt_coef_reads_a_negative_script_as_unsigned() {
    // -1 is 4294967295 as an unsigned 32-bit number.
    assert_eq!(
        fmt_coef(-1, Some(true), false),
        "\u{2084}\u{2082}\u{2089}\u{2084}\u{2089}\u{2086}\u{2087}\u{2082}\u{2089}\u{2085}"
    );
}

#[test]
fn fmt_term_writes_an_element_and_an_electron() {
    assert_eq!(fmt_term(&elem("H", 2), false, false), "H\u{2082}");
    assert_eq!(fmt_term(&elem("Na", 1), true, true), "Na");
    assert_eq!(fmt_term(&Term::Electron, true, false), "e");
}

#[test]
fn fmt_term_parenthesizes_inner_lists_only() {
    let hydroxide = list(vec![elem("O", 1), elem("H", 1)], 2, 0);
    assert_eq!(fmt_term(&hydroxide, false, false), "(OH)\u{2082}");
    assert_eq!(fmt_term(&hydroxide, true, false), format!("{}OH", green("2")));
    let lime = list(vec![elem("Ca", 1), hydroxide], 1, 0);
    assert_eq!(lime.to_text(false), "Ca(OH)\u{2082}");
    assert_eq!(lime.to_text(true), format!("{}Ca(OH)\u{2082}", green("1")));
}

#[test]
fn fmt_term_writes_charges_as_superscripts() {
    assert_eq!(list(vec![elem("Fe", 1)], 1, 3).to_text(false), "Fe\u{b3}\u{207a}");
    assert_eq!(
        list(vec![elem("S", 1), elem("O", 4)], 1, -2).to_text(false),
        "SO\u{2084}\u{b2}\u{207b}"
    );
    assert_eq!(list(vec![Term::Electron], 1, -1).to_text(false), "e\u{207b}");
    assert_eq!(list(vec![elem("H", 1)], 1, 1).to_text(false), "H\u{207a}");
    assert_eq!(
        list(vec![elem("X", 1)], 1, i32::MIN).to_text(false),
        "X\u{b2}\u{b9}\u{2074}\u{2077}\u{2074}\u{2078}\u{b3}\u{2076}\u{2074}\u{2078}\u{207b}"
    );
}

#[test]
fn equation_text_joins_terms_and_sides() {
    let eq = ChemEq {
        terms: vec![
            list(vec![elem("H", 2)], 2, 0),
            list(vec![elem("O", 2)], 1, 0),
            list(vec![elem("H", 2), elem("O", 1)], 2, 0),
        ],
        left_len: 2,
    };
    assert_eq!(
        eq.to_text(false),
        format!("{}H\u{2082} + O\u{2082} -> {}H\u{2082}O", green("2"), green("2"))
    );
    assert_eq!(
        eq.to_text(true),
        format!(
            "{}H\u{2082} + {}O\u{2082} -> {}H\u{2082}O",
            green("2"),
            green("1"),
            green("2")
        )
    );
}

#[test]
fn equation_text_marks_a_coefficient_that_is_not_positive() {
    let eq = ChemEq {
        terms: vec![list(vec![elem("H", 1)], 0, 0), list(vec![elem("H", 1)], -2, 0)],
        left_len: 1,
    };
    assert_eq!(eq.to_text(false), format!("{}H -> {}H", yellow("0"), yellow("-2")));
    let none = ChemEq { terms: vec![], left_len: 0 };
    assert_eq!(none.to_text(false), "");
    let right_only = ChemEq { terms: vec![list(vec![elem("H", 1)], 1, 0)], left_len: 0 };
    assert_eq!(right_only.to_text(false), " -> H");
}
