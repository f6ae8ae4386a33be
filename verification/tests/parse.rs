use chemcat::lin_alg::{row_reduce, solve, Solution};
use chemcat::parse::{parse_equation, SyntaxError};
use chemcat::{ChemEq, Term};

fn elem(name: &str, n: i32) -> Term {
    Term::Elem { name: name.to_string(), n }
}

fn list(list: Vec<Term>, n: i32, charge: i32) -> Term {
    Term::List { list, n, charge }
}

fn assert_parses(text: &str, left_len: usize, terms: Vec<Term>) {
    assert_eq!(parse_equation(text), Ok(ChemEq { terms, left_len }), "{}", text);
}

fn water() -> Vec<Term> {
    vec![
        list(vec![elem("H", 2)], 1, 0),
        list(vec![elem("O", 2)], 1, 0),
        list(vec![elem("H", 2), elem("O", 1)], 1, 0),
    ]
}

#[test]
fn parses_a_plain_equation() {
    assert_parses("H2 + O2 -> H2O", 2, water());
}

#[test]
fn accepts_every_arrow() {
    for arrow in ["=", "==", "===", "->", "-->", "--->", "\u{2192}"] {
        assert_parses(&format!("H2 + O2 {} H2O", arrow), 2, water());
        assert_parses(&format!("H2+O2{}H2O", arrow), 2, water());
    }
    assert_eq!(parse_equation("H2 + O2 - H2O"), Err(SyntaxError));
    assert_eq!(parse_equation("H2 + O2 > H2O"), Err(SyntaxError));
    assert_eq!(parse_equation("H2 + O2 =-> H2O"), Err(SyntaxError));
}

#[test]
fn accepts_white_space_around_signs_only() {
    assert_parses("H2  +\tO2\u{a0}->  H2O", 2, water());
    assert_eq!(parse_equation(" H2 + O2 -> H2O"), Err(SyntaxError));
    assert_eq!(parse_equation("H2 + O2 -> H2O "), Err(SyntaxError));
    assert_eq!(parse_equation("H 2 + O2 -> H2O"), Err(SyntaxError));
}

#[test]
fn reads_and_drops_a_leading_coefficient() {
    assert_parses("2H2 + O2 -> 2H2O", 2, water());
}

#[test]
fn reads_names_of_several_letters() {
    assert_parses(
        "Na + Cl2 -> NaCl",
        2,
        vec![
            list(vec![elem("Na", 1)], 1, 0),
            list(vec![elem("Cl", 2)], 1, 0),
            list(vec![elem("Na", 1), elem("Cl", 1)], 1, 0),
        ],
    );
    assert_parses(
        "Uue -> Uue",
        1,
        vec![list(vec![elem("Uue", 1)], 1, 0), list(vec![elem("Uue", 1)], 1, 0)],
    );
}

#[test]
fn reads_nested_groups_in_both_kinds_of_brackets() {
    assert_parses(
        "Ca(OH)2 -> K4[Fe(CN)6]",
        1,
        vec![
            list(vec![elem("Ca", 1), list(vec![elem("O", 1), elem("H", 1)], 2, 0)], 1, 0),
            list(
                vec![
                    elem("K", 4),
                    list(
                        vec![elem("Fe", 1), list(vec![elem("C", 1), elem("N", 1)], 6, 0)],
                        1,
                        0,
                    ),
                ],
                1,
                0,
            ),
        ],
    );
    assert_eq!(parse_equation("Ca(OH]2 -> Ca"), Err(SyntaxError));
    assert_eq!(parse_equation("Ca()2 -> Ca"), Err(SyntaxError));
    assert_eq!(parse_equation("Ca(OH -> Ca"), Err(SyntaxError));
}

#[test]
fn reads_charges_and_electrons() {
    assert_parses(
        "Fe(3+) + e(-) -> Fe(2+)",
        2,
        vec![
            list(vec![elem("Fe", 1)], 1, 3),
            list(vec![Term::Electron], 1, -1),
            list(vec![elem("Fe", 1)], 1, 2),
        ],
    );
    assert_parses(
        "SO4(2-) -> Cl(-) + H(+)",
        1,
        vec![
            list(vec![elem("S", 1), elem("O", 4)], 1, -2),
            list(vec![elem("Cl", 1)], 1, -1),
            list(vec![elem("H", 1)], 1, 1),
        ],
    );
    assert_parses(
        "2e(-) -> e(-)",
        1,
        vec![list(vec![Term::Electron], 1, -1), list(vec![Term::Electron], 1, -1)],
    );
    assert_eq!(parse_equation("e -> e(-)"), Err(SyntaxError));
    assert_eq!(parse_equation("Fe(3) -> Fe"), Err(SyntaxError));
}

#[test]
fn reads_hydrates() {
    for dot in ["\u{b7}", ".", "*"] {
        assert_parses(
            &format!("CuSO4{}5H2O -> Cu", dot),
            1,
            vec![
                list(
                    vec![
                        elem("Cu", 1),
                        elem("S", 1),
                        elem("O", 4),
                        list(vec![elem("H", 2), elem("O", 1)], 5, 0),
                    ],
                    1,
                    0,
                ),
                list(vec![elem("Cu", 1)], 1, 0),
            ],
        );
    }
    assert_parses(
        "A.B.2C(+) -> A",
        1,
        vec![
            list(
                vec![elem("A", 1), list(vec![elem("B", 1)], 1, 0), list(vec![elem("C", 1)], 2, 0)],
                1,
                1,
            ),
            list(vec![elem("A", 1)], 1, 0),
        ],
    );
    assert_eq!(parse_equation("CuSO4. -> Cu"), Err(SyntaxError));
}

#[test]
fn rejects_a_zero_or_an_oversized_coefficient() {
    assert_eq!(parse_equation("H0 -> H"), Err(SyntaxError));
    assert_eq!(parse_equation("H02 -> H"), Err(SyntaxError));
    assert_eq!(parse_equation("0H -> H"), Err(SyntaxError));
    assert_eq!(parse_equation("H2147483648 -> H"), Err(SyntaxError));
    assert_eq!(parse_equation("H99999999999999999999999 -> H"), Err(SyntaxError));
    assert_parses(
        "H2147483647 -> H10",
        1,
        vec![list(vec![elem("H", 2147483647)], 1, 0), list(vec![elem("H", 10)], 1, 0)],
    );
}

#[test]
fn rejects_what_is_not_an_equation() {
    for text in ["", "H2", "H2 ->", "-> H2", "H2 + -> O2", "h2 -> H2", "H2 -> O2 -> H2O", "H2 + O2"] {
        assert_eq!(parse_equation(text), Err(SyntaxError), "{:?}", text);
    }
}

#[test]
fn a_parsed_equation_can_be_balanced() {
    let mut eq: ChemEq = parse_equation("C3H8 + O2 -> CO2 + H2O").unwrap();
    let mut mat = eq.build_matrix().unwrap();
    let rank = row_reduce(&mut mat).unwrap();
    match solve(mat, rank).unwrap() {
        Solution::Unique(v) => {
            assert_eq!(v, vec![1, 5, 3, 4]);
            assert!(!eq.set_coefs(&v));
        }
        other => panic!("expected a unique solution, got {:?}", other),
    }
    let sol: Vec<i32> = eq
        .terms
        .iter()
        .map(|t| match t {
            Term::List { n, .. } => *n,
            _ => unreachable!(),
        })
        .collect();
    assert_eq!(sol, vec![1, 5, 3, 4]);
}
