use chemcat::lin_alg::{row_reduce, solve, Solution};
use chemcat::{ArithmeticOverflow, ChemEq, Term};

fn elem(name: &str, n: i32) -> Term {
    Term::Elem { name: name.to_string(), n }
}

fn group(list: Vec<Term>) -> Term {
    Term::List { list, n: 1, charge: 0 }
}

fn ion(list: Vec<Term>, charge: i32) -> Term {
    Term::List { list, n: 1, charge }
}

fn equation(left: Vec<Term>, right: Vec<Term>) -> ChemEq {
    let left_len = left.len();
    let mut terms = left;
    terms.extend(right);
    ChemEq { terms, left_len }
}

fn balance(eq: &ChemEq) -> Solution {
    let mut mat = eq.build_matrix().unwrap();
    let rank = row_reduce(&mut mat).unwrap();
    solve(mat, rank).unwrap()
}

fn dot(a: &[i32], b: &[i32]) -> i64 {
    assert_eq!(a.len(), b.len());
    a.iter().zip(b.iter()).map(|(x, y)| *x as i64 * *y as i64).sum()
}

fn unique(sol: Solution) -> Vec<i32> {
    match sol {
        Solution::Unique(v) => v,
        other => panic!("expected a unique solution, got {:?}", other),
    }
}

#[test]
fn water_is_balanced_by_2_1_2() {
    let eq = equation(
        vec![group(vec![elem("H", 2)]), group(vec![elem("O", 2)])],
        vec![group(vec![elem("H", 2), elem("O", 1)])],
    );
    assert_eq!(unique(balance(&eq)), vec![2, 1, 2]);
}

#[test]
fn rust_is_balanced_by_4_3_2() {
    let eq = equation(
        vec![group(vec![elem("Fe", 1)]), group(vec![elem("O", 2)])],
        vec![group(vec![elem("Fe", 2), elem("O", 3)])],
    );
    assert_eq!(unique(balance(&eq)), vec![4, 3, 2]);
}

#[test]
fn disjoint_elements_have_no_solution() {
    let eq = equation(vec![group(vec![elem("H", 1)])], vec![group(vec![elem("He", 1)])]);
    assert!(matches!(balance(&eq), Solution::NoSolution));
}

#[test]
fn redundant_terms_give_a_basis() {
    let eq = equation(
        vec![group(vec![elem("Na", 1)]), group(vec![elem("Cl", 2)])],
        vec![
            group(vec![elem("Na", 1), elem("Cl", 1)]),
            group(vec![elem("Na", 1)]),
            group(vec![elem("Cl", 2)]),
        ],
    );
    let mat = eq.build_matrix().unwrap();
    assert_eq!(mat, vec![vec![1, 0, -1, -1, 0], vec![0, 2, -1, 0, -2]]);
    match balance(&eq) {
        Solution::Infinite(basis) => {
            assert!(basis.len() >= 2);
            assert_eq!(basis.len(), 3);
            for v in &basis {
                assert_eq!(v.len(), 5);
                for row in &mat {
                    assert_eq!(dot(row, v), 0);
                }
            }
            assert_eq!(
                basis,
                vec![vec![2, 1, 2, 0, 0], vec![1, 0, 0, 1, 0], vec![0, 1, 0, 0, 1]]
            );
        }
        other => panic!("expected a basis, got {:?}", other),
    }
}

#[test]
fn carbon_dioxide_is_balanced_by_1_1_1() {
    let eq = equation(
        vec![group(vec![elem("C", 1)]), group(vec![elem("O", 2)])],
        vec![group(vec![elem("C", 1), elem("O", 2)])],
    );
    assert_eq!(unique(balance(&eq)), vec![1, 1, 1]);
}

#[test]
fn solution_conserves_every_row() {
    // C3H8 + O2 -> CO2 + H2O
    let eq = equation(
        vec![group(vec![elem("C", 3), elem("H", 8)]), group(vec![elem("O", 2)])],
        vec![
            group(vec![elem("C", 1), elem("O", 2)]),
            group(vec![elem("H", 2), elem("O", 1)]),
        ],
    );
    let given = eq.build_matrix().unwrap();
    let sol = unique(balance(&eq));
    assert_eq!(sol, vec![1, 5, 3, 4]);
    for row in &given {
        assert_eq!(dot(row, &sol), 0);
    }
}

#[test]
fn charge_is_conserved_in_a_half_equation() {
    // Fe(3+) + e(-) -> Fe(2+)
    let eq = equation(
        vec![ion(vec![elem("Fe", 1)], 3), ion(vec![Term::Electron], -1)],
        vec![ion(vec![elem("Fe", 1)], 2)],
    );
    let mat = eq.build_matrix().unwrap();
    assert_eq!(mat, vec![vec![1, 0, -1], vec![3, -1, -2]]);
    assert_eq!(unique(balance(&eq)), vec![1, 1, 1]);
}

#[test]
fn set_coefs_writes_the_multipliers() {
    let mut eq = equation(
        vec![group(vec![elem("H", 2)]), group(vec![elem("O", 2)])],
        vec![group(vec![elem("H", 2), elem("O", 1)])],
    );
    let ill = eq.set_coefs(&[2, 1, 2]);
    assert!(!ill);
    let got: Vec<i32> = eq
        .terms
        .iter()
        .map(|t| match t {
            Term::List { n, .. } => *n,
            _ => unreachable!(),
        })
        .collect();
    assert_eq!(got, vec![2, 1, 2]);
    assert_eq!(eq.left_len, 2);
}

#[test]
fn set_coefs_flags_a_coefficient_that_is_not_positive() {
    let mut eq = equation(
        vec![group(vec![elem("H", 2)]), group(vec![elem("O", 2)])],
        vec![group(vec![elem("H", 2), elem("O", 1)])],
    );
    assert!(eq.set_coefs(&[1, 0, 2]));
    assert!(eq.set_coefs(&[1, -1, 2]));
    assert!(!eq.set_coefs(&[1, 1, 1]));
}

#[test]
fn build_matrix_fails_where_a_count_cannot_be_negated() {
    let eq = equation(
        vec![group(vec![elem("H", 1)])],
        vec![group(vec![elem("H", i32::MIN)])],
    );
    assert_eq!(eq.build_matrix(), Err(ArithmeticOverflow));
}

#[test]
fn build_matrix_orders_rows_by_first_meeting() {
    // CH4 + O2 -> CO2 + H2O: rows C, H, O.
    let eq = equation(
        vec![group(vec![elem("C", 1), elem("H", 4)]), group(vec![elem("O", 2)])],
        vec![
            group(vec![elem("C", 1), elem("O", 2)]),
            group(vec![elem("H", 2), elem("O", 1)]),
        ],
    );
    assert_eq!(
        eq.build_matrix().unwrap(),
        vec![vec![1, 0, -1, 0], vec![4, 0, 0, -2], vec![0, 2, -2, -1]]
    );
    assert_eq!(unique(balance(&eq)), vec![1, 2, 1, 2]);
}

#[test]
fn a_coefficient_that_is_not_positive_is_still_a_solution() {
    // A + B -> A leaves no room for B.
    let mut eq = equation(
        vec![group(vec![elem("A", 1)]), group(vec![elem("B", 1)])],
        vec![group(vec![elem("A", 1)])],
    );
    let sol = unique(balance(&eq));
    assert_eq!(sol, vec![1, 0, 1]);
    assert!(eq.set_coefs(&sol));

    // A + AB -> B needs A taken away.
    let mut eq = equation(
        vec![group(vec![elem("A", 1)]), group(vec![elem("A", 1), elem("B", 1)])],
        vec![group(vec![elem("B", 1)])],
    );
    let given = eq.build_matrix().unwrap();
    let sol = unique(balance(&eq));
    assert_eq!(sol, vec![-1, 1, 1]);
    for row in &given {
        assert_eq!(dot(row, &sol), 0);
    }
    assert!(eq.set_coefs(&sol));
}

#[test]
fn an_equation_without_symbols_has_no_rows() {
    let eq = equation(
        vec![Term::List { list: vec![Term::Electron], n: 1, charge: 0 }],
        vec![Term::List { list: vec![], n: 1, charge: 0 }],
    );
    assert_eq!(eq.build_matrix(), Ok(vec![]));
}
