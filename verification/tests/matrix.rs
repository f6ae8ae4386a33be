use chemcat::echelon::{is_echelon, lead_of};
use chemcat::matrix::{is_rectangular, swap, unit_vec, zero_row};
use chemcat::tally::find_symbol;

#[test]
fn zero_row_and_unit_vec_build_rows() {
    assert_eq!(zero_row(0), Vec::<i32>::new());
    assert_eq!(zero_row(3), vec![0, 0, 0]);
    assert_eq!(unit_vec(3, 0), vec![1, 0, 0]);
    assert_eq!(unit_vec(3, 2), vec![0, 0, 1]);
    assert_eq!(unit_vec(3, 3), vec![0, 0, 0]);
    assert_eq!(unit_vec(0, 0), Vec::<i32>::new());
}

#[test]
fn swap_exchanges_two_rows() {
    let mut mat = vec![vec![1], vec![2, 2], vec![3, 3, 3]];
    swap(&mut mat, 0, 2);
    assert_eq!(mat, vec![vec![3, 3, 3], vec![2, 2], vec![1]]);
    swap(&mut mat, 1, 1);
    assert_eq!(mat, vec![vec![3, 3, 3], vec![2, 2], vec![1]]);
    swap(&mut mat, 2, 1);
    assert_eq!(mat, vec![vec![3, 3, 3], vec![1], vec![2, 2]]);
}

#[test]
fn is_rectangular_compares_every_row_with_the_first() {
    assert!(is_rectangular(&vec![]));
    assert!(is_rectangular(&vec![vec![]]));
    assert!(is_rectangular(&vec![vec![1, 2], vec![3, 4], vec![5, 6]]));
    assert!(!is_rectangular(&vec![vec![1, 2], vec![3], vec![5, 6]]));
    assert!(!is_rectangular(&vec![vec![1, 2], vec![3, 4], vec![5, 6, 7]]));
}

#[test]
fn lead_of_finds_the_first_nonzero_entry() {
    assert_eq!(lead_of(&vec![]), 0);
    assert_eq!(lead_of(&vec![0, 0, 0]), 3);
    assert_eq!(lead_of(&vec![0, -2, 1]), 1);
    assert_eq!(lead_of(&vec![5, 0, 0]), 0);
}

#[test]
fn is_echelon_accepts_staircases_only() {
    let stair = vec![vec![2, 1, 0, 3], vec![0, 0, -1, 1], vec![0, 0, 0, 0]];
    assert!(is_echelon(&stair, 2));
    assert!(!is_echelon(&stair, 1));
    assert!(!is_echelon(&stair, 3));
    assert!(!is_echelon(&stair, 4));
    assert!(is_echelon(&vec![vec![0, 0], vec![0, 0]], 0));
    assert!(is_echelon(&vec![vec![1, 0], vec![0, 1]], 2));
    // The leading entries must move strictly to the right.
    assert!(!is_echelon(&vec![vec![1, 0], vec![1, 1]], 2));
    assert!(!is_echelon(&vec![vec![0, 1], vec![1, 0]], 2));
    // Rows below the pivot rows must be zero.
    assert!(!is_echelon(&vec![vec![1, 0], vec![0, 0], vec![0, 1]], 1));
    // The rows must have the same length.
    assert!(!is_echelon(&vec![vec![1, 0], vec![0]], 1));
}

#[test]
fn find_symbol_returns_the_first_position() {
    let names = vec!["H".to_string(), "He".to_string(), "H".to_string()];
    assert_eq!(find_symbol(&names, &"H".to_string()), 0);
    assert_eq!(find_symbol(&names, &"He".to_string()), 1);
    assert_eq!(find_symbol(&names, &"h".to_string()), 3);
    assert_eq!(find_symbol(&vec![], &"H".to_string()), 0);
}
