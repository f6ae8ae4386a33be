//! Exact-integer balancing of chemical equations.
//!
//! An equation is a list of terms, each a tree of elements and groups, with
//! a mark between its two sides. Balancing it takes four steps:
//!
//! 1. every term is collapsed into a tally of atoms ([`term`], [`tally`]);
//! 2. the tallies become the columns of the conservation matrix, with the
//!    right-hand side negated ([`equation`]);
//! 3. the matrix is brought to row echelon form by fraction-free Gaussian
//!    elimination, which stays within the integers ([`lin_alg::row_reduce`]);
//! 4. the null space of the echelon form is solved: it gives no vector, one
//!    vector or a basis, each vector with coprime entries and a fixed sign
//!    ([`lin_alg::solve`]).
//!
//! Every step works on 32-bit integers and reports an overflow instead of
//! wrapping. The contracts say what each step computes; [`theorems`] states
//! what the steps guarantee together: the coefficients conserve every
//! element and the charge, the reduction finds the row rank, and the
//! solution is minimal, independent and complete.
//!
//! [`parse`] reads an equation from text, and [`fmt`] writes one.
//!
//! Three things are taken on trust: that `gcd::Gcd::gcd` returns the
//! greatest common divisor ([`num`]), what owo-colors writes around a
//! painted number ([`fmt`]), and that `String::push` appends a character
//! ([`text`]).
//!
//! ```text
//! let mut eq = parse_equation("H2 + O2 -> H2O")?;
//! let mut matrix = eq.build_matrix()?;
//! let rank = row_reduce(&mut matrix)?;
//! if let Solution::Unique(coefs) = solve(matrix, rank)? {
//!     eq.set_coefs(&coefs);           // 2, 1, 2
//! }
//! ```

pub mod back_substitution;
pub mod basis;
pub mod echelon;
pub mod elimination;
pub mod equation;
pub mod error;
pub mod fmt;
pub mod lin_alg;
pub mod matrix;
pub mod normal;
pub mod null_space;
pub mod num;
pub mod parse;
pub mod rank;
pub mod span;
pub mod tally;
pub mod term;
pub mod text;
pub mod theorems;
pub mod vector;

pub use equation::ChemEq;
pub use error::ArithmeticOverflow;
pub use lin_alg::Solution;
pub use tally::Tally;
pub use term::Term;
