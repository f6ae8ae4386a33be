//! The failure that exact integer arithmetic can meet.

use vstd::prelude::*;

verus! {

/// An exact result does not fit in a 32-bit signed integer.
#[derive(Debug, Clone, Copy, PartialEq, Eq)]
pub struct ArithmeticOverflow;

} // verus!
