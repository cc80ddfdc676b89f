//! The grid of cells.

use crate::bitsfield::BitsField;
use vstd::prelude::*;

verus! {

/// A universe is a two-dimensional grid of cells.
///
/// Every cell is in one of at most 256 states, and a state is stored in as
/// few bits as tell the states apart: `k` states take the base-two logarithm
/// of `k` bits, rounded up.
pub struct Universe {
    width: usize,
    height: usize,
    cells: BitsField<u8>,
}

} // verus!
