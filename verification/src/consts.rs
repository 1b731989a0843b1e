use vstd::prelude::*;

verus! {

/// Side length of a box; the board is SIZE^2 x SIZE^2.
pub const SIZE: usize = 3;

/// Side length of the whole board, and the number of digits.
pub const SIZE2: usize = 9;

/// Number of cells on the board.
pub const NCELLS: usize = 81;

/// Number of groups: SIZE2 rows, SIZE2 columns, SIZE2 boxes.
pub const NGROUPS: usize = 27;

/// A digit that can occupy a cell, restricted to 1..=SIZE2 by every
/// function that takes one.
pub type Num = u8;

} // verus!
