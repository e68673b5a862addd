pub mod extraction;
pub mod mapping;

use vstd::prelude::*;

verus! {

/// An extracted cube: a side length from the palette of powers of two,
/// and the grid coordinates of its far corner (the corner with the
/// largest coordinates along every axis).
#[derive(PartialEq, Debug, Clone, Copy)]
pub struct LargestCube {
    pub side_length: u16,
    pub indexes: (usize, usize, usize),
}

} // verus!
