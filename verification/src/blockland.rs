pub mod mapping;
pub mod save_file;

use vstd::prelude::*;

verus! {

/// A draft brick: the grid coordinates of its cube's far corner, the
/// cube's side length, and the labeling flags the later stages fill in.
/// `floored` says whether the cube's top layer rests on the base plane;
/// `bottom_1x_cube` matters only for unit bricks and tells the lower
/// half of a unit-cube pair from the upper.
#[derive(Clone, Copy)]
pub struct Brick {
    pub position: (usize, usize, usize),
    pub size: u16,
    pub floored: bool,
    pub bottom_1x_cube: bool,
}

/// A brick with its placement coordinates worked out.  The target format
/// measures positions in halves of a grid step and offsets each cube's
/// center by a quarter of its size, so every coordinate is an exact
/// multiple of one twentieth of a placement unit; `position` stores
/// twentieths to stay in integers.
#[derive(Clone, Copy, PartialEq, Eq, Debug)]
pub struct PlacedBrick {
    pub position: (usize, usize, usize),
    pub size: u16,
    pub floored: bool,
    pub bottom_1x_cube: bool,
}

/// What a draft brick must satisfy before placement: a palette-sized
/// cube whose far corner lies far enough from the origin for the whole
/// cube to fit, and coordinates small enough for the fixed-point
/// arithmetic.
pub open spec fn brick_wf(b: Brick) -> bool {
    &&& 1 <= b.size <= 64
    &&& 2 * b.position.0 >= b.size
    &&& 2 * b.position.1 >= b.size
    &&& 2 * b.position.2 >= b.size
    &&& b.position.2 >= 1
    &&& b.position.0 <= usize::MAX / 20
    &&& b.position.1 <= usize::MAX / 20
    &&& b.position.2 <= usize::MAX / 20
}

/// A placement coordinate in twentieths: half the grid coordinate less a
/// quarter of the size, which is `(10 p - 5 s)` twentieths.
pub open spec fn spec_center(pos: int, size: int) -> int {
    10 * pos - 5 * size
}

/// The height coordinate in twentieths.  A unit cube is a special case:
/// the format has no true unit cube, and its half-height pieces sit at a
/// fixed offset of three tenths below half the grid coordinate.
pub open spec fn spec_height(pos: int, size: int) -> int {
    if size == 1 {
        10 * pos - 6
    } else {
        10 * pos - 5 * size
    }
}

/// The placement record a draft brick maps to.
pub open spec fn spec_placed(b: Brick) -> PlacedBrick {
    PlacedBrick {
        position: (
            spec_center(b.position.0 as int, b.size as int) as usize,
            spec_center(b.position.1 as int, b.size as int) as usize,
            spec_height(b.position.2 as int, b.size as int) as usize,
        ),
        size: b.size,
        floored: b.position.2 == b.size,
        bottom_1x_cube: b.bottom_1x_cube,
    }
}

/// Whether brick `a` is directly stacked on brick `b`: the same column,
/// one grid unit higher.
pub open spec fn spec_is_above(a: Brick, b: Brick) -> bool {
    a.position.0 == b.position.0 && a.position.1 == b.position.1 && a.position.2 == b.position.2
        + 1
}

/// The same brick with its unit-cube label replaced.
pub open spec fn set_bottom_label(b: Brick, bottom: bool) -> Brick {
    Brick { bottom_1x_cube: bottom, ..b }
}

} // verus!
