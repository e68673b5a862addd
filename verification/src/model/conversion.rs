use vstd::prelude::*;

use crate::largest_cube::mapping::{GridSizes, lemma_idx_1d_bounds, spec_idx_1d};
use nbt::CompoundTag;

verus! {

#[verifier::external_type_specification]
#[verifier::external_body]
pub struct ExCompoundTag(CompoundTag);

/// What can go wrong turning a schematic's fields into an occupancy
/// grid: a missing or mistyped field, a negative dimension, or a block
/// array whose length does not match the dimensions.
#[derive(PartialEq, Eq, Debug, Clone, Copy)]
pub enum SchematicError {
    MissingLength,
    MissingWidth,
    MissingHeight,
    MissingBlocks,
    NegativeDimensions,
    WrongBlockCount,
}

/// Relies on nbt's CompoundTag::get_i16: yields the 16-bit integer field
/// of that name, if the tag holds one.
#[verifier::external_body]
fn tag_i16(tag: &CompoundTag, name: &str) -> Option<i16> {
    match tag.get_i16(name) {
        Ok(value) => Some(value),
        Err(_) => None,
    }
}

/// Relies on nbt's CompoundTag::get_i8_vec: yields a copy of the byte
/// array field of that name, if the tag holds one.
#[verifier::external_body]
fn tag_i8_vec(tag: &CompoundTag, name: &str) -> Option<Vec<i8>> {
    match tag.get_i8_vec(name) {
        Ok(value) => Some(value.clone()),
        Err(_) => None,
    }
}

/// The dimensions of the flat block array: `x` runs along Length and
/// varies fastest, `z` runs along Height and varies slowest.
pub open spec fn schematic_sizes(length: int, width: int, height: int) -> GridSizes {
    GridSizes { x_len: length as usize, y_len: width as usize, z_len: height as usize }
}

/// Builds the boolean occupancy grid from a schematic's dimensions and
/// flat block array; a block value of one means filled.  The grid is
/// indexed `[width][height][length]`: entry `[j][k][i]` holds block
/// `k * length * width + j * length + i`.  Negative dimensions and a
/// block array of the wrong length are rejected.
#[verifier::loop_isolation(false)]
#[verifier::rlimit(60)]
pub fn blocks_to_grid(length: i16, width: i16, height: i16, blocks: &Vec<i8>) -> (r: Result<
    Vec<Vec<Vec<bool>>>,
    SchematicError,
>)
    ensures
        (length < 0 || width < 0 || height < 0) ==> r == Result::<
            Vec<Vec<Vec<bool>>>,
            SchematicError,
        >::Err(SchematicError::NegativeDimensions),
        (length >= 0 && width >= 0 && height >= 0 && blocks@.len() != length * width * height)
            ==> r == Result::<Vec<Vec<Vec<bool>>>, SchematicError>::Err(
            SchematicError::WrongBlockCount,
        ),
        (length >= 0 && width >= 0 && height >= 0 && blocks@.len() == length * width * height)
            ==> (r matches Ok(g) && {
            let gv = g.deep_view();
            &&& gv.len() == width
            &&& forall|j: int| 0 <= j < width ==> (#[trigger] gv[j]).len() == height
            &&& forall|j: int, k: int|
                0 <= j < width && 0 <= k < height ==> (#[trigger] gv[j][k]).len() == length
            &&& forall|i: int, j: int, k: int|
                0 <= i < length && 0 <= j < width && 0 <= k < height ==> #[trigger] gv[j][k][i]
                    == (blocks@[spec_idx_1d(
                    i, j, k, schematic_sizes(length as int, width as int, height as int),
                )] == 1)
        }),
{
    if length < 0 || width < 0 || height < 0 {
        return Err(SchematicError::NegativeDimensions);
    }
    let length = length as usize;
    let width = width as usize;
    let height = height as usize;
    proof {
        assert((length as int) * (width as int) <= 32767 * 32767 && (length as int) * (
        width as int) * (height as int) <= 32767 * 32767 * 32767) by (nonlinear_arith)
            requires
                0 <= length <= 32767,
                0 <= width <= 32767,
                0 <= height <= 32767,
        ;
    }
    let expected = (length as u64) * (width as u64) * (height as u64);
    if blocks.len() as u64 != expected {
        return Err(SchematicError::WrongBlockCount);
    }
    let ghost sizes = GridSizes { x_len: length, y_len: width, z_len: height };
    proof {
        assert(blocks@.len() == length * width * height);
        assert(length * width <= length * width * height || height == 0) by (nonlinear_arith)
            requires
                length >= 0 && width >= 0 && height >= 0,
        ;
        assert(height == 0 ==> length * width * height == 0) by (nonlinear_arith);
        assert(sizes.wf());
    }

    let mut grid: Vec<Vec<Vec<bool>>> = Vec::new();
    let mut j: usize = 0;
    while j < width
        invariant
            j <= width,
            grid.deep_view().len() == j,
            forall|j1: int| 0 <= j1 < j ==> (#[trigger] grid.deep_view()[j1]).len() == height,
            forall|j1: int, k1: int|
                0 <= j1 < j && 0 <= k1 < height ==> (#[trigger] grid.deep_view()[j1][k1]).len()
                    == length,
            forall|i1: int, j1: int, k1: int|
                0 <= i1 < length && 0 <= j1 < j && 0 <= k1 < height
                    ==> #[trigger] grid.deep_view()[j1][k1][i1] == (blocks@[spec_idx_1d(
                    i1, j1, k1, sizes,
                )] == 1),
        decreases width - j,
    {
        let mut plane: Vec<Vec<bool>> = Vec::new();
        let mut k: usize = 0;
        while k < height
            invariant
                k <= height,
                j < width,
                plane.deep_view().len() == k,
                forall|k1: int| 0 <= k1 < k ==> (#[trigger] plane.deep_view()[k1]).len()
                    == length,
                forall|i1: int, k1: int|
                    0 <= i1 < length && 0 <= k1 < k ==> #[trigger] plane.deep_view()[k1][i1] == (
                    blocks@[spec_idx_1d(i1, j as int, k1, sizes)] == 1),
            decreases height - k,
        {
            let mut row: Vec<bool> = Vec::new();
            let mut i: usize = 0;
            while i < length
                invariant
                    i <= length,
                    j < width,
                    k < height,
                    row@.len() == i,
                    forall|i1: int|
                        0 <= i1 < i ==> #[trigger] row@[i1] == (blocks@[spec_idx_1d(
                            i1, j as int, k as int, sizes,
                        )] == 1),
                decreases length - i,
            {
                proof {
                    lemma_idx_1d_bounds(i as int, j as int, k as int, sizes);
                }
                let blocks_idx_1d = (k * (length * width)) + (j * length) + i;
                row.push(blocks[blocks_idx_1d] == 1);
                i += 1;
            }
            let ghost plane_pre = plane.deep_view();
            plane.push(row);
            proof {
                assert forall|k1: int| 0 <= k1 < k implies #[trigger] plane.deep_view()[k1]
                    == plane_pre[k1] by {}
                assert(plane.deep_view()[k as int] =~= row@);
            }
            k += 1;
        }
        let ghost grid_pre = grid.deep_view();
        grid.push(plane);
        proof {
            assert forall|j1: int| 0 <= j1 < j implies #[trigger] grid.deep_view()[j1]
                == grid_pre[j1] by {}
            assert(grid.deep_view()[j as int] =~= plane.deep_view());
        }
        j += 1;
    }
    Ok(grid)
}

/// Converts a decoded schematic into the boolean occupancy grid: reads
/// the Length, Width and Height fields and the flat Blocks array, and
/// reports which field is missing or inconsistent if the schematic is
/// malformed.
pub fn schematic_to_3dgrid(schematic_root: CompoundTag) -> (r: Result<
    Vec<Vec<Vec<bool>>>,
    SchematicError,
>)
    ensures
        r matches Ok(g) ==> crate::largest_cube::mapping::grid_rect(g.deep_view()),
{
    let length = match tag_i16(&schematic_root, "Length") {
        Some(value) => value,
        None => {
            return Err(SchematicError::MissingLength);
        },
    };
    let width = match tag_i16(&schematic_root, "Width") {
        Some(value) => value,
        None => {
            return Err(SchematicError::MissingWidth);
        },
    };
    let height = match tag_i16(&schematic_root, "Height") {
        Some(value) => value,
        None => {
            return Err(SchematicError::MissingHeight);
        },
    };
    let blocks = match tag_i8_vec(&schematic_root, "Blocks") {
        Some(value) => value,
        None => {
            return Err(SchematicError::MissingBlocks);
        },
    };
    let grid = blocks_to_grid(length, width, height, &blocks);
    proof {
        if length >= 0 && width >= 0 && height >= 0 && blocks@.len() == length * width * height {
            if let Ok(g) = &grid {
                let gv = g.deep_view();
                assert(crate::largest_cube::mapping::grid_rect(gv)) by {
                    assert(crate::largest_cube::mapping::grid_width(gv) == if gv.len() > 0 {
                        gv[0].len() as int
                    } else {
                        0
                    });
                }
            }
        }
    }
    grid
}

} // verus!
