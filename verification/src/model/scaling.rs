use vstd::prelude::*;

use crate::largest_cube::mapping::{grid_height, grid_rect, grid_width};

verus! {

/// Upscales an occupancy grid by an integer factor: each voxel becomes a
/// `scale` by `scale` by `scale` block of voxels with the same value, so
/// that voxel `(a, b, c)` of the result equals voxel
/// `(a / scale, b / scale, c / scale)` of the input.
#[verifier::loop_isolation(false)]
pub fn scale_grid(grid: &Vec<Vec<Vec<bool>>>, scale: usize) -> (r: Vec<Vec<Vec<bool>>>)
    requires
        scale >= 1,
        grid.deep_view().len() >= 1,
        grid_width(grid.deep_view()) >= 1,
        grid_rect(grid.deep_view()),
        grid.deep_view().len() * scale <= usize::MAX,
        grid_width(grid.deep_view()) * scale <= usize::MAX,
        grid_height(grid.deep_view()) * scale <= usize::MAX,
    ensures
        r.deep_view().len() == grid.deep_view().len() * scale,
        grid_rect(r.deep_view()),
        forall|a: int| 0 <= a < r.deep_view().len() ==> #[trigger] r.deep_view()[a].len()
            == grid_width(grid.deep_view()) * scale,
        forall|a: int, b: int|
            0 <= a < r.deep_view().len() && 0 <= b < grid_width(grid.deep_view()) * scale
                ==> #[trigger] r.deep_view()[a][b].len() == grid_height(grid.deep_view()) * scale,
        forall|a: int, b: int, c: int|
            0 <= a < grid.deep_view().len() * scale && 0 <= b < grid_width(grid.deep_view())
                * scale && 0 <= c < grid_height(grid.deep_view()) * scale
                ==> #[trigger] r.deep_view()[a][b][c]
                    == grid.deep_view()[a / (scale as int)][b / (scale as int)][c / (scale as int)],
{
    let ghost g = grid.deep_view();
    let ghost s = scale as int;
    let length = grid.len();
    let width = grid[0].len();
    let height = grid[0][0].len();
    proof {
        assert(g[0] == grid@[0].deep_view());
        assert(g[0].len() == grid@[0]@.len());
        if width > 0 {
            assert(g[0][0] == grid@[0]@[0].deep_view());
            assert(g[0][0].len() == grid@[0]@[0]@.len());
        }
        assert(grid_width(g) == width && grid_height(g) == height);
    }
    let scaled_length = length * scale;
    let scaled_width = width * scale;
    let scaled_height = height * scale;

    let mut scaled_up_grid: Vec<Vec<Vec<bool>>> = Vec::new();
    let mut a: usize = 0;
    while a < scaled_length
        invariant
            a <= scaled_length,
            scaled_up_grid.deep_view().len() == a,
            forall|a1: int| 0 <= a1 < a ==> #[trigger] scaled_up_grid.deep_view()[a1].len()
                == scaled_width,
            forall|a1: int, b1: int|
                0 <= a1 < a && 0 <= b1 < scaled_width
                    ==> #[trigger] scaled_up_grid.deep_view()[a1][b1].len() == scaled_height,
            forall|a1: int, b1: int, c1: int|
                0 <= a1 < a && 0 <= b1 < scaled_width && 0 <= c1 < scaled_height
                    ==> #[trigger] scaled_up_grid.deep_view()[a1][b1][c1] == g[a1 / s][b1 / s][c1
                    / s],
        decreases scaled_length - a,
    {
        let src_a = a / scale;
        proof {
            assert(src_a < length) by (nonlinear_arith)
                requires
                    src_a == a as int / s,
                    a < length * scale,
                    s == scale,
                    s >= 1,
            ;
        }
        let mut row: Vec<Vec<bool>> = Vec::new();
        let mut b: usize = 0;
        while b < scaled_width
            invariant
                b <= scaled_width,
                src_a == a as int / s,
                src_a < length,
                row.deep_view().len() == b,
                forall|b1: int| 0 <= b1 < b ==> #[trigger] row.deep_view()[b1].len()
                    == scaled_height,
                forall|b1: int, c1: int|
                    0 <= b1 < b && 0 <= c1 < scaled_height
                        ==> #[trigger] row.deep_view()[b1][c1] == g[a as int / s][b1 / s][c1 / s],
            decreases scaled_width - b,
        {
            let src_b = b / scale;
            proof {
                assert(src_b < width) by (nonlinear_arith)
                    requires
                        src_b == b as int / s,
                        b < width * scale,
                        s == scale,
                        s >= 1,
                ;
            }
            let mut column: Vec<bool> = Vec::new();
            let mut c: usize = 0;
            while c < scaled_height
                invariant
                    c <= scaled_height,
                    src_a == a as int / s,
                    src_a < length,
                    src_b == b as int / s,
                    src_b < width,
                    column@.len() == c,
                    forall|c1: int|
                        0 <= c1 < c ==> #[trigger] column@[c1] == g[a as int / s][b as int / s][c1
                            / s],
                decreases scaled_height - c,
            {
                let src_c = c / scale;
                proof {
                    assert(src_c < height) by (nonlinear_arith)
                        requires
                            src_c == c as int / s,
                            c < height * scale,
                            s == scale,
                            s >= 1,
                    ;
                    assert(g[src_a as int] == grid@[src_a as int].deep_view());
                    assert(g[src_a as int].len() == grid@[src_a as int]@.len());
                    assert(g[src_a as int][src_b as int]
                        == grid@[src_a as int]@[src_b as int].deep_view());
                    assert(g[src_a as int][src_b as int].len()
                        == grid@[src_a as int]@[src_b as int]@.len());
                    assert(g[src_a as int][src_b as int][src_c as int]
                        == grid@[src_a as int]@[src_b as int]@[src_c as int]);
                }
                column.push(grid[src_a][src_b][src_c]);
                c += 1;
            }
            let ghost row_pre = row.deep_view();
            row.push(column);
            proof {
                assert forall|b1: int| 0 <= b1 < b implies #[trigger] row.deep_view()[b1]
                    == row_pre[b1] by {}
                assert(row.deep_view()[b as int] =~= column@);
            }
            b += 1;
        }
        let ghost grid_pre = scaled_up_grid.deep_view();
        scaled_up_grid.push(row);
        proof {
            assert forall|a1: int| 0 <= a1 < a implies #[trigger] scaled_up_grid.deep_view()[a1]
                == grid_pre[a1] by {}
            assert(scaled_up_grid.deep_view()[a as int] =~= row.deep_view());
        }
        a += 1;
    }
    proof {
        assert(grid_width(scaled_up_grid.deep_view()) == scaled_width) by {
            assert(scaled_length >= 1 && scaled_width >= 1) by (nonlinear_arith)
                requires
                    length >= 1 && width >= 1 && scale >= 1,
                    scaled_length == length * scale,
                    scaled_width == width * scale,
            ;
        }
    }
    scaled_up_grid
}

} // verus!
