pub mod blockland;
pub mod largest_cube;
pub mod model;

use vstd::prelude::*;

use largest_cube::LargestCube;
use largest_cube::extraction::{
    cube_cells_side, cubes_cover, cubes_disjoint, get_largest_cubes, is_pow2,
};
use largest_cube::mapping::{
    cell_in_bounds, dist, grid_height, grid_rect, grid_width, grid_to_largest_cubes,
    lemma_dist_le, min3, spec_idx_1d,
};
use blockland::{Brick, PlacedBrick, brick_wf, spec_placed};
use blockland::mapping::{BrickBuilder, bundles_labeled};
use model::conversion::SchematicError;
use nbt::CompoundTag;

verus! {

/// The sizes a placed cube may have: the powers of two from 1 to 64.
pub open spec fn is_palette_size(n: int) -> bool {
    n == 1 || n == 2 || n == 4 || n == 8 || n == 16 || n == 32 || n == 64
}

/// Converts an occupancy grid into a sequence of non-overlapping cubes
/// with palette side lengths: first the distance grid is computed, then
/// cubes are claimed greedily, the largest distance value first.  The
/// cubes' claimed voxels are exactly the filled voxels of the grid
/// (shifted up by one into distance-grid cell coordinates and scaled by
/// `scale`), and no voxel is claimed twice.
pub fn extract_largest_cubes_from(voxel_grid: Vec<Vec<Vec<bool>>>, scale: u16) -> (r: Vec<
    LargestCube,
>)
    requires
        is_palette_size(scale as int),
        grid_rect(voxel_grid.deep_view()),
        (voxel_grid.deep_view().len() + 1) * (grid_width(voxel_grid.deep_view()) + 1) * (
        grid_height(voxel_grid.deep_view()) + 1) <= usize::MAX,
        voxel_grid.deep_view().len() + 1 <= usize::MAX / 64,
        grid_width(voxel_grid.deep_view()) + 1 <= usize::MAX / 64,
        grid_height(voxel_grid.deep_view()) + 1 <= usize::MAX / 64,
        scale * min3(
            voxel_grid.deep_view().len() as int,
            grid_width(voxel_grid.deep_view()),
            grid_height(voxel_grid.deep_view()),
        ) <= u16::MAX,
    ensures
        cubes_disjoint(r@, scale as int),
        forall|x: int, y: int, z: int|
            0 <= x < voxel_grid.deep_view().len() && 0 <= y < grid_width(voxel_grid.deep_view())
                && 0 <= z < grid_height(voxel_grid.deep_view()) ==> (#[trigger] cubes_cover(
                r@, scale as int, x + 1, y + 1, z + 1,
            ) <==> voxel_grid.deep_view()[x][y][z]),
        forall|m: int|
            0 <= m < r@.len() ==> {
                let c = #[trigger] r@[m];
                &&& 1 <= c.side_length <= 64
                &&& is_pow2(c.side_length as int)
                &&& is_pow2(cube_cells_side(c, scale as int))
                &&& c.side_length as int == cube_cells_side(c, scale as int) * scale
                &&& c.side_length <= c.indexes.0
                &&& c.side_length <= c.indexes.1
                &&& c.side_length <= c.indexes.2
                &&& c.indexes.0 <= voxel_grid.deep_view().len() * scale
                &&& c.indexes.1 <= grid_width(voxel_grid.deep_view()) * scale
                &&& c.indexes.2 <= grid_height(voxel_grid.deep_view()) * scale
            },
        forall|m: int, n: int|
            #![trigger r@[m], r@[n]]
            0 <= m < n < r@.len() ==> dist(
                voxel_grid.deep_view(),
                r@[n].indexes.0 as int / (scale as int),
                r@[n].indexes.1 as int / (scale as int),
                r@[n].indexes.2 as int / (scale as int),
            ) <= dist(
                voxel_grid.deep_view(),
                r@[m].indexes.0 as int / (scale as int),
                r@[m].indexes.1 as int / (scale as int),
                r@[m].indexes.2 as int / (scale as int),
            ),
{
    let ghost g = voxel_grid.deep_view();
    let ghost s = scale as int;
    let ghost gl = g.len() as int;
    let ghost gw = grid_width(g);
    let ghost gh = grid_height(g);

    proof {
        assert((gl + 1) * (gw + 1) <= usize::MAX) by (nonlinear_arith)
            requires
                (gl + 1) * (gw + 1) * (gh + 1) <= usize::MAX,
                gl >= 0 && gw >= 0 && gh >= 0,
        ;
    }
    let largest_cubes_grid = grid_to_largest_cubes(voxel_grid, scale);
    let ghost sizes = largest_cubes_grid.spec_sizes();
    let ghost data = largest_cubes_grid.spec_data();
    let r = get_largest_cubes(largest_cubes_grid, scale);
    proof {
        assert forall|x: int, y: int, z: int|
            0 <= x < gl && 0 <= y < gw && 0 <= z < gh implies (#[trigger] cubes_cover(
            r@, s, x + 1, y + 1, z + 1,
        ) <==> g[x][y][z]) by {
            assert(cell_in_bounds(x + 1, y + 1, z + 1, sizes));
            assert(data[spec_idx_1d(x + 1, y + 1, z + 1, sizes)] as int == s * dist(
                g, x + 1, y + 1, z + 1,
            ));
            lemma_dist_le(g, x + 1, y + 1, z + 1);
            if g[x][y][z] {
                lemma_dist_le(g, x + 1, y + 1, z);
                lemma_dist_le(g, x + 1, y, z + 1);
                lemma_dist_le(g, x, y + 1, z + 1);
                lemma_dist_le(g, x, y, z + 1);
                lemma_dist_le(g, x + 1, y, z);
                lemma_dist_le(g, x, y, z);
                lemma_dist_le(g, x, y + 1, z);
                assert(dist(g, x + 1, y + 1, z + 1) >= 1);
                assert(s * dist(g, x + 1, y + 1, z + 1) >= 1) by (nonlinear_arith)
                    requires
                        s >= 1,
                        dist(g, x + 1, y + 1, z + 1) >= 1,
                ;
            } else {
                assert(dist(g, x + 1, y + 1, z + 1) == 0);
                assert(s * dist(g, x + 1, y + 1, z + 1) == 0) by (nonlinear_arith)
                    requires
                        dist(g, x + 1, y + 1, z + 1) == 0,
                ;
            }
        }
        assert forall|m: int| 0 <= m < r@.len() implies {
            let c = #[trigger] r@[m];
            &&& 1 <= c.side_length <= 64
            &&& is_pow2(c.side_length as int)
            &&& is_pow2(cube_cells_side(c, s))
            &&& c.side_length as int == cube_cells_side(c, s) * s
            &&& c.side_length <= c.indexes.0
            &&& c.side_length <= c.indexes.1
            &&& c.side_length <= c.indexes.2
            &&& c.indexes.0 <= gl * s
            &&& c.indexes.1 <= gw * s
            &&& c.indexes.2 <= gh * s
        } by {
            let c = r@[m];
            assert(largest_cube::extraction::cube_wf(c, data, sizes, s));
            let k = cube_cells_side(c, s);
            let cx = largest_cube::extraction::cube_cell(c, s).0;
            let cy = largest_cube::extraction::cube_cell(c, s).1;
            let cz = largest_cube::extraction::cube_cell(c, s).2;
            assert(k * s >= 1 && k * s <= k * s) by (nonlinear_arith)
                requires
                    k >= 1,
                    s >= 1,
            ;
            assert(k * s <= cx * s && k * s <= cy * s && k * s <= cz * s && cx * s <= gl * s
                && cy * s <= gw * s && cz * s <= gh * s) by (nonlinear_arith)
                requires
                    s >= 1,
                    1 <= k && k <= cx && k <= cy && k <= cz,
                    cx <= gl && cy <= gw && cz <= gh,
            ;
        }
        assert forall|m: int, n: int|
            #![trigger r@[m], r@[n]]
            0 <= m < n < r@.len() implies dist(
            g,
            r@[n].indexes.0 as int / s,
            r@[n].indexes.1 as int / s,
            r@[n].indexes.2 as int / s,
        ) <= dist(
            g,
            r@[m].indexes.0 as int / s,
            r@[m].indexes.1 as int / s,
            r@[m].indexes.2 as int / s,
        ) by {
            let cm = r@[m];
            let cn = r@[n];
            assert(largest_cube::extraction::cube_wf(cm, data, sizes, s));
            assert(largest_cube::extraction::cube_wf(cn, data, sizes, s));
            assert(largest_cube::extraction::entry_lt(
                largest_cube::extraction::cube_key(cn, data, sizes, s),
                largest_cube::extraction::cube_key(cm, data, sizes, s),
            ));
            let km = largest_cube::extraction::cube_cell(cm, s);
            let kn = largest_cube::extraction::cube_cell(cn, s);
            assert(data[spec_idx_1d(kn.0, kn.1, kn.2, sizes)]
                <= data[spec_idx_1d(km.0, km.1, km.2, sizes)]);
            assert(data[spec_idx_1d(km.0, km.1, km.2, sizes)] as int == s * dist(
                g, km.0, km.1, km.2,
            ));
            assert(data[spec_idx_1d(kn.0, kn.1, kn.2, sizes)] as int == s * dist(
                g, kn.0, kn.1, kn.2,
            ));
            assert(dist(g, kn.0, kn.1, kn.2) <= dist(g, km.0, km.1, km.2)) by (nonlinear_arith)
                requires
                    s >= 1,
                    s * dist(g, kn.0, kn.1, kn.2) <= s * dist(g, km.0, km.1, km.2),
            ;
        }
    }
    r
}

/// The draft brick each extracted cube stands for: the cube's far
/// corner and side length, not yet labeled.
pub open spec fn draft_bricks(cubes: Seq<LargestCube>) -> Seq<Brick> {
    Seq::new(
        cubes.len(),
        |m: int| Brick {
            position: cubes[m].indexes,
            size: cubes[m].side_length,
            floored: true,
            bottom_1x_cube: false,
        },
    )
}

/// Turns extracted cubes into placement records: one draft brick per
/// cube in extraction order, unit cubes paired into bottom and top
/// halves, and every position worked out in fixed-point placement
/// units.
pub fn extract_bricks_from(largest_cubes: Vec<LargestCube>) -> (r: Vec<PlacedBrick>)
    requires
        forall|m: int|
            0 <= m < largest_cubes@.len() ==> {
                let c = #[trigger] largest_cubes@[m];
                &&& 1 <= c.side_length <= 64
                &&& c.side_length <= c.indexes.0
                &&& c.side_length <= c.indexes.1
                &&& c.side_length <= c.indexes.2
                &&& c.indexes.0 <= usize::MAX / 20
                &&& c.indexes.1 <= usize::MAX / 20
                &&& c.indexes.2 <= usize::MAX / 20
            },
    ensures
        exists|labeled: Seq<Brick>|
            {
                &&& #[trigger] bundles_labeled(draft_bricks(largest_cubes@), labeled)
                &&& r@.len() == labeled.len()
                &&& forall|i: int| 0 <= i < r@.len() ==> #[trigger] r@[i] == spec_placed(labeled[i])
            },
{
    let mut brick_builder = BrickBuilder::new();
    let total = largest_cubes.len();
    let mut m: usize = 0;
    while m < total
        invariant
            m <= total,
            total == largest_cubes@.len(),
            brick_builder.bricks@.len() == m,
            forall|j: int|
                0 <= j < m ==> #[trigger] brick_builder.bricks@[j] == draft_bricks(
                    largest_cubes@,
                )[j],
            forall|j: int|
                0 <= j < total ==> {
                    let c = #[trigger] largest_cubes@[j];
                    &&& 1 <= c.side_length <= 64
                    &&& c.side_length <= c.indexes.0
                    &&& c.side_length <= c.indexes.1
                    &&& c.side_length <= c.indexes.2
                    &&& c.indexes.0 <= usize::MAX / 20
                    &&& c.indexes.1 <= usize::MAX / 20
                    &&& c.indexes.2 <= usize::MAX / 20
                },
        decreases total - m,
    {
        let largest_cube = &largest_cubes[m];
        let brick = Brick::new(largest_cube.indexes, largest_cube.side_length);
        brick_builder.with_brick(brick);
        m += 1;
    }
    proof {
        assert(brick_builder.bricks@ =~= draft_bricks(largest_cubes@));
        assert forall|i: int|
            0 <= i < brick_builder.bricks@.len() implies brick_wf(
            #[trigger] brick_builder.bricks@[i],
        ) by {
            assert(largest_cubes@[i].side_length <= largest_cubes@[i].indexes.0);
        }
    }
    let r = brick_builder.build();
    proof {
        assert(bundles_labeled(draft_bricks(largest_cubes@), brick_builder.bricks@));
    }
    r
}

/// Converts a decoded schematic model into the occupancy grid, or says
/// which of its fields is missing or inconsistent.
pub fn parse_grid_from_model(model: CompoundTag) -> (r: Result<
    Vec<Vec<Vec<bool>>>,
    SchematicError,
>)
    ensures
        r matches Ok(g) ==> grid_rect(g.deep_view()),
{
    model::conversion::schematic_to_3dgrid(model)
}

} // verus!
