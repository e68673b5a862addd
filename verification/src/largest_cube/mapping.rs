use vstd::prelude::*;

verus! {

/// Dimensions of a flattened three-dimensional grid of cells.
#[derive(Clone, Copy)]
pub struct GridSizes {
    pub x_len: usize,
    pub y_len: usize,
    pub z_len: usize,
}

impl GridSizes {
    /// The number of cells a grid of these dimensions holds.
    pub open spec fn volume(&self) -> int {
        self.x_len * self.y_len * self.z_len
    }

    /// The index arithmetic below must stay inside `usize`.
    pub open spec fn wf(&self) -> bool {
        self.x_len * self.y_len <= usize::MAX
        && self.x_len * self.y_len * self.z_len <= usize::MAX
    }
}

/// Whether cell coordinates lie inside a grid of the given dimensions.
pub open spec fn cell_in_bounds(x: int, y: int, z: int, sizes: GridSizes) -> bool {
    0 <= x < sizes.x_len && 0 <= y < sizes.y_len && 0 <= z < sizes.z_len
}

/// The flattened position of cell `(x, y, z)`: `z` varies slowest, `x` fastest.
pub open spec fn spec_idx_1d(x: int, y: int, z: int, sizes: GridSizes) -> int {
    z * (sizes.x_len * sizes.y_len) + y * sizes.x_len + x
}

/// A flattened index is within the grid's volume whenever its coordinates are.
pub proof fn lemma_idx_1d_bounds(x: int, y: int, z: int, sizes: GridSizes)
    requires
        cell_in_bounds(x, y, z, sizes),
    ensures
        0 <= spec_idx_1d(x, y, z, sizes) < sizes.volume(),
{
    let xl = sizes.x_len as int;
    let yl = sizes.y_len as int;
    let zl = sizes.z_len as int;
    assert(z * (xl * yl) + y * xl + x < xl * yl * zl) by (nonlinear_arith)
        requires
            0 <= x < xl && 0 <= y < yl && 0 <= z < zl,
    ;
    assert(0 <= z * (xl * yl) + y * xl + x) by (nonlinear_arith)
        requires
            0 <= x && 0 <= y && 0 <= z && 0 <= xl && 0 <= yl,
    ;
}

/// Distinct in-bounds coordinates flatten to distinct indices.
pub proof fn lemma_idx_1d_injective(
    x1: int, y1: int, z1: int, x2: int, y2: int, z2: int, sizes: GridSizes,
)
    requires
        cell_in_bounds(x1, y1, z1, sizes),
        cell_in_bounds(x2, y2, z2, sizes),
        spec_idx_1d(x1, y1, z1, sizes) == spec_idx_1d(x2, y2, z2, sizes),
    ensures
        x1 == x2 && y1 == y2 && z1 == z2,
{
    let xl = sizes.x_len as int;
    let yl = sizes.y_len as int;
    assert(x1 == x2 && y1 == y2 && z1 == z2) by (nonlinear_arith)
        requires
            0 <= x1 < xl && 0 <= x2 < xl && 0 <= y1 < yl && 0 <= y2 < yl
            && 0 <= z1 && 0 <= z2
            && z1 * (xl * yl) + y1 * xl + x1 == z2 * (xl * yl) + y2 * xl + x2,
    ;
}

/// Flattens cell coordinates into a single index.
pub fn idx_1d_from(x: usize, y: usize, z: usize, sizes: &GridSizes) -> (r: usize)
    requires
        sizes.wf(),
        cell_in_bounds(x as int, y as int, z as int, *sizes),
    ensures
        r == spec_idx_1d(x as int, y as int, z as int, *sizes),
        r < sizes.volume(),
{
    proof {
        lemma_idx_1d_bounds(x as int, y as int, z as int, *sizes);
    }
    (z * (sizes.x_len * sizes.y_len)) + (y * sizes.x_len) + x
}

/// Recovers the cell coordinates a flattened index stands for.
pub fn idx_3d_from(index_1d: usize, sizes: &GridSizes) -> (r: (usize, usize, usize))
    requires
        sizes.wf(),
        index_1d < sizes.volume(),
    ensures
        cell_in_bounds(r.0 as int, r.1 as int, r.2 as int, *sizes),
        spec_idx_1d(r.0 as int, r.1 as int, r.2 as int, *sizes) == index_1d,
{
    let ghost o = index_1d as int;
    let ghost xl = sizes.x_len as int;
    let ghost yl = sizes.y_len as int;
    let ghost zl = sizes.z_len as int;
    proof {
        assert(xl > 0 && yl > 0 && zl > 0) by (nonlinear_arith)
            requires
                xl * yl * zl > o >= 0,
                xl >= 0 && yl >= 0 && zl >= 0,
        ;
    }
    let plane = sizes.x_len * sizes.y_len;
    proof {
        assert(plane > 0) by (nonlinear_arith)
            requires
                plane == xl * yl,
                xl > 0 && yl > 0,
        ;
    }
    let z = index_1d / plane;
    let rem = index_1d % plane;
    proof {
        vstd::arithmetic::div_mod::lemma_fundamental_div_mod(o, plane as int);
        vstd::arithmetic::div_mod::lemma_mod_bound(o, plane as int);
    }
    let y = rem / sizes.x_len;
    let x = rem % sizes.x_len;
    proof {
        vstd::arithmetic::div_mod::lemma_fundamental_div_mod(rem as int, xl);
        vstd::arithmetic::div_mod::lemma_mod_bound(rem as int, xl);
        let p = plane as int;
        assert(z < zl) by (nonlinear_arith)
            requires
                p == xl * yl && p > 0 && zl > 0,
                o < p * zl,
                o == p * (z as int) + (rem as int),
                0 <= rem < p,
                z >= 0,
        ;
        assert(y < yl && z * (xl * yl) + y * xl + x == o) by (nonlinear_arith)
            requires
                p == xl * yl && xl > 0 && yl > 0,
                o == p * (z as int) + (rem as int),
                0 <= rem < p,
                rem == xl * (y as int) + (x as int),
                0 <= x < xl,
                y >= 0,
        ;
    }
    (x, y, z)
}

/// Every flattened index inside the volume is some cell's index.
pub proof fn lemma_idx_1d_surjective(i: int, sizes: GridSizes)
    requires
        sizes.wf(),
        0 <= i < sizes.volume(),
    ensures
        exists|x: int, y: int, z: int|
            cell_in_bounds(x, y, z, sizes) && #[trigger] spec_idx_1d(x, y, z, sizes) == i,
{
    let xl = sizes.x_len as int;
    let yl = sizes.y_len as int;
    let zl = sizes.z_len as int;
    assert(xl > 0 && yl > 0 && zl > 0) by (nonlinear_arith)
        requires
            xl * yl * zl > i >= 0,
            xl >= 0 && yl >= 0 && zl >= 0,
    ;
    let p = xl * yl;
    assert(p > 0) by (nonlinear_arith)
        requires
            p == xl * yl,
            xl > 0 && yl > 0,
    ;
    let z = i / p;
    let rem = i % p;
    vstd::arithmetic::div_mod::lemma_fundamental_div_mod(i, p);
    vstd::arithmetic::div_mod::lemma_mod_bound(i, p);
    let y = rem / xl;
    let x = rem % xl;
    vstd::arithmetic::div_mod::lemma_fundamental_div_mod(rem, xl);
    vstd::arithmetic::div_mod::lemma_mod_bound(rem, xl);
    assert(z >= 0 && y >= 0 && x >= 0) by (nonlinear_arith)
        requires
            z == i / p && p > 0 && i >= 0,
            y == rem / xl && xl > 0 && rem >= 0,
            x == rem % xl,
    ;
    assert(z < zl) by (nonlinear_arith)
        requires
            p > 0 && zl > 0,
            i < p * zl,
            i == p * z + rem,
            0 <= rem < p,
            z >= 0,
    ;
    assert(y < yl && z * (xl * yl) + y * xl + x == i) by (nonlinear_arith)
        requires
            p == xl * yl && xl > 0 && yl > 0,
            i == p * z + rem,
            0 <= rem < p,
            rem == xl * y + x,
            0 <= x < xl,
            y >= 0,
    ;
    assert(cell_in_bounds(x, y, z, sizes) && spec_idx_1d(x, y, z, sizes) == i);
}

/// The lesser of two integers.
pub open spec fn int_min(a: int, b: int) -> int {
    if a <= b {
        a
    } else {
        b
    }
}

/// The least of the three coordinates.
pub open spec fn min3(x: int, y: int, z: int) -> int {
    int_min(x, int_min(y, z))
}

/// The length of the outermost axis of an occupancy grid.
pub open spec fn grid_length(g: Seq<Seq<Seq<bool>>>) -> int {
    g.len() as int
}

/// The length of the middle axis of an occupancy grid.
pub open spec fn grid_width(g: Seq<Seq<Seq<bool>>>) -> int {
    if g.len() > 0 {
        g[0].len() as int
    } else {
        0
    }
}

/// The length of the innermost axis of an occupancy grid.
pub open spec fn grid_height(g: Seq<Seq<Seq<bool>>>) -> int {
    if g.len() > 0 && g[0].len() > 0 {
        g[0][0].len() as int
    } else {
        0
    }
}

/// Whether an occupancy grid is rectangular: every row and column has the
/// length of the first.
pub open spec fn grid_rect(g: Seq<Seq<Seq<bool>>>) -> bool {
    &&& forall|x: int| 0 <= x < g.len() ==> #[trigger] g[x].len() == grid_width(g)
    &&& forall|x: int, y: int|
        0 <= x < g.len() && 0 <= y < grid_width(g) ==> #[trigger] g[x][y].len() == grid_height(g)
}

/// The side length of the largest cube of filled voxels whose far corner
/// (largest coordinates) is voxel `(i-1, j-1, k-1)` of the occupancy grid
/// `g`, following the dynamic-programming recurrence: a cube of side `s`
/// can end at a voxel only if cubes of side `s - 1` end at the seven
/// voxels reached by stepping back one unit along any non-empty subset of
/// the axes.  Cell coordinates are shifted up by one against voxel
/// coordinates, so that index 0 forms an all-empty border.
pub open spec fn dist(g: Seq<Seq<Seq<bool>>>, i: int, j: int, k: int) -> int
    decreases i + j + k,
{
    if i <= 0 || j <= 0 || k <= 0 {
        0
    } else if !g[i - 1][j - 1][k - 1] {
        0
    } else {
        1 + int_min(
            dist(g, i, j, k - 1),
            int_min(
                dist(g, i, j - 1, k - 1),
                int_min(
                    dist(g, i - 1, j, k - 1),
                    int_min(
                        dist(g, i - 1, j - 1, k - 1),
                        int_min(
                            dist(g, i, j - 1, k),
                            int_min(dist(g, i - 1, j - 1, k), dist(g, i - 1, j, k)),
                        ),
                    ),
                ),
            ),
        )
    }
}

/// A distance value is never negative, and never exceeds any of the
/// cell's coordinates.
pub proof fn lemma_dist_le(g: Seq<Seq<Seq<bool>>>, i: int, j: int, k: int)
    ensures
        0 <= dist(g, i, j, k),
        i >= 0 && j >= 0 && k >= 0 ==> dist(g, i, j, k) <= min3(i, j, k),
    decreases i + j + k,
{
    if i > 0 && j > 0 && k > 0 && g[i - 1][j - 1][k - 1] {
        lemma_dist_le(g, i, j, k - 1);
        lemma_dist_le(g, i, j - 1, k - 1);
        lemma_dist_le(g, i - 1, j, k - 1);
        lemma_dist_le(g, i - 1, j - 1, k - 1);
        lemma_dist_le(g, i, j - 1, k);
        lemma_dist_le(g, i - 1, j - 1, k);
        lemma_dist_le(g, i - 1, j, k);
    }
}

/// The least value among the seven predecessor cells of `(x, y, z)`:
/// those reached by stepping back one unit along any non-empty subset of
/// the axes.
pub open spec fn pred_min(data: Seq<u16>, sizes: GridSizes, x: int, y: int, z: int) -> int {
    int_min(
        data[spec_idx_1d(x, y, z - 1, sizes)] as int,
        int_min(
            data[spec_idx_1d(x, y - 1, z - 1, sizes)] as int,
            int_min(
                data[spec_idx_1d(x - 1, y, z - 1, sizes)] as int,
                int_min(
                    data[spec_idx_1d(x - 1, y - 1, z - 1, sizes)] as int,
                    int_min(
                        data[spec_idx_1d(x, y - 1, z, sizes)] as int,
                        int_min(
                            data[spec_idx_1d(x - 1, y - 1, z, sizes)] as int,
                            data[spec_idx_1d(x - 1, y, z, sizes)] as int,
                        ),
                    ),
                ),
            ),
        ),
    )
}

/// The shape every cell of a valid distance grid has: zero on the border,
/// and otherwise either zero or one `scale` step above the least of its
/// seven predecessors.
pub open spec fn valid_distance_cell(
    data: Seq<u16>, sizes: GridSizes, scale: int, x: int, y: int, z: int,
) -> bool {
    let v = data[spec_idx_1d(x, y, z, sizes)] as int;
    if x == 0 || y == 0 || z == 0 {
        v == 0
    } else {
        v == 0 || v == scale + pred_min(data, sizes, x, y, z)
    }
}

/// `data` is a valid distance grid at the given `scale`: the flattening of
/// some occupancy grid's distance values, each multiplied by `scale`.
pub open spec fn distance_grid_ok(data: Seq<u16>, sizes: GridSizes, scale: int) -> bool {
    &&& sizes.wf()
    &&& data.len() == sizes.volume()
    &&& scale >= 1
    &&& forall|x: int, y: int, z: int|
        cell_in_bounds(x, y, z, sizes) ==> #[trigger] valid_distance_cell(
            data, sizes, scale, x, y, z,
        )
}

/// In a valid distance grid no value exceeds `scale` times any of the
/// cell's coordinates, and every non-zero value is at least `scale`.
pub proof fn lemma_distance_cell_bound(
    data: Seq<u16>, sizes: GridSizes, scale: int, x: int, y: int, z: int,
)
    requires
        distance_grid_ok(data, sizes, scale),
        cell_in_bounds(x, y, z, sizes),
    ensures
        data[spec_idx_1d(x, y, z, sizes)] <= scale * min3(x, y, z),
        data[spec_idx_1d(x, y, z, sizes)] != 0 ==> data[spec_idx_1d(x, y, z, sizes)] >= scale,
    decreases x + y + z,
{
    assert(valid_distance_cell(data, sizes, scale, x, y, z));
    let v = data[spec_idx_1d(x, y, z, sizes)] as int;
    if x == 0 || y == 0 || z == 0 {
        assert(scale * min3(x, y, z) >= 0) by (nonlinear_arith)
            requires
                scale >= 1,
                min3(x, y, z) >= 0,
        ;
    } else if v == 0 {
        assert(scale * min3(x, y, z) >= 0) by (nonlinear_arith)
            requires
                scale >= 1,
                min3(x, y, z) >= 0,
        ;
    } else {
        lemma_distance_cell_bound(data, sizes, scale, x - 1, y - 1, z - 1);
        assert(pred_min(data, sizes, x, y, z)
            <= data[spec_idx_1d(x - 1, y - 1, z - 1, sizes)] as int);
        assert(v <= scale + scale * min3(x - 1, y - 1, z - 1));
        assert(scale + scale * (min3(x, y, z) - 1) == scale * min3(x, y, z)) by (nonlinear_arith)
        ;
        assert(pred_min(data, sizes, x, y, z) >= 0);
    }
}

/// Every cell of the cube of side `m` whose far corner carries a distance
/// value of at least `m * scale` itself carries a positive value.
pub proof fn lemma_region_positive(
    data: Seq<u16>, sizes: GridSizes, scale: int, x: int, y: int, z: int, m: int,
    a: int, b: int, c: int,
)
    requires
        distance_grid_ok(data, sizes, scale),
        cell_in_bounds(x, y, z, sizes),
        1 <= m,
        data[spec_idx_1d(x, y, z, sizes)] >= m * scale,
        x - m < a <= x,
        y - m < b <= y,
        z - m < c <= z,
    ensures
        cell_in_bounds(a, b, c, sizes),
        data[spec_idx_1d(a, b, c, sizes)] > 0,
    decreases m,
{
    lemma_distance_cell_bound(data, sizes, scale, x, y, z);
    assert(m <= min3(x, y, z)) by (nonlinear_arith)
        requires
            scale >= 1,
            m * scale <= scale * min3(x, y, z),
    ;
    assert(m * scale >= scale) by (nonlinear_arith)
        requires
            scale >= 1,
            m >= 1,
    ;
    if a == x && b == y && c == z {
        // The far corner itself: its value is at least `scale`, hence positive.
    } else {
        assert(m >= 2);
        let px = if a < x { x - 1 } else { x };
        let py = if b < y { y - 1 } else { y };
        let pz = if c < z { z - 1 } else { z };
        assert(valid_distance_cell(data, sizes, scale, x, y, z));
        let pm = pred_min(data, sizes, x, y, z);
        assert(data[spec_idx_1d(px, py, pz, sizes)] as int >= pm);
        assert(pm >= (m - 1) * scale) by (nonlinear_arith)
            requires
                data[spec_idx_1d(x, y, z, sizes)] as int == scale + pm,
                data[spec_idx_1d(x, y, z, sizes)] >= m * scale,
        ;
        lemma_region_positive(data, sizes, scale, px, py, pz, m - 1, a, b, c);
    }
}

/// A flattened grid of distance values together with its dimensions.
pub struct GridReader {
    sizes: GridSizes,
    grid: Vec<u16>,
}

impl GridReader {
    /// The grid's dimensions.
    pub closed spec fn spec_sizes(&self) -> GridSizes {
        self.sizes
    }

    /// The grid's cells, flattened as `spec_idx_1d` lays them out.
    pub closed spec fn spec_data(&self) -> Seq<u16> {
        self.grid@
    }

    /// The dimensions are consistent with the cell storage.
    pub open spec fn wf(&self) -> bool {
        self.spec_sizes().wf() && self.spec_data().len() == self.spec_sizes().volume()
    }

    /// A grid of the given dimensions with every cell zero.
    pub fn new(length: usize, width: usize, height: usize) -> (r: GridReader)
        requires
            length * width <= usize::MAX,
            length * width * height <= usize::MAX,
        ensures
            r.wf(),
            r.spec_sizes() == (GridSizes { x_len: length, y_len: width, z_len: height }),
            forall|i: int| 0 <= i < r.spec_data().len() ==> r.spec_data()[i] == 0,
    {
        let total = (length * width) * height;
        GridReader {
            sizes: GridSizes { x_len: length, y_len: width, z_len: height },
            grid: vec![0u16; total],
        }
    }

    /// The grid's dimensions, borrowed.
    pub fn size(&self) -> (r: &GridSizes)
        ensures
            *r == self.spec_sizes(),
    {
        &self.sizes
    }

    /// The grid's dimensions, by value.
    pub fn size_cloned(&self) -> (r: GridSizes)
        ensures
            r == self.spec_sizes(),
    {
        self.sizes
    }

    /// Flattens cell coordinates against this grid's dimensions.
    pub fn idx_1d_from(&self, i: usize, j: usize, k: usize) -> (r: usize)
        requires
            self.wf(),
            cell_in_bounds(i as int, j as int, k as int, self.spec_sizes()),
        ensures
            r == spec_idx_1d(i as int, j as int, k as int, self.spec_sizes()),
            r < self.spec_data().len(),
    {
        idx_1d_from(i, j, k, &self.sizes)
    }

    /// Reads the cell at the given coordinates.
    pub fn get(&self, i: usize, j: usize, k: usize) -> (r: u16)
        requires
            self.wf(),
            cell_in_bounds(i as int, j as int, k as int, self.spec_sizes()),
        ensures
            r == self.spec_data()[spec_idx_1d(i as int, j as int, k as int, self.spec_sizes())],
    {
        let idx = self.idx_1d_from(i, j, k);
        self.grid[idx]
    }

    /// Borrows the cell at the given coordinates for writing.
    pub fn get_mut(&mut self, i: usize, j: usize, k: usize) -> (r: Option<&mut u16>)
        requires
            old(self).wf(),
            cell_in_bounds(i as int, j as int, k as int, old(self).spec_sizes()),
        ensures
            ({
                let idx = spec_idx_1d(i as int, j as int, k as int, old(self).spec_sizes());
                &&& r matches Some(e)
                &&& *e == old(self).spec_data()[idx]
                &&& final(self).spec_data() == old(self).spec_data().update(idx, *final(e))
                &&& final(self).spec_sizes() == old(self).spec_sizes()
            }),
    {
        let idx = idx_1d_from(i, j, k, &self.sizes);
        Some(&mut self.grid[idx])
    }

    /// Overwrites the cell at the given coordinates.
    fn set_cell(&mut self, i: usize, j: usize, k: usize, value: u16)
        requires
            old(self).wf(),
            cell_in_bounds(i as int, j as int, k as int, old(self).spec_sizes()),
        ensures
            final(self).wf(),
            final(self).spec_sizes() == old(self).spec_sizes(),
            final(self).spec_data() == old(self).spec_data().update(
                spec_idx_1d(i as int, j as int, k as int, old(self).spec_sizes()),
                value,
            ),
    {
        let idx = idx_1d_from(i, j, k, &self.sizes);
        self.grid.set(idx, value);
    }

    /// The flattened cells.
    pub fn data(&self) -> (r: &Vec<u16>)
        ensures
            r@ == self.spec_data(),
    {
        &self.grid
    }
}

/// Multiplying by a non-negative factor is monotone.
pub proof fn lemma_mul_le(s: int, a: int, b: int)
    requires
        s >= 0,
        a <= b,
    ensures
        s * a <= s * b,
{
    assert(s * a <= s * b) by (nonlinear_arith)
        requires
            s >= 0,
            a <= b,
    ;
}

/// Multiplying by a non-negative factor distributes over the minimum.
proof fn lemma_scale_min(s: int, a: int, b: int)
    requires
        s >= 0,
    ensures
        s * int_min(a, b) == int_min(s * a, s * b),
{
    assert(s * int_min(a, b) == int_min(s * a, s * b)) by (nonlinear_arith)
        requires
            s >= 0,
    ;
}

/// Which cells the distance-grid builder has finished, sweeping `x` in
/// the outermost loop and `z` in the innermost: all interior cells that
/// precede position `(i, j, k)` in that order.
pub open spec fn dp_done(a: int, b: int, c: int, i: int, j: int, k: int) -> bool {
    1 <= a && 1 <= b && 1 <= c && (a < i || (a == i && (b < j || (b == j && c < k))))
}

/// The builder's loop invariant: finished cells hold `scale` times their
/// distance value, all others still hold zero.
pub open spec fn dp_partial(
    data: Seq<u16>, sizes: GridSizes, g: Seq<Seq<Seq<bool>>>, scale: int,
    i: int, j: int, k: int,
) -> bool {
    forall|a: int, b: int, c: int|
        cell_in_bounds(a, b, c, sizes) ==> #[trigger] data[spec_idx_1d(a, b, c, sizes)] as int
            == if dp_done(a, b, c, i, j, k) {
                scale * dist(g, a, b, c)
            } else {
                0
            }
}

/// A grid holding `scale` times each distance value is a valid distance
/// grid in the sense of `distance_grid_ok`.
proof fn lemma_scaled_dist_grid_ok(
    data: Seq<u16>, sizes: GridSizes, g: Seq<Seq<Seq<bool>>>, scale: int,
)
    requires
        sizes.wf(),
        data.len() == sizes.volume(),
        scale >= 1,
        forall|x: int, y: int, z: int|
            cell_in_bounds(x, y, z, sizes) ==> #[trigger] data[spec_idx_1d(x, y, z, sizes)] as int
                == scale * dist(g, x, y, z),
    ensures
        distance_grid_ok(data, sizes, scale),
{
    assert forall|x: int, y: int, z: int|
        cell_in_bounds(x, y, z, sizes) implies #[trigger] valid_distance_cell(
        data, sizes, scale, x, y, z,
    ) by {
        let v = data[spec_idx_1d(x, y, z, sizes)] as int;
        lemma_dist_le(g, x, y, z);
        if x == 0 || y == 0 || z == 0 {
            assert(dist(g, x, y, z) == 0);
            assert(v == scale * 0);
        } else if g[x - 1][y - 1][z - 1] {
            let d1 = dist(g, x, y, z - 1);
            let d2 = dist(g, x, y - 1, z - 1);
            let d3 = dist(g, x - 1, y, z - 1);
            let d4 = dist(g, x - 1, y - 1, z - 1);
            let d5 = dist(g, x, y - 1, z);
            let d6 = dist(g, x - 1, y - 1, z);
            let d7 = dist(g, x - 1, y, z);
            lemma_scale_min(scale, d6, d7);
            lemma_scale_min(scale, d5, int_min(d6, d7));
            lemma_scale_min(scale, d4, int_min(d5, int_min(d6, d7)));
            lemma_scale_min(scale, d3, int_min(d4, int_min(d5, int_min(d6, d7))));
            lemma_scale_min(scale, d2, int_min(d3, int_min(d4, int_min(d5, int_min(d6, d7)))));
            lemma_scale_min(
                scale, d1,
                int_min(d2, int_min(d3, int_min(d4, int_min(d5, int_min(d6, d7))))),
            );
            assert(dist(g, x, y, z) == 1 + int_min(
                d1, int_min(d2, int_min(d3, int_min(d4, int_min(d5, int_min(d6, d7))))),
            ));
            assert(v == scale + pred_min(data, sizes, x, y, z)) by (nonlinear_arith)
                requires
                    v == scale * (1 + int_min(
                        d1,
                        int_min(d2, int_min(d3, int_min(d4, int_min(d5, int_min(d6, d7))))),
                    )),
                    pred_min(data, sizes, x, y, z) == scale * int_min(
                        d1,
                        int_min(d2, int_min(d3, int_min(d4, int_min(d5, int_min(d6, d7))))),
                    ),
            ;
        } else {
            assert(dist(g, x, y, z) == 0);
            assert(v == scale * 0);
        }
    }
}

/// Computes the distance grid of an occupancy grid: a grid one cell
/// larger along each axis whose cell `(i, j, k)` holds `scale` times the
/// side length of the largest filled cube ending at voxel
/// `(i-1, j-1, k-1)`, and whose border (any coordinate zero) holds zero.
#[verifier::loop_isolation(false)]
#[verifier::rlimit(60)]
pub fn grid_to_largest_cubes(grid: Vec<Vec<Vec<bool>>>, scale: u16) -> (r: GridReader)
    requires
        scale >= 1,
        grid_rect(grid.deep_view()),
        (grid.deep_view().len() + 1) * (grid_width(grid.deep_view()) + 1) <= usize::MAX,
        (grid.deep_view().len() + 1) * (grid_width(grid.deep_view()) + 1)
            * (grid_height(grid.deep_view()) + 1) <= usize::MAX,
        scale * min3(
            grid.deep_view().len() as int,
            grid_width(grid.deep_view()),
            grid_height(grid.deep_view()),
        ) <= u16::MAX,
    ensures
        r.wf(),
        r.spec_sizes().x_len == grid.deep_view().len() + 1,
        r.spec_sizes().y_len == grid_width(grid.deep_view()) + 1,
        r.spec_sizes().z_len == grid_height(grid.deep_view()) + 1,
        forall|x: int, y: int, z: int|
            cell_in_bounds(x, y, z, r.spec_sizes()) ==> #[trigger] r.spec_data()[spec_idx_1d(
                x, y, z, r.spec_sizes(),
            )] as int == scale * dist(grid.deep_view(), x, y, z),
        distance_grid_ok(r.spec_data(), r.spec_sizes(), scale as int),
{
    let ghost g = grid.deep_view();
    let length = grid.len();
    let width = if length > 0 { grid[0].len() } else { 0 };
    let height = if length > 0 && width > 0 { grid[0][0].len() } else { 0 };
    proof {
        assert(g.len() == length);
        if length > 0 {
            assert(g[0] == grid@[0].deep_view());
            assert(g[0].len() == grid@[0]@.len());
        }
        if length > 0 && width > 0 {
            assert(g[0][0] == grid@[0]@[0].deep_view());
            assert(g[0][0].len() == grid@[0]@[0]@.len());
        }
        assert(grid_width(g) == width && grid_height(g) == height);
        assert(length + 1 <= usize::MAX && width + 1 <= usize::MAX && height + 1 <= usize::MAX)
            by (nonlinear_arith)
            requires
                (length + 1) * (width + 1) <= usize::MAX,
                (length + 1) * (width + 1) * (height + 1) <= usize::MAX,
                length >= 0 && width >= 0 && height >= 0,
        ;
    }
    let mut largest_cube = GridReader::new(length + 1, width + 1, height + 1);
    let ghost sizes = largest_cube.spec_sizes();
    proof {
        assert forall|a: int, b: int, c: int| cell_in_bounds(a, b, c, sizes)
            implies #[trigger] largest_cube.spec_data()[spec_idx_1d(a, b, c, sizes)] as int
                == if dp_done(a, b, c, 1, 1, 1) { (scale as int) * dist(g, a, b, c) } else { 0 }
        by {
            lemma_idx_1d_bounds(a, b, c, sizes);
        }
        assert(dp_partial(largest_cube.spec_data(), sizes, g, scale as int, 1, 1, 1));
    }

    let mut i: usize = 1;
    while i <= length
        invariant
            1 <= i <= length + 1,
            largest_cube.wf(),
            largest_cube.spec_sizes() == sizes,
            dp_partial(largest_cube.spec_data(), sizes, g, scale as int, i as int, 1, 1),
        decreases length + 1 - i,
    {
        let mut j: usize = 1;
        while j <= width
            invariant
                1 <= j <= width + 1,
                largest_cube.wf(),
                largest_cube.spec_sizes() == sizes,
                dp_partial(largest_cube.spec_data(), sizes, g, scale as int, i as int, j as int, 1),
            decreases width + 1 - j,
        {
            let mut k: usize = 1;
            while k <= height
                invariant
                    1 <= k <= height + 1,
                    largest_cube.wf(),
                    largest_cube.spec_sizes() == sizes,
                    dp_partial(
                        largest_cube.spec_data(), sizes, g, scale as int,
                        i as int, j as int, k as int,
                    ),
                decreases height + 1 - k,
            {
                proof {
                    assert(g[i - 1] == grid@[i - 1].deep_view());
                    assert(g[i - 1].len() == grid@[i - 1]@.len());
                    assert(grid@[i - 1]@.len() == width);
                    assert(g[i - 1][j - 1] == grid@[i - 1]@[j - 1].deep_view());
                    assert(g[i - 1][j - 1].len() == grid@[i - 1]@[j - 1]@.len());
                    assert(grid@[i - 1]@[j - 1]@.len() == height);
                    assert(g[i - 1][j - 1][k - 1] == grid@[i - 1]@[j - 1]@[k - 1]);
                }
                if grid[i - 1][j - 1][k - 1] {
                    let d1 = largest_cube.get(i, j, k - 1);
                    let d2 = largest_cube.get(i, j - 1, k - 1);
                    let d3 = largest_cube.get(i - 1, j, k - 1);
                    let d4 = largest_cube.get(i - 1, j - 1, k - 1);
                    let d5 = largest_cube.get(i, j - 1, k);
                    let d6 = largest_cube.get(i - 1, j - 1, k);
                    let d7 = largest_cube.get(i - 1, j, k);
                    let m67 = if d6 <= d7 { d6 } else { d7 };
                    let m57 = if d5 <= m67 { d5 } else { m67 };
                    let m47 = if d4 <= m57 { d4 } else { m57 };
                    let m37 = if d3 <= m47 { d3 } else { m47 };
                    let m27 = if d2 <= m37 { d2 } else { m37 };
                    let smallest_prior_cube = if d1 <= m27 { d1 } else { m27 };
                    proof {
                        let s = scale as int;
                        let e1 = dist(g, i as int, j as int, k as int - 1);
                        let e2 = dist(g, i as int, j as int - 1, k as int - 1);
                        let e3 = dist(g, i as int - 1, j as int, k as int - 1);
                        let e4 = dist(g, i as int - 1, j as int - 1, k as int - 1);
                        let e5 = dist(g, i as int, j as int - 1, k as int);
                        let e6 = dist(g, i as int - 1, j as int - 1, k as int);
                        let e7 = dist(g, i as int - 1, j as int, k as int);
                        lemma_dist_le(g, i as int, j as int, k as int - 1);
                        lemma_dist_le(g, i as int, j as int - 1, k as int - 1);
                        lemma_dist_le(g, i as int - 1, j as int, k as int - 1);
                        lemma_dist_le(g, i as int - 1, j as int - 1, k as int - 1);
                        lemma_dist_le(g, i as int, j as int - 1, k as int);
                        lemma_dist_le(g, i as int - 1, j as int - 1, k as int);
                        lemma_dist_le(g, i as int - 1, j as int, k as int);
                        assert(d1 as int == s * e1 && d2 as int == s * e2 && d3 as int == s * e3
                            && d4 as int == s * e4 && d5 as int == s * e5 && d6 as int == s * e6
                            && d7 as int == s * e7);
                        lemma_scale_min(s, e6, e7);
                        lemma_scale_min(s, e5, int_min(e6, e7));
                        lemma_scale_min(s, e4, int_min(e5, int_min(e6, e7)));
                        lemma_scale_min(s, e3, int_min(e4, int_min(e5, int_min(e6, e7))));
                        lemma_scale_min(
                            s, e2, int_min(e3, int_min(e4, int_min(e5, int_min(e6, e7)))),
                        );
                        lemma_scale_min(
                            s, e1,
                            int_min(e2, int_min(e3, int_min(e4, int_min(e5, int_min(e6, e7))))),
                        );
                        let ch = int_min(
                            e1,
                            int_min(e2, int_min(e3, int_min(e4, int_min(e5, int_min(e6, e7))))),
                        );
                        assert(smallest_prior_cube as int == s * ch);
                        assert(g[i - 1][j - 1][k - 1]);
                        assert(dist(g, i as int, j as int, k as int) == 1 + ch);
                        assert(smallest_prior_cube as int + s
                            == s * dist(g, i as int, j as int, k as int)) by (nonlinear_arith)
                            requires
                                smallest_prior_cube as int == s * ch,
                                dist(g, i as int, j as int, k as int) == 1 + ch,
                        ;
                        lemma_dist_le(g, i as int, j as int, k as int);
                        lemma_mul_le(
                            s, dist(g, i as int, j as int, k as int),
                            min3(i as int, j as int, k as int),
                        );
                        lemma_mul_le(
                            s, min3(i as int, j as int, k as int),
                            min3(length as int, width as int, height as int),
                        );
                    }
                    let ghost pre_data = largest_cube.spec_data();
                    largest_cube.set_cell(i, j, k, smallest_prior_cube + scale);
                    proof {
                        assert forall|a: int, b: int, c: int| cell_in_bounds(a, b, c, sizes)
                            implies #[trigger] largest_cube.spec_data()[spec_idx_1d(
                                a, b, c, sizes,
                            )] as int == if dp_done(a, b, c, i as int, j as int, k as int + 1) {
                                (scale as int) * dist(g, a, b, c)
                            } else {
                                0
                            }
                        by {
                            lemma_idx_1d_bounds(a, b, c, sizes);
                            lemma_idx_1d_bounds(i as int, j as int, k as int, sizes);
                            let m = spec_idx_1d(i as int, j as int, k as int, sizes);
                            let n = spec_idx_1d(a, b, c, sizes);
                            assert(pre_data[n] as int
                                == if dp_done(a, b, c, i as int, j as int, k as int) {
                                    (scale as int) * dist(g, a, b, c)
                                } else {
                                    0
                                });
                            if n == m {
                                lemma_idx_1d_injective(
                                    a, b, c, i as int, j as int, k as int, sizes,
                                );
                                assert(a == i as int && b == j as int && c == k as int);
                                assert(largest_cube.spec_data()[n] as int
                                    == smallest_prior_cube as int + scale as int);
                                assert(largest_cube.spec_data()[n] as int
                                    == (scale as int) * dist(g, a, b, c));
                            } else {
                                assert(largest_cube.spec_data()[n] == pre_data[n]);
                                assert(dp_done(a, b, c, i as int, j as int, k as int + 1)
                                    == dp_done(a, b, c, i as int, j as int, k as int));
                            }
                        }
                        assert(dp_partial(
                            largest_cube.spec_data(), sizes, g, scale as int,
                            i as int, j as int, k as int + 1,
                        ));
                    }
                } else {
                    proof {
                        assert(!g[i - 1][j - 1][k - 1]);
                        assert(dist(g, i as int, j as int, k as int) == 0);
                        assert(dp_partial(
                            largest_cube.spec_data(), sizes, g, scale as int,
                            i as int, j as int, k as int + 1,
                        ));
                    }
                }
                k += 1;
            }
            proof {
                assert(dp_partial(
                    largest_cube.spec_data(), sizes, g, scale as int,
                    i as int, j as int + 1, 1,
                ));
            }
            j += 1;
        }
        proof {
            assert(dp_partial(
                largest_cube.spec_data(), sizes, g, scale as int, i as int + 1, 1, 1,
            ));
        }
        i += 1;
    }
    proof {
        assert forall|x: int, y: int, z: int| cell_in_bounds(x, y, z, sizes)
            implies #[trigger] largest_cube.spec_data()[spec_idx_1d(x, y, z, sizes)] as int
                == (scale as int) * dist(g, x, y, z)
        by {
            if !dp_done(x, y, z, i as int, 1, 1) {
                assert(x == 0 || y == 0 || z == 0);
                assert(dist(g, x, y, z) == 0);
            }
        }
        lemma_scaled_dist_grid_ok(largest_cube.spec_data(), sizes, g, scale as int);
    }
    largest_cube
}

} // verus!
