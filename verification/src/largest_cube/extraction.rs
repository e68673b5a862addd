use vstd::prelude::*;

use super::LargestCube;
use super::mapping::{
    GridReader, GridSizes, cell_in_bounds, distance_grid_ok, idx_3d_from,
    lemma_distance_cell_bound, lemma_idx_1d_bounds, lemma_idx_1d_surjective,
    lemma_region_positive, min3, spec_idx_1d,
};

verus! {

/// Whether `n` is a power of two.
pub open spec fn is_pow2(n: int) -> bool
    decreases n,
{
    if n < 1 {
        false
    } else if n == 1 {
        true
    } else {
        n % 2 == 0 && is_pow2(n / 2)
    }
}

/// Of two powers of two, the smaller divides the larger's half.
pub proof fn lemma_pow2_lt(s: int, c: int)
    requires
        is_pow2(s),
        is_pow2(c),
        s < c,
    ensures
        s <= c / 2,
    decreases s + c,
{
    assert(c > 1);
    if s > c / 2 {
        lemma_pow2_lt(c / 2, s);
        assert(c / 2 <= s / 2);
        assert(c <= s) by (nonlinear_arith)
            requires
                c / 2 <= s / 2,
                c % 2 == 0,
                s >= 1,
        ;
    }
}

/// The quotient of two powers of two is a power of two, exactly.
pub proof fn lemma_pow2_div(s: int, c: int)
    requires
        is_pow2(s),
        is_pow2(c),
        s <= c,
    ensures
        c == (c / s) * s,
        is_pow2(c / s),
    decreases c,
{
    if c == s {
        assert(c / s == 1) by (nonlinear_arith)
            requires
                c == s,
                s >= 1,
        ;
    } else {
        lemma_pow2_lt(s, c);
        lemma_pow2_div(s, c / 2);
        let q = (c / 2) / s;
        assert(c == 2 * (c / 2)) by (nonlinear_arith)
            requires
                c % 2 == 0,
        ;
        assert(c == (2 * q) * s) by (nonlinear_arith)
            requires
                c == 2 * (c / 2),
                c / 2 == q * s,
        ;
        vstd::arithmetic::div_mod::lemma_div_multiples_vanish(2 * q, s);
        assert(s * (2 * q) == (2 * q) * s) by (nonlinear_arith);
        assert(c / s == 2 * q);
        assert(q >= 1);
        assert((2 * q) % 2 == 0 && (2 * q) / 2 == q) by (nonlinear_arith);
    }
}

/// A power of two lying between two others, measured by halving.
pub proof fn lemma_pow2_ge(s: int, v: int, r: int)
    requires
        is_pow2(s),
        is_pow2(r),
        s <= v,
        r <= v,
        v < 2 * r,
    ensures
        s <= r,
{
    if r < s {
        lemma_pow2_lt(r, s);
        assert(v < 2 * r <= s <= v);
    }
}

/// The product of two powers of two is a power of two.
pub proof fn lemma_pow2_mul(s: int, r: int)
    requires
        is_pow2(s),
        is_pow2(r),
    ensures
        is_pow2(s * r),
    decreases s,
{
    if s == 1 {
        assert(s * r == r) by (nonlinear_arith)
            requires
                s == 1,
        ;
    } else {
        lemma_pow2_mul(s / 2, r);
        assert(s * r == 2 * ((s / 2) * r) && (2 * ((s / 2) * r)) % 2 == 0 && (2 * ((s / 2) * r))
            / 2 == (s / 2) * r && s * r > 1) by (nonlinear_arith)
            requires
                s % 2 == 0,
                s >= 2,
                r >= 1,
                (s / 2) * 2 == s,
        ;
    }
}

/// Scaling commutes with the palette snap: if `r` is the greatest power
/// of two no greater than a value `v`, and `s` is a power of two, then
/// `s * r` is the greatest power of two no greater than `s * v`.  This
/// is why extracting a grid at a power-of-two scale claims the same
/// cells as extracting it unscaled, as long as the scaled values stay
/// within the palette.
pub proof fn lemma_snap_scales(s: int, v: int, r: int)
    requires
        is_pow2(s),
        is_pow2(r),
        r <= v < 2 * r,
    ensures
        is_pow2(s * r),
        s * r <= s * v < 2 * (s * r),
{
    lemma_pow2_mul(s, r);
    assert(s * r <= s * v && s * v < 2 * (s * r)) by (nonlinear_arith)
        requires
            s >= 1,
            r <= v < 2 * r,
    ;
}

/// A heap entry: the distance value of a cell together with the cell's
/// flattened index.
#[derive(Eq, PartialEq, Ord, PartialOrd)]
pub struct LargestCubeEntry {
    pub data: u16,
    pub idx: usize,
}

/// The priority order of entries: by distance value, ties broken by the
/// flattened cell index, so that of two equal values the cell with the
/// larger `(z, y, x)` comes out first.
pub open spec fn entry_lt(a: LargestCubeEntry, b: LargestCubeEntry) -> bool {
    a.data < b.data || (a.data == b.data && a.idx < b.idx)
}

/// The entries are strictly ascending in priority order, so the last one
/// is the maximum.
pub open spec fn heap_sorted(h: Seq<LargestCubeEntry>) -> bool {
    forall|p: int, q: int| 0 <= p < q < h.len() ==> entry_lt(#[trigger] h[p], #[trigger] h[q])
}

/// Every entry faithfully records a non-zero cell of `data`.
pub open spec fn heap_entries_valid(h: Seq<LargestCubeEntry>, data: Seq<u16>) -> bool {
    forall|p: int|
        0 <= p < h.len() ==> (#[trigger] h[p]).idx < data.len() && h[p].data == data[h[p].idx as int]
            && h[p].data != 0
}

/// Every non-zero cell of `data` has an entry.
pub open spec fn heap_entries_complete(h: Seq<LargestCubeEntry>, data: Seq<u16>) -> bool {
    forall|i: int|
        0 <= i < data.len() && #[trigger] data[i] != 0 ==> exists|p: int|
            0 <= p < h.len() && (#[trigger] h[p]).idx == i
}

/// The max-priority structure the extractor consumes: the cells of the
/// distance grid with non-zero values, sorted ascending so that popping
/// from the end yields the highest value first, and the set of cells
/// already claimed by an accepted cube.
pub struct BinaryIndexHeap {
    pub heap: Vec<LargestCubeEntry>,
    pub visited: Vec<bool>,
}

impl BinaryIndexHeap {
    /// Gathers every non-zero cell of the grid into priority order, with
    /// no cell visited yet.  Runs a counting sort: cells are first
    /// bucketed by value, then the buckets are concatenated in ascending
    /// value order; within a bucket cells keep ascending index order.
    #[verifier::loop_isolation(false)]
    #[verifier::rlimit(60)]
    pub fn from(grid: GridReader) -> (r: BinaryIndexHeap)
        requires
            grid.wf(),
        ensures
            heap_sorted(r.heap@),
            heap_entries_valid(r.heap@, grid.spec_data()),
            heap_entries_complete(r.heap@, grid.spec_data()),
            r.visited@.len() == grid.spec_data().len(),
            forall|i: int| 0 <= i < r.visited@.len() ==> !(#[trigger] r.visited@[i]),
    {
        let data = grid.data();
        let n = data.len();

        let mut maxd: u16 = 0;
        let mut i: usize = 0;
        while i < n
            invariant
                i <= n,
                forall|p: int| 0 <= p < i ==> #[trigger] data@[p] <= maxd,
            decreases n - i,
        {
            if data[i] > maxd {
                maxd = data[i];
            }
            i += 1;
        }

        let m = maxd as usize + 1;
        let mut buckets: Vec<Vec<usize>> = Vec::new();
        while buckets.len() < m
            invariant
                buckets@.len() <= m,
                forall|b: int| 0 <= b < buckets@.len() ==> (#[trigger] buckets@[b])@.len() == 0,
            decreases m - buckets.len(),
        {
            buckets.push(Vec::new());
        }

        let mut i: usize = 0;
        while i < n
            invariant
                i <= n,
                buckets@.len() == m,
                forall|b: int, q: int|
                    0 <= b < m && 0 <= q < (#[trigger] buckets@[b])@.len() ==> {
                        let cell = #[trigger] buckets@[b]@[q];
                        cell < i && data@[cell as int] == b && b != 0
                    },
                forall|b: int, q1: int, q2: int|
                    0 <= b < m && 0 <= q1 < q2 < buckets@[b]@.len()
                        ==> #[trigger] buckets@[b]@[q1] < #[trigger] buckets@[b]@[q2],
                forall|p: int|
                    0 <= p < i && #[trigger] data@[p] != 0 ==> exists|q: int|
                        0 <= q < buckets@[data@[p] as int]@.len()
                            && buckets@[data@[p] as int]@[q] == p,
            decreases n - i,
        {
            let d = data[i];
            if d > 0 {
                let ghost pre = buckets@;
                let bucket = &mut buckets[d as usize];
                bucket.push(i);
                proof {
                    assert(buckets@[d as int]@ == pre[d as int]@.push(i as usize));
                    assert(forall|b: int|
                        0 <= b < m && b != d as int ==> #[trigger] buckets@[b] == pre[b]);
                    assert forall|p: int|
                        0 <= p < i + 1 && #[trigger] data@[p] != 0 implies exists|q: int|
                            0 <= q < buckets@[data@[p] as int]@.len()
                                && buckets@[data@[p] as int]@[q] == p
                    by {
                        if p == i {
                            let q = buckets@[d as int]@.len() - 1;
                            assert(buckets@[data@[p] as int]@[q] == p);
                        } else if data@[p] != 0 {
                            let q = choose|q: int|
                                0 <= q < pre[data@[p] as int]@.len()
                                    && pre[data@[p] as int]@[q] == p;
                            assert(buckets@[data@[p] as int]@[q] == p);
                        }
                    }
                }
            }
            i += 1;
        }

        let ghost final_buckets = buckets@;
        let mut heap: Vec<LargestCubeEntry> = Vec::new();
        let mut d: usize = 1;
        while d < m
            invariant
                1 <= d <= m,
                buckets@ == final_buckets,
                heap_sorted(heap@),
                heap_entries_valid(heap@, data@),
                forall|p: int| 0 <= p < heap@.len() ==> (#[trigger] heap@[p]).data < d,
                forall|p: int|
                    0 <= p < data@.len() && #[trigger] data@[p] != 0 && data@[p] < d
                        ==> exists|t: int| 0 <= t < heap@.len() && (#[trigger] heap@[t]).idx == p,
            decreases m - d,
        {
            let bucket_len = buckets[d].len();
            let mut q: usize = 0;
            while q < bucket_len
                invariant
                    q <= bucket_len,
                    buckets@ == final_buckets,
                    bucket_len == buckets@[d as int]@.len(),
                    heap_sorted(heap@),
                    heap_entries_valid(heap@, data@),
                    forall|p: int|
                        0 <= p < heap@.len() ==> (#[trigger] heap@[p]).data < d || (
                        heap@[p].data == d && exists|t: int|
                            0 <= t < q && buckets@[d as int]@[t] == heap@[p].idx),
                    forall|p: int|
                        0 <= p < data@.len() && #[trigger] data@[p] != 0 && data@[p] < d
                            ==> exists|t: int|
                            0 <= t < heap@.len() && (#[trigger] heap@[t]).idx == p,
                    forall|t: int|
                        0 <= t < q ==> exists|p: int|
                            0 <= p < heap@.len()
                                && (#[trigger] heap@[p]).idx == #[trigger] buckets@[d as int]@[t],
                decreases bucket_len - q,
            {
                let cell = buckets[d][q];
                let ghost pre = heap@;
                heap.push(LargestCubeEntry { data: d as u16, idx: cell });
                proof {
                    let e = LargestCubeEntry { data: d as u16, idx: cell };
                    assert(heap@ == pre.push(e));
                    assert forall|p: int, r: int| 0 <= p < r < heap@.len() implies entry_lt(
                        #[trigger] heap@[p], #[trigger] heap@[r],
                    ) by {
                        if r == heap@.len() - 1 {
                            assert(heap@[r] == e);
                            assert(pre[p].data < d || (pre[p].data == d
                                && exists|t: int|
                                    0 <= t < q && buckets@[d as int]@[t] == pre[p].idx));
                        }
                    }
                    assert forall|p: int|
                        0 <= p < data@.len() && #[trigger] data@[p] != 0 && data@[p] < d
                            implies exists|t: int|
                            0 <= t < heap@.len() && (#[trigger] heap@[t]).idx == p
                    by {
                        let t = choose|t: int|
                            0 <= t < pre.len() && (#[trigger] pre[t]).idx == p;
                        assert(heap@[t].idx == p);
                    }
                    assert forall|t: int| 0 <= t < q + 1 implies exists|p: int|
                        0 <= p < heap@.len()
                            && (#[trigger] heap@[p]).idx == #[trigger] buckets@[d as int]@[t]
                    by {
                        if t == q {
                            assert(heap@[heap@.len() - 1].idx == buckets@[d as int]@[t]);
                        } else {
                            let p = choose|p: int|
                                0 <= p < pre.len()
                                    && (#[trigger] pre[p]).idx == buckets@[d as int]@[t];
                            assert(heap@[p].idx == buckets@[d as int]@[t]);
                        }
                    }
                }
                q += 1;
            }
            proof {
                assert forall|p: int|
                    0 <= p < data@.len() && #[trigger] data@[p] != 0 && data@[p] < d + 1
                        implies exists|t: int|
                        0 <= t < heap@.len() && (#[trigger] heap@[t]).idx == p
                by {
                    if data@[p] == d {
                        let t = choose|t: int|
                            0 <= t < buckets@[d as int]@.len() && buckets@[d as int]@[t] == p;
                        let w = choose|w: int|
                            0 <= w < heap@.len()
                                && (#[trigger] heap@[w]).idx == buckets@[d as int]@[t];
                        assert(heap@[w].idx == p);
                    }
                }
            }
            d += 1;
        }

        let mut visited: Vec<bool> = Vec::new();
        let mut i: usize = 0;
        while i < n
            invariant
                visited@.len() == i <= n,
                forall|p: int| 0 <= p < i ==> !(#[trigger] visited@[p]),
            decreases n - i,
        {
            visited.push(false);
            i += 1;
        }

        BinaryIndexHeap { heap, visited }
    }

    /// Removes and returns the highest-priority entry, if any remain.
    pub fn pop(&mut self) -> (r: Option<LargestCubeEntry>)
        ensures
            old(self).heap@.len() == 0 ==> r is None && final(self).heap@ == old(self).heap@,
            old(self).heap@.len() > 0 ==> r == Some(old(self).heap@[old(self).heap@.len() - 1])
                && final(self).heap@ == old(self).heap@.subrange(0, old(self).heap@.len() - 1),
            final(self).visited@ == old(self).visited@,
    {
        self.heap.pop()
    }

    /// Whether the cell with the given flattened index has been claimed.
    pub fn has_visited(&self, idx: usize) -> (r: bool)
        ensures
            r == (idx < self.visited@.len() && self.visited@[idx as int]),
    {
        idx < self.visited.len() && self.visited[idx]
    }
}

/// Whether cell `(x, y, z)` lies in the cube of `k` cells a side whose
/// far corner is cell `(cx, cy, cz)`.
pub open spec fn region_covers(
    cx: int, cy: int, cz: int, k: int, x: int, y: int, z: int,
) -> bool {
    cx - k < x <= cx && cy - k < y <= cy && cz - k < z <= cz
}

/// The cube's far corner in distance-grid cell units: its stored anchor
/// is in caller units, `scale` times larger.
pub open spec fn cube_cell(c: LargestCube, scale: int) -> (int, int, int) {
    (
        c.indexes.0 as int / scale,
        c.indexes.1 as int / scale,
        c.indexes.2 as int / scale,
    )
}

/// The number of cells the cube spans along each axis.
pub open spec fn cube_cells_side(c: LargestCube, scale: int) -> int {
    c.side_length as int / scale
}

/// Whether the cube's claimed voxel region contains cell `(x, y, z)`.
pub open spec fn cube_covers(c: LargestCube, scale: int, x: int, y: int, z: int) -> bool {
    region_covers(
        cube_cell(c, scale).0,
        cube_cell(c, scale).1,
        cube_cell(c, scale).2,
        cube_cells_side(c, scale),
        x,
        y,
        z,
    )
}

/// Whether some cell of the given region is marked in `visited`.
pub open spec fn region_claimed(
    visited: Seq<bool>, sizes: GridSizes, cx: int, cy: int, cz: int, k: int,
) -> bool {
    exists|x: int, y: int, z: int|
        region_covers(cx, cy, cz, k, x, y, z) && cell_in_bounds(x, y, z, sizes)
            && #[trigger] visited[spec_idx_1d(x, y, z, sizes)]
}

/// True when some cell of the region is already claimed.
#[verifier::loop_isolation(false)]
fn region_has_claimed(
    max_heap: &BinaryIndexHeap, sizes: &GridSizes, cx: usize, cy: usize, cz: usize, k: usize,
) -> (r: bool)
    requires
        sizes.wf(),
        max_heap.visited@.len() == sizes.volume(),
        1 <= k,
        k <= cx < sizes.x_len,
        k <= cy < sizes.y_len,
        k <= cz < sizes.z_len,
    ensures
        r == region_claimed(
            max_heap.visited@, *sizes, cx as int, cy as int, cz as int, k as int,
        ),
{
    let mut x = cx - k + 1;
    while x <= cx
        invariant
            cx - k + 1 <= x <= cx + 1,
            forall|x1: int, y1: int, z1: int|
                region_covers(cx as int, cy as int, cz as int, k as int, x1, y1, z1) && x1 < x
                    ==> !(#[trigger] max_heap.visited@[spec_idx_1d(x1, y1, z1, *sizes)]),
        decreases cx + 1 - x,
    {
        let mut y = cy - k + 1;
        while y <= cy
            invariant
                cy - k + 1 <= y <= cy + 1,
                forall|x1: int, y1: int, z1: int|
                    region_covers(cx as int, cy as int, cz as int, k as int, x1, y1, z1)
                        && (x1 < x || (x1 == x && y1 < y))
                        ==> !(#[trigger] max_heap.visited@[spec_idx_1d(x1, y1, z1, *sizes)]),
            decreases cy + 1 - y,
        {
            let mut z = cz - k + 1;
            while z <= cz
                invariant
                    cz - k + 1 <= z <= cz + 1,
                    forall|x1: int, y1: int, z1: int|
                        region_covers(cx as int, cy as int, cz as int, k as int, x1, y1, z1)
                            && (x1 < x || (x1 == x && (y1 < y || (y1 == y && z1 < z))))
                            ==> !(#[trigger] max_heap.visited@[spec_idx_1d(x1, y1, z1, *sizes)]),
                decreases cz + 1 - z,
            {
                let idx_1d = super::mapping::idx_1d_from(x, y, z, sizes);
                if max_heap.visited[idx_1d] {
                    proof {
                        assert(region_covers(
                            cx as int, cy as int, cz as int, k as int,
                            x as int, y as int, z as int,
                        ) && cell_in_bounds(x as int, y as int, z as int, *sizes)
                            && max_heap.visited@[spec_idx_1d(x as int, y as int, z as int, *sizes)]);
                    }
                    return true;
                }
                z += 1;
            }
            y += 1;
        }
        x += 1;
    }
    false
}

/// Marks every cell of the region as claimed.
#[verifier::loop_isolation(false)]
fn region_mark(
    max_heap: &mut BinaryIndexHeap, sizes: &GridSizes, cx: usize, cy: usize, cz: usize, k: usize,
)
    requires
        sizes.wf(),
        old(max_heap).visited@.len() == sizes.volume(),
        1 <= k,
        k <= cx < sizes.x_len,
        k <= cy < sizes.y_len,
        k <= cz < sizes.z_len,
    ensures
        final(max_heap).heap@ == old(max_heap).heap@,
        final(max_heap).visited@.len() == old(max_heap).visited@.len(),
        forall|x1: int, y1: int, z1: int|
            cell_in_bounds(x1, y1, z1, *sizes) ==> #[trigger] final(max_heap).visited@[spec_idx_1d(
                x1, y1, z1, *sizes,
            )] == (old(max_heap).visited@[spec_idx_1d(x1, y1, z1, *sizes)] || region_covers(
                cx as int, cy as int, cz as int, k as int, x1, y1, z1,
            )),
{
    let ghost orig = max_heap.visited@;
    let mut x = cx - k + 1;
    while x <= cx
        invariant
            cx - k + 1 <= x <= cx + 1,
            max_heap.heap@ == old(max_heap).heap@,
            max_heap.visited@.len() == orig.len(),
            forall|x1: int, y1: int, z1: int|
                cell_in_bounds(x1, y1, z1, *sizes) ==> #[trigger] max_heap.visited@[spec_idx_1d(
                    x1, y1, z1, *sizes,
                )] == (orig[spec_idx_1d(x1, y1, z1, *sizes)] || (region_covers(
                    cx as int, cy as int, cz as int, k as int, x1, y1, z1,
                ) && x1 < x)),
        decreases cx + 1 - x,
    {
        let mut y = cy - k + 1;
        while y <= cy
            invariant
                cy - k + 1 <= y <= cy + 1,
                max_heap.heap@ == old(max_heap).heap@,
                max_heap.visited@.len() == orig.len(),
                forall|x1: int, y1: int, z1: int|
                    cell_in_bounds(x1, y1, z1, *sizes) ==> #[trigger] max_heap.visited@[
                        spec_idx_1d(x1, y1, z1, *sizes)
                    ] == (orig[spec_idx_1d(x1, y1, z1, *sizes)] || (region_covers(
                        cx as int, cy as int, cz as int, k as int, x1, y1, z1,
                    ) && (x1 < x || (x1 == x && y1 < y)))),
            decreases cy + 1 - y,
        {
            let mut z = cz - k + 1;
            while z <= cz
                invariant
                    cz - k + 1 <= z <= cz + 1,
                    max_heap.heap@ == old(max_heap).heap@,
                    max_heap.visited@.len() == orig.len(),
                    forall|x1: int, y1: int, z1: int|
                        cell_in_bounds(x1, y1, z1, *sizes) ==> #[trigger] max_heap.visited@[
                            spec_idx_1d(x1, y1, z1, *sizes)
                        ] == (orig[spec_idx_1d(x1, y1, z1, *sizes)] || (region_covers(
                            cx as int, cy as int, cz as int, k as int, x1, y1, z1,
                        ) && (x1 < x || (x1 == x && (y1 < y || (y1 == y && z1 < z)))))),
                decreases cz + 1 - z,
            {
                let idx_1d = super::mapping::idx_1d_from(x, y, z, sizes);
                let ghost pre = max_heap.visited@;
                max_heap.visited.set(idx_1d, true);
                proof {
                    assert forall|x1: int, y1: int, z1: int|
                        cell_in_bounds(x1, y1, z1, *sizes) implies #[trigger] max_heap.visited@[
                        spec_idx_1d(x1, y1, z1, *sizes)
                    ] == (orig[spec_idx_1d(x1, y1, z1, *sizes)] || (region_covers(
                        cx as int, cy as int, cz as int, k as int, x1, y1, z1,
                    ) && (x1 < x || (x1 == x && (y1 < y || (y1 == y && z1 < z + 1)))))) by {
                        lemma_idx_1d_bounds(x1, y1, z1, *sizes);
                        lemma_idx_1d_bounds(x as int, y as int, z as int, *sizes);
                        if spec_idx_1d(x1, y1, z1, *sizes)
                            == spec_idx_1d(x as int, y as int, z as int, *sizes) {
                            super::mapping::lemma_idx_1d_injective(
                                x1, y1, z1, x as int, y as int, z as int, *sizes,
                            );
                        } else {
                            assert(max_heap.visited@[spec_idx_1d(x1, y1, z1, *sizes)]
                                == pre[spec_idx_1d(x1, y1, z1, *sizes)]);
                        }
                    }
                }
                z += 1;
            }
            y += 1;
        }
        x += 1;
    }
}

/// Tries to claim every cell of the given cube.  If any of them is
/// already claimed by an earlier cube, nothing is changed and the
/// overlap is reported so the caller can retry with a smaller size;
/// otherwise the whole region is marked as claimed.
pub fn mark_visited_from(
    largest_cube: &LargestCube, sizes: &GridSizes, max_heap: &mut BinaryIndexHeap, scale: usize,
) -> (found_overlap: bool)
    requires
        sizes.wf(),
        scale >= 1,
        old(max_heap).visited@.len() == sizes.volume(),
        1 <= cube_cells_side(*largest_cube, scale as int),
        cube_cells_side(*largest_cube, scale as int) <= cube_cell(*largest_cube, scale as int).0
            < sizes.x_len,
        cube_cells_side(*largest_cube, scale as int) <= cube_cell(*largest_cube, scale as int).1
            < sizes.y_len,
        cube_cells_side(*largest_cube, scale as int) <= cube_cell(*largest_cube, scale as int).2
            < sizes.z_len,
    ensures
        final(max_heap).heap@ == old(max_heap).heap@,
        final(max_heap).visited@.len() == old(max_heap).visited@.len(),
        found_overlap == region_claimed(
            old(max_heap).visited@,
            *sizes,
            cube_cell(*largest_cube, scale as int).0,
            cube_cell(*largest_cube, scale as int).1,
            cube_cell(*largest_cube, scale as int).2,
            cube_cells_side(*largest_cube, scale as int),
        ),
        found_overlap ==> final(max_heap).visited@ == old(max_heap).visited@,
        !found_overlap ==> forall|x1: int, y1: int, z1: int|
            cell_in_bounds(x1, y1, z1, *sizes) ==> #[trigger] final(max_heap).visited@[
                spec_idx_1d(x1, y1, z1, *sizes)
            ] == (old(max_heap).visited@[spec_idx_1d(x1, y1, z1, *sizes)] || cube_covers(
                *largest_cube, scale as int, x1, y1, z1,
            )),
{
    let side_length = largest_cube.side_length as usize / scale;

    let x = largest_cube.indexes.0 / scale;
    let y = largest_cube.indexes.1 / scale;
    let z = largest_cube.indexes.2 / scale;

    if region_has_claimed(max_heap, sizes, x, y, z, side_length) {
        return true;
    }
    region_mark(max_heap, sizes, x, y, z, side_length);
    false
}

/// A distance value clamped to the supported range of side lengths.
pub open spec fn clamp_1_64(v: int) -> int {
    if v < 1 {
        1
    } else if v > 64 {
        64
    } else {
        v
    }
}

/// No two cubes of the sequence claim a common cell: the extractor's
/// output is a packing, never a covering.
pub open spec fn cubes_disjoint(cubes: Seq<LargestCube>, scale: int) -> bool {
    forall|m: int, n: int, x: int, y: int, z: int|
        0 <= m < n < cubes.len() ==> !(#[trigger] cube_covers(cubes[m], scale, x, y, z)
            && #[trigger] cube_covers(cubes[n], scale, x, y, z))
}

/// Whether some cube of the sequence claims cell `(x, y, z)`.
pub open spec fn cubes_cover(cubes: Seq<LargestCube>, scale: int, x: int, y: int, z: int) -> bool {
    exists|m: int| 0 <= m < cubes.len() && #[trigger] cube_covers(cubes[m], scale, x, y, z)
}

/// The shape of every extracted cube: its anchor and side are `scale`
/// times a cell position and a power-of-two cell count, its region lies
/// inside the grid, its side is a palette size no larger than the
/// clamped distance value at its far corner.
pub open spec fn cube_wf(c: LargestCube, data: Seq<u16>, sizes: GridSizes, scale: int) -> bool {
    let cx = cube_cell(c, scale).0;
    let cy = cube_cell(c, scale).1;
    let cz = cube_cell(c, scale).2;
    let k = cube_cells_side(c, scale);
    &&& 1 <= k
    &&& k <= cx < sizes.x_len
    &&& k <= cy < sizes.y_len
    &&& k <= cz < sizes.z_len
    &&& c.indexes.0 == cx * scale
    &&& c.indexes.1 == cy * scale
    &&& c.indexes.2 == cz * scale
    &&& c.side_length == k * scale
    &&& is_pow2(k)
    &&& is_pow2(c.side_length as int)
    &&& c.side_length <= 64
    &&& data[spec_idx_1d(cx, cy, cz, sizes)] != 0
    &&& k * scale <= clamp_1_64(data[spec_idx_1d(cx, cy, cz, sizes)] as int)
}

/// The priority key under which a cube was extracted: the distance value
/// at its far corner, with the flattened corner index as tie-break.
pub open spec fn cube_key(
    c: LargestCube, data: Seq<u16>, sizes: GridSizes, scale: int,
) -> LargestCubeEntry {
    LargestCubeEntry {
        data: data[spec_idx_1d(
            cube_cell(c, scale).0,
            cube_cell(c, scale).1,
            cube_cell(c, scale).2,
            sizes,
        )],
        idx: spec_idx_1d(
            cube_cell(c, scale).0,
            cube_cell(c, scale).1,
            cube_cell(c, scale).2,
            sizes,
        ) as usize,
    }
}

/// The greedy justification of cube `m`'s size: either the next larger
/// palette size would exceed the clamped distance value at its corner,
/// or the cube of twice the side would have claimed a cell some earlier
/// cube already owns.
pub open spec fn cube_greedy(
    cubes: Seq<LargestCube>, m: int, data: Seq<u16>, sizes: GridSizes, scale: int,
) -> bool {
    let cx = cube_cell(cubes[m], scale).0;
    let cy = cube_cell(cubes[m], scale).1;
    let cz = cube_cell(cubes[m], scale).2;
    let k = cube_cells_side(cubes[m], scale);
    ||| 2 * k * scale > clamp_1_64(data[spec_idx_1d(cx, cy, cz, sizes)] as int)
    ||| exists|x: int, y: int, z: int|
        region_covers(cx, cy, cz, 2 * k, x, y, z) && cell_in_bounds(x, y, z, sizes)
            && #[trigger] cubes_cover(cubes.subrange(0, m), scale, x, y, z)
}

/// Every size of the palette is a power of two between 1 and 64.
pub proof fn lemma_palette_pow2(n: int)
    requires
        crate::is_palette_size(n),
    ensures
        is_pow2(n),
        1 <= n <= 64,
{
    assert(is_pow2(1));
    assert(is_pow2(2));
    assert(is_pow2(4));
    assert(is_pow2(8));
    assert(is_pow2(16));
    assert(is_pow2(32));
    assert(is_pow2(64));
}

/// The greatest power of two that is no greater than `side_length`.
fn nearest_power_of_two(side_length: u16) -> (r: u16)
    requires
        side_length >= 1,
    ensures
        is_pow2(r as int),
        r <= side_length,
        side_length < 2 * r,
{
    let mut power_of_two: u16 = 1;
    while power_of_two <= side_length / 2
        invariant
            1 <= power_of_two <= side_length,
            is_pow2(power_of_two as int),
        decreases side_length - power_of_two,
    {
        proof {
            assert(2 * power_of_two <= side_length) by (nonlinear_arith)
                requires
                    power_of_two <= side_length / 2,
                    side_length >= 1,
                    side_length / 2 * 2 <= side_length,
            ;
            assert((2 * (power_of_two as int)) % 2 == 0
                && (2 * (power_of_two as int)) / 2 == power_of_two as int) by (nonlinear_arith);
        }
        power_of_two = 2 * power_of_two;
    }
    proof {
        assert(side_length < 2 * power_of_two) by (nonlinear_arith)
            requires
                power_of_two > side_length / 2,
                side_length >= 1,
                side_length / 2 >= (side_length - 1) / 2,
                side_length == 2 * (side_length / 2) + side_length % 2,
                0 <= side_length % 2 < 2,
        ;
    }
    power_of_two
}


/// Greedily extracts non-overlapping cubes from the distance grid, the
/// highest distance value first and, among equal values, the cell with
/// the larger flattened index first.  Each cube's side is the largest
/// power of two no greater than its corner's clamped distance value,
/// halved as often as needed for the cube not to claim a cell an earlier
/// cube already owns.  Together the cubes claim exactly the cells with
/// non-zero distance values, each exactly once.
#[verifier::loop_isolation(false)]
#[verifier::rlimit(100)]
pub fn get_largest_cubes(largest_cube_grid: GridReader, scale: u16) -> (r: Vec<LargestCube>)
    requires
        largest_cube_grid.wf(),
        crate::is_palette_size(scale as int),
        distance_grid_ok(
            largest_cube_grid.spec_data(),
            largest_cube_grid.spec_sizes(),
            scale as int,
        ),
        largest_cube_grid.spec_sizes().x_len <= usize::MAX / 64,
        largest_cube_grid.spec_sizes().y_len <= usize::MAX / 64,
        largest_cube_grid.spec_sizes().z_len <= usize::MAX / 64,
    ensures
        cubes_disjoint(r@, scale as int),
        forall|x: int, y: int, z: int|
            cell_in_bounds(x, y, z, largest_cube_grid.spec_sizes())
                ==> (#[trigger] cubes_cover(r@, scale as int, x, y, z)
                    <==> largest_cube_grid.spec_data()[spec_idx_1d(
                        x, y, z, largest_cube_grid.spec_sizes(),
                    )] != 0),
        forall|m: int|
            0 <= m < r@.len() ==> cube_wf(
                #[trigger] r@[m],
                largest_cube_grid.spec_data(),
                largest_cube_grid.spec_sizes(),
                scale as int,
            ),
        forall|m: int, n: int|
            0 <= m < n < r@.len() ==> entry_lt(
                cube_key(
                    #[trigger] r@[n],
                    largest_cube_grid.spec_data(),
                    largest_cube_grid.spec_sizes(),
                    scale as int,
                ),
                cube_key(
                    #[trigger] r@[m],
                    largest_cube_grid.spec_data(),
                    largest_cube_grid.spec_sizes(),
                    scale as int,
                ),
            ),
        forall|m: int|
            0 <= m < r@.len() ==> #[trigger] cube_greedy(
                r@,
                m,
                largest_cube_grid.spec_data(),
                largest_cube_grid.spec_sizes(),
                scale as int,
            ),
{
    let ghost data = largest_cube_grid.spec_data();
    let ghost s = scale as int;
    let sizes = largest_cube_grid.size_cloned();
    proof {
        lemma_palette_pow2(s);
    }

    let mut largest_cubes: Vec<LargestCube> = Vec::new();
    let mut max_heap = BinaryIndexHeap::from(largest_cube_grid);
    proof {
        assert forall|x: int, y: int, z: int| cell_in_bounds(x, y, z, sizes)
            implies !(#[trigger] max_heap.visited@[spec_idx_1d(x, y, z, sizes)])
        by {
            lemma_idx_1d_bounds(x, y, z, sizes);
        }
    }
    while max_heap.heap.len() > 0
        invariant
            heap_sorted(max_heap.heap@),
            heap_entries_valid(max_heap.heap@, data),
            max_heap.visited@.len() == data.len(),
            forall|x: int, y: int, z: int|
                cell_in_bounds(x, y, z, sizes) ==> (#[trigger] max_heap.visited@[spec_idx_1d(
                    x, y, z, sizes,
                )] <==> cubes_cover(largest_cubes@, s, x, y, z)),
            forall|m: int| 0 <= m < largest_cubes@.len() ==> cube_wf(
                #[trigger] largest_cubes@[m], data, sizes, s,
            ),
            cubes_disjoint(largest_cubes@, s),
            forall|i: int|
                0 <= i < data.len() && #[trigger] data[i] != 0 ==> max_heap.visited@[i]
                    || exists|p: int|
                        0 <= p < max_heap.heap@.len() && (#[trigger] max_heap.heap@[p]).idx == i,
            forall|m: int, n: int|
                0 <= m < n < largest_cubes@.len() ==> entry_lt(
                    cube_key(#[trigger] largest_cubes@[n], data, sizes, s),
                    cube_key(#[trigger] largest_cubes@[m], data, sizes, s),
                ),
            forall|m: int, p: int|
                0 <= m < largest_cubes@.len() && 0 <= p < max_heap.heap@.len() ==> entry_lt(
                    #[trigger] max_heap.heap@[p],
                    cube_key(#[trigger] largest_cubes@[m], data, sizes, s),
                ),
            forall|m: int|
                0 <= m < largest_cubes@.len() ==> #[trigger] cube_greedy(
                    largest_cubes@, m, data, sizes, s,
                ),
        decreases max_heap.heap@.len(),
    {
        let ghost h0 = max_heap.heap@;
        let popped = max_heap.pop();
        let largest_cube_entry = popped.unwrap();
        proof {
            assert(largest_cube_entry == h0[h0.len() - 1]);
            assert forall|i: int|
                0 <= i < data.len() && #[trigger] data[i] != 0
                    && i != largest_cube_entry.idx as int && !max_heap.visited@[i]
                implies exists|p: int|
                    0 <= p < max_heap.heap@.len() && (#[trigger] max_heap.heap@[p]).idx == i
            by {
                let p = choose|p: int| 0 <= p < h0.len() && (#[trigger] h0[p]).idx == i;
                assert(p < h0.len() - 1);
                assert(max_heap.heap@[p].idx == i);
            }
            assert forall|m: int| 0 <= m < largest_cubes@.len() implies entry_lt(
                largest_cube_entry,
                cube_key(#[trigger] largest_cubes@[m], data, sizes, s),
            ) by {
                assert(entry_lt(h0[h0.len() - 1], cube_key(largest_cubes@[m], data, sizes, s)));
            }
            assert forall|p: int| 0 <= p < max_heap.heap@.len() implies entry_lt(
                #[trigger] max_heap.heap@[p], largest_cube_entry,
            ) by {
                assert(entry_lt(h0[p], h0[h0.len() - 1]));
            }
        }
        let idx_1d = largest_cube_entry.idx;
        if max_heap.has_visited(idx_1d) {
            continue;
        }
        let largest_cube_size = largest_cube_entry.data;
        let idx_3d = idx_3d_from(idx_1d, &sizes);
        let (cx, cy, cz) = idx_3d;
        proof {
            assert(data[idx_1d as int] == largest_cube_size);
            lemma_distance_cell_bound(data, sizes, s, cx as int, cy as int, cz as int);
            assert((cx as int) * s <= (usize::MAX / 64) * 64 <= usize::MAX) by (nonlinear_arith)
                requires
                    0 <= cx < sizes.x_len <= usize::MAX / 64,
                    1 <= s <= 64,
            ;
            assert((cy as int) * s <= usize::MAX && (cz as int) * s <= usize::MAX)
                by (nonlinear_arith)
                requires
                    0 <= cy < sizes.y_len <= usize::MAX / 64,
                    0 <= cz < sizes.z_len <= usize::MAX / 64,
                    1 <= s <= 64,
                    (usize::MAX / 64) * 64 <= usize::MAX,
            ;
        }
        let ax = cx * (scale as usize);
        let ay = cy * (scale as usize);
        let az = cz * (scale as usize);

        let clamped_value = if largest_cube_size > 64 { 64 } else { largest_cube_size };
        let candidate = nearest_power_of_two(clamped_value);
        proof {
            // The distance value is at least `scale`, so the clamped value
            // and its power-of-two snap are too.
            assert(clamped_value as int == clamp_1_64(data[idx_1d as int] as int));
            assert(scale <= clamped_value);
            lemma_pow2_ge(s, clamped_value as int, candidate as int);
            lemma_pow2_div(s, candidate as int);
        }
        let mut largest_cube = LargestCube { side_length: candidate, indexes: (ax, ay, az) };
        let ghost h1 = max_heap.heap@;
        let ghost v0 = max_heap.visited@;
        proof {
            vstd::arithmetic::div_mod::lemma_div_multiples_vanish(cx as int, s);
            vstd::arithmetic::div_mod::lemma_div_multiples_vanish(cy as int, s);
            vstd::arithmetic::div_mod::lemma_div_multiples_vanish(cz as int, s);
            assert(s * (cx as int) == (cx as int) * s && s * (cy as int) == (cy as int) * s
                && s * (cz as int) == (cz as int) * s) by (nonlinear_arith);
            assert(cube_cell(largest_cube, s) == (cx as int, cy as int, cz as int));
            assert(cube_cells_side(largest_cube, s) == candidate as int / s);
        }
        #[verifier::loop_isolation(true)]
        loop
            invariant_except_break
                max_heap.visited@ == v0,
            invariant
                sizes.wf(),
                is_pow2(s),
                1 <= s <= 64,
                s == scale as int,
                data.len() == sizes.volume(),
                v0.len() == data.len(),
                cell_in_bounds(cx as int, cy as int, cz as int, sizes),
                spec_idx_1d(cx as int, cy as int, cz as int, sizes) == idx_1d as int,
                data[idx_1d as int] != 0,
                !v0[idx_1d as int],
                clamped_value as int == clamp_1_64(data[idx_1d as int] as int),
                candidate as int <= data[idx_1d as int],
                data[idx_1d as int] <= s * min3(cx as int, cy as int, cz as int),
                largest_cube.side_length as int <= candidate as int
                    && candidate as int <= clamp_1_64(data[idx_1d as int] as int),
                largest_cube.indexes == (ax, ay, az),
                cube_cell(largest_cube, s) == (cx as int, cy as int, cz as int),
                is_pow2(largest_cube.side_length as int),
                s <= largest_cube.side_length as int,
                largest_cube.side_length <= candidate,
                largest_cube.side_length as int == cube_cells_side(largest_cube, s) * s,
                is_pow2(cube_cells_side(largest_cube, s)),
                largest_cube.side_length == candidate || region_claimed(
                    v0, sizes, cx as int, cy as int, cz as int,
                    2 * cube_cells_side(largest_cube, s),
                ),
                max_heap.heap@ == h1,
                max_heap.visited@.len() == data.len(),
            ensures
                max_heap.heap@ == h1,
                max_heap.visited@.len() == data.len(),
                largest_cube.indexes == (ax, ay, az),
                cube_cell(largest_cube, s) == (cx as int, cy as int, cz as int),
                is_pow2(largest_cube.side_length as int),
                s <= largest_cube.side_length as int,
                largest_cube.side_length <= candidate,
                largest_cube.side_length as int == cube_cells_side(largest_cube, s) * s,
                is_pow2(cube_cells_side(largest_cube, s)),
                largest_cube.side_length == candidate || region_claimed(
                    v0, sizes, cx as int, cy as int, cz as int,
                    2 * cube_cells_side(largest_cube, s),
                ),
                !region_claimed(
                    v0, sizes, cx as int, cy as int, cz as int,
                    cube_cells_side(largest_cube, s),
                ),
                forall|x1: int, y1: int, z1: int|
                    cell_in_bounds(x1, y1, z1, sizes) ==> #[trigger] max_heap.visited@[
                        spec_idx_1d(x1, y1, z1, sizes)
                    ] == (v0[spec_idx_1d(x1, y1, z1, sizes)] || cube_covers(
                        largest_cube, s, x1, y1, z1,
                    )),
            decreases largest_cube.side_length,
        {
            proof {
                let k = cube_cells_side(largest_cube, s);
                assert(k * s <= clamp_1_64(data[idx_1d as int] as int));
                assert(clamp_1_64(data[idx_1d as int] as int) <= data[idx_1d as int]);
                assert(data[idx_1d as int] <= s * min3(cx as int, cy as int, cz as int));
                assert(k <= min3(cx as int, cy as int, cz as int)) by (nonlinear_arith)
                    requires
                        k * s <= s * min3(cx as int, cy as int, cz as int),
                        s >= 1,
                        k >= 1,
                ;
            }
            let found_overlap = mark_visited_from(
                &largest_cube, &sizes, &mut max_heap, scale as usize,
            );
            if !found_overlap {
                break;
            }
            proof {
                let k = cube_cells_side(largest_cube, s);
                if k == 1 {
                    let (x, y, z) = choose|x: int, y: int, z: int|
                        region_covers(cx as int, cy as int, cz as int, 1, x, y, z)
                            && cell_in_bounds(x, y, z, sizes)
                            && #[trigger] max_heap.visited@[spec_idx_1d(x, y, z, sizes)];
                    assert(x == cx as int && y == cy as int && z == cz as int);
                    assert(false);
                }
                assert(k >= 2);
                assert(largest_cube.side_length as int >= 2 * s) by (nonlinear_arith)
                    requires
                        largest_cube.side_length as int == k * s,
                        k >= 2,
                        s >= 1,
                ;
                // Halving keeps the side a power-of-two multiple of `scale`.
                let side = largest_cube.side_length as int;
                let half = side / 2;
                assert(k % 2 == 0 && is_pow2(k / 2)) by {
                    assert(is_pow2(k) && k >= 2);
                }
                assert(k == 2 * (k / 2)) by (nonlinear_arith)
                    requires
                        k % 2 == 0,
                ;
                assert(side == ((k / 2) * s) * 2) by (nonlinear_arith)
                    requires
                        side == k * s,
                        k == 2 * (k / 2),
                ;
                vstd::arithmetic::div_mod::lemma_mod_multiples_basic((k / 2) * s, 2);
                assert(side % 2 == 0);
                assert(side == 2 * half) by (nonlinear_arith)
                    requires
                        side % 2 == 0,
                        half == side / 2,
                ;
                assert(half == (k / 2) * s) by (nonlinear_arith)
                    requires
                        side == k * s,
                        side == 2 * half,
                        k % 2 == 0,
                        k / 2 * 2 == k,
                ;
                vstd::arithmetic::div_mod::lemma_div_multiples_vanish(k / 2, s);
                assert(s * (k / 2) == (k / 2) * s) by (nonlinear_arith);
                assert(half / s == k / 2);
                assert(2 * (k / 2) == k);
            }
            largest_cube.side_length = largest_cube.side_length / 2;
        }
        let ghost pre_cubes = largest_cubes@;
        largest_cubes.push(largest_cube);
        proof {
            let cubes = largest_cubes@;
            let k = cube_cells_side(largest_cube, s);
            let new_m = pre_cubes.len() as int;
            assert(cubes == pre_cubes.push(largest_cube));
            assert(cubes[new_m] == largest_cube);

            // Shape of the accepted cube.
            assert(k <= min3(cx as int, cy as int, cz as int)) by (nonlinear_arith)
                requires
                    k * s <= s * min3(cx as int, cy as int, cz as int),
                    s >= 1,
                    k >= 1,
            ;
            assert(cube_wf(largest_cube, data, sizes, s));
            assert(cube_key(largest_cube, data, sizes, s) == largest_cube_entry);

            // The claimed set now reflects the extended cube list.
            assert forall|x: int, y: int, z: int|
                cell_in_bounds(x, y, z, sizes) implies (#[trigger] max_heap.visited@[
                spec_idx_1d(x, y, z, sizes)
            ] <==> cubes_cover(cubes, s, x, y, z)) by {
                lemma_idx_1d_bounds(x, y, z, sizes);
                if max_heap.visited@[spec_idx_1d(x, y, z, sizes)] {
                    if v0[spec_idx_1d(x, y, z, sizes)] {
                        let m = choose|m: int|
                            0 <= m < pre_cubes.len() && #[trigger] cube_covers(
                                pre_cubes[m], s, x, y, z,
                            );
                        assert(cube_covers(cubes[m], s, x, y, z));
                    } else {
                        assert(cube_covers(cubes[new_m], s, x, y, z));
                    }
                }
                if cubes_cover(cubes, s, x, y, z) {
                    let m = choose|m: int|
                        0 <= m < cubes.len() && #[trigger] cube_covers(cubes[m], s, x, y, z);
                    if m < new_m {
                        assert(cube_covers(pre_cubes[m], s, x, y, z));
                        assert(v0[spec_idx_1d(x, y, z, sizes)]);
                    }
                    assert(max_heap.visited@[spec_idx_1d(x, y, z, sizes)]);
                }
            }

            // Disjointness: the new cube's region was wholly unclaimed.
            assert forall|m: int, n: int, x: int, y: int, z: int|
                0 <= m < n < cubes.len() implies !(#[trigger] cube_covers(cubes[m], s, x, y, z)
                    && #[trigger] cube_covers(cubes[n], s, x, y, z)) by {
                if cube_covers(cubes[m], s, x, y, z) && cube_covers(cubes[n], s, x, y, z) {
                    if n < new_m {
                        assert(cube_covers(pre_cubes[m], s, x, y, z));
                        assert(cube_covers(pre_cubes[n], s, x, y, z));
                    } else {
                        // The shared cell lies in the new cube's region and
                        // in an earlier cube's region, but the new region
                        // was free of claims.
                        assert(cube_covers(largest_cube, s, x, y, z));
                        assert(cube_wf(pre_cubes[m], data, sizes, s));
                        assert(cell_in_bounds(x, y, z, sizes));
                        assert(cubes_cover(pre_cubes, s, x, y, z));
                        assert(v0[spec_idx_1d(x, y, z, sizes)]);
                        assert(region_claimed(
                            v0, sizes, cx as int, cy as int, cz as int, k,
                        ));
                        assert(false);
                    }
                }
            }

            // Every pending non-zero cell is still claimed or queued.
            assert forall|i: int|
                0 <= i < data.len() && #[trigger] data[i] != 0 implies max_heap.visited@[i]
                    || exists|p: int|
                        0 <= p < max_heap.heap@.len() && (#[trigger] max_heap.heap@[p]).idx == i
            by {
                lemma_idx_1d_bounds(cx as int, cy as int, cz as int, sizes);
                if i == idx_1d as int {
                    assert(cube_covers(largest_cube, s, cx as int, cy as int, cz as int));
                    assert(max_heap.visited@[spec_idx_1d(cx as int, cy as int, cz as int, sizes)]);
                } else if v0[i] {
                    lemma_idx_1d_surjective(i, sizes);
                    let (x, y, z) = choose|x: int, y: int, z: int|
                        cell_in_bounds(x, y, z, sizes) && #[trigger] spec_idx_1d(
                            x, y, z, sizes,
                        ) == i;
                    assert(max_heap.visited@[spec_idx_1d(x, y, z, sizes)]);
                }
            }

            // Orders: the new cube's key sits below every earlier cube's
            // and above every remaining entry's.
            assert forall|m: int, n: int|
                0 <= m < n < cubes.len() implies entry_lt(
                    cube_key(#[trigger] cubes[n], data, sizes, s),
                    cube_key(#[trigger] cubes[m], data, sizes, s),
                ) by {
                if n < new_m {
                    assert(cubes[n] == pre_cubes[n] && cubes[m] == pre_cubes[m]);
                } else {
                    assert(cubes[m] == pre_cubes[m]);
                    assert(entry_lt(
                        largest_cube_entry, cube_key(pre_cubes[m], data, sizes, s),
                    ));
                }
            }
            assert forall|m: int, p: int|
                0 <= m < cubes.len() && 0 <= p < max_heap.heap@.len() implies entry_lt(
                    #[trigger] max_heap.heap@[p],
                    cube_key(#[trigger] cubes[m], data, sizes, s),
                ) by {
                if m < new_m {
                    assert(cubes[m] == pre_cubes[m]);
                }
            }

            // Greedy justification, old cubes and the new one.
            assert forall|m: int| 0 <= m < cubes.len() implies #[trigger] cube_greedy(
                cubes, m, data, sizes, s,
            ) by {
                if m < new_m {
                    assert(cube_greedy(pre_cubes, m, data, sizes, s));
                    assert(cubes.subrange(0, m) =~= pre_cubes.subrange(0, m));
                    assert(cubes[m] == pre_cubes[m]);
                    if !(2 * cube_cells_side(pre_cubes[m], s) * s > clamp_1_64(
                        data[spec_idx_1d(
                            cube_cell(pre_cubes[m], s).0,
                            cube_cell(pre_cubes[m], s).1,
                            cube_cell(pre_cubes[m], s).2,
                            sizes,
                        )] as int,
                    )) {
                        let (x, y, z) = choose|x: int, y: int, z: int|
                            region_covers(
                                cube_cell(pre_cubes[m], s).0,
                                cube_cell(pre_cubes[m], s).1,
                                cube_cell(pre_cubes[m], s).2,
                                2 * cube_cells_side(pre_cubes[m], s),
                                x, y, z,
                            ) && cell_in_bounds(x, y, z, sizes)
                                && #[trigger] cubes_cover(
                                pre_cubes.subrange(0, m), s, x, y, z,
                            );
                        assert(cubes_cover(cubes.subrange(0, m), s, x, y, z));
                    }
                } else {
                    assert(cubes.subrange(0, new_m) =~= pre_cubes);
                    if largest_cube.side_length == candidate {
                        assert(2 * k * s == 2 * (k * s)) by (nonlinear_arith);
                        assert(2 * k * s > clamp_1_64(data[idx_1d as int] as int));
                    } else {
                        let (x, y, z) = choose|x: int, y: int, z: int|
                            region_covers(
                                cx as int, cy as int, cz as int, 2 * k, x, y, z,
                            ) && cell_in_bounds(x, y, z, sizes)
                                && #[trigger] v0[spec_idx_1d(x, y, z, sizes)];
                        assert(cubes_cover(pre_cubes, s, x, y, z));
                        assert(cubes_cover(cubes.subrange(0, new_m), s, x, y, z));
                    }
                }
            }
        }
    }
    proof {
        assert forall|x: int, y: int, z: int|
            cell_in_bounds(x, y, z, sizes) implies (#[trigger] cubes_cover(
            largest_cubes@, s, x, y, z,
        ) <==> data[spec_idx_1d(x, y, z, sizes)] != 0) by {
            lemma_idx_1d_bounds(x, y, z, sizes);
            if cubes_cover(largest_cubes@, s, x, y, z) {
                let m = choose|m: int|
                    0 <= m < largest_cubes@.len() && #[trigger] cube_covers(
                        largest_cubes@[m], s, x, y, z,
                    );
                let c = largest_cubes@[m];
                assert(cube_wf(c, data, sizes, s));
                let ck = cube_cells_side(c, s);
                assert(data[spec_idx_1d(
                    cube_cell(c, s).0, cube_cell(c, s).1, cube_cell(c, s).2, sizes,
                )] >= ck * s);
                lemma_region_positive(
                    data, sizes, s,
                    cube_cell(c, s).0, cube_cell(c, s).1, cube_cell(c, s).2,
                    ck, x, y, z,
                );
            }
            if data[spec_idx_1d(x, y, z, sizes)] != 0 {
                assert(max_heap.visited@[spec_idx_1d(x, y, z, sizes)]);
            }
        }
    }
    largest_cubes
}

} // verus!
