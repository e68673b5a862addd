use vstd::prelude::*;

use super::{Brick, PlacedBrick, brick_wf, set_bottom_label, spec_is_above, spec_placed};

verus! {

/// The sequence of sequences a vector of index vectors stands for.
pub open spec fn bundle_views(bs: Seq<Vec<usize>>) -> Seq<Seq<usize>> {
    Seq::new(bs.len(), |u: int| bs[u]@)
}

/// The concatenation of all bundles, in order.
pub open spec fn flatten_seqs(bs: Seq<Seq<usize>>) -> Seq<usize>
    decreases bs.len(),
{
    if bs.len() == 0 {
        Seq::empty()
    } else {
        flatten_seqs(bs.drop_last()) + bs.last()
    }
}

/// The order unit bricks are bundled in: ascending position, compared
/// lexicographically on `(x, y, z)`, with the brick's own index as the
/// tie-break among bricks sharing a position.
pub open spec fn brick_key_lt(bricks: Seq<Brick>, a: int, b: int) -> bool {
    let pa = bricks[a].position;
    let pb = bricks[b].position;
    ||| pa.0 < pb.0
    ||| (pa.0 == pb.0 && pa.1 < pb.1)
    ||| (pa.0 == pb.0 && pa.1 == pb.1 && pa.2 < pb.2)
    ||| (pa == pb && a < b)
}

/// `order` lists exactly the indices of the unit-size bricks, strictly
/// ascending in bundling order.
pub open spec fn is_unit_order(bricks: Seq<Brick>, order: Seq<usize>) -> bool {
    &&& forall|q: int|
        0 <= q < order.len() ==> (#[trigger] order[q]) < bricks.len() && bricks[order[q] as int].size
            == 1
    &&& forall|i: int|
        0 <= i < bricks.len() && (#[trigger] bricks[i]).size == 1 ==> exists|q: int|
            0 <= q < order.len() && (#[trigger] order[q]) as int == i
    &&& forall|q1: int, q2: int|
        0 <= q1 < q2 < order.len() ==> brick_key_lt(
            bricks,
            #[trigger] order[q1] as int,
            #[trigger] order[q2] as int,
        )
}

/// `bundles` partitions the sorted unit bricks into maximal runs of
/// directly stacked bricks: within a bundle each brick rests on the one
/// before it, and no bundle's first brick rests on the previous bundle's
/// last.
pub open spec fn is_bundling(bricks: Seq<Brick>, bundles: Seq<Seq<usize>>) -> bool {
    &&& is_unit_order(bricks, flatten_seqs(bundles))
    &&& forall|u: int| 0 <= u < bundles.len() ==> (#[trigger] bundles[u]).len() >= 1
    &&& forall|u: int, v: int|
        0 <= u < bundles.len() && 1 <= v < bundles[u].len() ==> spec_is_above(
            bricks[#[trigger] bundles[u][v] as int],
            bricks[bundles[u][v - 1] as int],
        )
    &&& forall|u: int|
        1 <= u < bundles.len() ==> !spec_is_above(
            bricks[(#[trigger] bundles[u])[0] as int],
            bricks[bundles[u - 1][bundles[u - 1].len() - 1] as int],
        )
}

/// No brick index appears twice across the bundles.
pub open spec fn bundles_entries_distinct(bundles: Seq<Seq<usize>>) -> bool {
    forall|u1: int, v1: int, u2: int, v2: int|
        #![trigger bundles[u1][v1], bundles[u2][v2]]
        0 <= u1 < bundles.len() && 0 <= v1 < bundles[u1].len() && 0 <= u2 < bundles.len() && 0
            <= v2 < bundles[u2].len() && (u1 != u2 || v1 != v2) ==> bundles[u1][v1]
            != bundles[u2][v2]
}

/// How the unit-cube labeling pass rewrites the brick list: there is a
/// bundling of the unit bricks under which each unit brick's
/// `bottom_1x_cube` flag says whether its place in its bundle is even
/// (so bundles alternate bottom, top, bottom, ...), every unit brick
/// belongs to a bundle, and bricks of other sizes are untouched.
pub open spec fn bundles_labeled(old_bricks: Seq<Brick>, new_bricks: Seq<Brick>) -> bool {
    exists|bundles: Seq<Seq<usize>>|
        {
            &&& #[trigger] is_bundling(old_bricks, bundles)
            &&& new_bricks.len() == old_bricks.len()
            &&& forall|u: int, v: int|
                0 <= u < bundles.len() && 0 <= v < bundles[u].len()
                    ==> new_bricks[#[trigger] bundles[u][v] as int] == set_bottom_label(
                    old_bricks[bundles[u][v] as int],
                    v % 2 == 0,
                )
            &&& forall|i: int|
                0 <= i < old_bricks.len() && (#[trigger] old_bricks[i]).size == 1 ==> exists|
                    u: int,
                    v: int,
                |
                    0 <= u < bundles.len() && 0 <= v < bundles[u].len()
                        && (#[trigger] bundles[u][v]) as int == i
            &&& forall|i: int|
                0 <= i < old_bricks.len() && (#[trigger] old_bricks[i]).size != 1
                    ==> new_bricks[i] == old_bricks[i]
        }
}

impl Brick {
    /// A fresh draft brick at the given far corner.
    pub fn new(right_xyz_coord: (usize, usize, usize), size: u16) -> (r: Brick)
        ensures
            r.position == right_xyz_coord,
            r.size == size,
            r.floored,
            !r.bottom_1x_cube,
    {
        Brick { position: right_xyz_coord, size, floored: true, bottom_1x_cube: false }
    }

    /// Works out the brick's placement record: fixed-point coordinates
    /// in twentieths of a placement unit, and whether its top layer sits
    /// on the base plane.
    fn calculate_right_offset(&self) -> (r: PlacedBrick)
        requires
            brick_wf(*self),
        ensures
            r == spec_placed(*self),
    {
        let size = self.size as usize;
        let x = 10 * self.position.0 - 5 * size;
        let y = 10 * self.position.1 - 5 * size;
        let floored = self.position.2 == size;
        let z = if self.size == 1 {
            10 * self.position.2 - 6
        } else {
            10 * self.position.2 - 5 * size
        };
        PlacedBrick {
            position: (x, y, z),
            size: self.size,
            floored,
            bottom_1x_cube: self.bottom_1x_cube,
        }
    }

    /// Whether this brick is directly stacked on the other: the same
    /// column, one grid unit higher.
    fn is_above(&self, other: &Brick) -> (r: bool)
        ensures
            r == spec_is_above(*self, *other),
    {
        let is_x_aligned = self.position.0 == other.position.0;
        let is_y_aligned = self.position.1 == other.position.1;
        let other_below = self.position.2 > other.position.2 && self.position.2
            - other.position.2 == 1;
        is_x_aligned && is_y_aligned && other_below
    }
}

/// Whether brick `a` comes before brick `b` in bundling order.
fn brick_order_lt(bricks: &Vec<Brick>, a: usize, b: usize) -> (r: bool)
    requires
        a < bricks@.len(),
        b < bricks@.len(),
    ensures
        r == brick_key_lt(bricks@, a as int, b as int),
{
    let pa = bricks[a].position;
    let pb = bricks[b].position;
    pa.0 < pb.0 || (pa.0 == pb.0 && (pa.1 < pb.1 || (pa.1 == pb.1 && (pa.2 < pb.2 || (pa.2 == pb.2
        && a < b)))))
}

/// Inserts a brick index into a sorted run of indices, keeping the run
/// strictly ascending in bundling order.
#[verifier::rlimit(100)]
#[verifier::spinoff_prover]
fn insert_sorted(bricks: &Vec<Brick>, sorted: &mut Vec<usize>, e: usize)
    requires
        e < bricks@.len(),
        bricks@[e as int].size == 1,
        forall|q: int|
            0 <= q < old(sorted)@.len() ==> (#[trigger] old(sorted)@[q]) < bricks@.len()
                && bricks@[old(sorted)@[q] as int].size == 1,
        forall|q1: int, q2: int|
            0 <= q1 < q2 < old(sorted)@.len() ==> brick_key_lt(
                bricks@,
                #[trigger] old(sorted)@[q1] as int,
                #[trigger] old(sorted)@[q2] as int,
            ),
        forall|q: int| 0 <= q < old(sorted)@.len() ==> #[trigger] old(sorted)@[q] != e,
    ensures
        final(sorted)@.len() == old(sorted)@.len() + 1,
        forall|q: int|
            0 <= q < final(sorted)@.len() ==> (#[trigger] final(sorted)@[q]) < bricks@.len()
                && bricks@[final(sorted)@[q] as int].size == 1,
        forall|q1: int, q2: int|
            0 <= q1 < q2 < final(sorted)@.len() ==> brick_key_lt(
                bricks@,
                #[trigger] final(sorted)@[q1] as int,
                #[trigger] final(sorted)@[q2] as int,
            ),
        forall|q: int|
            0 <= q < old(sorted)@.len() ==> exists|q2: int|
                0 <= q2 < final(sorted)@.len() && #[trigger] final(sorted)@[q2] == #[trigger] old(
                    sorted,
                )@[q],
        exists|q2: int| 0 <= q2 < final(sorted)@.len() && #[trigger] final(sorted)@[q2] == e,
        forall|q2: int|
            0 <= q2 < final(sorted)@.len() ==> #[trigger] final(sorted)@[q2] == e || exists|q: int|
                0 <= q < old(sorted)@.len() && #[trigger] old(sorted)@[q] == final(sorted)@[q2],
{
    let mut pos: usize = 0;
    while pos < sorted.len() && brick_order_lt(bricks, sorted[pos], e)
        invariant
            pos <= sorted@.len(),
            sorted@ == old(sorted)@,
            e < bricks@.len(),
            forall|q: int| 0 <= q < sorted@.len() ==> (#[trigger] sorted@[q]) < bricks@.len(),
            forall|p: int|
                0 <= p < pos ==> brick_key_lt(bricks@, #[trigger] sorted@[p] as int, e as int),
        decreases sorted@.len() - pos,
    {
        pos += 1;
    }
    proof {
        assert forall|q: int|
            pos <= q < sorted@.len() implies brick_key_lt(
            bricks@, e as int, #[trigger] sorted@[q] as int,
        ) by {
            assert(!brick_key_lt(bricks@, sorted@[pos as int] as int, e as int));
            assert(sorted@[pos as int] != e);
            assert(brick_key_lt(bricks@, e as int, sorted@[pos as int] as int));
            if q > pos {
                assert(brick_key_lt(bricks@, sorted@[pos as int] as int, sorted@[q] as int));
            }
        }
    }
    let ghost pre = sorted@;
    sorted.insert(pos, e);
    proof {
        pre.insert_ensures(pos as int, e);
        assert forall|q1: int, q2: int|
            0 <= q1 < q2 < sorted@.len() implies brick_key_lt(
            bricks@,
            #[trigger] sorted@[q1] as int,
            #[trigger] sorted@[q2] as int,
        ) by {
            if q1 < pos {
                assert(sorted@[q1] == pre[q1]);
            } else if q1 > pos {
                assert(sorted@[q1] == pre[q1 - 1]);
            }
            if q2 < pos {
                assert(sorted@[q2] == pre[q2]);
            } else if q2 > pos {
                assert(sorted@[q2] == pre[q2 - 1]);
            }
        }
        assert forall|q: int|
            0 <= q < pre.len() implies exists|q2: int|
                0 <= q2 < sorted@.len() && #[trigger] sorted@[q2] == #[trigger] pre[q]
        by {
            if q < pos {
                assert(sorted@[q] == pre[q]);
            } else {
                assert(sorted@[q + 1] == pre[q]);
            }
        }
        assert(sorted@[pos as int] == e);
        assert forall|q2: int|
            0 <= q2 < sorted@.len() implies #[trigger] sorted@[q2] == e || exists|q: int|
                0 <= q < pre.len() && #[trigger] pre[q] == sorted@[q2]
        by {
            if q2 < pos {
                assert(pre[q2] == sorted@[q2]);
            } else if q2 > pos {
                assert(pre[q2 - 1] == sorted@[q2]);
            }
        }
    }
}

/// A relabeling that follows one particular bundling satisfies the
/// bundler's overall promise, and keeps every brick well-formed: the
/// labels touch no coordinate.
proof fn lemma_bundles_labeled(pre: Seq<Brick>, post: Seq<Brick>, bs: Seq<Vec<usize>>)
    requires
        is_bundling(pre, bundle_views(bs)),
        post.len() == pre.len(),
        forall|u: int, v: int|
            0 <= u < bs.len() && 0 <= v < bs[u]@.len() ==> ((#[trigger] bs[u]@[v]) as int)
                < pre.len() && pre[bs[u]@[v] as int].size == 1,
        forall|i: int|
            0 <= i < pre.len() && (#[trigger] pre[i]).size == 1 ==> exists|u: int, v: int|
                0 <= u < bs.len() && 0 <= v < bs[u]@.len() && (#[trigger] bs[u]@[v]) as int == i,
        forall|u: int, v: int|
            0 <= u < bs.len() && 0 <= v < bs[u]@.len() ==> post[(#[trigger] bs[u]@[v]) as int]
                == set_bottom_label(pre[bs[u]@[v] as int], v % 2 == 0),
        forall|i: int|
            0 <= i < pre.len() && (forall|u: int, v: int|
                0 <= u < bs.len() && 0 <= v < bs[u]@.len() ==> ((#[trigger] bs[u]@[v]) as int)
                    != i) ==> post[i] == pre[i],
    ensures
        bundles_labeled(pre, post),
        forall|i: int|
            0 <= i < pre.len() && brick_wf(pre[i]) ==> brick_wf(#[trigger] post[i]),
{
    let bv = bundle_views(bs);
    assert forall|u: int, v: int|
        0 <= u < bv.len() && 0 <= v < bv[u].len() implies post[(#[trigger] bv[u][v]) as int]
            == set_bottom_label(pre[bv[u][v] as int], v % 2 == 0)
    by {
        assert(bv[u][v] == bs[u]@[v]);
    }
    assert forall|i: int|
        0 <= i < pre.len() && (#[trigger] pre[i]).size == 1 implies exists|u: int, v: int|
            0 <= u < bv.len() && 0 <= v < bv[u].len() && (#[trigger] bv[u][v]) as int == i
    by {
        let (u, v) = choose|u: int, v: int|
            0 <= u < bs.len() && 0 <= v < bs[u]@.len() && (#[trigger] bs[u]@[v]) as int == i;
        assert(0 <= u < bv.len() && 0 <= v < bv[u].len() && bv[u][v] as int == i);
    }
    assert forall|i: int|
        0 <= i < pre.len() && (#[trigger] pre[i]).size != 1 implies post[i] == pre[i]
    by {
        assert forall|u: int, v: int|
            0 <= u < bs.len() && 0 <= v < bs[u]@.len() implies ((#[trigger] bs[u]@[v]) as int)
                != i
        by {
            assert(pre[bs[u]@[v] as int].size == 1);
        }
    }
    assert(bundles_labeled(pre, post));
    assert forall|i: int|
        0 <= i < pre.len() && brick_wf(pre[i]) implies brick_wf(#[trigger] post[i])
    by {
        if pre[i].size == 1 {
            let (u, v) = choose|u: int, v: int|
                0 <= u < bs.len() && 0 <= v < bs[u]@.len() && (#[trigger] bs[u]@[v]) as int == i;
            assert(post[i] == set_bottom_label(pre[i], v % 2 == 0));
        }
    }
}

/// Collects draft bricks and turns them into placement records, pairing
/// stacked unit cubes into bottom and top halves on the way.
pub struct BrickBuilder {
    pub bricks: Vec<Brick>,
}

impl BrickBuilder {
    /// An empty builder.
    pub fn new() -> (r: Self)
        ensures
            r.bricks@.len() == 0,
    {
        BrickBuilder { bricks: Vec::new() }
    }

    /// Appends one draft brick.
    pub fn with_brick(&mut self, brick: Brick)
        ensures
            final(self).bricks@ == old(self).bricks@.push(brick),
    {
        self.bricks.push(brick);
    }

    /// The indices of the unit-size bricks, sorted ascending by
    /// position in bundling order.
    #[verifier::rlimit(100)]
    #[verifier::spinoff_prover]
    fn sort_unit_indices(&self) -> (sorted: Vec<usize>)
        ensures
            forall|q: int|
                0 <= q < sorted@.len() ==> (#[trigger] sorted@[q]) < self.bricks@.len()
                    && self.bricks@[sorted@[q] as int].size == 1,
            forall|q1: int, q2: int|
                0 <= q1 < q2 < sorted@.len() ==> brick_key_lt(
                    self.bricks@,
                    #[trigger] sorted@[q1] as int,
                    #[trigger] sorted@[q2] as int,
                ),
            forall|i: int|
                0 <= i < self.bricks@.len() && (#[trigger] self.bricks@[i]).size == 1
                    ==> exists|q: int|
                    0 <= q < sorted@.len() && (#[trigger] sorted@[q]) as int == i,
    {
        let bricks = &self.bricks;
        let n = bricks.len();

        let mut filtered_1x_bricks: Vec<usize> = Vec::new();
        let mut i: usize = 0;
        while i < n
            invariant
                i <= n,
                n == bricks@.len(),
                forall|q: int|
                    0 <= q < filtered_1x_bricks@.len() ==> (#[trigger] filtered_1x_bricks@[q]) < i
                        && bricks@[filtered_1x_bricks@[q] as int].size == 1,
                forall|q1: int, q2: int|
                    0 <= q1 < q2 < filtered_1x_bricks@.len() ==> #[trigger] filtered_1x_bricks@[q1]
                        < #[trigger] filtered_1x_bricks@[q2],
                forall|p: int|
                    0 <= p < i && (#[trigger] bricks@[p]).size == 1 ==> exists|q: int|
                        0 <= q < filtered_1x_bricks@.len() && (#[trigger] filtered_1x_bricks@[q])
                            as int == p,
            decreases n - i,
        {
            if bricks[i].size == 1 {
                let ghost pre = filtered_1x_bricks@;
                filtered_1x_bricks.push(i);
                proof {
                    assert forall|p: int|
                        0 <= p < i + 1 && (#[trigger] bricks@[p]).size == 1 implies exists|q: int|
                            0 <= q < filtered_1x_bricks@.len()
                                && (#[trigger] filtered_1x_bricks@[q]) as int == p
                    by {
                        if p == i {
                            assert(filtered_1x_bricks@[pre.len() as int] as int == p);
                        } else {
                            let q = choose|q: int|
                                0 <= q < pre.len() && (#[trigger] pre[q]) as int == p;
                            assert(filtered_1x_bricks@[q] as int == p);
                        }
                    }
                }
            }
            i += 1;
        }

        let fl = filtered_1x_bricks.len();
        let mut sorted: Vec<usize> = Vec::new();
        let mut t: usize = 0;
        while t < fl
            invariant
                t <= fl,
                n == bricks@.len(),
                fl == filtered_1x_bricks@.len(),
                forall|p: int|
                    0 <= p < fl ==> (#[trigger] filtered_1x_bricks@[p]) < n
                        && bricks@[filtered_1x_bricks@[p] as int].size == 1,
                forall|p1: int, p2: int|
                    0 <= p1 < p2 < fl ==> #[trigger] filtered_1x_bricks@[p1]
                        < #[trigger] filtered_1x_bricks@[p2],
                sorted@.len() == t,
                forall|q: int|
                    0 <= q < sorted@.len() ==> (#[trigger] sorted@[q]) < n
                        && bricks@[sorted@[q] as int].size == 1,
                forall|q1: int, q2: int|
                    0 <= q1 < q2 < sorted@.len() ==> brick_key_lt(
                        bricks@,
                        #[trigger] sorted@[q1] as int,
                        #[trigger] sorted@[q2] as int,
                    ),
                forall|q: int|
                    0 <= q < sorted@.len() ==> exists|p: int|
                        0 <= p < t && #[trigger] filtered_1x_bricks@[p] == #[trigger] sorted@[q],
                forall|p: int|
                    0 <= p < t ==> exists|q: int|
                        0 <= q < sorted@.len() && #[trigger] sorted@[q] == #[trigger]
                            filtered_1x_bricks@[p],
            decreases fl - t,
        {
            let e = filtered_1x_bricks[t];
            proof {
                assert forall|q: int| 0 <= q < sorted@.len() implies #[trigger] sorted@[q] != e by {
                    let p = choose|p: int|
                        0 <= p < t && #[trigger] filtered_1x_bricks@[p] == sorted@[q];
                    assert(filtered_1x_bricks@[p] < filtered_1x_bricks@[t as int]);
                }
            }
            let ghost pre = sorted@;
            insert_sorted(bricks, &mut sorted, e);
            t += 1;
            proof {
                assert forall|q: int|
                    0 <= q < sorted@.len() implies exists|p: int|
                        0 <= p < t && #[trigger] filtered_1x_bricks@[p] == #[trigger] sorted@[q]
                by {
                    if sorted@[q] == e {
                        assert(filtered_1x_bricks@[t - 1] == sorted@[q]);
                    } else {
                        let qq = choose|qq: int|
                            0 <= qq < pre.len() && #[trigger] pre[qq] == sorted@[q];
                        let p = choose|p: int|
                            0 <= p < t - 1 && #[trigger] filtered_1x_bricks@[p] == pre[qq];
                        assert(filtered_1x_bricks@[p] == sorted@[q]);
                    }
                }
                assert forall|p: int|
                    0 <= p < t implies exists|q: int|
                        0 <= q < sorted@.len() && #[trigger] sorted@[q] == #[trigger]
                            filtered_1x_bricks@[p]
                by {
                    if p == t - 1 {
                        let q2 = choose|q2: int|
                            0 <= q2 < sorted@.len() && #[trigger] sorted@[q2] == e;
                        assert(sorted@[q2] == filtered_1x_bricks@[p]);
                    } else {
                        let q = choose|q: int|
                            0 <= q < pre.len() && #[trigger] pre[q] == filtered_1x_bricks@[p];
                        let q2 = choose|q2: int|
                            0 <= q2 < sorted@.len() && #[trigger] sorted@[q2] == pre[q];
                        assert(sorted@[q2] == filtered_1x_bricks@[p]);
                    }
                }
            }
        }
        proof {
            assert forall|i: int|
                0 <= i < bricks@.len() && (#[trigger] bricks@[i]).size == 1 implies exists|q: int|
                    0 <= q < sorted@.len() && (#[trigger] sorted@[q]) as int == i
            by {
                let fq = choose|fq: int|
                    0 <= fq < filtered_1x_bricks@.len() && (#[trigger] filtered_1x_bricks@[fq])
                        as int == i;
                let sq = choose|sq: int|
                    0 <= sq < sorted@.len() && #[trigger] sorted@[sq] == #[trigger]
                        filtered_1x_bricks@[fq];
                assert(sorted@[sq] as int == i);
            }
        }
        sorted
    }


    /// Sets whether each brick of one bundle is the bottom or the top
    /// half of a unit-cube pair: even places are bottoms.
    fn assign_1x_cube_name(&mut self, cube_bundle: &Vec<usize>)
        requires
            forall|v: int|
                0 <= v < cube_bundle@.len() ==> (#[trigger] cube_bundle@[v])
                    < old(self).bricks@.len(),
            forall|v1: int, v2: int|
                0 <= v1 < v2 < cube_bundle@.len() ==> #[trigger] cube_bundle@[v1]
                    != #[trigger] cube_bundle@[v2],
        ensures
            final(self).bricks@.len() == old(self).bricks@.len(),
            forall|v: int|
                0 <= v < cube_bundle@.len() ==> final(self).bricks@[(#[trigger] cube_bundle@[v])
                    as int] == set_bottom_label(
                    old(self).bricks@[cube_bundle@[v] as int],
                    v % 2 == 0,
                ),
            forall|i: int|
                0 <= i < old(self).bricks@.len() && (forall|v: int|
                    0 <= v < cube_bundle@.len() ==> ((#[trigger] cube_bundle@[v]) as int) != i)
                    ==> final(self).bricks@[i] == old(self).bricks@[i],
    {
        let mut brick_number: usize = 0;
        while brick_number < cube_bundle.len()
            invariant
                brick_number <= cube_bundle@.len(),
                self.bricks@.len() == old(self).bricks@.len(),
                forall|v: int|
                    0 <= v < cube_bundle@.len() ==> (#[trigger] cube_bundle@[v])
                        < old(self).bricks@.len(),
                forall|v1: int, v2: int|
                    0 <= v1 < v2 < cube_bundle@.len() ==> #[trigger] cube_bundle@[v1]
                        != #[trigger] cube_bundle@[v2],
                forall|v: int|
                    0 <= v < brick_number ==> self.bricks@[(#[trigger] cube_bundle@[v]) as int]
                        == set_bottom_label(
                        old(self).bricks@[cube_bundle@[v] as int],
                        v % 2 == 0,
                    ),
                forall|v: int|
                    brick_number <= v < cube_bundle@.len() ==> self.bricks@[(
                    #[trigger] cube_bundle@[v]) as int] == old(self).bricks@[cube_bundle@[v]
                        as int],
                forall|i: int|
                    0 <= i < old(self).bricks@.len() && (forall|v: int|
                        0 <= v < cube_bundle@.len() ==> ((#[trigger] cube_bundle@[v]) as int)
                            != i) ==> self.bricks@[i] == old(self).bricks@[i],
            decreases cube_bundle@.len() - brick_number,
        {
            let brick_idx = cube_bundle[brick_number];
            let brick = self.bricks[brick_idx];
            let bottom = brick_number == 0 || brick_number % 2 == 0;
            let ghost pre = self.bricks@;
            self.bricks.set(
                brick_idx,
                Brick {
                    position: brick.position,
                    size: brick.size,
                    floored: brick.floored,
                    bottom_1x_cube: bottom,
                },
            );
            proof {
                assert(self.bricks@ == pre.update(
                    brick_idx as int,
                    set_bottom_label(old(self).bricks@[brick_idx as int], bottom),
                ));
                assert forall|i: int|
                    0 <= i < old(self).bricks@.len() && (forall|v: int|
                        0 <= v < cube_bundle@.len() ==> ((#[trigger] cube_bundle@[v]) as int)
                            != i) implies self.bricks@[i] == old(self).bricks@[i]
                by {
                    assert(((cube_bundle@[brick_number as int]) as int) != i);
                }
            }
            brick_number += 1;
        }
    }

    /// Labels each bundle's bricks bottom, top, bottom, ... in turn.
    pub fn map_1x_cube_bundles(&mut self, bundles: Vec<Vec<usize>>)
        requires
            forall|u: int, v: int|
                0 <= u < bundles@.len() && 0 <= v < bundles@[u]@.len()
                    ==> (#[trigger] bundles@[u]@[v]) < old(self).bricks@.len(),
            bundles_entries_distinct(bundle_views(bundles@)),
        ensures
            final(self).bricks@.len() == old(self).bricks@.len(),
            forall|u: int, v: int|
                0 <= u < bundles@.len() && 0 <= v < bundles@[u]@.len()
                    ==> final(self).bricks@[(#[trigger] bundles@[u]@[v]) as int]
                    == set_bottom_label(
                    old(self).bricks@[bundles@[u]@[v] as int],
                    v % 2 == 0,
                ),
            forall|i: int|
                0 <= i < old(self).bricks@.len() && (forall|u: int, v: int|
                    0 <= u < bundles@.len() && 0 <= v < bundles@[u]@.len()
                        ==> ((#[trigger] bundles@[u]@[v]) as int) != i)
                    ==> final(self).bricks@[i] == old(self).bricks@[i],
    {
        let mut u: usize = 0;
        while u < bundles.len()
            invariant
                u <= bundles@.len(),
                self.bricks@.len() == old(self).bricks@.len(),
                forall|u1: int, v: int|
                    0 <= u1 < bundles@.len() && 0 <= v < bundles@[u1]@.len()
                        ==> (#[trigger] bundles@[u1]@[v]) < old(self).bricks@.len(),
                bundles_entries_distinct(bundle_views(bundles@)),
                forall|u1: int, v: int|
                    0 <= u1 < u && 0 <= v < bundles@[u1]@.len()
                        ==> self.bricks@[(#[trigger] bundles@[u1]@[v]) as int]
                        == set_bottom_label(
                        old(self).bricks@[bundles@[u1]@[v] as int],
                        v % 2 == 0,
                    ),
                forall|i: int|
                    0 <= i < old(self).bricks@.len() && (forall|u1: int, v: int|
                        0 <= u1 < u && 0 <= v < bundles@[u1]@.len()
                            ==> ((#[trigger] bundles@[u1]@[v]) as int) != i)
                        ==> self.bricks@[i] == old(self).bricks@[i],
            decreases bundles@.len() - u,
        {
            let ghost pre = self.bricks@;
            let bundle = &bundles[u];
            proof {
                assert forall|v1: int, v2: int|
                    0 <= v1 < v2 < bundle@.len() implies #[trigger] bundle@[v1]
                        != #[trigger] bundle@[v2]
                by {
                    assert(bundle_views(bundles@)[u as int][v1] != bundle_views(bundles@)[
                        u as int][v2]);
                }

            }
            self.assign_1x_cube_name(bundle);
            proof {
                assert forall|u1: int, v: int|
                    0 <= u1 < u + 1 && 0 <= v < bundles@[u1]@.len()
                        implies self.bricks@[(#[trigger] bundles@[u1]@[v]) as int]
                        == set_bottom_label(
                        old(self).bricks@[bundles@[u1]@[v] as int],
                        v % 2 == 0,
                    )
                by {
                    let idx = bundles@[u1]@[v];
                    if u1 < u {
                        assert forall|v2: int|
                            0 <= v2 < bundle@.len() implies ((#[trigger] bundle@[v2]) as int)
                                != idx as int
                        by {
                            assert(bundle_views(bundles@)[u as int][v2] != bundle_views(
                                bundles@,
                            )[u1][v]);
                        }
                        assert(self.bricks@[idx as int] == pre[idx as int]);
                    } else {
                        assert(pre[idx as int] == old(self).bricks@[idx as int]) by {
                            assert forall|u2: int, v2: int|
                                0 <= u2 < u && 0 <= v2 < bundles@[u2]@.len()
                                    implies ((#[trigger] bundles@[u2]@[v2]) as int) != idx as int
                            by {
                                assert(bundle_views(bundles@)[u2][v2] != bundle_views(bundles@)[
                                    u1][v]);
                            }
                        }
                        assert(self.bricks@[idx as int] == set_bottom_label(
                            pre[idx as int], v % 2 == 0,
                        ));
                    }
                }
                assert forall|i: int|
                    0 <= i < old(self).bricks@.len() && (forall|u1: int, v: int|
                        0 <= u1 < u + 1 && 0 <= v < bundles@[u1]@.len()
                            ==> ((#[trigger] bundles@[u1]@[v]) as int) != i)
                        implies self.bricks@[i] == old(self).bricks@[i]
                by {
                    assert forall|v2: int|
                        0 <= v2 < bundle@.len() implies ((#[trigger] bundle@[v2]) as int) != i
                    by {
                        assert(((bundles@[u as int]@[v2]) as int) != i);
                    }
                    assert(pre[i] == old(self).bricks@[i]);
                }
            }
            u += 1;
        }
    }

    /// Works every collected brick into its placement record: unit
    /// bricks are first paired into bottom and top halves bundle by
    /// bundle, then each brick's placement coordinates are computed.
    #[verifier::spinoff_prover]
    pub fn build(&mut self) -> (r: Vec<PlacedBrick>)
        requires
            forall|i: int|
                0 <= i < old(self).bricks@.len() ==> brick_wf(#[trigger] old(self).bricks@[i]),
        ensures
            final(self).bricks@.len() == old(self).bricks@.len(),
            bundles_labeled(old(self).bricks@, final(self).bricks@),
            r@.len() == final(self).bricks@.len(),
            forall|i: int|
                0 <= i < r@.len() ==> #[trigger] r@[i] == spec_placed(final(self).bricks@[i]),
    {
        let ghost pre = self.bricks@;
        let cubes_1x_idxes = self.get_1x_cube_bundles();
        let ghost ghost_bundles = cubes_1x_idxes@;
        self.map_1x_cube_bundles(cubes_1x_idxes);
        proof {
            lemma_bundles_labeled(pre, self.bricks@, ghost_bundles);
        }
        let ghost labeled = self.bricks@;
        let mut adjusted_coordinate_bricks: Vec<PlacedBrick> = Vec::new();
        let total = self.bricks.len();
        let mut i: usize = 0;
        while i < total
            invariant
                i <= total,
                total == self.bricks@.len(),
                self.bricks@ == labeled,
                forall|j: int| 0 <= j < total ==> brick_wf(#[trigger] self.bricks@[j]),
                adjusted_coordinate_bricks@.len() == i,
                forall|j: int|
                    0 <= j < i ==> #[trigger] adjusted_coordinate_bricks@[j] == spec_placed(
                        self.bricks@[j],
                    ),
            decreases total - i,
        {
            let brick = self.bricks[i];
            adjusted_coordinate_bricks.push(brick.calculate_right_offset());
            i += 1;
        }
        adjusted_coordinate_bricks
    }

    /// Groups the unit-size bricks into bundles: their indices, sorted
    /// ascending by position, are split into maximal runs of directly
    /// stacked bricks.
    #[verifier::rlimit(100)]
    #[verifier::spinoff_prover]
    pub fn get_1x_cube_bundles(&self) -> (r: Vec<Vec<usize>>)
        ensures
            is_bundling(self.bricks@, bundle_views(r@)),
            bundles_entries_distinct(bundle_views(r@)),
            forall|u: int, v: int|
                0 <= u < r@.len() && 0 <= v < r@[u]@.len() ==> (#[trigger] r@[u]@[v])
                    < self.bricks@.len() && self.bricks@[r@[u]@[v] as int].size == 1,
            forall|i: int|
                0 <= i < self.bricks@.len() && (#[trigger] self.bricks@[i]).size == 1
                    ==> exists|u: int, v: int|
                    0 <= u < r@.len() && 0 <= v < r@[u]@.len() && (#[trigger] r@[u]@[v]) as int
                        == i,
    {
        let bricks = &self.bricks;
        let n = bricks.len();
        let sorted = self.sort_unit_indices();
        let sl = sorted.len();
        let mut bundles: Vec<Vec<usize>> = Vec::new();
        if sl == 0 {
            proof {
                assert(bundle_views(bundles@).len() == 0);
                assert(flatten_seqs(bundle_views(bundles@)) =~= Seq::<usize>::empty());
                assert forall|i: int|
                    0 <= i < bricks@.len() && (#[trigger] bricks@[i]).size == 1 implies false
                by {
                    let q = choose|q: int|
                        0 <= q < sorted@.len() && (#[trigger] sorted@[q]) as int == i;
                }
            }
            return bundles;
        }

        let mut current: Vec<usize> = Vec::new();
        current.push(sorted[0]);
        proof {
            assert(current@[0] == sorted@[0]);
        }
        let mut q: usize = 1;
        while q < sl
            invariant
                1 <= q <= sl,
                sl == sorted@.len(),
                n == bricks@.len(),
                forall|p: int|
                    0 <= p < sl ==> (#[trigger] sorted@[p]) < n
                        && bricks@[sorted@[p] as int].size == 1,
                forall|p1: int, p2: int|
                    0 <= p1 < p2 < sl ==> brick_key_lt(
                        bricks@,
                        #[trigger] sorted@[p1] as int,
                        #[trigger] sorted@[p2] as int,
                    ),
                current@.len() >= 1,
                current@[current@.len() - 1] == sorted@[q - 1],
                flatten_seqs(bundle_views(bundles@)) + current@ =~= sorted@.subrange(0, q as int),
                forall|u: int| 0 <= u < bundles@.len() ==> (#[trigger] bundles@[u])@.len() >= 1,
                forall|u: int, v: int|
                    0 <= u < bundles@.len() && 0 <= v < bundles@[u]@.len() ==> exists|p: int|
                        0 <= p < q && #[trigger] sorted@[p] == #[trigger] bundles@[u]@[v],
                forall|v: int|
                    0 <= v < current@.len() ==> exists|p: int|
                        0 <= p < q && #[trigger] sorted@[p] == #[trigger] current@[v],
                forall|p: int|
                    0 <= p < q ==> (exists|u: int, v: int|
                        0 <= u < bundles@.len() && 0 <= v < bundles@[u]@.len()
                            && #[trigger] bundles@[u]@[v] == sorted@[p]) || (exists|v: int|
                        0 <= v < current@.len() && #[trigger] current@[v] == #[trigger] sorted@[p]),
                forall|u: int, v: int|
                    0 <= u < bundles@.len() && 1 <= v < bundles@[u]@.len() ==> spec_is_above(
                        bricks@[#[trigger] bundles@[u]@[v] as int],
                        bricks@[bundles@[u]@[v - 1] as int],
                    ),
                forall|v: int|
                    1 <= v < current@.len() ==> spec_is_above(
                        bricks@[#[trigger] current@[v] as int],
                        bricks@[current@[v - 1] as int],
                    ),
                forall|u: int|
                    1 <= u < bundles@.len() ==> !spec_is_above(
                        bricks@[(#[trigger] bundles@[u])@[0] as int],
                        bricks@[bundles@[u - 1]@[bundles@[u - 1]@.len() - 1] as int],
                    ),
                bundles@.len() >= 1 ==> !spec_is_above(
                    bricks@[current@[0] as int],
                    bricks@[bundles@[bundles@.len() - 1]@[bundles@[bundles@.len() - 1]@.len()
                        - 1] as int],
                ),
                forall|u1: int, v1: int, u2: int, v2: int|
                    #![trigger bundles@[u1]@[v1], bundles@[u2]@[v2]]
                    0 <= u1 < bundles@.len() && 0 <= v1 < bundles@[u1]@.len() && 0 <= u2
                        < bundles@.len() && 0 <= v2 < bundles@[u2]@.len() && (u1 != u2 || v1 != v2)
                        ==> bundles@[u1]@[v1] != bundles@[u2]@[v2],
                forall|u: int, v: int, v2: int|
                    #![trigger bundles@[u]@[v], current@[v2]]
                    0 <= u < bundles@.len() && 0 <= v < bundles@[u]@.len() && 0 <= v2
                        < current@.len() ==> bundles@[u]@[v] != current@[v2],
                forall|v1: int, v2: int|
                    0 <= v1 < v2 < current@.len() ==> #[trigger] current@[v1] != #[trigger]
                        current@[v2],
            decreases sl - q,
        {
            let brick_idx = sorted[q];
            let prev_idx = sorted[q - 1];
            proof {
                assert forall|p: int| 0 <= p < q implies #[trigger] sorted@[p] != sorted@[q as int]
                by {
                    assert(brick_key_lt(bricks@, sorted@[p] as int, sorted@[q as int] as int));
                }
            }
            let stacked = {
                let b = bricks[brick_idx];
                let p = bricks[prev_idx];
                b.is_above(&p)
            };
            if stacked {
                let ghost cpre = current@;
                current.push(brick_idx);
                proof {
                    assert(current@ == cpre.push(sorted@[q as int]));
                    assert(flatten_seqs(bundle_views(bundles@)) + current@ =~= sorted@.subrange(
                        0, q as int + 1,
                    ));
                    assert forall|v: int|
                        0 <= v < current@.len() implies exists|p: int|
                            0 <= p < q + 1 && #[trigger] sorted@[p] == #[trigger] current@[v]
                    by {
                        if v == current@.len() - 1 {
                            assert(sorted@[q as int] == current@[v]);
                        } else {
                            let p = choose|p: int|
                                0 <= p < q && #[trigger] sorted@[p] == cpre[v];
                            assert(sorted@[p] == current@[v]);
                        }
                    }
                    assert forall|p: int|
                        0 <= p < q + 1 implies (exists|u: int, v: int|
                            0 <= u < bundles@.len() && 0 <= v < bundles@[u]@.len()
                                && #[trigger] bundles@[u]@[v] == sorted@[p]) || (exists|v: int|
                            0 <= v < current@.len() && #[trigger] current@[v] == #[trigger]
                                sorted@[p])
                    by {
                        if p == q {
                            assert(current@[current@.len() - 1] == sorted@[p]);
                        } else if exists|v: int|
                            0 <= v < cpre.len() && #[trigger] cpre[v] == sorted@[p] {
                            let v = choose|v: int|
                                0 <= v < cpre.len() && #[trigger] cpre[v] == sorted@[p];
                            assert(current@[v] == sorted@[p]);
                        }
                    }
                    assert forall|u: int, v: int, v2: int|
                        #![trigger bundles@[u]@[v], current@[v2]]
                        0 <= u < bundles@.len() && 0 <= v < bundles@[u]@.len() && 0 <= v2
                            < current@.len() implies bundles@[u]@[v] != current@[v2]
                    by {
                        if v2 == current@.len() - 1 {
                            let p = choose|p: int|
                                0 <= p < q && #[trigger] sorted@[p] == bundles@[u]@[v];
                            assert(sorted@[p] != sorted@[q as int]);
                        }
                    }
                    assert forall|v1: int, v2: int|
                        0 <= v1 < v2 < current@.len() implies #[trigger] current@[v1]
                            != #[trigger] current@[v2]
                    by {
                        if v2 == current@.len() - 1 {
                            let p = choose|p: int|
                                0 <= p < q && #[trigger] sorted@[p] == cpre[v1];
                            assert(sorted@[p] != sorted@[q as int]);
                        }
                    }
                }
            } else {
                let ghost bpre = bundles@;
                let ghost cpre = current@;
                bundles.push(current);
                current = Vec::new();
                current.push(brick_idx);
                proof {
                    let nb = bundles@.len() - 1;
                    assert(bundles@[nb]@ == cpre);
                    assert(bundle_views(bundles@).drop_last() =~= bundle_views(bpre));
                    assert(bundle_views(bundles@).last() =~= cpre);
                    assert(flatten_seqs(bundle_views(bundles@)) =~= flatten_seqs(bundle_views(
                        bpre,
                    )) + cpre);
                    assert(current@ =~= seq![sorted@[q as int]]);
                    assert(flatten_seqs(bundle_views(bundles@)) + current@ =~= sorted@.subrange(
                        0, q as int + 1,
                    ));
                    assert forall|u: int, v: int|
                        0 <= u < bundles@.len() && 0 <= v < bundles@[u]@.len() implies exists|
                        p: int,
                    |
                        0 <= p < q + 1 && #[trigger] sorted@[p] == #[trigger] bundles@[u]@[v]
                    by {
                        if u < nb {
                            let p = choose|p: int|
                                0 <= p < q && #[trigger] sorted@[p] == bpre[u]@[v];
                            assert(sorted@[p] == bundles@[u]@[v]);
                        } else {
                            let p = choose|p: int|
                                0 <= p < q && #[trigger] sorted@[p] == cpre[v];
                            assert(sorted@[p] == bundles@[u]@[v]);
                        }
                    }
                    assert forall|p: int|
                        0 <= p < q + 1 implies (exists|u: int, v: int|
                            0 <= u < bundles@.len() && 0 <= v < bundles@[u]@.len()
                                && #[trigger] bundles@[u]@[v] == sorted@[p]) || (exists|v: int|
                            0 <= v < current@.len() && #[trigger] current@[v] == #[trigger]
                                sorted@[p])
                    by {
                        if p == q {
                            assert(current@[0] == sorted@[p]);
                        } else if exists|v: int|
                            0 <= v < cpre.len() && #[trigger] cpre[v] == sorted@[p] {
                            let v = choose|v: int|
                                0 <= v < cpre.len() && #[trigger] cpre[v] == sorted@[p];
                            assert(bundles@[nb]@[v] == sorted@[p]);
                        } else if exists|u: int, v: int|
                            0 <= u < bpre.len() && 0 <= v < bpre[u]@.len()
                                && #[trigger] bpre[u]@[v] == sorted@[p] {
                            let (u, v) = choose|u: int, v: int|
                                0 <= u < bpre.len() && 0 <= v < bpre[u]@.len()
                                    && #[trigger] bpre[u]@[v] == sorted@[p];
                            assert(bundles@[u]@[v] == sorted@[p]);
                        }
                    }
                    assert forall|u1: int, v1: int, u2: int, v2: int|
                        #![trigger bundles@[u1]@[v1], bundles@[u2]@[v2]]
                        0 <= u1 < bundles@.len() && 0 <= v1 < bundles@[u1]@.len() && 0 <= u2
                            < bundles@.len() && 0 <= v2 < bundles@[u2]@.len() && (u1 != u2 || v1
                            != v2) implies bundles@[u1]@[v1] != bundles@[u2]@[v2]
                    by {
                        if u1 == nb && u2 == nb {
                            assert(cpre[v1] != cpre[v2]);
                        } else if u1 == nb {
                            assert(bpre[u2]@[v2] != cpre[v1]);
                        } else if u2 == nb {
                            assert(bpre[u1]@[v1] != cpre[v2]);
                        }
                    }
                    assert forall|u: int, v: int, v2: int|
                        #![trigger bundles@[u]@[v], current@[v2]]
                        0 <= u < bundles@.len() && 0 <= v < bundles@[u]@.len() && 0 <= v2
                            < current@.len() implies bundles@[u]@[v] != current@[v2]
                    by {
                        let p = choose|p: int|
                            0 <= p < q && #[trigger] sorted@[p] == bundles@[u]@[v];
                        assert(sorted@[p] != sorted@[q as int]);
                        assert(current@[v2] == sorted@[q as int]);
                    }
                }
            }
            q += 1;
        }
        let ghost bpre = bundles@;
        let ghost cpre = current@;
        bundles.push(current);
        proof {
            let nb = bundles@.len() - 1;
            assert(bundles@[nb]@ == cpre);
            assert(bundle_views(bundles@).drop_last() =~= bundle_views(bpre));
            assert(bundle_views(bundles@).last() =~= cpre);
            assert(flatten_seqs(bundle_views(bundles@)) =~= flatten_seqs(bundle_views(bpre))
                + cpre);
            assert(sorted@.subrange(0, sl as int) =~= sorted@);
            assert(flatten_seqs(bundle_views(bundles@)) =~= sorted@);
            assert forall|u: int, v: int|
                0 <= u < bundles@.len() && 0 <= v < bundles@[u]@.len() implies (
                #[trigger] bundles@[u]@[v]) < n && bricks@[bundles@[u]@[v] as int].size == 1
            by {
                if u < nb {
                    let p = choose|p: int|
                        0 <= p < sl && #[trigger] sorted@[p] == bpre[u]@[v];
                } else {
                    let p = choose|p: int|
                        0 <= p < sl && #[trigger] sorted@[p] == cpre[v];
                }
            }
            assert forall|i: int|
                0 <= i < bricks@.len() && (#[trigger] bricks@[i]).size == 1 implies exists|
                u: int,
                v: int,
            |
                0 <= u < bundles@.len() && 0 <= v < bundles@[u]@.len()
                    && (#[trigger] bundles@[u]@[v]) as int == i
            by {
                let sq = choose|sq: int|
                    0 <= sq < sorted@.len() && (#[trigger] sorted@[sq]) as int == i;
                if exists|v: int| 0 <= v < cpre.len() && #[trigger] cpre[v] == sorted@[sq] {
                    let v = choose|v: int|
                        0 <= v < cpre.len() && #[trigger] cpre[v] == sorted@[sq];
                    assert(bundles@[nb]@[v] as int == i);
                } else {
                    let (u, v) = choose|u: int, v: int|
                        0 <= u < bpre.len() && 0 <= v < bpre[u]@.len() && #[trigger] bpre[u]@[v]
                            == sorted@[sq];
                    assert(bundles@[u]@[v] as int == i);
                }
            }
            assert forall|u1: int, v1: int, u2: int, v2: int|
                #![trigger bundles@[u1]@[v1], bundles@[u2]@[v2]]
                0 <= u1 < bundles@.len() && 0 <= v1 < bundles@[u1]@.len() && 0 <= u2
                    < bundles@.len() && 0 <= v2 < bundles@[u2]@.len() && (u1 != u2 || v1 != v2)
                    implies bundles@[u1]@[v1] != bundles@[u2]@[v2]
            by {
                if u1 == nb && u2 == nb {
                    assert(cpre[v1] != cpre[v2]);
                } else if u1 == nb {
                    assert(bpre[u2]@[v2] != cpre[v1]);
                } else if u2 == nb {
                    assert(bpre[u1]@[v1] != cpre[v2]);
                }
            }
            assert(bundles_entries_distinct(bundle_views(bundles@)));
            assert(is_unit_order(bricks@, flatten_seqs(bundle_views(bundles@))));
            assert(is_bundling(bricks@, bundle_views(bundles@)));
        }
        bundles
    }
}


} // verus!
