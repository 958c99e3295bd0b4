//! Chunk-streaming selection: which chunk coordinates should be resident.
//!
//! A [`LoadStrat`] is a closed set of spatial-inclusion shapes around a
//! center coordinate. [`LoadStrat::members`] enumerates the selected
//! coordinates in a fixed deterministic order and
//! [`LoadStrat::contains`] tests a single candidate; the two agree exactly.
//!
//! Cube enumeration ascends lexicographically by `(y, x, z)` offset. Sphere
//! enumeration ascends by squared Euclidean distance from the center, ties
//! broken by the same lexicographic order. For an even cube side, the extra
//! offset goes to the positive side of each axis.

use crate::addressing::lemma_rank3_decode;
use crate::addressing::lemma_rank3_encode;
use crate::addressing::rank3;
use crate::addressing::volume_of;
use vstd::prelude::*;

verus! {

/// Integer 3-vector locating a chunk (not a voxel) on the world grid.
#[derive(Clone, Copy, Debug, PartialEq, Eq, Structural, Hash)]
pub struct ChunkCoord {
    /// Vertical position.
    pub y: i64,
    /// First horizontal position.
    pub x: i64,
    /// Second horizontal position.
    pub z: i64,
}

impl View for ChunkCoord {
    type V = (int, int, int);

    open spec fn view(&self) -> (int, int, int) {
        (self.y as int, self.x as int, self.z as int)
    }
}

/// Chunk loading strategy: the shape of the set of resident coordinates.
#[derive(Debug, Clone, Copy)]
pub enum LoadStrat {
    /// Every coordinate within Euclidean distance `radius` of the center.
    RuggedSphere {
        /// Radius, measured between chunk-coordinate centers.
        radius: usize,
    },
    /// An axis-aligned box of `side` coordinates per axis around the center.
    Cube {
        /// Side length.
        side: usize,
    },
}

/// Magnitude of the farthest negative per-axis offset of a cube of side
/// `side`: for odd sides the box is symmetric, for even sides the extra
/// offset goes to the positive side.
pub open spec fn cube_lo(side: int) -> int {
    (side - 1) / 2
}

/// The farthest positive per-axis offset of a cube of side `side`.
pub open spec fn cube_hi(side: int) -> int {
    side / 2
}

/// Whether `c` lies in the axis-aligned box of `side` coordinates per axis
/// around `center`. An empty side selects nothing.
pub open spec fn in_cube(side: int, center: (int, int, int), c: (int, int, int)) -> bool {
    &&& 1 <= side
    &&& center.0 - cube_lo(side) <= c.0 <= center.0 + cube_hi(side)
    &&& center.1 - cube_lo(side) <= c.1 <= center.1 + cube_hi(side)
    &&& center.2 - cube_lo(side) <= c.2 <= center.2 + cube_hi(side)
}

/// Squared Euclidean distance between two grid coordinates.
pub open spec fn dist2(a: (int, int, int), b: (int, int, int)) -> int {
    (a.0 - b.0) * (a.0 - b.0) + (a.1 - b.1) * (a.1 - b.1) + (a.2 - b.2) * (a.2 - b.2)
}

/// Whether `c` lies within Euclidean distance `radius` of `center`.
pub open spec fn in_sphere(radius: int, center: (int, int, int), c: (int, int, int)) -> bool {
    dist2(center, c) <= radius * radius
}

/// Membership in the set of coordinates a strategy selects around `center`.
pub open spec fn strat_contains(s: LoadStrat, center: (int, int, int), c: (int, int, int)) -> bool {
    match s {
        LoadStrat::RuggedSphere { radius } => in_sphere(radius as int, center, c),
        LoadStrat::Cube { side } => in_cube(side as int, center, c),
    }
}

/// The `k`-th coordinate of the box of side `side` around `center`, in
/// ascending lexicographic `(y, x, z)` order.
pub open spec fn cube_at(side: int, center: (int, int, int), k: int) -> (int, int, int) {
    (
        center.0 - cube_lo(side) + k / (side * side),
        center.1 - cube_lo(side) + (k % (side * side)) / side,
        center.2 - cube_lo(side) + (k % (side * side)) % side,
    )
}

/// The lexicographic position of `c` in the box of side `side` around
/// `center`; inverse of [`cube_at`] on the box.
pub open spec fn cube_rank(side: int, center: (int, int, int), c: (int, int, int)) -> int {
    rank3(
        c.0 - center.0 + cube_lo(side),
        c.1 - center.1 + cube_lo(side),
        c.2 - center.2 + cube_lo(side),
        side,
    )
}

/// The full enumeration of the box of side `side` around `center`.
pub open spec fn cube_seq(side: int, center: (int, int, int)) -> Seq<(int, int, int)> {
    if 1 <= side {
        Seq::new(volume_of(side) as nat, |k: int| cube_at(side, center, k))
    } else {
        Seq::empty()
    }
}

/// The coordinates among the first `k` of the candidate box of the sphere of
/// radius `radius` whose squared distance from `center` is exactly `d2`, in
/// box order.
pub open spec fn sphere_layer_upto(
    radius: int,
    center: (int, int, int),
    d2: int,
    k: int,
) -> Seq<(int, int, int)>
    decreases k,
{
    if k <= 0 {
        Seq::empty()
    } else {
        let prev = sphere_layer_upto(radius, center, d2, k - 1);
        let c = cube_at(2 * radius + 1, center, k - 1);
        if dist2(center, c) == d2 {
            prev.push(c)
        } else {
            prev
        }
    }
}

/// All coordinates of the sphere of radius `radius` around `center` whose
/// squared distance is at most `d2`, ascending by squared distance with ties
/// in box order.
pub open spec fn sphere_upto(radius: int, center: (int, int, int), d2: int) -> Seq<(int, int, int)>
    decreases d2 + 1,
{
    if d2 < 0 {
        Seq::empty()
    } else {
        sphere_upto(radius, center, d2 - 1) + sphere_layer_upto(
            radius,
            center,
            d2,
            volume_of(2 * radius + 1),
        )
    }
}

/// The exact sequence of coordinates [`LoadStrat::members`] returns.
pub open spec fn members_spec(s: LoadStrat, center: (int, int, int)) -> Seq<(int, int, int)> {
    match s {
        LoadStrat::RuggedSphere { radius } => sphere_upto(
            radius as int,
            center,
            (radius as int) * (radius as int),
        ),
        LoadStrat::Cube { side } => cube_seq(side as int, center),
    }
}

/// Largest cube side `members` accepts: small enough that the box volume
/// stays a `usize` count even on 32-bit targets.
pub const CUBE_SIDE_LIMIT: usize = 1280;

/// Largest sphere radius `members` accepts: small enough that the candidate
/// box volume stays a `usize` count even on 32-bit targets.
pub const SPHERE_RADIUS_LIMIT: usize = 639;

/// Machine-size bounds under which `members` can build its result: the
/// candidate count fits a `usize` and every enumerated coordinate fits the
/// `i64` coordinate type.
pub open spec fn members_fits(s: LoadStrat, center: (int, int, int)) -> bool {
    match s {
        LoadStrat::RuggedSphere { radius } => {
            &&& radius <= SPHERE_RADIUS_LIMIT
            &&& i64::MIN <= center.0 - radius
            &&& center.0 + radius <= i64::MAX
            &&& i64::MIN <= center.1 - radius
            &&& center.1 + radius <= i64::MAX
            &&& i64::MIN <= center.2 - radius
            &&& center.2 + radius <= i64::MAX
        },
        LoadStrat::Cube { side } => {
            &&& side <= CUBE_SIDE_LIMIT
            &&& i64::MIN <= center.0 - cube_lo(side as int)
            &&& center.0 + cube_hi(side as int) <= i64::MAX
            &&& i64::MIN <= center.1 - cube_lo(side as int)
            &&& center.1 + cube_hi(side as int) <= i64::MAX
            &&& i64::MIN <= center.2 - cube_lo(side as int)
            &&& center.2 + cube_hi(side as int) <= i64::MAX
        },
    }
}

/// A nonnegative value bounded in magnitude has a bounded square.
proof fn lemma_square_le(a: int, b: int)
    requires
        -b <= a <= b,
    ensures
        0 <= a * a <= b * b,
{
    assert(0 <= a * a <= b * b) by (nonlinear_arith)
        requires
            -b <= a <= b,
    ;
}

/// Enumerates the box of `side` coordinates per axis around `center` in
/// ascending lexicographic `(y, x, z)` order.
fn cube_members(side: usize, center: ChunkCoord) -> (r: Vec<ChunkCoord>)
    requires
        members_fits(LoadStrat::Cube { side }, center@),
    ensures
        r@.len() == cube_seq(side as int, center@).len(),
        forall|i: int|
            0 <= i < r@.len() ==> (#[trigger] r@[i])@ == cube_seq(side as int, center@)[i],
{
    let mut out: Vec<ChunkCoord> = Vec::new();
    if side == 0 {
        return out;
    }
    proof {
        let s = side as int;
        assert(s * s <= 1280 * 1280) by (nonlinear_arith)
            requires
                0 <= s <= 1280,
        ;
        assert(s * s * s <= 1280 * 1280 * 1280) by (nonlinear_arith)
            requires
                0 <= s <= 1280,
        ;
    }
    let lo = (side - 1) / 2;
    let plane = side * side;
    let vol = plane * side;
    let mut k: usize = 0;
    while k < vol
        invariant
            1 <= side <= CUBE_SIDE_LIMIT,
            members_fits(LoadStrat::Cube { side }, center@),
            plane as int == (side as int) * (side as int),
            vol as int == volume_of(side as int),
            lo as int == cube_lo(side as int),
            k <= vol,
            out@.len() == k as int,
            forall|i: int|
                0 <= i < k ==> (#[trigger] out@[i])@ == cube_seq(side as int, center@)[i],
        decreases vol - k,
    {
        let iy = k / plane;
        let m = k % plane;
        let ix = m / side;
        let iz = m % side;
        proof {
            lemma_rank3_encode(side as int, k as int);
            assert(cube_lo(side as int) + cube_hi(side as int) == side as int - 1);
        }
        let cy = center.y - (lo as i64) + (iy as i64);
        let cx = center.x - (lo as i64) + (ix as i64);
        let cz = center.z - (lo as i64) + (iz as i64);
        out.push(ChunkCoord { y: cy, x: cx, z: cz });
        k = k + 1;
    }
    out
}

/// The members sequence settled once every layer below `d2` is done and the
/// scan of layer `d2` has passed the first `k` box positions.
pub open spec fn sphere_prefix(
    radius: int,
    center: (int, int, int),
    d2: int,
    k: int,
) -> Seq<(int, int, int)> {
    sphere_upto(radius, center, d2 - 1) + sphere_layer_upto(radius, center, d2, k)
}

/// Enumerates the sphere of radius `radius` around `center`, ascending by
/// squared distance with ties in box order.
fn sphere_members(radius: usize, center: ChunkCoord) -> (r: Vec<ChunkCoord>)
    requires
        members_fits(LoadStrat::RuggedSphere { radius }, center@),
    ensures
        r@.len() == members_spec(LoadStrat::RuggedSphere { radius }, center@).len(),
        forall|i: int|
            0 <= i < r@.len() ==> (#[trigger] r@[i])@ == members_spec(
                LoadStrat::RuggedSphere { radius },
                center@,
            )[i],
{
    let side = 2 * radius + 1;
    proof {
        let s = side as int;
        assert(s * s <= 1279 * 1279) by (nonlinear_arith)
            requires
                0 <= s <= 1279,
        ;
        assert(s * s * s <= 1279 * 1279 * 1279) by (nonlinear_arith)
            requires
                0 <= s <= 1279,
        ;
        assert(cube_lo(s) == radius as int);
        assert((radius as int) * (radius as int) <= 639 * 639) by (nonlinear_arith)
            requires
                0 <= radius as int <= 639,
        ;
    }
    let plane = side * side;
    let vol = plane * side;
    let r2 = radius * radius;
    let mut out: Vec<ChunkCoord> = Vec::new();
    let mut d2: usize = 0;
    while d2 <= r2
        invariant
            members_fits(LoadStrat::RuggedSphere { radius }, center@),
            radius <= SPHERE_RADIUS_LIMIT,
            side as int == 2 * (radius as int) + 1,
            plane as int == (side as int) * (side as int),
            vol as int == volume_of(side as int),
            r2 as int == (radius as int) * (radius as int),
            r2 <= 408321,
            d2 <= r2 + 1,
            out@.len() == sphere_upto(radius as int, center@, d2 as int - 1).len(),
            forall|i: int|
                0 <= i < out@.len() ==> (#[trigger] out@[i])@ == sphere_upto(
                    radius as int,
                    center@,
                    d2 as int - 1,
                )[i],
        decreases r2 + 1 - d2,
    {
        proof {
            assert(sphere_prefix(radius as int, center@, d2 as int, 0) =~= sphere_upto(
                radius as int,
                center@,
                d2 as int - 1,
            ));
        }
        let mut k: usize = 0;
        while k < vol
            invariant
                members_fits(LoadStrat::RuggedSphere { radius }, center@),
                radius <= SPHERE_RADIUS_LIMIT,
                side as int == 2 * (radius as int) + 1,
                plane as int == (side as int) * (side as int),
                vol as int == volume_of(side as int),
                r2 as int == (radius as int) * (radius as int),
                r2 <= 408321,
                d2 <= r2,
                k <= vol,
                out@.len() == sphere_prefix(radius as int, center@, d2 as int, k as int).len(),
                forall|i: int|
                    0 <= i < out@.len() ==> (#[trigger] out@[i])@ == sphere_prefix(
                        radius as int,
                        center@,
                        d2 as int,
                        k as int,
                    )[i],
            decreases vol - k,
        {
            let iy = k / plane;
            let m = k % plane;
            let ix = m / side;
            let iz = m % side;
            proof {
                lemma_rank3_encode(side as int, k as int);
                assert(cube_lo(side as int) == radius as int);
            }
            let dy = iy as i64 - radius as i64;
            let dx = ix as i64 - radius as i64;
            let dz = iz as i64 - radius as i64;
            proof {
                lemma_square_le(dy as int, 639);
                lemma_square_le(dx as int, 639);
                lemma_square_le(dz as int, 639);
            }
            let dd = dy * dy + dx * dx + dz * dz;
            proof {
                let s = side as int;
                let cand = cube_at(s, center@, k as int);
                assert(cand.0 == center@.0 + dy as int);
                assert(cand.1 == center@.1 + dx as int);
                assert(cand.2 == center@.2 + dz as int);
                assert((center@.0 - cand.0) * (center@.0 - cand.0) == (dy as int) * (dy as int))
                    by (nonlinear_arith)
                    requires
                        center@.0 - cand.0 == -(dy as int),
                ;
                assert((center@.1 - cand.1) * (center@.1 - cand.1) == (dx as int) * (dx as int))
                    by (nonlinear_arith)
                    requires
                        center@.1 - cand.1 == -(dx as int),
                ;
                assert((center@.2 - cand.2) * (center@.2 - cand.2) == (dz as int) * (dz as int))
                    by (nonlinear_arith)
                    requires
                        center@.2 - cand.2 == -(dz as int),
                ;
                assert(dist2(center@, cand) == dd as int);
            }
            if dd == d2 as i64 {
                let cy = center.y + dy;
                let cx = center.x + dx;
                let cz = center.z + dz;
                out.push(ChunkCoord { y: cy, x: cx, z: cz });
                proof {
                    let s = side as int;
                    let cand = cube_at(s, center@, k as int);
                    let upto = sphere_upto(radius as int, center@, d2 as int - 1);
                    let layer = sphere_layer_upto(radius as int, center@, d2 as int, k as int);
                    assert(cube_at(2 * (radius as int) + 1, center@, k as int) == cand);
                    assert(dist2(center@, cand) == d2 as int);
                    assert(sphere_layer_upto(radius as int, center@, d2 as int, k as int + 1)
                        == layer.push(cand));
                    assert(upto + layer.push(cand) =~= (upto + layer).push(cand));
                }
            } else {
                proof {
                    assert(sphere_layer_upto(radius as int, center@, d2 as int, k as int + 1)
                        == sphere_layer_upto(radius as int, center@, d2 as int, k as int));
                }
            }
            k = k + 1;
        }
        proof {
            assert(sphere_upto(radius as int, center@, d2 as int) == sphere_upto(
                radius as int,
                center@,
                d2 as int - 1,
            ) + sphere_layer_upto(radius as int, center@, d2 as int, volume_of(side as int)));
        }
        d2 = d2 + 1;
    }
    out
}

impl LoadStrat {
    /// Enumerates the chunk coordinates this strategy selects around
    /// `center`: a finite, pure enumeration with no side effects, in a fixed
    /// deterministic order. Cubes ascend lexicographically by `(y, x, z)`
    /// offset; spheres ascend by squared Euclidean distance with ties broken
    /// in the same lexicographic order.
    pub fn members(&self, center: ChunkCoord) -> (r: Vec<ChunkCoord>)
        requires
            members_fits(*self, center@),
        ensures
            r@.len() == members_spec(*self, center@).len(),
            forall|i: int|
                0 <= i < r@.len() ==> (#[trigger] r@[i])@ == members_spec(*self, center@)[i],
    {
        match *self {
            LoadStrat::RuggedSphere { radius } => sphere_members(radius, center),
            LoadStrat::Cube { side } => cube_members(side, center),
        }
    }

    /// Tests whether `cand` belongs to the set of coordinates this strategy
    /// selects around `center`; agrees exactly with [`LoadStrat::members`].
    pub fn contains(&self, center: ChunkCoord, cand: ChunkCoord) -> (r: bool)
        ensures
            r == strat_contains(*self, center@, cand@),
    {
        match *self {
            LoadStrat::Cube { side } => {
                if side == 0 {
                    return false;
                }
                let lo = ((side - 1) / 2) as i128;
                let hi = (side / 2) as i128;
                let dy = cand.y as i128 - center.y as i128;
                let dx = cand.x as i128 - center.x as i128;
                let dz = cand.z as i128 - center.z as i128;
                -lo <= dy && dy <= hi && -lo <= dx && dx <= hi && -lo <= dz && dz <= hi
            },
            LoadStrat::RuggedSphere { radius } => {
                let dy = cand.y as i128 - center.y as i128;
                let dx = cand.x as i128 - center.x as i128;
                let dz = cand.z as i128 - center.z as i128;
                let ady: u128 = if dy < 0 {
                    (-dy) as u128
                } else {
                    dy as u128
                };
                let adx: u128 = if dx < 0 {
                    (-dx) as u128
                } else {
                    dx as u128
                };
                let adz: u128 = if dz < 0 {
                    (-dz) as u128
                } else {
                    dz as u128
                };
                proof {
                    let span = 0xFFFF_FFFF_FFFF_FFFF as int;
                    lemma_square_le(ady as int, span);
                    lemma_square_le(adx as int, span);
                    lemma_square_le(adz as int, span);
                    lemma_square_le(radius as int, span);
                    assert((ady as int) * (ady as int) == (center@.0 - cand@.0) * (center@.0
                        - cand@.0)) by (nonlinear_arith)
                        requires
                            ady as int == cand@.0 - center@.0 || ady as int == -(cand@.0
                                - center@.0),
                    ;
                    assert((adx as int) * (adx as int) == (center@.1 - cand@.1) * (center@.1
                        - cand@.1)) by (nonlinear_arith)
                        requires
                            adx as int == cand@.1 - center@.1 || adx as int == -(cand@.1
                                - center@.1),
                    ;
                    assert((adz as int) * (adz as int) == (center@.2 - cand@.2) * (center@.2
                        - cand@.2)) by (nonlinear_arith)
                        requires
                            adz as int == cand@.2 - center@.2 || adz as int == -(cand@.2
                                - center@.2),
                    ;
                    assert(dist2(center@, cand@) == (ady as int) * (ady as int) + (adx as int)
                        * (adx as int) + (adz as int) * (adz as int));
                }
                let r2 = (radius as u128) * (radius as u128);
                let sy = ady * ady;
                if sy > r2 {
                    return false;
                }
                let rem = r2 - sy;
                let sx = adx * adx;
                if sx > rem {
                    return false;
                }
                let rem2 = rem - sx;
                let sz = adz * adz;
                sz <= rem2
            },
        }
    }
}


/// Squared distance is a sum of squares, hence nonnegative.
proof fn lemma_dist2_nonneg(a: (int, int, int), b: (int, int, int))
    ensures
        0 <= dist2(a, b),
{
    assert(0 <= (a.0 - b.0) * (a.0 - b.0) + (a.1 - b.1) * (a.1 - b.1) + (a.2 - b.2) * (a.2
        - b.2)) by (nonlinear_arith);
}

/// One axis of a within-distance coordinate stays within the radius.
proof fn lemma_axis_bound(delta: int, rest: int, r: int)
    requires
        0 <= rest,
        delta * delta + rest <= r * r,
        0 <= r,
    ensures
        -r <= delta <= r,
{
    assert(-r <= delta <= r) by (nonlinear_arith)
        requires
            0 <= rest && delta * delta + rest <= r * r && 0 <= r,
    ;
}

/// Concatenation holds an element exactly when one of its parts does.
proof fn lemma_add_contains<A>(a: Seq<A>, b: Seq<A>, x: A)
    ensures
        (a + b).contains(x) <==> a.contains(x) || b.contains(x),
{
    if a.contains(x) {
        let i = choose|i: int| 0 <= i < a.len() && a[i] == x;
        assert((a + b)[i] == x);
    }
    if b.contains(x) {
        let i = choose|i: int| 0 <= i < b.len() && b[i] == x;
        assert((a + b)[a.len() + i] == x);
    }
    if (a + b).contains(x) {
        let i = choose|i: int| 0 <= i < (a + b).len() && (a + b)[i] == x;
        if i < a.len() {
            assert(a[i] == x);
        } else {
            assert(b[i - a.len()] == x);
        }
    }
}

/// Every box position yields a coordinate inside the box, and its rank is
/// that position.
proof fn lemma_cube_at_in_cube(side: int, center: (int, int, int), k: int)
    requires
        1 <= side,
        0 <= k < volume_of(side),
    ensures
        in_cube(side, center, cube_at(side, center, k)),
        cube_rank(side, center, cube_at(side, center, k)) == k,
{
    lemma_rank3_encode(side, k);
    assert(cube_lo(side) + cube_hi(side) == side - 1);
}

/// Every box coordinate sits at its rank: the rank is a valid position and
/// decodes back to the coordinate.
proof fn lemma_in_cube_at_rank(side: int, center: (int, int, int), c: (int, int, int))
    requires
        in_cube(side, center, c),
    ensures
        0 <= cube_rank(side, center, c) < volume_of(side),
        cube_at(side, center, cube_rank(side, center, c)) == c,
{
    let iy = c.0 - center.0 + cube_lo(side);
    let ix = c.1 - center.1 + cube_lo(side);
    let iz = c.2 - center.2 + cube_lo(side);
    assert(cube_lo(side) + cube_hi(side) == side - 1);
    lemma_rank3_decode(side, iy, ix, iz);
}

/// Every element of a scanned layer part lies at squared distance `d2`, at a
/// rank below the scan bound, and the ranks ascend strictly.
proof fn lemma_layer_elems(radius: int, center: (int, int, int), d2: int, k: int)
    requires
        0 <= radius,
        k <= volume_of(2 * radius + 1),
    ensures
        forall|i: int|
            0 <= i < sphere_layer_upto(radius, center, d2, k).len() ==> dist2(
                center,
                #[trigger] sphere_layer_upto(radius, center, d2, k)[i],
            ) == d2,
        forall|i: int|
            0 <= i < sphere_layer_upto(radius, center, d2, k).len() ==> in_cube(
                2 * radius + 1,
                center,
                #[trigger] sphere_layer_upto(radius, center, d2, k)[i],
            ) && cube_rank(2 * radius + 1, center, sphere_layer_upto(radius, center, d2, k)[i]) < k,
        forall|i: int, j: int|
            0 <= i < j < sphere_layer_upto(radius, center, d2, k).len() ==> cube_rank(
                2 * radius + 1,
                center,
                #[trigger] sphere_layer_upto(radius, center, d2, k)[i],
            ) < cube_rank(
                2 * radius + 1,
                center,
                #[trigger] sphere_layer_upto(radius, center, d2, k)[j],
            ),
    decreases k,
{
    if k <= 0 {
    } else {
        lemma_layer_elems(radius, center, d2, k - 1);
        let prev = sphere_layer_upto(radius, center, d2, k - 1);
        let cur = sphere_layer_upto(radius, center, d2, k);
        let e = cube_at(2 * radius + 1, center, k - 1);
        lemma_cube_at_in_cube(2 * radius + 1, center, k - 1);
        if dist2(center, e) == d2 {
            assert(cur == prev.push(e));
            assert(forall|i: int| 0 <= i < prev.len() ==> cur[i] == #[trigger] prev[i]);
            assert(cur[prev.len() as int] == e);
        } else {
            assert(cur == prev);
        }
    }
}

/// A coordinate appears in a scanned layer part exactly when it lies in the
/// candidate box at a rank below the scan bound, at squared distance `d2`.
proof fn lemma_layer_contains(
    radius: int,
    center: (int, int, int),
    d2: int,
    k: int,
    cand: (int, int, int),
)
    requires
        0 <= radius,
        k <= volume_of(2 * radius + 1),
    ensures
        sphere_layer_upto(radius, center, d2, k).contains(cand) <==> (dist2(center, cand) == d2
            && in_cube(2 * radius + 1, center, cand) && cube_rank(2 * radius + 1, center, cand)
            < k),
    decreases k,
{
    let side = 2 * radius + 1;
    if k <= 0 {
        assert(!sphere_layer_upto(radius, center, d2, k).contains(cand));
        if in_cube(side, center, cand) {
            lemma_in_cube_at_rank(side, center, cand);
        }
    } else {
        lemma_layer_contains(radius, center, d2, k - 1, cand);
        let prev = sphere_layer_upto(radius, center, d2, k - 1);
        let cur = sphere_layer_upto(radius, center, d2, k);
        let e = cube_at(side, center, k - 1);
        lemma_cube_at_in_cube(side, center, k - 1);
        if dist2(center, e) == d2 {
            assert(cur == prev.push(e));
            assert(cur.contains(cand) <==> prev.contains(cand) || cand == e) by {
                lemma_add_contains(prev, seq![e], cand);
                assert(prev.push(e) =~= prev + seq![e]);
                assert(seq![e].contains(cand) <==> cand == e) by {
                    if cand == e {
                        assert(seq![e][0] == cand);
                    }
                }
            }
            if cand == e {
                assert(cube_rank(side, center, cand) == k - 1);
            } else if in_cube(side, center, cand) && cube_rank(side, center, cand) == k - 1 {
                lemma_in_cube_at_rank(side, center, cand);
                assert(cand == e);
            }
        } else {
            assert(cur == prev);
            if in_cube(side, center, cand) && dist2(center, cand) == d2 && cube_rank(
                side,
                center,
                cand,
            ) == k - 1 {
                lemma_in_cube_at_rank(side, center, cand);
                assert(cand == e);
                assert(false);
            }
        }
    }
}

/// Every element enumerated for distance bound `d2` lies in the candidate
/// box within that squared distance, and no element repeats.
proof fn lemma_sphere_upto_elems(radius: int, center: (int, int, int), d2: int)
    requires
        0 <= radius,
    ensures
        forall|i: int|
            0 <= i < sphere_upto(radius, center, d2).len() ==> dist2(
                center,
                #[trigger] sphere_upto(radius, center, d2)[i],
            ) <= d2 && in_cube(2 * radius + 1, center, sphere_upto(radius, center, d2)[i]),
        forall|i: int, j: int|
            0 <= i < j < sphere_upto(radius, center, d2).len() ==> #[trigger] sphere_upto(
                radius,
                center,
                d2,
            )[i] != #[trigger] sphere_upto(radius, center, d2)[j],
    decreases d2 + 1,
{
    if d2 < 0 {
    } else {
        lemma_sphere_upto_elems(radius, center, d2 - 1);
        let side = 2 * radius + 1;
        let vol = volume_of(side);
        let prev = sphere_upto(radius, center, d2 - 1);
        let layer = sphere_layer_upto(radius, center, d2, vol);
        let cur = sphere_upto(radius, center, d2);
        assert(cur == prev + layer);
        lemma_layer_elems(radius, center, d2, vol);
        assert(forall|i: int| 0 <= i < prev.len() ==> cur[i] == #[trigger] prev[i]);
        assert(forall|i: int|
            prev.len() <= i < cur.len() ==> #[trigger] cur[i] == layer[i - prev.len()]);
        assert forall|i: int, j: int| 0 <= i < j < cur.len() implies #[trigger] cur[i]
            != #[trigger] cur[j] by {
            if i < prev.len() && j >= prev.len() {
                assert(dist2(center, cur[i]) <= d2 - 1);
                assert(dist2(center, cur[j]) == d2);
            } else if i >= prev.len() {
                assert(cube_rank(side, center, cur[i]) < cube_rank(side, center, cur[j]));
            }
        }
    }
}

/// A coordinate appears among the elements enumerated for distance bound
/// `d2` exactly when it lies in the candidate box within that squared
/// distance.
proof fn lemma_sphere_upto_contains(
    radius: int,
    center: (int, int, int),
    d2: int,
    cand: (int, int, int),
)
    requires
        0 <= radius,
    ensures
        sphere_upto(radius, center, d2).contains(cand) <==> (dist2(center, cand) <= d2 && in_cube(
            2 * radius + 1,
            center,
            cand,
        )),
    decreases d2 + 1,
{
    lemma_dist2_nonneg(center, cand);
    if d2 < 0 {
        assert(!sphere_upto(radius, center, d2).contains(cand));
    } else {
        lemma_sphere_upto_contains(radius, center, d2 - 1, cand);
        let side = 2 * radius + 1;
        let vol = volume_of(side);
        let prev = sphere_upto(radius, center, d2 - 1);
        let layer = sphere_layer_upto(radius, center, d2, vol);
        assert(sphere_upto(radius, center, d2) == prev + layer);
        lemma_add_contains(prev, layer, cand);
        lemma_layer_contains(radius, center, d2, vol, cand);
        if in_cube(side, center, cand) {
            lemma_in_cube_at_rank(side, center, cand);
        }
    }
}

/// Law: a coordinate appears in the enumeration of [`LoadStrat::members`]
/// exactly when the strategy's membership predicate selects it: the
/// enumeration and [`LoadStrat::contains`] never drift apart.
pub proof fn lemma_members_exact(s: LoadStrat, center: (int, int, int), cand: (int, int, int))
    ensures
        members_spec(s, center).contains(cand) <==> strat_contains(s, center, cand),
{
    match s {
        LoadStrat::Cube { side } => {
            let sd = side as int;
            if sd >= 1 {
                assert(0 <= volume_of(sd)) by (nonlinear_arith)
                    requires
                        1 <= sd,
                ;
                let sq = cube_seq(sd, center);
                if sq.contains(cand) {
                    let i = choose|i: int| 0 <= i < sq.len() && sq[i] == cand;
                    lemma_cube_at_in_cube(sd, center, i);
                }
                if in_cube(sd, center, cand) {
                    lemma_in_cube_at_rank(sd, center, cand);
                    let r = cube_rank(sd, center, cand);
                    assert(sq[r] == cand);
                    assert(sq.contains(cand));
                }
            } else {
                assert(!cube_seq(sd, center).contains(cand));
            }
        },
        LoadStrat::RuggedSphere { radius } => {
            let r = radius as int;
            lemma_sphere_upto_contains(r, center, r * r, cand);
            if in_sphere(r, center, cand) {
                lemma_dist2_nonneg(center, cand);
                assert(0 <= (center.0 - cand.0) * (center.0 - cand.0)) by (nonlinear_arith);
                assert(0 <= (center.1 - cand.1) * (center.1 - cand.1)) by (nonlinear_arith);
                assert(0 <= (center.2 - cand.2) * (center.2 - cand.2)) by (nonlinear_arith);
                lemma_axis_bound(
                    center.0 - cand.0,
                    (center.1 - cand.1) * (center.1 - cand.1) + (center.2 - cand.2) * (center.2
                        - cand.2),
                    r,
                );
                lemma_axis_bound(
                    center.1 - cand.1,
                    (center.0 - cand.0) * (center.0 - cand.0) + (center.2 - cand.2) * (center.2
                        - cand.2),
                    r,
                );
                lemma_axis_bound(
                    center.2 - cand.2,
                    (center.0 - cand.0) * (center.0 - cand.0) + (center.1 - cand.1) * (center.1
                        - cand.1),
                    r,
                );
                assert(cube_lo(2 * r + 1) == r);
                assert(cube_hi(2 * r + 1) == r);
                assert(in_cube(2 * r + 1, center, cand));
            }
        },
    }
}

/// Law: the enumeration of [`LoadStrat::members`] never repeats a
/// coordinate; together with the exact contract of `members`, repeated calls
/// on the same inputs return the same duplicate-free sequence.
pub proof fn lemma_members_no_duplicates(s: LoadStrat, center: (int, int, int))
    ensures
        forall|i: int, j: int|
            0 <= i < j < members_spec(s, center).len() ==> #[trigger] members_spec(s, center)[i]
                != #[trigger] members_spec(s, center)[j],
{
    match s {
        LoadStrat::Cube { side } => {
            let sd = side as int;
            let sq = members_spec(s, center);
            if sd >= 1 {
                assert(0 <= volume_of(sd)) by (nonlinear_arith)
                    requires
                        1 <= sd,
                ;
                assert forall|i: int, j: int| 0 <= i < j < sq.len() implies #[trigger] sq[i]
                    != #[trigger] sq[j] by {
                    lemma_cube_at_in_cube(sd, center, i);
                    lemma_cube_at_in_cube(sd, center, j);
                }
            }
        },
        LoadStrat::RuggedSphere { radius } => {
            let r = radius as int;
            lemma_sphere_upto_elems(r, center, r * r);
        },
    }
}


/// The enumeration for distance bound `d2` ascends by squared distance, and
/// equally distant coordinates ascend by candidate-box position.
proof fn lemma_sphere_upto_ordered(radius: int, center: (int, int, int), d2: int)
    requires
        0 <= radius,
    ensures
        forall|i: int, j: int|
            0 <= i <= j < sphere_upto(radius, center, d2).len() ==> dist2(
                center,
                #[trigger] sphere_upto(radius, center, d2)[i],
            ) <= dist2(center, #[trigger] sphere_upto(radius, center, d2)[j]),
        forall|i: int, j: int|
            0 <= i < j < sphere_upto(radius, center, d2).len() && dist2(
                center,
                #[trigger] sphere_upto(radius, center, d2)[i],
            ) == dist2(center, #[trigger] sphere_upto(radius, center, d2)[j]) ==> cube_rank(
                2 * radius + 1,
                center,
                sphere_upto(radius, center, d2)[i],
            ) < cube_rank(2 * radius + 1, center, sphere_upto(radius, center, d2)[j]),
    decreases d2 + 1,
{
    if d2 < 0 {
    } else {
        lemma_sphere_upto_ordered(radius, center, d2 - 1);
        lemma_sphere_upto_elems(radius, center, d2 - 1);
        let side = 2 * radius + 1;
        let vol = volume_of(side);
        let prev = sphere_upto(radius, center, d2 - 1);
        let layer = sphere_layer_upto(radius, center, d2, vol);
        let cur = sphere_upto(radius, center, d2);
        assert(cur == prev + layer);
        lemma_layer_elems(radius, center, d2, vol);
        assert(forall|i: int| 0 <= i < prev.len() ==> cur[i] == #[trigger] prev[i]);
        assert(forall|i: int|
            prev.len() <= i < cur.len() ==> #[trigger] cur[i] == layer[i - prev.len()]);
        assert forall|i: int, j: int| 0 <= i <= j < cur.len() implies dist2(
            center,
            #[trigger] cur[i],
        ) <= dist2(center, #[trigger] cur[j]) by {
            if i < prev.len() && j >= prev.len() {
                assert(dist2(center, cur[i]) <= d2 - 1);
                assert(dist2(center, cur[j]) == d2);
            }
        }
        assert forall|i: int, j: int|
            0 <= i < j < cur.len() && dist2(center, #[trigger] cur[i]) == dist2(
                center,
                #[trigger] cur[j],
            ) implies cube_rank(side, center, cur[i]) < cube_rank(side, center, cur[j]) by {
            if i < prev.len() && j >= prev.len() {
                assert(dist2(center, cur[i]) <= d2 - 1);
                assert(dist2(center, cur[j]) == d2);
            } else if i >= prev.len() {
                assert(cube_rank(side, center, cur[i]) < cube_rank(side, center, cur[j]));
            }
        }
    }
}

/// Law: the sphere enumeration ascends by squared Euclidean distance from
/// the center, and coordinates at equal distance ascend by [`cube_rank`],
/// their lexicographic `(y, x, z)` position in the candidate box, so the
/// order is fully determined.
pub proof fn lemma_sphere_members_ordered(radius: usize, center: (int, int, int))
    ensures
        forall|i: int, j: int|
            0 <= i <= j < members_spec(LoadStrat::RuggedSphere { radius }, center).len() ==> dist2(
                center,
                #[trigger] members_spec(LoadStrat::RuggedSphere { radius }, center)[i],
            ) <= dist2(center, #[trigger] members_spec(LoadStrat::RuggedSphere { radius }, center)[j]),
        forall|i: int, j: int|
            0 <= i < j < members_spec(LoadStrat::RuggedSphere { radius }, center).len() && dist2(
                center,
                #[trigger] members_spec(LoadStrat::RuggedSphere { radius }, center)[i],
            ) == dist2(
                center,
                #[trigger] members_spec(LoadStrat::RuggedSphere { radius }, center)[j],
            ) ==> cube_rank(
                2 * (radius as int) + 1,
                center,
                members_spec(LoadStrat::RuggedSphere { radius }, center)[i],
            ) < cube_rank(
                2 * (radius as int) + 1,
                center,
                members_spec(LoadStrat::RuggedSphere { radius }, center)[j],
            ),
{
    let r = radius as int;
    lemma_sphere_upto_ordered(r, center, r * r);
}

} // verus!
