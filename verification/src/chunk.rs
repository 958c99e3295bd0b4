//! Fixed-capacity cube-shaped voxel storage.
//!
//! A [`Chunk`] owns a flat run of `N` elements interpreted as a cube whose
//! side length comes from a zero-size [`Accessor`] tag, so that differently
//! sized chunks are different types. Cells are read and written by
//! `(y, x, z)` coordinates through the addressing arithmetic of
//! [`crate::addressing`], and a chunk can be relabeled under another
//! descriptor of equal volume without touching the elements.

use crate::addressing::flat_index;
use crate::addressing::lemma_addressing_bijective;
use crate::addressing::lemma_rank3_decode;
use crate::addressing::rank3;
use crate::addressing::volume_of;
use core::marker::PhantomData;
use vstd::prelude::*;

verus! {

/// Compile-time dimension descriptor: a tag type whose only content is the
/// side length of the cube it describes. The plane and volume sizes are
/// always derived from the side length, never stored on their own.
pub trait Accessor {
    /// Number of cells in a row, column or pillar of the cube.
    spec fn side_spec() -> nat;

    /// Runtime value of the side length.
    fn side_len() -> (r: usize)
        ensures
            r as nat == Self::side_spec(),
    ;
}

/// Capability set an element type must satisfy to be stored in a chunk:
/// default-constructible, copyable, printable for debugging, and safe to
/// share across threads.
pub trait Unit: 'static + core::fmt::Debug + Clone + Copy + Send + Sync + Sized {
    /// The value a freshly created chunk holds in every cell.
    spec fn default_spec() -> Self;

    /// Runtime default value.
    fn default_unit() -> (r: Self)
        ensures
            r == Self::default_spec(),
    ;
}

impl Unit for u8 {
    open spec fn default_spec() -> u8 {
        0
    }

    fn default_unit() -> (r: u8) {
        0
    }
}

impl Unit for u32 {
    open spec fn default_spec() -> u32 {
        0
    }

    fn default_unit() -> (r: u32) {
        0
    }
}

impl Unit for u64 {
    open spec fn default_spec() -> u64 {
        0
    }

    fn default_unit() -> (r: u64) {
        0
    }
}

impl Unit for usize {
    open spec fn default_spec() -> usize {
        0
    }

    fn default_unit() -> (r: usize) {
        0
    }
}

impl Unit for i32 {
    open spec fn default_spec() -> i32 {
        0
    }

    fn default_unit() -> (r: i32) {
        0
    }
}

impl Unit for i64 {
    open spec fn default_spec() -> i64 {
        0
    }

    fn default_unit() -> (r: i64) {
        0
    }
}

impl Unit for bool {
    open spec fn default_spec() -> bool {
        false
    }

    fn default_unit() -> (r: bool) {
        false
    }
}

/// An eight-per-side dimension descriptor.
#[derive(Debug)]
pub struct Data;

impl Accessor for Data {
    open spec fn side_spec() -> nat {
        8
    }

    fn side_len() -> (r: usize) {
        8
    }
}

/// A two-per-side dimension descriptor.
#[derive(Debug)]
pub struct Duo;

impl Accessor for Duo {
    open spec fn side_spec() -> nat {
        2
    }

    fn side_len() -> (r: usize) {
        2
    }
}

/// Another two-per-side dimension descriptor: a chunk can be relabeled
/// between tags of equal volume without touching its elements.
#[derive(Debug)]
pub struct DuoAlt;

impl Accessor for DuoAlt {
    open spec fn side_spec() -> nat {
        2
    }

    fn side_len() -> (r: usize) {
        2
    }
}

/// Generic chunk data: `N` elements of `T` interpreted as a cube whose side
/// length the descriptor `D` supplies. The backing length must equal the
/// descriptor's volume; constructors demand it and methods preserve it.
pub struct Chunk<D: Accessor, T: Unit, const N: usize> {
    data: Vec<T>,
    state: PhantomData<D>,
}

impl<D: Accessor, T: Unit, const N: usize> View for Chunk<D, T, N> {
    type V = Seq<T>;

    closed spec fn view(&self) -> Seq<T> {
        self.data@
    }
}

impl<D: Accessor, T: Unit, const N: usize> Chunk<D, T, N> {
    /// The backing store holds exactly `N` elements, one per cell of the
    /// descriptor's cube.
    pub open spec fn wf(self) -> bool {
        self@.len() == N && N as int == volume_of(D::side_spec() as int)
    }

    /// The element stored at coordinate `(y, x, z)`.
    pub open spec fn spec_at(self, y: int, x: int, z: int) -> T {
        self@[flat_index(y, x, z, D::side_spec() as int)]
    }

    /// Creates a chunk with every cell holding the element default.
    pub fn default() -> (r: Self)
        requires
            N as int == volume_of(D::side_spec() as int),
        ensures
            r.wf(),
            forall|i: int| 0 <= i < N ==> r@[i] == T::default_spec(),
    {
        let mut data: Vec<T> = Vec::new();
        let mut i: usize = 0;
        while i < N
            invariant
                i <= N,
                data@.len() == i as int,
                forall|j: int| 0 <= j < i ==> data@[j] == T::default_spec(),
            decreases N - i,
        {
            data.push(T::default_unit());
            i = i + 1;
        }
        Chunk { data, state: PhantomData }
    }

    /// Reads the element at `(y, x, z)`; each coordinate must be below the
    /// descriptor's side length.
    pub fn index(&self, y: usize, x: usize, z: usize) -> (r: T)
        requires
            self.wf(),
            y < D::side_spec(),
            x < D::side_spec(),
            z < D::side_spec(),
        ensures
            r == self.spec_at(y as int, x as int, z as int),
    {
        let side = D::side_len();
        proof {
            lemma_chunk_flat_fits::<D, T, N>(*self, y as int, x as int, z as int);
        }
        let flat = y * (side * side) + x + z * side;
        self.data[flat]
    }

    /// Writes `v` at `(y, x, z)`; every other cell keeps its value.
    pub fn set(&mut self, y: usize, x: usize, z: usize, v: T)
        requires
            old(self).wf(),
            y < D::side_spec(),
            x < D::side_spec(),
            z < D::side_spec(),
        ensures
            final(self).wf(),
            final(self)@ == old(self)@.update(
                flat_index(y as int, x as int, z as int, D::side_spec() as int),
                v,
            ),
    {
        let side = D::side_len();
        proof {
            lemma_chunk_flat_fits::<D, T, N>(*old(self), y as int, x as int, z as int);
        }
        let flat = y * (side * side) + x + z * side;
        self.data[flat] = v;
    }

    /// Relabels the chunk under another descriptor of equal volume without
    /// copying or reordering the elements; the original handle is consumed.
    /// Which coordinate maps to which flat slot then follows the new
    /// descriptor, so the caller must want that reinterpretation.
    pub fn new_accessor<A: Accessor>(self) -> (r: Chunk<A, T, N>)
        requires
            self.wf(),
            N as int == volume_of(A::side_spec() as int),
        ensures
            r.wf(),
            r@ == self@,
    {
        Chunk { data: self.data, state: PhantomData }
    }
}

/// The flat offset of a valid coordinate lies within the backing store, and
/// matches the addressing arithmetic step by step.
proof fn lemma_chunk_flat_fits<D: Accessor, T: Unit, const N: usize>(
    c: Chunk<D, T, N>,
    y: int,
    x: int,
    z: int,
)
    requires
        c.wf(),
        0 <= y < D::side_spec(),
        0 <= x < D::side_spec(),
        0 <= z < D::side_spec(),
    ensures
        0 <= flat_index(y, x, z, D::side_spec() as int) < N,
        y * ((D::side_spec() as int) * (D::side_spec() as int)) + x + z * (D::side_spec() as int)
            == flat_index(y, x, z, D::side_spec() as int),
        (D::side_spec() as int) * (D::side_spec() as int) <= N,
{
    let s = D::side_spec() as int;
    lemma_rank3_decode(s, y, z, x);
    assert(y * (s * s) == y * s * s) by (nonlinear_arith);
    assert(flat_index(y, x, z, s) == rank3(y, z, x, s));
    assert(s * s <= s * s * s) by (nonlinear_arith)
        requires
            1 <= s,
    ;
}

/// Law: writing a cell and then reading back the same coordinate returns the
/// written value, while reading any other valid coordinate returns the value
/// it held before the write.
pub proof fn lemma_round_trip<T>(
    s: Seq<T>,
    side: int,
    y: int,
    x: int,
    z: int,
    y2: int,
    x2: int,
    z2: int,
    v: T,
)
    requires
        0 <= y < side,
        0 <= x < side,
        0 <= z < side,
        0 <= y2 < side,
        0 <= x2 < side,
        0 <= z2 < side,
        s.len() == volume_of(side),
    ensures
        y == y2 && x == x2 && z == z2 ==> s.update(flat_index(y, x, z, side), v)[flat_index(
            y2,
            x2,
            z2,
            side,
        )] == v,
        !(y == y2 && x == x2 && z == z2) ==> s.update(flat_index(y, x, z, side), v)[flat_index(
            y2,
            x2,
            z2,
            side,
        )] == s[flat_index(y2, x2, z2, side)],
{
    lemma_addressing_bijective(side);
}

} // verus!
