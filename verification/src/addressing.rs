//! Addressing arithmetic for cube-shaped storage.
//!
//! A cube of side `s` holds `s * s * s` cells in one flat run of memory.
//! The cell at `(y, x, z)` lives at flat offset `y * s * s + x + z * s`:
//! `x + z * s` addresses one horizontal plane and `y` selects the plane.
//! This module defines that arithmetic and proves it is a bijection from
//! the coordinate triples onto `[0, s * s * s)`.

use vstd::arithmetic::div_mod::lemma_fundamental_div_mod;
use vstd::arithmetic::div_mod::lemma_fundamental_div_mod_converse;
use vstd::arithmetic::div_mod::lemma_mod_bound;
use vstd::arithmetic::div_mod::lemma_multiply_divide_lt;
use vstd::arithmetic::mul::lemma_mul_inequality;
use vstd::prelude::*;

verus! {

/// Number of cells in one horizontal plane of a cube with side `side`.
pub open spec fn plane_of(side: int) -> int {
    side * side
}

/// Number of cells in a whole cube with side `side`.
pub open spec fn volume_of(side: int) -> int {
    side * side * side
}

/// Flat offset of the cell at `(y, x, z)` in a cube with side `side`.
pub open spec fn flat_index(y: int, x: int, z: int, side: int) -> int {
    y * plane_of(side) + x + z * side
}

/// `(a, b, c)` packed in lexicographic order: `a` is most significant.
/// `flat_index` is this packing applied to `(y, z, x)`.
pub open spec fn rank3(a: int, b: int, c: int, side: int) -> int {
    a * side * side + b * side + c
}

/// The `y` coordinate of the cell at flat offset `f`.
pub open spec fn flat_y(f: int, side: int) -> int {
    f / plane_of(side)
}

/// The `z` coordinate of the cell at flat offset `f`.
pub open spec fn flat_z(f: int, side: int) -> int {
    (f % plane_of(side)) / side
}

/// The `x` coordinate of the cell at flat offset `f`.
pub open spec fn flat_x(f: int, side: int) -> int {
    (f % plane_of(side)) % side
}

/// Holds when flat offset `f` decodes to a valid coordinate triple that
/// `flat_index` maps back to `f`.
pub open spec fn decodes_to(f: int, side: int) -> bool {
    0 <= flat_y(f, side) < side && 0 <= flat_x(f, side) < side && 0 <= flat_z(f, side) < side
        && flat_index(flat_y(f, side), flat_x(f, side), flat_z(f, side), side) == f
}

/// Packing three digits below `s` yields a value below `s * s * s`, and
/// division and remainder recover each digit.
pub(crate) proof fn lemma_rank3_decode(s: int, a: int, b: int, c: int)
    requires
        1 <= s,
        0 <= a < s,
        0 <= b < s,
        0 <= c < s,
    ensures
        0 <= rank3(a, b, c, s) < s * s * s,
        rank3(a, b, c, s) / (s * s) == a,
        (rank3(a, b, c, s) % (s * s)) / s == b,
        (rank3(a, b, c, s) % (s * s)) % s == c,
{
    let r = b * s + c;
    assert(b * s <= (s - 1) * s) by {
        lemma_mul_inequality(b, s - 1, s);
    }
    assert((s - 1) * s == s * s - s) by (nonlinear_arith);
    assert(0 <= r < s * s);
    assert(a * s * s == a * (s * s)) by (nonlinear_arith);
    assert(rank3(a, b, c, s) == a * (s * s) + r);
    lemma_fundamental_div_mod_converse(a * (s * s) + r, s * s, a, r);
    lemma_fundamental_div_mod_converse(r, s, b, c);
    assert(a * (s * s) <= (s - 1) * (s * s)) by {
        lemma_mul_inequality(a, s - 1, s * s);
    }
    assert((s - 1) * (s * s) == s * s * s - s * s) by (nonlinear_arith);
}

/// Every value below `s * s * s` splits by division and remainder into
/// three digits below `s` that pack back to the value.
pub(crate) proof fn lemma_rank3_encode(s: int, k: int)
    requires
        1 <= s,
        0 <= k < s * s * s,
    ensures
        0 <= k / (s * s) < s,
        0 <= (k % (s * s)) / s < s,
        0 <= (k % (s * s)) % s < s,
        rank3(k / (s * s), (k % (s * s)) / s, (k % (s * s)) % s, s) == k,
{
    assert(0 < s * s) by (nonlinear_arith)
        requires 1 <= s;
    lemma_fundamental_div_mod(k, s * s);
    lemma_mod_bound(k, s * s);
    assert(s * s * s == (s * s) * s) by (nonlinear_arith);
    lemma_multiply_divide_lt(k, s * s, s);
    assert(0 <= k / (s * s)) by {
        vstd::arithmetic::div_mod::lemma_div_pos_is_pos(k, s * s);
    }
    let m = k % (s * s);
    lemma_fundamental_div_mod(m, s);
    lemma_mod_bound(m, s);
    lemma_multiply_divide_lt(m, s, s);
    assert(0 <= m / s) by {
        vstd::arithmetic::div_mod::lemma_div_pos_is_pos(m, s);
    }
    let a = k / (s * s);
    let b = m / s;
    let c = m % s;
    assert(a * s * s == a * (s * s)) by (nonlinear_arith);
    assert((s * s) * a == a * (s * s)) by (nonlinear_arith);
    assert(s * b == b * s) by (nonlinear_arith);
    assert(k == (s * s) * a + m);
    assert(m == s * b + c);
    assert(rank3(a, b, c, s) == a * (s * s) + (b * s + c));
}

/// The addressing function maps the `side * side * side` coordinate triples
/// one-to-one onto the flat offsets `[0, side * side * side)`: every valid
/// triple lands in range, distinct triples land on distinct offsets, and
/// every offset in range is hit by some triple.
pub proof fn lemma_addressing_bijective(side: int)
    requires
        1 <= side,
    ensures
        forall|y: int, x: int, z: int|
            0 <= y < side && 0 <= x < side && 0 <= z < side ==> 0 <= #[trigger] flat_index(
                y,
                x,
                z,
                side,
            ) < volume_of(side),
        forall|y: int, x: int, z: int, y2: int, x2: int, z2: int|
            0 <= y < side && 0 <= x < side && 0 <= z < side && 0 <= y2 < side && 0 <= x2 < side && 0
                <= z2 < side && #[trigger] flat_index(y, x, z, side) == #[trigger] flat_index(
                y2,
                x2,
                z2,
                side,
            ) ==> y == y2 && x == x2 && z == z2,
        forall|f: int| 0 <= f < volume_of(side) ==> #[trigger] decodes_to(f, side),
{
    assert forall|y: int, x: int, z: int|
        0 <= y < side && 0 <= x < side && 0 <= z < side implies 0 <= #[trigger] flat_index(
        y,
        x,
        z,
        side,
    ) < volume_of(side) by {
        lemma_rank3_decode(side, y, z, x);
        assert(y * (side * side) == y * side * side) by (nonlinear_arith);
        assert(flat_index(y, x, z, side) == rank3(y, z, x, side));
    }
    assert forall|y: int, x: int, z: int, y2: int, x2: int, z2: int|
        0 <= y < side && 0 <= x < side && 0 <= z < side && 0 <= y2 < side && 0 <= x2 < side && 0
            <= z2 < side && #[trigger] flat_index(y, x, z, side) == #[trigger] flat_index(
            y2,
            x2,
            z2,
            side,
        ) implies y == y2 && x == x2 && z == z2 by {
        lemma_rank3_decode(side, y, z, x);
        lemma_rank3_decode(side, y2, z2, x2);
        assert(y * (side * side) == y * side * side) by (nonlinear_arith);
        assert(y2 * (side * side) == y2 * side * side) by (nonlinear_arith);
        assert(flat_index(y, x, z, side) == rank3(y, z, x, side));
        assert(flat_index(y2, x2, z2, side) == rank3(y2, z2, x2, side));
    }
    assert forall|f: int| 0 <= f < volume_of(side) implies #[trigger] decodes_to(f, side) by {
        lemma_rank3_encode(side, f);
        let wy = flat_y(f, side);
        let wz = flat_z(f, side);
        let wx = flat_x(f, side);
        assert(wy * (side * side) == wy * side * side) by (nonlinear_arith);
        assert(flat_index(wy, wx, wz, side) == rank3(wy, wz, wx, side));
        assert(flat_index(wy, wx, wz, side) == f);
    }
}

} // verus!
