//! Integer tables of the cube-face coordinate frames.
use vstd::prelude::*;

verus! {

/// The projection from cell-space (s, t) to face (u, v) coordinates.
#[derive(Debug, Clone, Copy, PartialEq, Eq, Structural)]
pub enum S2Projection {
    /// Linear projection.
    S2LinearProjection,
    /// Tangent projection.
    S2TanProjection,
    /// Quadratic projection, the default.
    S2QuadraticProjection,
}

impl Default for S2Projection {
    fn default() -> (r: S2Projection)
        ensures
            r == S2Projection::S2QuadraticProjection,
    {
        S2Projection::S2QuadraticProjection
    }
}

/// The face adjacent to `face` in direction `direction` (0 negative, 1
/// positive) along axis `axis` (0 for u, 1 for v, 2 for w) of its frame.
pub open spec fn uvw_face(face: int, axis: int, direction: int) -> int {
    let pair: (int, int) = if face == 0 {
        if axis == 0 { (4, 1) } else if axis == 1 { (5, 2) } else { (3, 0) }
    } else if face == 1 {
        if axis == 0 { (0, 3) } else if axis == 1 { (5, 2) } else { (4, 1) }
    } else if face == 2 {
        if axis == 0 { (0, 3) } else if axis == 1 { (1, 4) } else { (5, 2) }
    } else if face == 3 {
        if axis == 0 { (2, 5) } else if axis == 1 { (1, 4) } else { (0, 3) }
    } else if face == 4 {
        if axis == 0 { (2, 5) } else if axis == 1 { (3, 0) } else { (1, 4) }
    } else {
        if axis == 0 { (4, 1) } else if axis == 1 { (3, 0) } else { (2, 5) }
    };
    if direction == 0 {
        pair.0
    } else {
        pair.1
    }
}

/// The face that lies in `direction` (0 negative, 1 positive) along `axis`
/// (0 for u, 1 for v, 2 for w) of `face`'s coordinate frame.
pub fn get_uvw_face(face: u8, axis: usize, direction: usize) -> (r: i32)
    requires
        face < 6,
        axis < 3,
        direction < 2,
    ensures
        r == uvw_face(face as int, axis as int, direction as int),
{
    let table: [[[i32; 2]; 3]; 6] = [
        [[4, 1], [5, 2], [3, 0]],
        [[0, 3], [5, 2], [4, 1]],
        [[0, 3], [1, 4], [5, 2]],
        [[2, 5], [1, 4], [0, 3]],
        [[2, 5], [3, 0], [1, 4]],
        [[4, 1], [3, 0], [2, 5]],
    ];
    table[face as usize][axis][direction]
}

/// Exchanges the i and j bits of a quadrant number.
pub fn swap_axes(ij: usize) -> (r: usize)
    requires
        ij < 4,
    ensures
        r == 2 * (ij % 2) + ij / 2,
{
    let hi = (ij >> 1) & 1;
    let lo = (ij & 1) << 1;
    assert(hi == ij / 2 && lo == 2 * (ij % 2)) by (bit_vector)
        requires
            ij < 4,
            hi == (ij >> 1) & 1,
            lo == (ij & 1) << 1,
    ;
    hi + lo
}

/// Inverts both bits of a quadrant number.
pub fn invert_bits(ij: usize) -> (r: usize)
    requires
        ij < 4,
    ensures
        r == 3 - ij,
{
    let r = ij ^ 3;
    assert(r == 3 - ij) by (bit_vector)
        requires
            ij < 4,
            r == ij ^ 3,
    ;
    r
}

} // verus!
