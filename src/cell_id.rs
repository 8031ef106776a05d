//! Cell identifiers: a face number and a Hilbert curve position packed into
//! one 64-bit integer.
use vstd::prelude::*;
use vstd::arithmetic::div_mod::*;
use vstd::arithmetic::mul::*;
use vstd::arithmetic::power2::*;
use vstd::bits::*;
use crate::cell_arith::{
    lemma_trailing_zeros_pairs, lemma_lsb_divides_wrap, lemma_lsb_step, lemma_parts_valid,
    lemma_pow4_30, lemma_pow4_is_pow2, lemma_round_to_level, lemma_valid_parts,
    lemma_zero_pairs_divides,
};
use vstd::string::StringSliceAdditionalSpecFns;

verus! {

/// The number of bits used to encode the face of the cell.
pub const K_FACE_BITS: u8 = 3;

/// The number of faces of the cube.
pub const K_NUM_FACES: u8 = 6;

/// The deepest subdivision level.
pub const K_MAX_LEVEL: u64 = 30;

/// The number of bits used to encode the position along the Hilbert curve.
pub const K_POS_BITS: u64 = 61;

/// The number of leaf cells along one side of a face.
pub const K_MAX_SIZE: u32 = 1073741824;

/// Offset that wraps around from the end of the Hilbert curve to its start
/// (six faces shifted past the position bits).
pub const K_WRAP_OFFSET: u64 = 13835058055282163712;

/// The weight of the face number inside an id (two to the 61st).
pub const FACE_UNIT: u64 = 0x2000_0000_0000_0000;

/// Four to the power `k`.
pub open spec fn pow4(k: nat) -> nat
    decreases k,
{
    if k == 0 {
        1
    } else {
        4 * pow4((k - 1) as nat)
    }
}

/// The number of trailing two-bit groups of `n` that are all zero.
pub open spec fn zero_pairs(n: nat) -> nat
    decreases n,
{
    if n == 0 || n % 4 != 0 {
        0
    } else {
        1 + zero_pairs(n / 4)
    }
}

/// The lowest set bit of a cell at `level`.
pub open spec fn lsb_at(level: int) -> nat {
    pow4((30 - level) as nat)
}

/// A 64-bit cell identifier: 3 bits of face followed by the position of the
/// cell center along the Hilbert curve over that face.
#[derive(Debug, Clone, Copy, PartialEq, Eq, Structural, PartialOrd, Ord, Hash)]
pub struct S2CellId {
    /// The packed face and position.
    pub id: u64,
}

impl S2CellId {
    /// The face number held in the top three bits.
    pub open spec fn face_spec(self) -> int {
        (self.id / FACE_UNIT) as int
    }

    /// The lowest set bit of a valid id: the marker of its level.
    pub open spec fn lsb_spec(self) -> int {
        pow4(zero_pairs(self.id as nat)) as int
    }

    /// The level encoded by the position of the lowest set bit.
    pub open spec fn level_spec(self) -> int {
        30 - zero_pairs(self.id as nat)
    }

    /// A valid id has a face below 6 and its lowest set bit on an even
    /// position no higher than 60.
    pub open spec fn valid_spec(self) -> bool {
        &&& self.id != 0
        &&& self.face_spec() < 6
        &&& zero_pairs(self.id as nat) <= 30
        &&& (self.id as nat / pow4(zero_pairs(self.id as nat))) % 2 == 1
    }
}

impl S2CellId {
    /// The child at traversal position `position` of a valid non-leaf id.
    pub open spec fn child_spec(self, position: int) -> S2CellId {
        let nl = self.lsb_spec() / 4;
        S2CellId { id: (self.id - 3 * nl + 2 * position * nl) as u64 }
    }

    /// The ancestor whose lowest set bit is `nl`.
    pub open spec fn round_spec(self, nl: int) -> S2CellId {
        S2CellId { id: (self.id as int - (self.id as int) % (2 * nl) + nl) as u64 }
    }

    /// The parent at `level`, or the immediate parent when no level is given.
    pub open spec fn parent_spec(self, level: Option<u8>) -> S2CellId {
        match level {
            Some(l) => self.round_spec(lsb_at(l as int) as int),
            None => self.round_spec(4 * self.lsb_spec()),
        }
    }

    /// The smallest and largest leaf ids below a valid id.
    pub open spec fn range_min(self) -> int {
        self.id - (self.lsb_spec() - 1)
    }

    pub open spec fn range_max(self) -> int {
        self.id + (self.lsb_spec() - 1)
    }

    /// The next id along the Hilbert curve, wrapping from the last face back
    /// to the first.
    pub open spec fn next_spec(self) -> S2CellId {
        let n = self.id + 2 * self.lsb_spec();
        if n < K_WRAP_OFFSET {
            S2CellId { id: n as u64 }
        } else {
            S2CellId { id: (n - K_WRAP_OFFSET) as u64 }
        }
    }

    /// The previous id along the Hilbert curve, wrapping from the first face
    /// to the last.
    pub open spec fn prev_spec(self) -> S2CellId {
        if self.id >= 2 * self.lsb_spec() {
            S2CellId { id: (self.id - 2 * self.lsb_spec()) as u64 }
        } else {
            S2CellId { id: (self.id + K_WRAP_OFFSET - 2 * self.lsb_spec()) as u64 }
        }
    }

    /// Construct a cell id from the given 64-bit integer.
    pub fn new(id: u64) -> (r: S2CellId)
        ensures
            r.id == id,
    {
        S2CellId { id }
    }

    /// The empty cell id.
    pub fn none() -> (r: S2CellId)
        ensures
            r.id == 0,
    {
        S2CellId { id: 0 }
    }

    /// An invalid id larger than every valid id.
    pub fn sentinel() -> (r: S2CellId)
        ensures
            r.id == u64::MAX,
    {
        S2CellId { id: u64::MAX }
    }

    /// The cell covering the whole of cube face `face`.
    pub fn from_face(face: u8) -> (r: S2CellId)
        requires
            face < 8,
        ensures
            r.id == face * FACE_UNIT + lsb_at(0),
            face < 6 ==> r.valid_spec() && r.level_spec() == 0 && r.face_spec() == face,
    {
        proof {
            lemma_pow4_30();
            assert(lsb_at(0) == 0x1000_0000_0000_0000);
            let q = 2 * face + 1;
            assert(face * FACE_UNIT + lsb_at(0) == lsb_at(0) * q);
            if face < 6 {
                lemma_parts_valid(0, q);
                lemma_fundamental_div_mod_converse(
                    face * FACE_UNIT + lsb_at(0),
                    FACE_UNIT as int,
                    face as int,
                    lsb_at(0) as int,
                );
            }
        }
        S2CellId { id: (face as u64) * FACE_UNIT + 0x1000_0000_0000_0000 }
    }

    /// The cube face, from the top three bits.
    pub fn face(&self) -> (r: u8)
        ensures
            r == self.face_spec(),
    {
        (self.id / FACE_UNIT) as u8
    }

    /// The position of the cell center along the Hilbert curve over its face.
    pub fn pos(&self) -> (r: u64)
        ensures
            r == self.id % FACE_UNIT,
    {
        self.id % FACE_UNIT
    }

    /// Whether this is a leaf cell (level 30).
    pub fn is_leaf(&self) -> (r: bool)
        ensures
            r == (self.id % 2 == 1),
    {
        self.id % 2 == 1
    }

    /// Whether all position bits below the face are zero.
    pub fn is_face(&self) -> (r: bool)
        ensures
            r == (self.id % 0x1000_0000_0000_0000 == 0),
    {
        self.id % 0x1000_0000_0000_0000 == 0
    }

    /// The low 32 bits of the id.
    pub fn low_bits(&self) -> (r: u32)
        ensures
            r == self.id % 0x1_0000_0000,
    {
        (self.id % 0x1_0000_0000) as u32
    }

    /// The high 32 bits of the id.
    pub fn high_bits(&self) -> (r: u32)
        ensures
            r == self.id / 0x1_0000_0000,
    {
        (self.id / 0x1_0000_0000) as u32
    }

    /// The number of zero bit pairs at the bottom of the id, and four to that
    /// power.
    fn low_pair(&self) -> (r: (u8, u64))
        ensures
            r.0 == zero_pairs(self.id as nat),
            r.1 == pow4(r.0 as nat),
            r.0 <= 31,
            r.1 >= 1,
            self.id == r.1 * (self.id / r.1),
    {
        if self.id == 0 {
            return (0, 1);
        }
        let tz = self.id.trailing_zeros();
        proof {
            lemma_trailing_zeros_pairs(self.id);
        }
        let k = tz / 2;
        let shift: u64 = 2 * k as u64;
        proof {
            lemma_pow4_is_pow2(k as nat);
            lemma_pow2_strictly_increases(shift as nat, 64);
            lemma2_to64();
            lemma_u64_shl_is_mul(1, shift);
            lemma_zero_pairs_divides(self.id as nat);
        }
        (k as u8, 1u64 << shift)
    }

    /// The lowest set bit of the id (zero for the empty id).
    pub fn lsb(&self) -> (r: u64)
        ensures
            r == (if self.id == 0 {
                0
            } else if (self.id as nat / pow4(zero_pairs(self.id as nat))) % 2 == 1 {
                pow4(zero_pairs(self.id as nat)) as int
            } else {
                2 * pow4(zero_pairs(self.id as nat)) as int
            }),
            self.valid_spec() ==> r == self.lsb_spec(),
    {
        if self.id == 0 {
            return 0;
        }
        let (k, p) = self.low_pair();
        if (self.id / p) % 2 == 1 {
            p
        } else {
            proof {
                lemma_zero_pairs_divides(self.id as nat);
                let t = self.id as int / p as int;
                assert(t != 0) by {
                    lemma_mul_by_zero_is_zero(p as int);
                }
                assert(t >= 2);
                lemma_mul_inequality(2, t, p as int);
                lemma_mul_is_commutative(t, p as int);
            }
            2 * p
        }
    }

    /// The subdivision level, from the number of trailing zero bits.
    pub fn level(&self) -> (r: u8)
        requires
            self.id != 0,
            zero_pairs(self.id as nat) <= 30,
        ensures
            r == self.level_spec(),
    {
        let (k, _p) = self.low_pair();
        30 - k
    }

    /// Whether the id names a cell: a face below 6 and the lowest set bit on
    /// an even position.
    pub fn is_valid(&self) -> (r: bool)
        ensures
            r == self.valid_spec(),
    {
        if self.id == 0 {
            return false;
        }
        let (k, p) = self.low_pair();
        self.face() < K_NUM_FACES && k <= 30 && (self.id / p) % 2 == 1
    }
}


/// The lowest set bit for cells at `level`.
pub fn lsb_for_level(level: u8) -> (r: u64)
    requires
        level <= 30,
    ensures
        r == lsb_at(level as int),
{
    let shift: u64 = 2 * (K_MAX_LEVEL - level as u64);
    proof {
        lemma_pow4_is_pow2((30 - level) as nat);
        lemma_pow4_30();
        lemma_lsb_divides_wrap(level as int);
        lemma_u64_shl_is_mul(1, shift);
    }
    1u64 << shift
}

/// The number of leaf cells along one side of a cell at `level`.
pub fn size_ij(level: u8) -> (r: u32)
    requires
        level <= 30,
    ensures
        r == pow2((30 - level) as nat),
{
    let shift: u32 = 30 - level as u32;
    proof {
        lemma_pow2_strictly_increases(shift as nat, 31);
        lemma2_to64();
        lemma_u32_shl_is_mul(1, shift);
    }
    1u32 << shift
}

impl S2CellId {
    /// The number of leaf cells along one side of this cell.
    pub fn get_size_ij(&self) -> (r: u64)
        requires
            self.valid_spec(),
        ensures
            r == pow2((30 - self.level_spec()) as nat),
    {
        proof {
            lemma_valid_parts(*self);
        }
        let shift: u64 = K_MAX_LEVEL - self.level() as u64;
        proof {
            lemma_pow2_strictly_increases(shift as nat, 31);
            lemma2_to64();
            lemma_u64_shl_is_mul(1, shift);
        }
        1u64 << shift
    }

    /// The child at traversal position `position` (0 to 3).
    pub fn child(&self, position: u8) -> (r: S2CellId)
        requires
            self.valid_spec(),
            self.level_spec() < 30,
            position < 4,
        ensures
            r == self.child_spec(position as int),
            r.valid_spec(),
            r.level_spec() == self.level_spec() + 1,
            r.lsb_spec() == self.lsb_spec() / 4,
    {
        proof {
            lemma_child(*self, position as int);
            lemma_valid_parts(*self);
            lemma_lsb_step(self.level_spec());
            assert(2 * position * (self.lsb_spec() / 4) <= 6 * (self.lsb_spec() / 4))
                by (nonlinear_arith)
                requires
                    position < 4,
                    self.lsb_spec() >= 4,
            ;
        }
        let new_lsb = self.lsb() / 4;
        S2CellId { id: self.id - 3 * new_lsb + 2 * (position as u64) * new_lsb }
    }

    /// The ancestor at `level`, or the immediate parent when no level is
    /// given.
    pub fn parent(&self, level: Option<u8>) -> (r: S2CellId)
        requires
            self.valid_spec(),
            level matches Some(l) ==> l <= 30,
        ensures
            r == self.parent_spec(level),
            forall|l: u8|
                level == Some(l) && l <= self.level_spec() ==> r.valid_spec() && r.level_spec()
                    == l,
            level is None && self.level_spec() > 0 ==> r.valid_spec() && r.level_spec()
                == self.level_spec() - 1,
    {
        proof {
            lemma_valid_parts(*self);
        }
        let new_lsb: u64 = match level {
            Some(l) => lsb_for_level(l),
            None => self.lsb() * 4,
        };
        proof {
            if let Some(l) = level {
                lemma_lsb_divides_wrap(l as int);
            }
            assert(1 <= new_lsb <= 0x4000_0000_0000_0000);
            let target: int = match level {
                Some(l) => l as int,
                None => self.level_spec() - 1,
            };
            if level is None && self.level_spec() > 0 {
                lemma_lsb_step(self.level_spec() - 1);
            }
            if (level matches Some(l) && l <= self.level_spec()) || (level is None
                && self.level_spec() > 0) {
                lemma_round_to_level(self.id as int, target);
                let t = self.id as int / (2 * new_lsb as int);
                lemma_parts_valid(target, 2 * t + 1);
            }
            lemma_mod_bound(self.id as int, 2 * new_lsb as int);
            lemma_mod_decreases(self.id as nat, 2 * new_lsb as nat);
        }
        S2CellId { id: self.id - self.id % (2 * new_lsb) + new_lsb }
    }

    /// The smallest and largest leaf ids below this cell.
    pub fn range(&self) -> (r: (S2CellId, S2CellId))
        requires
            self.valid_spec(),
        ensures
            r.0.id == self.range_min(),
            r.1.id == self.range_max(),
    {
        proof {
            lemma_valid_parts(*self);
        }
        let lsb = self.lsb();
        (S2CellId { id: self.id - (lsb - 1) }, S2CellId { id: self.id + (lsb - 1) })
    }

    /// Whether `other` lies within this cell's leaf range.
    pub fn contains(&self, other: S2CellId) -> (r: bool)
        requires
            self.valid_spec(),
        ensures
            r == (self.range_min() <= other.id <= self.range_max()),
    {
        let (min, max) = self.range();
        other.id >= min.id && other.id <= max.id
    }

    /// Whether the leaf ranges of the two cells overlap.
    pub fn intersects(&self, other: S2CellId) -> (r: bool)
        requires
            self.valid_spec(),
            other.valid_spec(),
        ensures
            r == (other.range_min() <= self.range_max() && other.range_max()
                >= self.range_min()),
    {
        let (min_self, max_self) = self.range();
        let (min_other, max_other) = other.range();
        min_other.id <= max_self.id && max_other.id >= min_self.id
    }

    /// The next cell at the same level along the Hilbert curve.
    pub fn next(&self) -> (r: S2CellId)
        requires
            self.valid_spec(),
        ensures
            r == self.next_spec(),
    {
        proof {
            lemma_valid_parts(*self);
        }
        let next = self.id + (self.lsb() * 2);
        if next < K_WRAP_OFFSET {
            S2CellId { id: next }
        } else {
            S2CellId { id: next - K_WRAP_OFFSET }
        }
    }

    /// The previous cell at the same level along the Hilbert curve.
    pub fn prev(&self) -> (r: S2CellId)
        requires
            self.valid_spec(),
        ensures
            r == self.prev_spec(),
    {
        proof {
            lemma_valid_parts(*self);
        }
        let step = self.lsb() * 2;
        if self.id >= step {
            S2CellId { id: self.id - step }
        } else {
            S2CellId { id: self.id + K_WRAP_OFFSET - step }
        }
    }

    /// The position (0 to 3) of this cell's ancestor at `level` within its
    /// parent.
    pub fn child_position(&self, level: u8) -> (r: u8)
        requires
            self.valid_spec(),
            level <= self.level_spec(),
        ensures
            r == (self.id as int / (2 * lsb_at(level as int) as int)) % 4,
    {
        proof {
            lemma_valid_parts(*self);
        }
        let lsb = lsb_for_level(level);
        proof {
            lemma_lsb_divides_wrap(level as int);
        }
        ((self.id / (2 * lsb)) % 4) as u8
    }

    /// The id at Hilbert position `distance` among the cells of `level`
    /// (the deepest level when none is given).
    pub fn from_distance(distance: u64, level: Option<u8>) -> (r: S2CellId)
        requires
            level matches Some(l) ==> l <= 30,
        ensures
            ({
                let lsb = lsb_at(
                    match level {
                        Some(l) => l as int,
                        None => 30,
                    },
                ) as int;
                r.id == (distance * (2 * lsb)) % 0x1_0000_0000_0000_0000 + lsb
            }),
    {
        let lv: u8 = match level {
            Some(l) => l,
            None => 30,
        };
        let lsb = lsb_for_level(lv);
        proof {
            lemma_lsb_divides_wrap(lv as int);
            let a = 2 * lsb as int;
            let k = 8 * pow4(lv as nat) as int;
            let b = pow4(lv as nat) as int;
            assert(a * k == 16 * (lsb * b)) by (nonlinear_arith)
                requires
                    a == 2 * lsb,
                    k == 8 * b,
            ;
            let x = distance * a;
            let v = x % (a * k);
            lemma_mod_mod(x, a, k);
            lemma_mod_multiples_basic(distance as int, a);
            lemma_fundamental_div_mod(v, a);
            lemma_mod_pos_bound(x, a * k);
            let t = v / a;
            lemma_mul_is_commutative(a, t);
            lemma_mul_is_commutative(a, k);
            lemma_mul_strict_inequality_converse(t, k, a);
            lemma_mul_inequality(t + 1, k, a);
            lemma_mul_is_distributive_add_other_way(a, t, 1);
        }
        S2CellId { id: distance.wrapping_mul(2 * lsb) + lsb }
    }

    /// The four children in the order 0, 3, 2, 1; when `orientation` is
    /// `Some(0)` the second and fourth are exchanged.
    pub fn children(&self, orientation: Option<u8>) -> (r: [S2CellId; 4])
        requires
            self.valid_spec(),
            self.level_spec() < 30,
        ensures
            r@[0] == self.child_spec(0),
            r@[2] == self.child_spec(2),
            orientation == Some(0u8) ==> r@[1] == self.child_spec(1) && r@[3] == self.child_spec(3),
            orientation != Some(0u8) ==> r@[1] == self.child_spec(3) && r@[3] == self.child_spec(1),
    {
        let c0 = self.child(0);
        let c1 = self.child(1);
        let c2 = self.child(2);
        let c3 = self.child(3);
        match orientation {
            Some(o) if o == 0 => [c0, c1, c2, c3],
            _ => [c0, c3, c2, c1],
        }
    }
}


/// A child of a valid non-leaf cell is valid, one level deeper, with a
/// lowest bit a quarter of its parent's.
pub proof fn lemma_child(c: S2CellId, pos: int)
    requires
        c.valid_spec(),
        c.level_spec() < 30,
        0 <= pos < 4,
    ensures
        c.child_spec(pos).valid_spec(),
        c.child_spec(pos).level_spec() == c.level_spec() + 1,
        c.child_spec(pos).lsb_spec() == c.lsb_spec() / 4,
        c.child_spec(pos).id == c.id - 3 * (c.lsb_spec() / 4) + 2 * pos * (c.lsb_spec() / 4),
{
        lemma_valid_parts(c);
        lemma_lsb_step(c.level_spec());
        let nl = lsb_at(c.level_spec() + 1) as int;
        let q = c.id as int / c.lsb_spec();
        let q2 = 4 * q - 3 + 2 * pos;
        assert(nl * q2 == c.id - 3 * nl + 2 * pos * nl) by {
            lemma_mul_is_distributive_add(nl, 4 * q, 2 * pos - 3);
            lemma_mul_is_associative(nl, 4, q);
            lemma_mul_is_commutative(nl, 4);
            lemma_mul_is_distributive_sub(nl, 2 * pos, 3);
            lemma_mul_is_associative(nl, 2, pos as int);
            lemma_mul_is_commutative(nl, 2);
            lemma_mul_is_associative(2, nl, pos as int);
            lemma_mul_is_commutative(nl, pos as int);
            lemma_mul_is_associative(2, pos as int, nl);
        }
        assert(q >= 1);
        assert(2 * pos * nl <= 6 * nl) by (nonlinear_arith)
            requires
                pos < 4,
                nl >= 0,
        ;
        assert(c.lsb_spec() == 4 * nl);
        lemma_parts_valid(c.level_spec() + 1, q2);
    }

impl S2CellId {
    /// The child position of this cell's ancestor at `level`.
    pub open spec fn child_position_spec(self, level: int) -> int {
        (self.id as int / (2 * lsb_at(level) as int)) % 4
    }
}

/// Taking the parent and then the child at the recorded position gives the
/// cell back, and the parent is one level up.
pub proof fn lemma_parent_child(c: S2CellId)
    requires
        c.valid_spec(),
        c.level_spec() > 0,
    ensures
        c.parent_spec(None).valid_spec(),
        c.parent_spec(None).level_spec() == c.level_spec() - 1,
        c.parent_spec(None).child_spec(c.child_position_spec(c.level_spec())) == c,
{
    lemma_valid_parts(c);
    let l = c.level_spec();
    let lsb = c.lsb_spec();
    lemma_lsb_step(l - 1);
    lemma_round_to_level(c.id as int, l - 1);
    let t = c.id as int / (2 * (4 * lsb));
    lemma_parts_valid(l - 1, 2 * t + 1);
    let p = c.parent_spec(None);
    assert(p.lsb_spec() == 4 * lsb);
    let q = c.id as int / lsb;
    let pos = c.child_position_spec(l);
    // the id modulo eight lowest bits is the position digit followed by the marker
    lemma_truncate_middle(q, lsb, 8);
    assert(c.id as int % (8 * lsb) == lsb * (q % 8)) by {
        lemma_mul_is_commutative(lsb, 8);
    }
    assert(c.id as int / (2 * lsb) == q / 2) by {
        lemma_div_denominator(c.id as int, lsb, 2);
        lemma_mul_is_commutative(lsb, 2);
    }
    assert(q % 8 == 2 * ((q / 2) % 4) + 1) by {
        lemma_mod_breakdown(q, 2, 4);
    }
    assert(lsb * (q % 8) == 2 * pos * lsb + lsb) by (nonlinear_arith)
        requires
            q % 8 == 2 * pos + 1,
    ;
    assert(p.id == c.id - (2 * pos * lsb + lsb) + 4 * lsb);
    assert(0 <= pos < 4);
    assert(p.child_spec(pos).id == c.id);
}

/// The id of a descendant reached by following child positions `path`.
pub open spec fn descend(c: S2CellId, path: Seq<u8>) -> S2CellId
    decreases path.len(),
{
    if path.len() == 0 {
        c
    } else {
        descend(c.child_spec(path[0] as int), path.drop_first())
    }
}

/// The leaf range of a child lies within its parent's.
pub proof fn lemma_child_range(c: S2CellId, pos: int)
    requires
        c.valid_spec(),
        c.level_spec() < 30,
        0 <= pos < 4,
    ensures
        c.range_min() <= c.child_spec(pos).range_min(),
        c.child_spec(pos).range_max() <= c.range_max(),
{
    lemma_child(c, pos);
    lemma_valid_parts(c);
    lemma_lsb_step(c.level_spec());
    assert(2 * pos * (c.lsb_spec() / 4) <= 6 * (c.lsb_spec() / 4)) by (nonlinear_arith)
        requires
            pos < 4,
            c.lsb_spec() >= 4,
    ;
    assert(2 * pos * (c.lsb_spec() / 4) >= 0) by (nonlinear_arith)
        requires
            pos >= 0,
            c.lsb_spec() >= 4,
    ;
}

/// Every descendant of a cell, reached by any chain of children, is a
/// valid cell at the deeper level whose id and leaf range lie within the
/// ancestor's leaf range, so the ancestor contains it.
pub proof fn lemma_descendant_in_range(c: S2CellId, path: Seq<u8>)
    requires
        c.valid_spec(),
        c.level_spec() + path.len() <= 30,
        forall|i: int| 0 <= i < path.len() ==> path[i] < 4,
    ensures
        descend(c, path).valid_spec(),
        descend(c, path).level_spec() == c.level_spec() + path.len(),
        c.range_min() <= descend(c, path).range_min(),
        descend(c, path).range_max() <= c.range_max(),
        c.range_min() <= descend(c, path).id <= c.range_max(),
    decreases path.len(),
{
    lemma_valid_parts(c);
    if path.len() > 0 {
        let ch = c.child_spec(path[0] as int);
        lemma_child(c, path[0] as int);
        lemma_child_range(c, path[0] as int);
        let rest = path.drop_first();
        assert forall|i: int| 0 <= i < rest.len() implies rest[i] < 4 by {
            assert(rest[i] == path[i + 1]);
        }
        lemma_descendant_in_range(ch, rest);
    }
    lemma_valid_parts(descend(c, path));
}

/// Stepping forward then back along the Hilbert curve, or back then
/// forward, returns to the same cell, including across the wrap between the
/// last and first face.
pub proof fn lemma_next_prev(c: S2CellId)
    requires
        c.valid_spec(),
    ensures
        c.next_spec().valid_spec(),
        c.prev_spec().valid_spec(),
        c.next_spec().level_spec() == c.level_spec(),
        c.prev_spec().level_spec() == c.level_spec(),
        c.next_spec().prev_spec() == c,
        c.prev_spec().next_spec() == c,
{
    lemma_valid_parts(c);
    let l = c.level_spec();
    let lsb = c.lsb_spec();
    let q = c.id as int / lsb;
    lemma_lsb_divides_wrap(l);
    let m = 12 * pow4(l as nat) as int;
    assert(lsb * m == K_WRAP_OFFSET);
    assert(lsb * (q + 2) == c.id + 2 * lsb) by {
        lemma_mul_is_distributive_add(lsb, q, 2);
    }
    if c.id + 2 * lsb < K_WRAP_OFFSET {
        lemma_parts_valid(l, q + 2);
    } else {
        assert(lsb * (q + 2 - m) == c.id + 2 * lsb - K_WRAP_OFFSET) by {
            lemma_mul_is_distributive_sub(lsb, q + 2, m);
        }
        assert(q + 2 - m >= 0) by (nonlinear_arith)
            requires
                lsb * (q + 2 - m) >= 0,
                lsb > 0,
        ;
        assert((q + 2 - m) % 2 == 1) by {
            lemma_mul_is_associative(12, 4, pow4((l - 1) as nat) as int);
        }
        lemma_parts_valid(l, q + 2 - m);
    }
    if c.id >= 2 * lsb {
        assert(lsb * (q - 2) == c.id - 2 * lsb) by {
            lemma_mul_is_distributive_sub(lsb, q, 2);
        }
        assert(q - 2 >= 0) by (nonlinear_arith)
            requires
                lsb * (q - 2) >= 0,
                lsb > 0,
        ;
        lemma_parts_valid(l, q - 2);
    } else {
        assert(lsb * (q + m - 2) == c.id + K_WRAP_OFFSET - 2 * lsb) by {
            lemma_mul_is_distributive_add(lsb, q, m - 2);
            lemma_mul_is_distributive_sub(lsb, m, 2);
        }
        assert(q + m - 2 >= 0);
        lemma_parts_valid(l, q + m - 2);
    }
}


/// Following one more child position after `path` takes the child of the
/// cell reached by `path`.
pub proof fn lemma_descend_push(c: S2CellId, path: Seq<u8>, pos: u8)
    ensures
        descend(c, path.push(pos)) == descend(c, path).child_spec(pos as int),
    decreases path.len(),
{
    if path.len() == 0 {
        assert(path.push(pos).drop_first() =~= Seq::<u8>::empty());
        assert(path.push(pos)[0] == pos);
        assert(descend(c.child_spec(pos as int), Seq::<u8>::empty()) == c.child_spec(pos as int));
        assert(descend(c, path) == c);
    } else {
        assert(path.push(pos).drop_first() =~= path.drop_first().push(pos));
        assert(path.push(pos)[0] == path[0]);
        lemma_descend_push(c.child_spec(path[0] as int), path.drop_first(), pos);
    }
}

/// Whether every byte of `b` is one of the child digits `0` to `3`.
pub open spec fn all_child_digits(b: Seq<u8>) -> bool {
    forall|i: int| 0 <= i < b.len() ==> 48 <= #[trigger] b[i] <= 51
}

/// The child positions written by the digits `b`.
pub open spec fn digit_values(b: Seq<u8>) -> Seq<u8> {
    b.map_values(|x: u8| (x - 48) as u8)
}

/// The id that the text `b` of the form `f/dd..d` names, or zero when `b`
/// is not of that form: a face digit `0` to `5`, a slash, and at most 30
/// child digits `0` to `3`.
pub open spec fn parse_cell(b: Seq<u8>) -> u64 {
    if b.len() < 2 || b.len() > 32 || !(48 <= b[0] <= 53) || b[1] != 47
        || !all_child_digits(b.subrange(2, b.len() as int)) {
        0
    } else {
        descend(
            S2CellId { id: ((b[0] - 48) * FACE_UNIT + lsb_at(0)) as u64 },
            digit_values(b.subrange(2, b.len() as int)),
        ).id
    }
}

/// The text of a valid cell's child digits from level 1 to `n`.
pub open spec fn digits_text(c: S2CellId, n: nat) -> Seq<char>
    decreases n,
{
    if n == 0 {
        Seq::empty()
    } else {
        digits_text(c, (n - 1) as nat).push(((c.child_position_spec(n as int) + 48) as u8) as char)
    }
}

/// The text `f/dd..d` of a valid id, or `Invalid`.
pub open spec fn display_text(c: S2CellId) -> Seq<char> {
    if !c.valid_spec() {
        seq!['I', 'n', 'v', 'a', 'l', 'i', 'd']
    } else {
        seq![((c.face_spec() + 48) as u8) as char, '/'] + digits_text(c, c.level_spec() as nat)
    }
}

/// Relies on String::push: appends one character.
#[verifier::external_body]
fn push_char(s: &mut String, c: char)
    ensures
        final(s)@ == old(s)@.push(c),
{
    s.push(c);
}

impl S2CellId {
    /// Parses text of the form `f/dd..d`; malformed text gives the empty id.
    pub fn from_string(val: &str) -> (r: S2CellId)
        ensures
            r.id == parse_cell(val.spec_bytes()),
    {
        let b = val.as_bytes();
        let len = b.len();
        if len < 2 || len > 32 {
            return S2CellId::none();
        }
        if b[0] < 48 || b[0] > 53 || b[1] != 47 {
            return S2CellId::none();
        }
        let face: u8 = b[0] - 48;
        let start = S2CellId::from_face(face);
        let ghost digits = b@.subrange(2, len as int);
        let mut id = start;
        let mut i: usize = 2;
        while i < len
            invariant
                2 <= i <= len <= 32,
                b@ == val.spec_bytes(),
                len == b@.len(),
                digits == b@.subrange(2, len as int),
                start.valid_spec(),
                start.level_spec() == 0,
                start.id == ((b@[0] - 48) * FACE_UNIT + lsb_at(0)) as u64,
                all_child_digits(digits.subrange(0, i - 2)),
                id == descend(start, digit_values(digits.subrange(0, i - 2))),
                id.valid_spec(),
                id.level_spec() == i - 2,
            decreases len - i,
        {
            let d = b[i];
            if d < 48 || d > 51 {
                proof {
                    assert(digits[i - 2] == d);
                }
                return S2CellId::none();
            }
            proof {
                let before = digits.subrange(0, i - 2);
                assert(digits.subrange(0, i - 1) =~= before.push(d));
                assert(digit_values(digits.subrange(0, i - 1)) =~= digit_values(before).push(
                    (d - 48) as u8,
                ));
                lemma_descend_push(start, digit_values(before), (d - 48) as u8);
            }
            id = id.child(d - 48);
            i = i + 1;
        }
        proof {
            assert(digits.subrange(0, len - 2) =~= digits);
        }
        id
    }

    /// The text `f/dd..d`: the face digit, a slash and one child digit per
    /// level; `Invalid` for an invalid id.
    pub fn display_name(&self) -> (r: String)
        ensures
            r@ == display_text(*self),
    {
        if !self.is_valid() {
            let r = "Invalid".to_owned();
            proof {
                reveal_strlit("Invalid");
                assert(r@ =~= display_text(*self));
            }
            return r;
        }
        proof {
            lemma_valid_parts(*self);
        }
        let mut out = String::new();
        push_char(&mut out, (self.face() + 48) as char);
        push_char(&mut out, '/');
        let level = self.level();
        let mut cur: u8 = 1;
        while cur <= level
            invariant
                self.valid_spec(),
                level == self.level_spec(),
                1 <= cur <= level + 1,
                level <= 30,
                out@ == seq![((self.face_spec() + 48) as u8) as char, '/'] + digits_text(
                    *self,
                    (cur - 1) as nat,
                ),
            decreases level + 1 - cur,
        {
            let d = self.child_position(cur);
            push_char(&mut out, (d + 48) as char);
            proof {
                assert(out@ =~= seq![((self.face_spec() + 48) as u8) as char, '/'] + digits_text(
                    *self,
                    cur as nat,
                ));
            }
            cur = cur + 1;
        }
        out
    }

    /// The same text as [`Self::display_name`].
    pub fn to_string(&self) -> (r: String)
        ensures
            r@ == display_text(*self),
    {
        self.display_name()
    }
}


/// The child positions of a valid cell's ancestors at levels 1 to `n`.
pub open spec fn positions(c: S2CellId, n: nat) -> Seq<u8> {
    Seq::new(n, |m: int| c.child_position_spec(m + 1) as u8)
}

/// The digits of the debug text, one per level.
pub proof fn lemma_digits_text(c: S2CellId, n: nat)
    ensures
        digits_text(c, n).len() == n,
        forall|m: int|
            0 <= m < n ==> #[trigger] digits_text(c, n)[m] == ((c.child_position_spec(m + 1) + 48) as u8) as char,
    decreases n,
{
    if n > 0 {
        lemma_digits_text(c, (n - 1) as nat);
    }
}

/// Stepping from the ancestor at level `n` to its child at the recorded
/// position gives the ancestor at level `n + 1`.
pub proof fn lemma_ancestor_step(c: S2CellId, n: int)
    requires
        c.valid_spec(),
        0 <= n < c.level_spec(),
    ensures
        c.parent_spec(Some(n as u8)).child_spec(c.child_position_spec(n + 1)) == c.parent_spec(
            Some((n + 1) as u8),
        ),
{
    lemma_valid_parts(c);
    lemma_lsb_step(n);
    let nl = lsb_at(n + 1) as int;
    let id = c.id as int;
    lemma_round_to_level(id, n);
    lemma_lsb_divides_wrap(n);
    lemma_div_pos_is_pos(id, 2 * (4 * nl));
    lemma_parts_valid(n, 2 * (id / (2 * (4 * nl))) + 1);
    lemma_lsb_divides_wrap(n + 1);
    lemma_mod_breakdown(id, 2 * nl, 4);
    lemma_mod_bound(id, 2 * nl);
    lemma_mod_bound(id, 8 * nl);
    let pos = c.child_position_spec(n + 1);
    assert((2 * nl) * 4 == 8 * nl);
    assert(id % (8 * nl) == 2 * nl * pos + id % (2 * nl));
    assert(2 * nl * pos == 2 * pos * nl) by (nonlinear_arith);
}

/// Following the recorded child positions down from the face cell reaches
/// the ancestor at each level.
pub proof fn lemma_descend_positions(c: S2CellId, n: nat)
    requires
        c.valid_spec(),
        n <= c.level_spec(),
    ensures
        descend(c.parent_spec(Some(0u8)), positions(c, n)) == c.parent_spec(Some(n as u8)),
    decreases n,
{
    if n == 0 {
        assert(positions(c, 0) =~= Seq::<u8>::empty());
    } else {
        let n1 = (n - 1) as nat;
        lemma_descend_positions(c, n1);
        let d = c.child_position_spec(n as int);
        assert(0 <= d < 4);
        assert(positions(c, n) =~= positions(c, n1).push(d as u8));
        lemma_descend_push(c.parent_spec(Some(0u8)), positions(c, n1), d as u8);
        lemma_ancestor_step(c, n1 as int);
    }
}

/// The debug text of a valid cell parses back to the same cell.
pub proof fn lemma_display_parse(c: S2CellId)
    requires
        c.valid_spec(),
    ensures
        parse_cell(vstd::utf8::encode_utf8(display_text(c))) == c.id,
{
    lemma_valid_parts(c);
    let l = c.level_spec() as nat;
    let t = display_text(c);
    lemma_digits_text(c, l);
    let head = seq![((c.face_spec() + 48) as u8) as char, '/'];
    assert(t == head + digits_text(c, l));
    assert forall|i: int| 0 <= i < t.len() implies '\0' <= #[trigger] t[i] <= '\u{7f}' by {
        if i >= 2 {
            assert(t[i] == digits_text(c, l)[i - 2]);
            assert(0 <= c.child_position_spec(i - 1) < 4);
        }
    }
    vstd::utf8::is_ascii_chars_encode_utf8(t);
    let b = vstd::utf8::encode_utf8(t);
    assert(b.len() == 2 + l);
    assert(b[0] == t[0] as u8);
    assert(b[1] == t[1] as u8);
    let digits = b.subrange(2, b.len() as int);
    assert forall|i: int| 0 <= i < digits.len() implies digits[i] == (c.child_position_spec(i + 1)
        + 48) as u8 by {
        assert(digits[i] == b[i + 2]);
        assert(b[i + 2] == t[i + 2] as u8);
        assert(t[i + 2] == digits_text(c, l)[i]);
        assert(0 <= c.child_position_spec(i + 1) < 4);
    }
    assert(all_child_digits(digits)) by {
        assert forall|i: int| 0 <= i < digits.len() implies 48 <= #[trigger] digits[i] <= 51 by {
            assert(0 <= c.child_position_spec(i + 1) < 4);
        }
    }
    assert(digit_values(digits) =~= positions(c, l)) by {
        assert forall|i: int| 0 <= i < l implies #[trigger] digit_values(digits)[i] == positions(
            c,
            l,
        )[i] by {
            assert(0 <= c.child_position_spec(i + 1) < 4);
        }
    }
    lemma_pow4_30();
    assert(lsb_at(0) == 0x1000_0000_0000_0000);
    lemma_fundamental_div_mod(c.id as int, FACE_UNIT as int);
    assert(b[0] - 48 == c.face_spec());
    assert(((b[0] - 48) * FACE_UNIT + lsb_at(0)) as u64 == c.parent_spec(Some(0u8)).id);
    lemma_descend_positions(c, l);
    let lsb = c.lsb_spec();
    let q = c.id as int / lsb;
    assert(c.id == lsb * q);
    assert(q == 2 * (q / 2) + 1);
    assert(lsb * q == 2 * lsb * (q / 2) + lsb) by (nonlinear_arith)
        requires
            q == 2 * (q / 2) + 1,
    ;
    lemma_fundamental_div_mod_converse(c.id as int, 2 * lsb, q / 2, lsb);
    assert(c.parent_spec(Some(l as u8)).id == c.id);
}

/// -1, 0 or 1 as `a` is below, equal to or above `b` in Hilbert order.
pub fn compare_s2_cell_id(a: &S2CellId, b: &S2CellId) -> (r: i32)
    ensures
        r == (if a.id < b.id {
            -1
        } else if a.id == b.id {
            0
        } else {
            1
        }),
{
    if a.id < b.id {
        -1
    } else if a.id == b.id {
        0
    } else {
        1
    }
}

impl From<u64> for S2CellId {
    fn from(value: u64) -> (r: S2CellId)
        ensures
            r.id == value,
    {
        S2CellId::new(value)
    }
}

impl vstd::std_specs::convert::FromSpecImpl<u64> for S2CellId {
    open spec fn obeys_from_spec() -> bool {
        true
    }

    open spec fn from_spec(value: u64) -> S2CellId {
        S2CellId { id: value }
    }
}

impl<'a> From<&'a str> for S2CellId {
    fn from(s: &'a str) -> (r: S2CellId)
        ensures
            r.id == parse_cell(s.spec_bytes()),
    {
        S2CellId::from_string(s)
    }
}

impl<'a> vstd::std_specs::convert::FromSpecImpl<&'a str> for S2CellId {
    open spec fn obeys_from_spec() -> bool {
        true
    }

    open spec fn from_spec(s: &'a str) -> S2CellId {
        S2CellId { id: parse_cell(s.spec_bytes()) }
    }
}

impl From<String> for S2CellId {
    fn from(s: String) -> (r: S2CellId)
        ensures
            r.id == parse_cell(vstd::utf8::encode_utf8(s@)),
    {
        S2CellId::from_string(s.as_str())
    }
}

impl vstd::std_specs::convert::FromSpecImpl<String> for S2CellId {
    open spec fn obeys_from_spec() -> bool {
        true
    }

    open spec fn from_spec(s: String) -> S2CellId {
        S2CellId { id: parse_cell(vstd::utf8::encode_utf8(s@)) }
    }
}

} // verus!
