//! The Hilbert curve transform between (face, i, j) and cell ids, and the
//! proof that decoding inverts encoding.
use vstd::prelude::*;
use vstd::arithmetic::div_mod::*;
use vstd::arithmetic::mul::*;
use vstd::arithmetic::power2::*;
use vstd::bits::*;
use crate::cell_id::{FACE_UNIT, K_MAX_SIZE, S2CellId, lsb_at, pow4, size_ij};
use crate::cell_arith::{
    lemma_lsb_divides_wrap, lemma_parts_valid, lemma_pow4_30, lemma_pow4_adds, lemma_pow4_pos,
    lemma_round_to_level, lemma_valid_parts,
};

verus! {

/// The orientation bit that exchanges the i and j axes.
pub const K_SWAP_MASK: u8 = 1;

/// The orientation bit that inverts both axes.
pub const K_INVERT_MASK: u8 = 2;

/// The Hilbert curve position (0 to 3) of quadrant `ij` (i bit times two
/// plus j bit) in a cell of orientation `o`.
pub open spec fn ij_to_pos(o: int, ij: int) -> int {
    if o == 0 {
        if ij == 0 { 0 } else if ij == 1 { 1 } else if ij == 2 { 3 } else { 2 }
    } else if o == 1 {
        if ij == 0 { 0 } else if ij == 1 { 3 } else if ij == 2 { 1 } else { 2 }
    } else if o == 2 {
        if ij == 0 { 2 } else if ij == 1 { 3 } else if ij == 2 { 1 } else { 0 }
    } else {
        if ij == 0 { 2 } else if ij == 1 { 1 } else if ij == 2 { 3 } else { 0 }
    }
}

/// The quadrant (i bit times two plus j bit) visited at Hilbert position
/// `p` in a cell of orientation `o`.
pub open spec fn pos_to_ij(o: int, p: int) -> int {
    if o == 0 {
        if p == 0 { 0 } else if p == 1 { 1 } else if p == 2 { 3 } else { 2 }
    } else if o == 1 {
        if p == 0 { 0 } else if p == 1 { 2 } else if p == 2 { 3 } else { 1 }
    } else if o == 2 {
        if p == 0 { 3 } else if p == 1 { 2 } else if p == 2 { 0 } else { 1 }
    } else {
        if p == 0 { 3 } else if p == 1 { 1 } else if p == 2 { 0 } else { 2 }
    }
}

/// The change of orientation on entering the subcell at position `p`.
pub open spec fn pos_to_orient(p: int) -> int {
    if p == 0 {
        1
    } else if p == 3 {
        3
    } else {
        0
    }
}

/// Exclusive or of two orientations (two bits each).
pub open spec fn xor2(a: int, b: int) -> int {
    (a % 2 + b % 2) % 2 + 2 * ((a / 2 + b / 2) % 2)
}

/// Bit `b` of `x`.
pub open spec fn bit(x: int, b: nat) -> int {
    (x / pow2(b) as int) % 2
}

/// The Hilbert position and orientation after mapping the top `t` bits of
/// `i` and `j` (of 30), starting from orientation `o0`.
pub open spec fn encode(o0: int, i: int, j: int, t: nat) -> (int, int)
    decreases t,
{
    if t == 0 {
        (0, o0)
    } else {
        let (p, o) = encode(o0, i, j, (t - 1) as nat);
        let b = (30 - t) as nat;
        let q = ij_to_pos(o, 2 * bit(i, b) + bit(j, b));
        (4 * p + q, xor2(o, pos_to_orient(q)))
    }
}

/// The leading `t` bits of i and j and the orientation after reading the
/// top `t` base-4 digits (of 30) of the position `pos`.
pub open spec fn decode(o0: int, pos: int, t: nat) -> (int, int, int)
    decreases t,
{
    if t == 0 {
        (0, 0, o0)
    } else {
        let (i, j, o) = decode(o0, pos, (t - 1) as nat);
        let q = (pos / pow4((30 - t) as nat) as int) % 4;
        let ij = pos_to_ij(o, q);
        (2 * i + ij / 2, 2 * j + ij % 2, xor2(o, pos_to_orient(q)))
    }
}

/// The leaf cell at (i, j) on `face`.
pub open spec fn leaf_from_ij(face: int, i: int, j: int) -> S2CellId {
    S2CellId { id: (face * FACE_UNIT + 2 * encode(face % 2, i, j, 30).0 + 1) as u64 }
}

/// The cell at `level` on `face` whose corner leaf is (i, j) scaled to the
/// leaf grid; with no level, the leaf itself.
pub open spec fn cell_from_ij(face: int, i: int, j: int, level: Option<u8>) -> S2CellId {
    match level {
        None => leaf_from_ij(face, i, j),
        Some(l) => leaf_from_ij(
            face,
            i * pow2((30 - l) as nat),
            j * pow2((30 - l) as nat),
        ).parent_spec(Some(l)),
    }
}

/// The 60 position bits of an id above the leaf marker bit.
pub open spec fn hilbert_pos(c: S2CellId) -> int {
    (c.id % FACE_UNIT) as int / 2
}

/// The orientation of a valid cell: the orientation reached after reading
/// all 30 digits, corrected for the marker bit pattern of its level.
pub open spec fn cell_orientation(c: S2CellId) -> int {
    let o = decode(c.face_spec() % 2, hilbert_pos(c), 30).2;
    if c.level_spec() % 2 == 0 && c.level_spec() <= 28 {
        xor2(o, 1)
    } else {
        o
    }
}

fn ij_to_pos_exec(o: u8, ij: u8) -> (r: u8)
    requires
        o < 4,
        ij < 4,
    ensures
        r == ij_to_pos(o as int, ij as int),
        r < 4,
{
    let table: [[u8; 4]; 4] = [[0, 1, 3, 2], [0, 3, 1, 2], [2, 3, 1, 0], [2, 1, 3, 0]];
    table[o as usize][ij as usize]
}

fn pos_to_ij_exec(o: u8, p: u8) -> (r: u8)
    requires
        o < 4,
        p < 4,
    ensures
        r == pos_to_ij(o as int, p as int),
        r < 4,
{
    let table: [[u8; 4]; 4] = [[0, 1, 3, 2], [0, 2, 3, 1], [3, 2, 0, 1], [3, 1, 0, 2]];
    table[o as usize][p as usize]
}

fn pos_to_orient_exec(p: u8) -> (r: u8)
    requires
        p < 4,
    ensures
        r == pos_to_orient(p as int),
        r < 4,
{
    // the last entry both swaps and inverts
    let table: [u8; 4] = [K_SWAP_MASK, 0, 0, K_SWAP_MASK + K_INVERT_MASK];
    table[p as usize]
}

fn xor_orient(a: u8, b: u8) -> (r: u8)
    requires
        a < 4,
        b < 4,
    ensures
        r == xor2(a as int, b as int),
        r < 4,
{
    assert((a ^ b) == (a % 2 + b % 2) % 2 + 2 * ((a / 2 + b / 2) % 2)) by (bit_vector)
        requires
            a < 4,
            b < 4,
    ;
    a ^ b
}


/// The leaf-grid shift of an optional level.
pub open spec fn level_shift(level: Option<u8>) -> nat {
    match level {
        Some(l) => (30 - l) as nat,
        None => 0,
    }
}

impl S2CellId {
    /// The cell on `face` at grid coordinates (i, j) of `level`, or the leaf
    /// cell at (i, j) when no level is given, found by walking the Hilbert
    /// curve one quadrant per level from the face's own orientation.
    pub fn from_face_ij(face: u8, i: u32, j: u32, level: Option<u8>) -> (r: S2CellId)
        requires
            face < 6,
            level matches Some(l) ==> l <= 30,
            i < pow2((30 - level_shift(level)) as nat),
            j < pow2((30 - level_shift(level)) as nat),
        ensures
            r == cell_from_ij(face as int, i as int, j as int, level),
            r.valid_spec(),
            r.level_spec() == 30 - level_shift(level),
    {
        let shift: u64 = match level {
            Some(l) => 30 - l as u64,
            None => 0,
        };
        proof {
            lemma_pow2_strictly_increases(shift as nat, 64);
            lemma2_to64();
            lemma_u64_shl_is_mul(1, shift);
            lemma_pow2_adds((30 - shift) as nat, shift as nat);
            lemma_pow2_pos(shift as nat);
            lemma_mul_strict_inequality(i as int, pow2((30 - shift) as nat) as int, pow2(shift as nat) as int);
            lemma_mul_strict_inequality(j as int, pow2((30 - shift) as nat) as int, pow2(shift as nat) as int);
        }
        let scale: u64 = 1u64 << shift;
        let ii: u64 = i as u64 * scale;
        let jj: u64 = j as u64 * scale;
        let mut pos: u64 = 0;
        let mut o: u8 = face % 2;
        let mut t: u8 = 0;
        let mut pw: u64 = 0x2000_0000;
        proof {
            lemma2_to64();
        }
        while t < 30
            invariant
                t <= 30,
                o < 4,
                ii < 0x4000_0000,
                jj < 0x4000_0000,
                face < 6,
                encode(face as int % 2, ii as int, jj as int, t as nat) == (pos as int, o as int),
                pos < pow4(t as nat),
                t < 30 ==> pw == pow2((29 - t) as nat),
            decreases 30 - t,
        {
            proof {
                lemma_pow2_pos((29 - t) as nat);
            }
            let ib = ((ii / pw) % 2) as u8;
            let jb = ((jj / pw) % 2) as u8;
            let q = ij_to_pos_exec(o, 2 * ib + jb);
            proof {
                assert(pow4((t + 1) as nat) == 4 * pow4(t as nat));
                lemma_pow4_adds((t + 1) as nat, (29 - t) as nat);
                lemma_pow4_pos((29 - t) as nat);
                lemma_pow4_30();
                lemma_mul_inequality(1, pow4((29 - t) as nat) as int, pow4((t + 1) as nat) as int);
            }
            pos = 4 * pos + q as u64;
            o = xor_orient(o, pos_to_orient_exec(q));
            t = t + 1;
            if t < 30 {
                proof {
                    lemma_pow2_unfold((30 - t) as nat);
                }
                pw = pw / 2;
            }
        }
        proof {
            lemma_pow4_30();
            lemma_pow4_pos(0);
            assert(lsb_at(30) == 1);
            let id = face * FACE_UNIT + 2 * pos + 1;
            assert(id % 2 == 1);
            assert(lsb_at(30) * id == id);
            lemma_parts_valid(30, id);
        }
        let leaf = S2CellId { id: (face as u64) * FACE_UNIT + 2 * pos + 1 };
        match level {
            Some(l) => leaf.parent(Some(l)),
            None => leaf,
        }
    }

    /// The face, the (i, j) of the leaf cell at or next to this cell's
    /// center (scaled down to `level` when one is given), and the Hilbert
    /// curve orientation of this cell.
    pub fn to_face_ij_orientation(&self, level: Option<u8>) -> (r: (u8, u32, u32, u8))
        requires
            self.valid_spec(),
            level matches Some(l) ==> l <= 30,
        ensures
            r.0 == self.face_spec(),
            r.1 == decode(self.face_spec() % 2, hilbert_pos(*self), 30).0 / pow2(
                level_shift(level),
            ) as int,
            r.2 == decode(self.face_spec() % 2, hilbert_pos(*self), 30).1 / pow2(
                level_shift(level),
            ) as int,
            r.3 == cell_orientation(*self),
            r.1 < K_MAX_SIZE,
            r.2 < K_MAX_SIZE,
            r.0 < 6,
    {
        proof {
            lemma_valid_parts(*self);
        }
        let face = self.face();
        let pos = (self.id % FACE_UNIT) / 2;
        let mut o: u8 = face % 2;
        let mut i: u32 = 0;
        let mut j: u32 = 0;
        let mut t: u8 = 0;
        let mut pw4: u64 = 0x0400_0000_0000_0000;
        proof {
            lemma2_to64();
            lemma_pow4_30();
            assert(pow4(30) == 4 * pow4(29));
        }
        while t < 30
            invariant
                t <= 30,
                o < 4,
                face == self.face_spec(),
                pos == hilbert_pos(*self),
                decode(face as int % 2, pos as int, t as nat) == (i as int, j as int, o as int),
                i < pow2(t as nat),
                j < pow2(t as nat),
                t < 30 ==> pw4 == pow4((29 - t) as nat),
            decreases 30 - t,
        {
            proof {
                lemma_pow4_pos((29 - t) as nat);
                lemma_pow2_unfold((t + 1) as nat);
                lemma_pow2_strictly_increases((t + 1) as nat, 32);
                lemma2_to64();
            }
            let q = ((pos / pw4) % 4) as u8;
            let ij = pos_to_ij_exec(o, q);
            i = 2 * i + (ij / 2) as u32;
            j = 2 * j + (ij % 2) as u32;
            o = xor_orient(o, pos_to_orient_exec(q));
            t = t + 1;
            if t < 30 {
                proof {
                    assert(pow4((30 - t) as nat) == 4 * pow4((29 - t) as nat));
                }
                pw4 = pw4 / 4;
            }
        }
        let lv = self.level();
        if lv % 2 == 0 && lv <= 28 {
            o = xor_orient(o, K_SWAP_MASK);
        }
        let shift: u32 = match level {
            Some(l) => 30 - l as u32,
            None => 0,
        };
        proof {
            lemma_u32_shr_is_div(i, shift);
            lemma_u32_shr_is_div(j, shift);
            lemma_pow2_pos(shift as nat);
            lemma_div_is_ordered_by_denominator(i as int, 1, pow2(shift as nat) as int);
            lemma_div_is_ordered_by_denominator(j as int, 1, pow2(shift as nat) as int);
            lemma_div_basics(i as int);
            lemma_div_basics(j as int);
            lemma2_to64();
        }
        (face, i >> shift, j >> shift, o)
    }

    /// The face and the (i, j) of this cell at `level` (its own leaf grid
    /// when no level is given).
    pub fn to_zoom_ij(&self, level: Option<u8>) -> (r: (u8, u32, u32))
        requires
            self.valid_spec(),
            level matches Some(l) ==> l <= 30,
        ensures
            r.0 == self.face_spec(),
            r.1 == decode(self.face_spec() % 2, hilbert_pos(*self), 30).0 / pow2(
                level_shift(level),
            ) as int,
            r.2 == decode(self.face_spec() % 2, hilbert_pos(*self), 30).1 / pow2(
                level_shift(level),
            ) as int,
    {
        let (face, i, j, _o) = self.to_face_ij_orientation(level);
        (face, i, j)
    }

    /// The four children at `level + 1` of the cell (i, j) at `level` on
    /// `face`, in the order (2i, 2j), (2i+1, 2j), (2i, 2j+1), (2i+1, 2j+1).
    pub fn children_ij(face: u8, level: u8, i: u32, j: u32) -> (r: [S2CellId; 4])
        requires
            face < 6,
            level < 30,
            i < pow2(level as nat),
            j < pow2(level as nat),
        ensures
            r@[0] == cell_from_ij(face as int, 2 * i, 2 * j, Some((level + 1) as u8)),
            r@[1] == cell_from_ij(face as int, 2 * i + 1, 2 * j, Some((level + 1) as u8)),
            r@[2] == cell_from_ij(face as int, 2 * i, 2 * j + 1, Some((level + 1) as u8)),
            r@[3] == cell_from_ij(face as int, 2 * i + 1, 2 * j + 1, Some((level + 1) as u8)),
    {
        proof {
            lemma_pow2_unfold((level + 1) as nat);
            lemma_pow2_strictly_increases((level + 1) as nat, 31);
            lemma2_to64();
        }
        let i = i * 2;
        let j = j * 2;
        let level = level + 1;
        [
            S2CellId::from_face_ij(face, i, j, Some(level)),
            S2CellId::from_face_ij(face, i + 1, j, Some(level)),
            S2CellId::from_face_ij(face, i, j + 1, Some(level)),
            S2CellId::from_face_ij(face, i + 1, j + 1, Some(level)),
        ]
    }
}


/// The quadrant tables invert each other and stay within two bits.
pub proof fn lemma_tables(o: int, ij: int)
    requires
        0 <= o < 4,
        0 <= ij < 4,
    ensures
        0 <= ij_to_pos(o, ij) < 4,
        pos_to_ij(o, ij_to_pos(o, ij)) == ij,
        0 <= pos_to_orient(ij) < 4,
        0 <= xor2(o, pos_to_orient(ij)) < 4,
        0 <= xor2(o, 1) < 4,
{
}

/// The encoding state stays in range: the position has `t` base-4 digits.
pub proof fn lemma_encode_range(o0: int, i: int, j: int, t: nat)
    requires
        0 <= o0 < 4,
    ensures
        0 <= encode(o0, i, j, t).0 < pow4(t),
        0 <= encode(o0, i, j, t).1 < 4,
    decreases t,
{
    if t > 0 {
        lemma_encode_range(o0, i, j, (t - 1) as nat);
        let (p, o) = encode(o0, i, j, (t - 1) as nat);
        let b = (30 - t) as nat;
        lemma_pow2_pos(b);
        let ij = 2 * bit(i, b) + bit(j, b);
        lemma_tables(o, ij);
        assert(pow4(t) == 4 * pow4((t - 1) as nat));
    }
}

/// Dropping the last `s - t` digits of the position after `s` steps gives
/// the position after `t` steps.
pub proof fn lemma_encode_prefix(o0: int, i: int, j: int, t: nat, s: nat)
    requires
        0 <= o0 < 4,
        t <= s,
    ensures
        encode(o0, i, j, s).0 / pow4((s - t) as nat) as int == encode(o0, i, j, t).0,
    decreases s,
{
    lemma_encode_range(o0, i, j, s);
    if s == t {
        assert(pow4(0) == 1);
        assert((s - t) as nat == 0);
    } else {
        lemma_encode_prefix(o0, i, j, t, (s - 1) as nat);
        lemma_encode_range(o0, i, j, (s - 1) as nat);
        let (p, o) = encode(o0, i, j, (s - 1) as nat);
        let b = (30 - s) as nat;
        lemma_pow2_pos(b);
        lemma_tables(o, 2 * bit(i, b) + bit(j, b));
        let e = encode(o0, i, j, s).0;
        let k = (s - 1 - t) as nat;
        assert(pow4((s - t) as nat) == 4 * pow4(k));
        lemma_pow4_pos(k);
        lemma_div_denominator(e, 4, pow4(k) as int);
        assert(e / 4 == p) by {
            lemma_fundamental_div_mod_converse(e, 4, p, e - 4 * p);
        }
        assert(e / (4 * pow4(k)) as int == p / pow4(k) as int);
        assert(((s - 1) - t) as nat == k);
    }
}

/// Halving after taking the top bits: the leading `b + 1` bits doubled
/// plus bit `b` are the leading `b` bits.
pub proof fn lemma_bit_step(x: int, b: nat)
    requires
        x >= 0,
    ensures
        2 * (x / pow2(b + 1) as int) + bit(x, b) == x / pow2(b) as int,
        0 <= bit(x, b) < 2,
{
    lemma_pow2_pos(b);
    lemma_pow2_unfold(b + 1);
    lemma_div_denominator(x, pow2(b) as int, 2);
    lemma_mul_is_commutative(pow2(b) as int, 2);
    lemma_fundamental_div_mod(x / pow2(b) as int, 2);
}

/// Reading back any position that shares the top `t` digits of an
/// encoding recovers the top `t` bits of i and j and the orientation the
/// encoding reached.
pub proof fn lemma_decode_encoded(o0: int, i: int, j: int, t: nat, pos: int)
    requires
        0 <= o0 < 4,
        0 <= i < pow2(30),
        0 <= j < pow2(30),
        t <= 30,
        pos >= 0,
        pos / pow4((30 - t) as nat) as int == encode(o0, i, j, t).0,
    ensures
        decode(o0, pos, t) == (
            i / pow2((30 - t) as nat) as int,
            j / pow2((30 - t) as nat) as int,
            encode(o0, i, j, t).1,
        ),
    decreases t,
{
    if t == 0 {
        lemma_basic_div(i, pow2(30) as int);
        lemma_basic_div(j, pow2(30) as int);
    } else {
        let k = (30 - t) as nat;
        lemma_pow4_pos(k);
        lemma_encode_range(o0, i, j, (t - 1) as nat);
        let (p, o) = encode(o0, i, j, (t - 1) as nat);
        lemma_tables(o, 2 * bit(i, k) + bit(j, k));
        let e = encode(o0, i, j, t).0;
        assert(pow4(k + 1) == 4 * pow4(k));
        lemma_div_denominator(pos, pow4(k) as int, 4);
        lemma_mul_is_commutative(pow4(k) as int, 4);
        assert(e / 4 == p && e % 4 == ij_to_pos(o, 2 * bit(i, k) + bit(j, k))) by {
            lemma_fundamental_div_mod_converse(e, 4, p, e - 4 * p);
        }
        assert((30 - (t - 1)) as nat == k + 1);
        lemma_decode_encoded(o0, i, j, (t - 1) as nat, pos);
        lemma_bit_step(i, k);
        lemma_bit_step(j, k);
    }
}


/// Decoding the leaf cell built from (face, i, j) gives back the face,
/// (i, j) and the orientation that the encoding reached.
pub proof fn lemma_leaf_round_trip(face: int, i: int, j: int)
    requires
        0 <= face < 6,
        0 <= i < pow2(30),
        0 <= j < pow2(30),
    ensures
        ({
            let c = cell_from_ij(face, i, j, None);
            &&& c.valid_spec()
            &&& c.face_spec() == face
            &&& decode(face % 2, hilbert_pos(c), 30).0 / pow2(level_shift(None)) as int == i
            &&& decode(face % 2, hilbert_pos(c), 30).1 / pow2(level_shift(None)) as int == j
            &&& cell_orientation(c) == encode(face % 2, i, j, 30).1
        }),
{
    let c = cell_from_ij(face, i, j, None);
    let o0 = face % 2;
    lemma_encode_range(o0, i, j, 30);
    lemma_pow4_30();
    let p = encode(o0, i, j, 30).0;
    let id = face * FACE_UNIT + 2 * p + 1;
    assert(c.id == id);
    assert(lsb_at(30) == 1) by {
        assert(pow4(0) == 1);
    }
    assert(lsb_at(30) * id == id);
    lemma_parts_valid(30, id);
    lemma_fundamental_div_mod_converse(id, FACE_UNIT as int, face, 2 * p + 1);
    assert(hilbert_pos(c) == p);
    assert(pow4(0) == 1);
    assert(p / pow4(0) as int == p);
    lemma_decode_encoded(o0, i, j, 30, p);
    assert(pow2(0) == 1) by {
        lemma2_to64();
    }
    assert(decode(o0, p, 30).0 == i / pow2((30 - 30) as nat) as int);
    lemma_div_basics(i);
    lemma_div_basics(j);
    assert(i / pow2(0) as int == i);
    assert(level_shift(None) == 0);
    assert(c.valid_spec());
    assert(c.face_spec() == face);
    assert(decode(face % 2, hilbert_pos(c), 30).0 == i);
    assert(decode(face % 2, hilbert_pos(c), 30).0 / pow2(level_shift(None)) as int == i);
    assert(c.level_spec() == 30);
    assert(cell_orientation(c) == encode(face % 2, i, j, 30).1);
}

/// Exclusive or with one bit, on two-bit orientations.
pub proof fn lemma_xor2_bits(o: int)
    requires
        0 <= o < 4,
    ensures
        xor2(o, 0) == o,
        xor2(xor2(o, 1), 1) == o,
        0 <= xor2(o, 1) < 4,
{
}

/// The decoding state stays in range: `t` bits of i and j.
pub proof fn lemma_decode_range(o0: int, pos: int, t: nat)
    requires
        0 <= o0 < 4,
        pos >= 0,
        t <= 30,
    ensures
        0 <= decode(o0, pos, t).0 < pow2(t),
        0 <= decode(o0, pos, t).1 < pow2(t),
        0 <= decode(o0, pos, t).2 < 4,
    decreases t,
{
    if t == 0 {
        lemma2_to64();
    } else {
        lemma_decode_range(o0, pos, (t - 1) as nat);
        let (i, j, o) = decode(o0, pos, (t - 1) as nat);
        let k = (30 - t) as nat;
        lemma_pow4_pos(k);
        let q = (pos / pow4(k) as int) % 4;
        lemma_tables(o, q);
        assert(0 <= pos_to_ij(o, q) < 4);
        lemma_pow2_unfold(t);
    }
}

/// Dropping the last `s - t` bits of the coordinates decoded after `s`
/// digits gives those decoded after `t` digits.
pub proof fn lemma_decode_prefix(o0: int, pos: int, t: nat, s: nat)
    requires
        0 <= o0 < 4,
        pos >= 0,
        t <= s <= 30,
    ensures
        decode(o0, pos, s).0 / pow2((s - t) as nat) as int == decode(o0, pos, t).0,
        decode(o0, pos, s).1 / pow2((s - t) as nat) as int == decode(o0, pos, t).1,
    decreases s,
{
    lemma_decode_range(o0, pos, s);
    if s == t {
        lemma2_to64();
        assert((s - t) as nat == 0);
        lemma_div_basics(decode(o0, pos, s).0);
        lemma_div_basics(decode(o0, pos, s).1);
    } else {
        lemma_decode_prefix(o0, pos, t, (s - 1) as nat);
        lemma_decode_range(o0, pos, (s - 1) as nat);
        let (i, j, o) = decode(o0, pos, (s - 1) as nat);
        let k = (30 - s) as nat;
        lemma_pow4_pos(k);
        let q = (pos / pow4(k) as int) % 4;
        lemma_tables(o, q);
        let ij = pos_to_ij(o, q);
        let e = (s - 1 - t) as nat;
        lemma_pow2_unfold((s - t) as nat);
        lemma_pow2_pos(e);
        assert(((s - 1) - t) as nat == e);
        assert((s - t) as nat == e + 1);
        let a = decode(o0, pos, s).0;
        let b = decode(o0, pos, s).1;
        assert(a == 2 * i + ij / 2);
        assert(b == 2 * j + ij % 2);
        lemma_div_denominator(a, 2, pow2(e) as int);
        lemma_div_denominator(b, 2, pow2(e) as int);
        assert(a / 2 == i) by {
            lemma_fundamental_div_mod_converse(a, 2, i, ij / 2);
        }
        assert(b / 2 == j) by {
            lemma_fundamental_div_mod_converse(b, 2, j, ij % 2);
        }
    }
}

/// Reading digits past level `l` of a position whose digits there are a
/// two followed by zeros: the orientation flips once per zero digit.
pub proof fn lemma_decode_tail(o0: int, pos: int, l: nat, a: int, t: nat)
    requires
        0 <= o0 < 4,
        l < t <= 30,
        a >= 0,
        pos == pow4((29 - l) as nat) * (4 * a + 2),
    ensures
        decode(o0, pos, t).2 == xor2(decode(o0, pos, l).2, (t - l - 1) % 2),
    decreases t,
{
    lemma_pow4_pos((29 - l) as nat);
    lemma_decode_range(o0, pos, (t - 1) as nat);
    lemma_decode_range(o0, pos, l);
    let k = (30 - t) as nat;
    lemma_pow4_pos(k);
    let m = (t - l - 1) as nat;
    lemma_pow4_adds(k, m);
    assert(k + m == (29 - l) as nat);
    lemma_pow4_pos(m);
    lemma_mul_is_associative(pow4(k) as int, pow4(m) as int, 4 * a + 2);
    lemma_div_multiples_vanish(pow4(m) * (4 * a + 2), pow4(k) as int);
    assert(pos / pow4(k) as int == pow4(m) * (4 * a + 2));
    let o = decode(o0, pos, (t - 1) as nat).2;
    let q = (pos / pow4(k) as int) % 4;
    assert(decode(o0, pos, t).2 == xor2(o, pos_to_orient(q)));
    if t == l + 1 {
        assert(m == 0);
        assert(pow4(0) == 1);
        assert(pow4(m) == 1);
        assert(pow4(m) * (4 * a + 2) == 4 * a + 2) by (nonlinear_arith)
            requires
                pow4(m) == 1,
        ;
        assert(pos / pow4(k) as int == 4 * a + 2);
        assert((4 * a + 2) % 4 == 2) by {
            lemma_fundamental_div_mod_converse(4 * a + 2, 4, a, 2);
        }
        assert(q == 2);
        assert((t - 1) as nat == l);
        lemma_xor2_bits(o);
        assert((t - l - 1) % 2 == 0);
    } else {
        lemma_decode_tail(o0, pos, l, a, (t - 1) as nat);
        let m1 = (m - 1) as nat;
        assert(pow4(m) == 4 * pow4(m1));
        lemma_mul_is_associative(4, pow4(m1) as int, 4 * a + 2);
        lemma_mod_multiples_basic(pow4(m1) * (4 * a + 2), 4);
        lemma_mul_is_commutative(4, pow4(m1) * (4 * a + 2));
        let ol = decode(o0, pos, l).2;
        assert(q == 0);
        lemma_xor2_bits(ol);
        lemma_xor2_bits(xor2(ol, 1));
        assert(o == xor2(ol, ((t - 1) - l - 1) % 2));
        if ((t - 1) - l - 1) % 2 == 0 {
            assert((t - l - 1) % 2 == 1);
            assert(o == ol);
        } else {
            assert((t - l - 1) % 2 == 0);
            assert(o == xor2(ol, 1));
        }
    }
}

/// Decoding the cell built from (face, i, j) at `level` gives back the
/// face, (i, j) at that level, and the orientation that the encoding
/// reached at that level; the cell is valid and at that level.
pub proof fn lemma_cell_round_trip(face: int, i: int, j: int, level: int)
    requires
        0 <= face < 6,
        0 <= level <= 30,
        0 <= i < pow2(level as nat),
        0 <= j < pow2(level as nat),
    ensures
        ({
            let shift = (30 - level) as nat;
            let c = cell_from_ij(face, i, j, Some(level as u8));
            let d = decode(face % 2, hilbert_pos(c), 30);
            &&& c.valid_spec()
            &&& c.level_spec() == level
            &&& c.face_spec() == face
            &&& d.0 / pow2(shift) as int == i
            &&& d.1 / pow2(shift) as int == j
            &&& cell_orientation(c) == encode(
                face % 2,
                i * pow2(shift),
                j * pow2(shift),
                level as nat,
            ).1
        }),
{
    let shift = (30 - level) as nat;
    let o0 = face % 2;
    let sc = pow2(shift) as int;
    let ii = i * sc;
    let jj = j * sc;
    lemma_pow2_pos(shift);
    lemma_pow2_adds(level as nat, shift);
    assert(level as nat + shift == 30);
    lemma_mul_strict_inequality(i, pow2(level as nat) as int, sc);
    lemma_mul_strict_inequality(j, pow2(level as nat) as int, sc);
    lemma_mul_nonnegative(i, sc);
    lemma_mul_nonnegative(j, sc);
    lemma_div_multiples_vanish(i, sc);
    lemma_div_multiples_vanish(j, sc);
    lemma_mul_is_commutative(i, sc);
    lemma_mul_is_commutative(j, sc);
    assert(ii / sc == i);
    assert(jj / sc == j);
    lemma_encode_range(o0, ii, jj, 30);
    lemma_pow4_30();
    let p = encode(o0, ii, jj, 30).0;
    let leaf = leaf_from_ij(face, ii, jj);
    let lid = face * FACE_UNIT + 2 * p + 1;
    assert(leaf.id == lid);
    let nl = lsb_at(level) as int;
    lemma_lsb_divides_wrap(level);
    let k4 = pow4(level as nat) as int;
    assert(nl * k4 == 0x1000_0000_0000_0000);
    let c = cell_from_ij(face, ii / sc, jj / sc, Some(level as u8));
    assert(c == leaf.round_spec(nl));
    // the rounded id
    let aa = p / nl;
    let r = p % nl;
    lemma_fundamental_div_mod(p, nl);
    lemma_mod_pos_bound(p, nl);
    assert(face * FACE_UNIT == 2 * nl * (face * k4)) by (nonlinear_arith)
        requires
            nl * k4 == 0x1000_0000_0000_0000,
    ;
    assert(lid == 2 * nl * (face * k4 + aa) + (2 * r + 1)) by (nonlinear_arith)
        requires
            lid == face * FACE_UNIT + 2 * p + 1,
            face * FACE_UNIT == 2 * nl * (face * k4),
            p == nl * aa + r,
    ;
    lemma_fundamental_div_mod_converse(lid, 2 * nl, face * k4 + aa, 2 * r + 1);
    let cid = face * FACE_UNIT + (2 * nl * aa + nl);
    assert(lid % (2 * nl) == 2 * r + 1);
    assert(p - r == nl * aa);
    assert(lid - (2 * r + 1) + nl == cid) by (nonlinear_arith)
        requires
            p - r == nl * aa,
            lid == face * FACE_UNIT + 2 * p + 1,
            cid == face * FACE_UNIT + (2 * nl * aa + nl),
    ;
    assert(0 <= cid < 0x1_0000_0000_0000_0000) by {
        assert(nl * aa <= p) by {
            lemma_mod_pos_bound(p, nl);
        }
    }
    assert(c.id == cid);
    // the rounded id is a valid cell at `level`
    lemma_round_to_level(lid, level);
    lemma_parts_valid(level, 2 * (lid / (2 * nl)) + 1);
    // the digits above `level` are those of the encoding
    assert(aa < k4) by {
        lemma_mul_is_commutative(nl, k4);
        lemma_multiply_divide_lt(p, nl, k4);
    }
    assert(2 * nl * aa + nl < FACE_UNIT) by (nonlinear_arith)
        requires
            aa < k4,
            nl * k4 == 0x1000_0000_0000_0000,
            nl > 0,
            aa >= 0,
    ;
    lemma_mul_nonnegative(nl, aa);
    lemma_fundamental_div_mod_converse(cid, FACE_UNIT as int, face, 2 * nl * aa + nl);
    assert(c.face_spec() == face);
    lemma_encode_prefix(o0, ii, jj, level as nat, 30);
    assert((30 - level) as nat == shift);
    assert(aa == encode(o0, ii, jj, level as nat).0);
    if shift == 0 {
        assert(pow4(0) == 1);
        assert(nl == 1);
        assert(hilbert_pos(c) == p);
        assert(p / pow4(0) as int == p);
        lemma_decode_encoded(o0, ii, jj, 30, p);
        lemma2_to64();
        lemma_decode_prefix(o0, p, 30, 30);
    } else {
        let q = pow4((shift - 1) as nat) as int;
        assert(nl == 4 * q);
        lemma_pow4_pos((shift - 1) as nat);
        let pos2 = q * (4 * aa + 2);
        assert(hilbert_pos(c) == pos2) by {
            assert(2 * nl * aa + nl == 2 * (q * (4 * aa + 2))) by (nonlinear_arith)
                requires
                    nl == 4 * q,
            ;
        }
        assert(pos2 / nl == aa) by {
            assert(pos2 == nl * aa + 2 * q) by (nonlinear_arith)
                requires
                    nl == 4 * q,
                    pos2 == q * (4 * aa + 2),
            ;
            lemma_fundamental_div_mod_converse(pos2, nl, aa, 2 * q);
        }
        lemma_mul_nonnegative(q, 4 * aa + 2);
        lemma_decode_encoded(o0, ii, jj, level as nat, pos2);
        lemma_decode_prefix(o0, pos2, level as nat, 30);
        assert((29 - level) as nat == (shift - 1) as nat);
        lemma_decode_tail(o0, pos2, level as nat, aa, 30);
        lemma_encode_range(o0, ii, jj, level as nat);
        let ol = encode(o0, ii, jj, level as nat).1;
        lemma_xor2_bits(ol);
        lemma_xor2_bits(xor2(ol, 1));
    }
}

/// The corner leaf coordinates `(i_low, j_low, i_high, j_high)` of the
/// cell at `level` that holds leaf (i, j); the high corner is exclusive.
pub open spec fn ij_bounds_spec(i: int, j: int, level: int) -> (int, int, int, int) {
    let size = pow2((30 - level) as nat) as int;
    let il = i - i % size;
    let jl = j - j % size;
    (il, jl, il + size, jl + size)
}

/// The leaf-coordinate bounds of the cell at `level` holding leaf (i, j).
pub fn ij_level_to_bound_ij(i: u32, j: u32, level: u8) -> (r: (u32, u32, u32, u32))
    requires
        i < K_MAX_SIZE,
        j < K_MAX_SIZE,
        level <= 30,
    ensures
        (r.0 as int, r.1 as int, r.2 as int, r.3 as int) == ij_bounds_spec(i as int, j as int, level as int),
        r.2 <= K_MAX_SIZE,
        r.3 <= K_MAX_SIZE,
{
    let size = size_ij(level);
    proof {
        lemma_pow2_pos((30 - level) as nat);
        lemma_pow2_adds((30 - level) as nat, level as nat);
        lemma2_to64();
        lemma_fundamental_div_mod(i as int, size as int);
        lemma_fundamental_div_mod(j as int, size as int);
        lemma_mod_bound(i as int, size as int);
        lemma_mod_bound(j as int, size as int);
        lemma_mul_is_commutative(size as int, pow2(level as nat) as int);
        // the low corner is a multiple of the size below the face size
        lemma_div_bound_mul(i as int, size as int, pow2(level as nat) as int);
        lemma_div_bound_mul(j as int, size as int, pow2(level as nat) as int);
    }
    let il = i - i % size;
    let jl = j - j % size;
    (il, jl, il + size, jl + size)
}

/// A multiple of `size` below `size * count` leaves room for one more.
proof fn lemma_div_bound_mul(x: int, size: int, count: int)
    requires
        0 <= x < size * count,
        size > 0,
    ensures
        x - x % size + size <= size * count,
{
    lemma_fundamental_div_mod(x, size);
    lemma_multiply_divide_lt(x, size, count);
    lemma_mul_inequality(x / size + 1, count, size);
    lemma_mul_is_commutative(x / size + 1, size);
    lemma_mul_is_commutative(count, size);
    lemma_mul_is_distributive_add(size, x / size, 1);
}

impl S2CellId {
    /// The face and the (si, ti) coordinates, on the grid of half leaves,
    /// of this cell's center.
    pub fn center_si_ti(&self) -> (r: (u8, u32, u32))
        requires
            self.valid_spec(),
        ensures
            ({
                let d = decode(self.face_spec() % 2, hilbert_pos(*self), 30);
                let delta: int = if self.id % 2 == 1 {
                    1
                } else if (d.0 + self.id / 4) % 2 == 1 {
                    2
                } else {
                    0
                };
                r == (self.face_spec() as u8, (2 * d.0 + delta) as u32, (2 * d.1 + delta) as u32)
            }),
    {
        let (face, i, j, _o) = self.to_face_ij_orientation(None);
        proof {
            lemma2_to64();
            lemma_div_basics(decode(self.face_spec() % 2, hilbert_pos(*self), 30).0);
            lemma_div_basics(decode(self.face_spec() % 2, hilbert_pos(*self), 30).1);
        }
        let delta: u32 = if self.id % 2 == 1 {
            1
        } else if ((i as u64) + self.id / 4) % 2 == 1 {
            2
        } else {
            0
        };
        (face, 2 * i + delta, 2 * j + delta)
    }

    /// The Hilbert position of this cell's ancestor at `level` among the
    /// cells of that level, counted over all faces.
    pub fn distance_at(&self, level: u8) -> (r: u64)
        requires
            level <= 30,
        ensures
            r == self.id as int / (2 * lsb_at(level as int) as int),
    {
        proof {
            lemma_lsb_divides_wrap(level as int);
        }
        let lsb = crate::cell_id::lsb_for_level(level);
        self.id / (2 * lsb)
    }
}

} // verus!
