//! Edge and vertex neighbors of cells, stepping across face edges.
use vstd::prelude::*;
use vstd::arithmetic::div_mod::*;
use vstd::arithmetic::mul::*;
use vstd::arithmetic::power2::*;
use vstd::bits::*;
use crate::cell_id::{K_MAX_SIZE, S2CellId, size_ij};
use crate::cell_arith::lemma_valid_parts;
use crate::hilbert::{decode, hilbert_pos, leaf_from_ij};

verus! {

/// The largest leaf coordinate on a face.
pub const K_MAX_IJ: i64 = 1073741823;

/// Clamps a leaf coordinate to one step beyond either edge of the face.
pub open spec fn clamp_ij(x: int) -> int {
    if x < -1 {
        -1
    } else if x > K_MAX_SIZE {
        K_MAX_SIZE as int
    } else {
        x
    }
}

/// The face and leaf coordinates reached by stepping to a corner beyond
/// both edges of `face` (`i_hi`, `j_hi` say which edge).
pub open spec fn corner_target(face: int, i_hi: bool, j_hi: bool) -> (int, int, int) {
    let m = K_MAX_IJ as int;
    if face == 0 {
        if !i_hi { if !j_hi { (5, 0, m) } else { (2, 0, m) } } else { if !j_hi { (5, m, m) } else { (2, 0, 0) } }
    } else if face == 1 {
        if !i_hi { if !j_hi { (5, m, m) } else { (2, 0, 0) } } else { if !j_hi { (5, m, 0) } else { (2, m, 0) } }
    } else if face == 2 {
        if !i_hi { if !j_hi { (1, 0, m) } else { (4, 0, m) } } else { if !j_hi { (1, m, m) } else { (4, 0, 0) } }
    } else if face == 3 {
        if !i_hi { if !j_hi { (2, m, 0) } else { (2, m, m) } } else { if !j_hi { (5, m, 0) } else { (5, 0, 0) } }
    } else if face == 4 {
        if !i_hi { if !j_hi { (2, m, m) } else { (2, 0, m) } } else { if !j_hi { (5, 0, 0) } else { (5, 0, m) } }
    } else {
        if !i_hi { if !j_hi { (4, m, 0) } else { (4, m, m) } } else { if !j_hi { (1, m, 0) } else { (1, 0, 0) } }
    }
}

/// The face and leaf coordinates of the leaf cell at (i, j) of `face`,
/// where i and j lie in -1 to 2^30: inside the face it is the cell itself;
/// one step beyond an edge it is the leaf just across that edge on the
/// adjacent face, which is where reprojecting the point through the cube
/// lands.
pub open spec fn wrap_target(face: int, i: int, j: int) -> (int, int, int) {
    let m = K_MAX_IJ as int;
    let n = K_MAX_SIZE as int;
    let even = face % 2 == 0;
    if 0 <= i < n && 0 <= j < n {
        (face, i, j)
    } else if 0 <= j < n {
        if i < 0 {
            if even { ((face + 4) % 6, m - j, m) } else { ((face + 5) % 6, m, j) }
        } else {
            if even { ((face + 1) % 6, 0, j) } else { ((face + 2) % 6, m - j, 0) }
        }
    } else if 0 <= i < n {
        if j < 0 {
            if even { ((face + 5) % 6, i, m) } else { ((face + 4) % 6, m, m - i) }
        } else {
            if even { ((face + 2) % 6, 0, m - i) } else { ((face + 1) % 6, i, 0) }
        }
    } else {
        corner_target(face, i >= n, j >= n)
    }
}

/// The leaf cell at (i, j) of `face`, or just across the face edge when
/// (i, j) lies beyond it.
#[verifier::opaque]
pub open spec fn wrapped_leaf(face: int, i: int, j: int) -> S2CellId {
    let t = wrap_target(face, clamp_ij(i), clamp_ij(j));
    leaf_from_ij(t.0, t.1, t.2)
}

fn corner_target_exec(face: u8, i_hi: bool, j_hi: bool) -> (r: (u8, i64, i64))
    requires
        face < 6,
    ensures
        (r.0 as int, r.1 as int, r.2 as int) == corner_target(face as int, i_hi, j_hi),
{
    let m = K_MAX_IJ;
    if face == 0 {
        if !i_hi { if !j_hi { (5, 0, m) } else { (2, 0, m) } } else { if !j_hi { (5, m, m) } else { (2, 0, 0) } }
    } else if face == 1 {
        if !i_hi { if !j_hi { (5, m, m) } else { (2, 0, 0) } } else { if !j_hi { (5, m, 0) } else { (2, m, 0) } }
    } else if face == 2 {
        if !i_hi { if !j_hi { (1, 0, m) } else { (4, 0, m) } } else { if !j_hi { (1, m, m) } else { (4, 0, 0) } }
    } else if face == 3 {
        if !i_hi { if !j_hi { (2, m, 0) } else { (2, m, m) } } else { if !j_hi { (5, m, 0) } else { (5, 0, 0) } }
    } else if face == 4 {
        if !i_hi { if !j_hi { (2, m, m) } else { (2, 0, m) } } else { if !j_hi { (5, 0, 0) } else { (5, 0, m) } }
    } else {
        if !i_hi { if !j_hi { (4, m, 0) } else { (4, m, m) } } else { if !j_hi { (1, m, 0) } else { (1, 0, 0) } }
    }
}

fn wrap_target_exec(face: u8, i: i64, j: i64) -> (r: (u8, i64, i64))
    requires
        face < 6,
        -1 <= i <= K_MAX_SIZE,
        -1 <= j <= K_MAX_SIZE,
    ensures
        (r.0 as int, r.1 as int, r.2 as int) == wrap_target(face as int, i as int, j as int),
        r.0 < 6,
        0 <= r.1 <= K_MAX_IJ,
        0 <= r.2 <= K_MAX_IJ,
{
    let m = K_MAX_IJ;
    let n = K_MAX_SIZE as i64;
    let even = face % 2 == 0;
    if 0 <= i && i < n && 0 <= j && j < n {
        (face, i, j)
    } else if 0 <= j && j < n {
        if i < 0 {
            if even { ((face + 4) % 6, m - j, m) } else { ((face + 5) % 6, m, j) }
        } else {
            if even { ((face + 1) % 6, 0, j) } else { ((face + 2) % 6, m - j, 0) }
        }
    } else if 0 <= i && i < n {
        if j < 0 {
            if even { ((face + 5) % 6, i, m) } else { ((face + 4) % 6, m, m - i) }
        } else {
            if even { ((face + 2) % 6, 0, m - i) } else { ((face + 1) % 6, i, 0) }
        }
    } else {
        corner_target_exec(face, i >= n, j >= n)
    }
}

impl S2CellId {
    /// The leaf cell at (i, j) of `face`, or, when (i, j) lies beyond an
    /// edge of the face, the leaf just across that edge on the adjacent face.
    pub fn from_face_ij_wrap(face: u8, i: i32, j: i32) -> (r: S2CellId)
        requires
            face < 6,
        ensures
            r == wrapped_leaf(face as int, i as int, j as int),
            r.valid_spec(),
            r.level_spec() == 30,
    {
        proof {
            reveal(wrapped_leaf);
        }
        let n = K_MAX_SIZE as i64;
        let ci: i64 = if (i as i64) < -1 {
            -1
        } else if (i as i64) > n {
            n
        } else {
            i as i64
        };
        let cj: i64 = if (j as i64) < -1 {
            -1
        } else if (j as i64) > n {
            n
        } else {
            j as i64
        };
        let (nf, ni, nj) = wrap_target_exec(face, ci, cj);
        proof {
            lemma2_to64();
        }
        S2CellId::from_face_ij(nf, ni as u32, nj as u32, None)
    }

    /// The leaf cell at (i, j) of `face`; `same_face` says that (i, j) is
    /// known to lie on the face, otherwise it may lie just beyond an edge.
    pub fn from_ij_same(face: u8, i: i32, j: i32, same_face: bool) -> (r: S2CellId)
        requires
            face < 6,
            same_face ==> 0 <= i < K_MAX_SIZE && 0 <= j < K_MAX_SIZE,
        ensures
            r == wrapped_leaf(face as int, i as int, j as int),
            r.valid_spec(),
            r.level_spec() == 30,
    {
        if same_face {
            proof {
                lemma2_to64();
                reveal(wrapped_leaf);
            }
            S2CellId::from_face_ij(face, i as u32, j as u32, None)
        } else {
            S2CellId::from_face_ij_wrap(face, i, j)
        }
    }
}

/// The four edge neighbors at `level` of the cell whose leaf is (i, j) on
/// `face`: below, right, above and left in (i, j), each across the face
/// edge where the step leaves the face.
pub open spec fn edge_neighbors(face: int, i: int, j: int, level: int) -> Seq<S2CellId> {
    let size = pow2((30 - level) as nat) as int;
    let l = Some(level as u8);
    seq![
        wrapped_leaf(face, i, j - size).parent_spec(l),
        wrapped_leaf(face, i + size, j).parent_spec(l),
        wrapped_leaf(face, i, j + size).parent_spec(l),
        wrapped_leaf(face, i - size, j).parent_spec(l),
    ]
}

/// The cells at `level` that share the vertex of `level`'s cell closest to
/// leaf (i, j) on `face`: that cell, its neighbors across the two nearest
/// edges, and the diagonal one unless the vertex is a cube corner.
pub open spec fn vertex_neighbors_spec(face: int, i: int, j: int, parent: S2CellId, level: int) -> Seq<S2CellId> {
    let (i_new, isame) = vertex_step_spec(i, level);
    let (j_new, jsame) = vertex_step_spec(j, level);
    let l = Some(level as u8);
    let three = seq![
        parent,
        wrapped_leaf(face, i_new, j).parent_spec(l),
        wrapped_leaf(face, i, j_new).parent_spec(l),
    ];
    if isame || jsame {
        three.push(wrapped_leaf(face, i_new, j_new).parent_spec(l))
    } else {
        three
    }
}

/// The coordinate of the next cell at `level` toward the nearer edge of
/// the `level` cell holding leaf coordinate `x`, and whether it stays on
/// the face.
pub open spec fn vertex_step_spec(x: int, level: int) -> (int, bool) {
    let half = pow2((29 - level) as nat) as int;
    let size = 2 * half;
    if (x / half) % 2 == 1 {
        (x + size, x + size < K_MAX_SIZE)
    } else {
        (x - size, x - size >= 0)
    }
}

fn vertex_step(x: u32, level: u8) -> (r: (i32, bool))
    requires
        x < K_MAX_SIZE,
        level < 30,
    ensures
        (r.0 as int, r.1) == vertex_step_spec(x as int, level as int),
{
    proof {
        lemma_pow2_strictly_increases((29 - level) as nat, 30);
        lemma_pow2_pos((29 - level) as nat);
        lemma_pow2_unfold((30 - level) as nat);
        lemma2_to64();
    }
    let half = size_ij(level + 1);
    let size = (half * 2) as i32;
    let xi = x as i32;
    if (x / half) % 2 == 1 {
        (xi + size, xi + size < K_MAX_SIZE as i32)
    } else {
        (xi - size, xi - size >= 0)
    }
}

impl S2CellId {
    /// The leaf (i, j) of the leaf cell at or next to this cell's center.
    pub open spec fn center_ij(self) -> (int, int) {
        let d = decode(self.face_spec() % 2, hilbert_pos(self), 30);
        (d.0, d.1)
    }

    /// The four edge neighbors at this cell's level: below, right, above
    /// and left in (i, j).
    pub fn neighbors(&self) -> (r: [S2CellId; 4])
        requires
            self.valid_spec(),
        ensures
            r@ == edge_neighbors(
                self.face_spec(),
                self.center_ij().0,
                self.center_ij().1,
                self.level_spec(),
            ),
            forall|k: int| 0 <= k < 4 ==> #[trigger] r@[k].valid_spec() && r@[k].level_spec()
                == self.level_spec(),
    {
        proof {
            lemma_valid_parts(*self);
        }
        let level = self.level();
        let (face, i, j, _or) = self.to_face_ij_orientation(None);
        proof {
            lemma2_to64();
            assert(pow2(0) == 1);
            lemma_div_basics(self.center_ij().0);
            lemma_div_basics(self.center_ij().1);
        }
        let r = S2CellId::neighbors_ij(face, i, j, level);
        r
    }

    /// The four edge neighbors at `level` of the cell containing leaf
    /// (i, j) on `face`: below, right, above and left.
    pub fn neighbors_ij(face: u8, i: u32, j: u32, level: u8) -> (r: [S2CellId; 4])
        requires
            face < 6,
            i < K_MAX_SIZE,
            j < K_MAX_SIZE,
            level <= 30,
        ensures
            r@ == edge_neighbors(face as int, i as int, j as int, level as int),
            forall|k: int| 0 <= k < 4 ==> #[trigger] r@[k].valid_spec() && r@[k].level_spec() == level,
    {
        let size = size_ij(level) as i32;
        proof {
            lemma_pow2_strictly_increases((30 - level) as nat, 31);
            lemma_pow2_pos((30 - level) as nat);
            lemma2_to64();
        }
        let i = i as i32;
        let j = j as i32;
        let j_minus_size: i32 = j - size;
        let i_minus_size: i32 = i - size;
        let n = K_MAX_SIZE as i32;
        let r = [
            S2CellId::from_ij_same(face, i, j_minus_size, j_minus_size >= 0).parent(Some(level)),
            S2CellId::from_ij_same(face, i + size, j, i + size < n).parent(Some(level)),
            S2CellId::from_ij_same(face, i, j + size, j + size < n).parent(Some(level)),
            S2CellId::from_ij_same(face, i_minus_size, j, i_minus_size >= 0).parent(Some(level)),
        ];
        proof {
            assert(r@ =~= edge_neighbors(face as int, i as int, j as int, level as int));
        }
        r
    }

    /// The cells at `level` (this cell's own level when none is given)
    /// that meet at the vertex closest to this cell's center leaf: three
    /// at a cube corner, four elsewhere.
    pub fn vertex_neighbors(&self, level: Option<u8>) -> (r: Vec<S2CellId>)
        requires
            self.valid_spec(),
            match level {
                Some(l) => l < 30,
                None => self.level_spec() < 30,
            },
        ensures
            ({
                let lv: int = match level {
                    Some(l) => l as int,
                    None => self.level_spec(),
                };
                &&& r@ == vertex_neighbors_spec(
                    self.face_spec(),
                    self.center_ij().0,
                    self.center_ij().1,
                    self.parent_spec(Some(lv as u8)),
                    lv,
                )
                &&& 3 <= r@.len() <= 4
                &&& lv <= self.level_spec() ==> forall|k: int|
                    0 <= k < r@.len() ==> #[trigger] r@[k].valid_spec() && r@[k].level_spec() == lv
            }),
    {
        proof {
            lemma_valid_parts(*self);
        }
        let level: u8 = match level {
            Some(l) => l,
            None => self.level(),
        };
        let (face, i, j, _or) = self.to_face_ij_orientation(None);
        proof {
            lemma2_to64();
            assert(pow2(0) == 1);
            lemma_div_basics(self.center_ij().0);
            lemma_div_basics(self.center_ij().1);
        }
        let (i_new, isame) = vertex_step(i, level);
        let (j_new, jsame) = vertex_step(j, level);
        let i = i as i32;
        let j = j as i32;
        let mut neighbors: Vec<S2CellId> = Vec::new();
        neighbors.push(self.parent(Some(level)));
        neighbors.push(S2CellId::from_ij_same(face, i_new, j, isame).parent(Some(level)));
        neighbors.push(S2CellId::from_ij_same(face, i, j_new, jsame).parent(Some(level)));
        if isame || jsame {
            neighbors.push(
                S2CellId::from_ij_same(face, i_new, j_new, isame && jsame).parent(Some(level)),
            );
        }
        proof {
            assert(neighbors@ =~= vertex_neighbors_spec(
                face as int,
                i as int,
                j as int,
                self.parent_spec(Some(level)),
                level as int,
            ));
        }
        neighbors
    }
}

} // verus!
