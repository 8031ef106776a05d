//! The decisions of the search that covers a spherical cap with cells.
//!
//! The search starts from the six face cells and examines one cell at a
//! time. Whether the cell's vertices and the cap's center lie inside the cap
//! is measured by the caller; from those answers this module decides whether
//! the cell joins the covering, is subdivided, or is dropped.
use vstd::prelude::*;
use crate::cell_id::{S2CellId, lsb_at};

verus! {

/// What happens to an examined cell.
#[derive(Debug, Clone, Copy, PartialEq, Eq, Structural)]
pub enum CoverStep {
    /// The cell joins the covering.
    Emit,
    /// The cell's four children are examined in its place.
    Descend,
    /// The cell is dropped.
    Skip,
}

/// The decision for a cell with `vertex_count` of its four vertices inside
/// the cap: emit it when all vertices are inside, or some are and the
/// search is at its deepest level; descend above the deepest level when
/// some vertices are inside, or none are but the cell holds the cap's
/// center (the cap is then small inside it); skip it otherwise.
pub open spec fn cover_step_spec(vertex_count: int, at_max_depth: bool, center_inside: bool) -> CoverStep {
    let all_in = vertex_count >= 4;
    let some_in = vertex_count > 0;
    if all_in || (some_in && at_max_depth) {
        CoverStep::Emit
    } else if !at_max_depth && (some_in || center_inside) {
        CoverStep::Descend
    } else {
        CoverStep::Skip
    }
}

/// Decides what happens to an examined cell.
pub fn cover_step(vertex_count: usize, at_max_depth: bool, center_inside: bool) -> (r: CoverStep)
    ensures
        r == cover_step_spec(vertex_count as int, at_max_depth, center_inside),
{
    if vertex_count >= 4 || (vertex_count > 0 && at_max_depth) {
        CoverStep::Emit
    } else if vertex_count == 0 && !at_max_depth {
        if center_inside {
            CoverStep::Descend
        } else {
            CoverStep::Skip
        }
    } else if at_max_depth {
        CoverStep::Skip
    } else {
        CoverStep::Descend
    }
}

/// The six face cells, face 0 first.
pub open spec fn face_cells() -> Seq<S2CellId> {
    Seq::new(6, |f: int| S2CellId { id: (f * 0x2000_0000_0000_0000 + lsb_at(0)) as u64 })
}

/// Whether every cell of `s` is valid.
pub open spec fn all_valid(s: Seq<S2CellId>) -> bool {
    forall|k: int| 0 <= k < s.len() ==> #[trigger] s[k].valid_spec()
}

/// The state of a covering search: the cells still to examine (the last
/// one next), the covering found so far, and the deepest level examined.
pub struct CoveringSearch {
    /// Cells still to examine; the last one is examined next.
    pub pending: Vec<S2CellId>,
    /// The covering found so far.
    pub found: Vec<S2CellId>,
    /// The deepest level of the search.
    pub max_depth: u8,
}

impl CoveringSearch {
    /// All pending and found cells are valid and the depth is a level.
    pub open spec fn wf(&self) -> bool {
        &&& all_valid(self.pending@)
        &&& all_valid(self.found@)
        &&& self.max_depth <= 30
    }

    /// Starts a search. An empty cap has no covering; a full cap is covered
    /// by the six face cells at once; otherwise the six face cells are
    /// pending.
    pub fn new(is_empty: bool, is_full: bool, max_depth: u8) -> (r: CoveringSearch)
        requires
            max_depth <= 30,
        ensures
            r.wf(),
            r.max_depth == max_depth,
            is_empty ==> r.pending@.len() == 0 && r.found@.len() == 0,
            !is_empty && is_full ==> r.pending@.len() == 0 && r.found@ == face_cells(),
            !is_empty && !is_full ==> r.pending@ == face_cells() && r.found@.len() == 0,
    {
        let mut faces: Vec<S2CellId> = Vec::new();
        if !is_empty {
            let mut f: u8 = 0;
            while f < 6
                invariant
                    f <= 6,
                    faces@.len() == f,
                    forall|k: int| 0 <= k < f ==> faces@[k] == #[trigger] face_cells()[k],
                    all_valid(faces@),
                decreases 6 - f,
            {
                let c = S2CellId::from_face(f);
                faces.push(c);
                f = f + 1;
            }
            proof {
                assert(faces@ =~= face_cells());
            }
        }
        if is_empty {
            CoveringSearch { pending: Vec::new(), found: Vec::new(), max_depth }
        } else if is_full {
            CoveringSearch { pending: Vec::new(), found: faces, max_depth }
        } else {
            CoveringSearch { pending: faces, found: Vec::new(), max_depth }
        }
    }

    /// The next cell to examine, removed from the pending cells.
    pub fn next_cell(&mut self) -> (r: Option<S2CellId>)
        requires
            old(self).wf(),
        ensures
            final(self).wf(),
            final(self).found@ == old(self).found@,
            final(self).max_depth == old(self).max_depth,
            old(self).pending@.len() == 0 ==> r is None && final(self).pending@ == old(
                self,
            ).pending@,
            old(self).pending@.len() > 0 ==> r == Some(old(self).pending@.last())
                && final(self).pending@ == old(self).pending@.drop_last(),
    {
        self.pending.pop()
    }

    /// Applies the decision for `cell`, which has `vertex_count` of its
    /// vertices inside the cap and holds the cap's center when
    /// `center_inside`: it joins the covering, its children (in the order
    /// 0, 3, 2, 1) become pending, or nothing changes.
    pub fn examine(&mut self, cell: S2CellId, vertex_count: usize, center_inside: bool) -> (r: CoverStep)
        requires
            old(self).wf(),
            cell.valid_spec(),
        ensures
            final(self).wf(),
            final(self).max_depth == old(self).max_depth,
            r == cover_step_spec(
                vertex_count as int,
                cell.level_spec() >= old(self).max_depth,
                center_inside,
            ),
            r == CoverStep::Emit ==> final(self).found@ == old(self).found@.push(cell)
                && final(self).pending@ == old(self).pending@,
            r == CoverStep::Skip ==> final(self).found@ == old(self).found@
                && final(self).pending@ == old(self).pending@,
            r == CoverStep::Descend ==> final(self).found@ == old(self).found@
                && final(self).pending@ == old(self).pending@ + seq![
                cell.child_spec(0),
                cell.child_spec(3),
                cell.child_spec(2),
                cell.child_spec(1),
            ],
    {
        let at_max = cell.level() >= self.max_depth;
        let step = cover_step(vertex_count, at_max, center_inside);
        match step {
            CoverStep::Emit => {
                self.found.push(cell);
            },
            CoverStep::Skip => {},
            CoverStep::Descend => {
                let kids = cell.children(None);
                let ghost before = self.pending@;
                self.pending.push(kids[0]);
                self.pending.push(kids[1]);
                self.pending.push(kids[2]);
                self.pending.push(kids[3]);
                proof {
                    crate::cell_id::lemma_child(cell, 0);
                    crate::cell_id::lemma_child(cell, 1);
                    crate::cell_id::lemma_child(cell, 2);
                    crate::cell_id::lemma_child(cell, 3);
                    assert(self.pending@ =~= before + seq![
                        cell.child_spec(0),
                        cell.child_spec(3),
                        cell.child_spec(2),
                        cell.child_spec(1),
                    ]);
                }
            },
        }
        step
    }
}

} // verus!
