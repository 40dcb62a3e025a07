use vstd::prelude::*;

use crate::array::{CellIndexArray, H3Array};
use crate::error::Error;
use crate::index::{is_cell, CellIndex, H3IndexArrayValue};

verus! {

/// The local IJ coordinates of cell `c` relative to cell `anchor`, where the grid defines them.
pub uninterp spec fn local_ij_of(c: u64, anchor: u64) -> Option<(i32, i32)>;

/// The cell at local IJ coordinates `(i, j)` relative to cell `anchor`, where there is one.
pub uninterp spec fn cell_at_local_ij(anchor: u64, i: i32, j: i32) -> Option<u64>;

/// Relies on h3o's `CellIndex::to_local_ij`: the coordinates of the cell relative to the
/// anchor, or `None` where h3o refuses them. It does not panic on valid cells: its one
/// `expect` asks for the reverse of a direction between neighbouring base cells, which
/// exists, and its table lookups are guarded by `validate_direction`.
#[verifier::external_body]
fn cell_to_local_ij(c: u64, anchor: u64) -> (r: Option<(i32, i32)>)
    requires
        is_cell(c),
        is_cell(anchor),
    ensures
        r == local_ij_of(c, anchor),
{
    match (h3o::CellIndex::try_from(c), h3o::CellIndex::try_from(anchor)) {
        (Ok(c), Ok(anchor)) => c.to_local_ij(anchor).ok().map(|l| (l.coord.i, l.coord.j)),
        _ => None,
    }
}

/// Relies on h3o's `CellIndex::try_from(LocalIJ)`: the cell at the coordinates, or `None`
/// where h3o refuses them; any cell it gives is valid. It does not panic for a valid anchor:
/// its asserts check rotation-table entries, which are `0xff` only in the row of the K axis,
/// and the rows it reads are the anchor's first non-center digit (never K in a valid cell)
/// or a pentagon's direction back to a neighbour (never K, that direction being deleted).
#[verifier::external_body]
fn local_ij_to_cell(anchor: u64, i: i32, j: i32) -> (r: Option<u64>)
    requires
        is_cell(anchor),
    ensures
        r == cell_at_local_ij(anchor, i, j),
        r matches Some(c) ==> is_cell(c),
{
    let anchor = h3o::CellIndex::try_from(anchor).ok()?;
    h3o::CellIndex::try_from(h3o::LocalIJ::new(anchor, h3o::CoordIJ::new(i, j))).ok().map(u64::from)
}

/// Anchors and local IJ coordinates, position by position.
pub struct LocalIJArrays {
    pub anchors: CellIndexArray,
    pub i: Vec<Option<i32>>,
    pub j: Vec<Option<i32>>,
}

/// The cell that the coordinates at a position give: null where a part is null, or where
/// the grid has no cell there.
pub open spec fn local_cell(anchor: Option<u64>, i: Option<i32>, j: Option<i32>) -> Option<u64> {
    match (i, j, anchor) {
        (Some(i), Some(j), Some(a)) => cell_at_local_ij(a, i, j),
        _ => None,
    }
}

/// Whether a position has all its parts, but the grid has no cell there.
pub open spec fn local_cell_fails(anchor: Option<u64>, i: Option<i32>, j: Option<i32>) -> bool {
    match (i, j, anchor) {
        (Some(i), Some(j), Some(a)) => cell_at_local_ij(a, i, j) is None,
        _ => false,
    }
}

/// The coordinates of a cell relative to its anchor: null where either is null, or where
/// the grid defines none.
pub open spec fn local_coords(c: Option<u64>, anchor: Option<u64>) -> Option<(i32, i32)> {
    match (c, anchor) {
        (Some(c), Some(a)) => local_ij_of(c, a),
        _ => None,
    }
}

pub open spec fn local_coords_fail(c: Option<u64>, anchor: Option<u64>) -> bool {
    match (c, anchor) {
        (Some(c), Some(a)) => local_ij_of(c, a) is None,
        _ => false,
    }
}

pub open spec fn first_of(p: Option<(i32, i32)>) -> Option<i32> {
    match p {
        Some(p) => Some(p.0),
        None => None,
    }
}

pub open spec fn second_of(p: Option<(i32, i32)>) -> Option<i32> {
    match p {
        Some(p) => Some(p.1),
        None => None,
    }
}

impl LocalIJArrays {
    /// The arrays, if their lengths agree.
    pub fn try_new(anchors: CellIndexArray, i: Vec<Option<i32>>, j: Vec<Option<i32>>) -> (r: Result<Self, Error>)
        ensures
            r is Err <==> !(i@.len() == j@.len() && j@.len() == anchors@.len()),
            r matches Err(e) ==> e == Error::LengthMismatch,
            r matches Ok(l) ==> l.anchors@ == anchors@ && l.i@ == i@ && l.j@ == j@,
    {
        let instance = LocalIJArrays { anchors, i, j };
        match instance.validate() {
            Ok(()) => Ok(instance),
            Err(e) => Err(e),
        }
    }

    /// Fails where the lengths of the three arrays differ.
    pub fn validate(&self) -> (r: Result<(), Error>)
        ensures
            r is Ok <==> (self.i@.len() == self.j@.len() && self.j@.len() == self.anchors@.len()),
            r matches Err(e) ==> e == Error::LengthMismatch,
    {
        if self.j.len() != self.i.len() || self.j.len() != self.anchors.len() {
            return Err(Error::LengthMismatch);
        }
        Ok(())
    }

    fn to_cells_internal(&self, set_failing_to_invalid: bool) -> (r: Result<CellIndexArray, Error>)
        ensures
            r is Ok <==> (self.i@.len() == self.j@.len() && self.j@.len() == self.anchors@.len()
                && (set_failing_to_invalid || forall|k: int| 0 <= k < self.i@.len() ==> !local_cell_fails(
                self.anchors@[k],
                #[trigger] self.i@[k],
                self.j@[k],
            ))),
            r matches Err(e) ==> e == (if self.i@.len() == self.j@.len() && self.j@.len() == self.anchors@.len() {
                Error::LocalIjError
            } else {
                Error::LengthMismatch
            }),
            r matches Ok(a) ==> a@.len() == self.i@.len() && forall|k: int| 0 <= k < self.i@.len() ==> #[trigger] a@[k]
                == local_cell(self.anchors@[k], self.i@[k], self.j@[k]),
    {
        match self.validate() {
            Ok(()) => {},
            Err(e) => {
                return Err(e);
            },
        }
        let n = self.i.len();
        let mut builder = CellIndexArray::builder(n);
        let mut k: usize = 0;
        while k < n
            invariant
                k <= n,
                n == self.i@.len(),
                n == self.j@.len(),
                n == self.anchors@.len(),
                builder.wf(),
                builder@.len() == k,
                forall|t: int| 0 <= t < k ==> #[trigger] builder@[t] == local_cell(self.anchors@[t], self.i@[t], self.j@[t]),
                !set_failing_to_invalid ==> forall|t: int| 0 <= t < k ==> !local_cell_fails(
                    self.anchors@[t],
                    #[trigger] self.i@[t],
                    self.j@[t],
                ),
            decreases n - k,
        {
            match (self.i[k], self.j[k], self.anchors.get_u64(k)) {
                (Some(i), Some(j), Some(anchor)) => {
                    match local_ij_to_cell(anchor, i, j) {
                        Some(c) => {
                            builder.append_value(CellIndex::transmute_from_u64(c));
                        },
                        None => {
                            if !set_failing_to_invalid {
                                return Err(Error::LocalIjError);
                            }
                            builder.append_null();
                        },
                    }
                },
                _ => {
                    builder.append_null();
                },
            }
            k = k + 1;
        }
        Ok(builder.finish())
    }

    /// The cell at each position; the first position where the grid has no cell fails.
    pub fn to_cells(&self) -> (r: Result<CellIndexArray, Error>)
        ensures
            r is Ok <==> (self.i@.len() == self.j@.len() && self.j@.len() == self.anchors@.len()
                && forall|k: int| 0 <= k < self.i@.len() ==> !local_cell_fails(
                self.anchors@[k],
                #[trigger] self.i@[k],
                self.j@[k],
            )),
            r matches Err(e) ==> e == (if self.i@.len() == self.j@.len() && self.j@.len() == self.anchors@.len() {
                Error::LocalIjError
            } else {
                Error::LengthMismatch
            }),
            r matches Ok(a) ==> a@.len() == self.i@.len() && forall|k: int| 0 <= k < self.i@.len() ==> #[trigger] a@[k]
                == local_cell(self.anchors@[k], self.i@[k], self.j@[k]),
    {
        self.to_cells_internal(false)
    }

    /// The cell at each position; null where the grid has no cell.
    pub fn to_cells_failing_to_invalid(&self) -> (r: Result<CellIndexArray, Error>)
        ensures
            r is Ok <==> (self.i@.len() == self.j@.len() && self.j@.len() == self.anchors@.len()),
            r matches Err(e) ==> e == Error::LengthMismatch,
            r matches Ok(a) ==> a@.len() == self.i@.len() && forall|k: int| 0 <= k < self.i@.len() ==> #[trigger] a@[k]
                == local_cell(self.anchors@[k], self.i@[k], self.j@[k]),
    {
        self.to_cells_internal(true)
    }
}

impl CellIndexArray {
    /// The coordinates of every cell relative to one anchor.
    pub fn to_local_ij(&self, anchor: CellIndex, set_failing_to_invalid: bool) -> (r: Result<LocalIJArrays, Error>)
        ensures
            r is Ok <==> (set_failing_to_invalid || forall|k: int| 0 <= k < self@.len() ==> !local_coords_fail(
                #[trigger] self@[k],
                Some(anchor@),
            )),
            r matches Err(e) ==> e == Error::LocalIjError,
            r matches Ok(l) ==> l.anchors@ == Seq::new(self@.len(), |k: int| Some(anchor@)) && l.i@.len()
                == self@.len() && l.j@.len() == self@.len() && forall|k: int| 0 <= k < self@.len() ==> (
            #[trigger] l.i@[k] == first_of(local_coords(self@[k], Some(anchor@))) && l.j@[k] == second_of(
                local_coords(self@[k], Some(anchor@)),
            )),
    {
        let n = self.len();
        let mut builder = CellIndexArray::builder(n);
        let mut k: usize = 0;
        while k < n
            invariant
                k <= n,
                builder.wf(),
                builder@ =~= Seq::new(k as nat, |t: int| Some(anchor@)),
            decreases n - k,
        {
            builder.append_value(anchor);
            k = k + 1;
        }
        let anchors = builder.finish();
        let r = self.to_local_ij_array(anchors, set_failing_to_invalid);
        r
    }

    /// The coordinates of every cell relative to the anchor at its position.
    pub fn to_local_ij_array(&self, anchors: CellIndexArray, set_failing_to_invalid: bool) -> (r: Result<LocalIJArrays, Error>)
        ensures
            r is Ok <==> (self@.len() == anchors@.len() && (set_failing_to_invalid || forall|k: int|
                0 <= k < self@.len() ==> !local_coords_fail(#[trigger] self@[k], anchors@[k]))),
            r matches Err(e) ==> e == (if self@.len() != anchors@.len() {
                Error::LengthMismatch
            } else {
                Error::LocalIjError
            }),
            r matches Ok(l) ==> l.anchors@ == anchors@ && l.i@.len() == self@.len() && l.j@.len()
                == self@.len() && forall|k: int| 0 <= k < self@.len() ==> (#[trigger] l.i@[k] == first_of(
                local_coords(self@[k], anchors@[k]),
            ) && l.j@[k] == second_of(local_coords(self@[k], anchors@[k]))),
    {
        let n = self.len();
        if n != anchors.len() {
            return Err(Error::LengthMismatch);
        }
        let mut i_values: Vec<Option<i32>> = Vec::new();
        let mut j_values: Vec<Option<i32>> = Vec::new();
        let mut k: usize = 0;
        while k < n
            invariant
                k <= n,
                n == self@.len(),
                n == anchors@.len(),
                i_values@.len() == k,
                j_values@.len() == k,
                forall|t: int| 0 <= t < k ==> (#[trigger] i_values@[t] == first_of(local_coords(self@[t], anchors@[t]))
                    && j_values@[t] == second_of(local_coords(self@[t], anchors@[t]))),
                !set_failing_to_invalid ==> forall|t: int| 0 <= t < k ==> !local_coords_fail(#[trigger] self@[t], anchors@[t]),
            decreases n - k,
        {
            match (self.get_u64(k), anchors.get_u64(k)) {
                (Some(c), Some(a)) => match cell_to_local_ij(c, a) {
                    Some((i, j)) => {
                        i_values.push(Some(i));
                        j_values.push(Some(j));
                    },
                    None => {
                        if !set_failing_to_invalid {
                            return Err(Error::LocalIjError);
                        }
                        i_values.push(None);
                        j_values.push(None);
                    },
                },
                _ => {
                    i_values.push(None);
                    j_values.push(None);
                },
            }
            k = k + 1;
        }
        Ok(LocalIJArrays { anchors, i: i_values, j: j_values })
    }
}

} // verus!
