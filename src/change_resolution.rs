use vstd::prelude::*;

use crate::array::{all_some, non_null, CellIndexArray};
use crate::compact::resolution_bits;
use crate::error::Error;
use crate::index::{all_cells, cell_children, cell_parent, children_of, is_cell, parent_of, res_of, CellIndex, Resolution};
use crate::list::{flatten_entries, H3ListArray, H3ListArrayBuilder};
use crate::list::valid_array_of;

verus! {

/// The values before a change of resolution, each repeated once for each value after it.
pub struct ChangedResolutionPair<T> {
    /// values before the resolution change
    pub before: T,
    /// values after the resolution change
    pub after: T,
}

/// Cell `v` at resolution `r`: all its children where `r` is finer, itself where equal,
/// its ancestor where coarser.
pub open spec fn expand(v: u64, r: u8) -> Seq<u64> {
    if res_of(v) < r {
        children_of(v, r)
    } else if res_of(v) == r {
        seq![v]
    } else {
        seq![parent_of(v, r)]
    }
}

/// The expansions of the cells of `s`, concatenated in order.
pub open spec fn flat_expand(s: Seq<u64>, r: u8) -> Seq<u64>
    decreases s.len(),
{
    if s.len() == 0 {
        Seq::empty()
    } else {
        flat_expand(s.drop_last(), r) + expand(s.last(), r)
    }
}

/// Each cell of `s` repeated as often as its expansion has cells, concatenated in order.
pub open spec fn paired_before(s: Seq<u64>, r: u8) -> Seq<u64>
    decreases s.len(),
{
    if s.len() == 0 {
        Seq::empty()
    } else {
        paired_before(s.drop_last(), r) + Seq::new(expand(s.last(), r).len(), |j: int| s.last())
    }
}

/// One entry per position: null for a null, else the expansion of the cell.
pub open spec fn expanded_list(s: Seq<Option<u64>>, r: u8) -> Seq<Option<Seq<u64>>> {
    s.map_values(
        |x: Option<u64>|
            match x {
                Some(v) => Some(expand(v, r)),
                None => None,
            },
    )
}

/// One entry per position: null for a null, else the cell repeated once per cell of its
/// expansion.
pub open spec fn repeated_list(s: Seq<Option<u64>>, r: u8) -> Seq<Option<Seq<u64>>> {
    s.map_values(
        |x: Option<u64>|
            match x {
                Some(v) => Some(Seq::new(expand(v, r).len(), |j: int| v)),
                None => None,
            },
    )
}

/// The paired arrays have equal lengths, and cutting them at the entries of the list form
/// gives, for each non-null input, its expansion beside the input repeated: the before
/// values group the after values exactly as the list form does.
pub proof fn lemma_paired_matches_list(s: Seq<Option<u64>>, r: u8)
    ensures
        paired_before(non_null(s), r).len() == flat_expand(non_null(s), r).len(),
        flat_expand(non_null(s), r) == flatten_entries(expanded_list(s, r)),
        paired_before(non_null(s), r) == flatten_entries(repeated_list(s, r)),
    decreases s.len(),
{
    if s.len() > 0 {
        let d = s.drop_last();
        lemma_paired_matches_list(d, r);
        assert(expanded_list(s, r).drop_last() =~= expanded_list(d, r));
        assert(repeated_list(s, r).drop_last() =~= repeated_list(d, r));
        match s.last() {
            Some(v) => {
                assert(non_null(s) == non_null(d).push(v));
                assert(non_null(s).drop_last() =~= non_null(d));
            },
            None => {
                assert(non_null(s) == non_null(d));
            },
        }
    }
}

/// Appends cell `cell` at resolution `target`.
fn extend_with_cell(out_vec: &mut Vec<u64>, cell: u64, target: u8)
    requires
        is_cell(cell),
        target <= 15,
        all_cells(old(out_vec)@),
    ensures
        final(out_vec)@ == old(out_vec)@ + expand(cell, target),
        all_cells(final(out_vec)@),
        forall|i: int| 0 <= i < old(out_vec)@.len() ==> #[trigger] final(out_vec)@[i] == old(out_vec)@[i],
        forall|i: int| old(out_vec)@.len() <= i < final(out_vec)@.len() ==> res_of(#[trigger] final(out_vec)@[i]) == target,
{
    let res = resolution_bits(cell) as u8;
    if res < target {
        let children = cell_children(cell, target);
        let mut i: usize = 0;
        while i < children.len()
            invariant
                i <= children@.len(),
                all_cells(children@),
                forall|t: int| 0 <= t < children@.len() ==> res_of(#[trigger] children@[t]) == target,
                out_vec@ =~= old(out_vec)@ + children@.take(i as int),
                all_cells(out_vec@),
            decreases children@.len() - i,
        {
            out_vec.push(children[i]);
            i = i + 1;
            assert(out_vec@ =~= old(out_vec)@ + children@.take(i as int));
        }
        assert(children@.take(i as int) =~= children@);
    } else if res == target {
        out_vec.push(cell);
        assert(out_vec@ =~= old(out_vec)@ + seq![cell]);
    } else {
        match cell_parent(cell, target) {
            Some(p) => {
                out_vec.push(p);
                assert(out_vec@ =~= old(out_vec)@ + seq![p]);
            },
            None => {},
        }
    }
}

impl CellIndexArray {
    /// Every cell at `resolution`, concatenated in order; nulls give nothing.
    pub fn change_resolution(&self, resolution: Resolution) -> (r: Result<Self, Error>)
        ensures
            r matches Ok(a) && a@ == all_some(flat_expand(non_null(self@), resolution@)),
            forall|i: int| 0 <= i < flat_expand(non_null(self@), resolution@).len() ==> res_of(
                #[trigger] flat_expand(non_null(self@), resolution@)[i],
            ) == resolution@,
    {
        let target = resolution.value();
        let cells = self.to_valid_u64s();
        let mut out_vec: Vec<u64> = Vec::new();
        let mut i: usize = 0;
        while i < cells.len()
            invariant
                i <= cells@.len(),
                target == resolution@,
                target <= 15,
                all_cells(cells@),
                all_cells(out_vec@),
                out_vec@ == flat_expand(cells@.take(i as int), target),
                forall|t: int| 0 <= t < out_vec@.len() ==> res_of(#[trigger] out_vec@[t]) == target,
            decreases cells@.len() - i,
        {
            extend_with_cell(&mut out_vec, cells[i], target);
            assert(cells@.take(i + 1).drop_last() =~= cells@.take(i as int));
            i = i + 1;
        }
        assert(cells@.take(i as int) =~= cells@);
        Ok(valid_array_of(&out_vec))
    }

    /// One entry per position: null for a null, else the cell at `resolution`.
    pub fn change_resolution_list(&self, resolution: Resolution) -> (r: Result<H3ListArray<CellIndex>, Error>)
        ensures
            r matches Ok(l) && l@ == expanded_list(self@, resolution@),
    {
        let target = resolution.value();
        let n = self.len();
        let mut builder: H3ListArrayBuilder<CellIndex> = H3ListArrayBuilder::with_capacity(n, n);
        let mut i: usize = 0;
        while i < n
            invariant
                i <= n,
                n == self@.len(),
                target == resolution@,
                target <= 15,
                builder.wf(),
                builder.pending() == Seq::<u64>::empty(),
                builder.entries() == expanded_list(self@.take(i as int), target),
            decreases n - i,
        {
            let ghost e0 = builder.entries();
            match self.get_u64(i) {
                Some(cell) => {
                    let mut out: Vec<u64> = Vec::new();
                    extend_with_cell(&mut out, cell, target);
                    assert(out@ =~= expand(cell, target));
                    builder.append_valid_u64s(&out);
                    assert(builder.pending() =~= out@);
                    builder.append(true);
                },
                None => {
                    builder.append(false);
                },
            }
            assert(builder.entries() =~= expanded_list(self@.take(i + 1), target));
            i = i + 1;
        }
        assert(self@.take(i as int) =~= self@);
        builder.finish()
    }

    /// The cells at `resolution` (after), each beside the cell it came from (before).
    pub fn change_resolution_paired(&self, resolution: Resolution) -> (r: Result<ChangedResolutionPair<Self>, Error>)
        ensures
            r matches Ok(p) && p.before@ == all_some(paired_before(non_null(self@), resolution@))
                && p.after@ == all_some(flat_expand(non_null(self@), resolution@)),
            forall|i: int| 0 <= i < flat_expand(non_null(self@), resolution@).len() ==> res_of(
                #[trigger] flat_expand(non_null(self@), resolution@)[i],
            ) == resolution@,
    {
        let target = resolution.value();
        let cells = self.to_valid_u64s();
        let mut before_vec: Vec<u64> = Vec::new();
        let mut after_vec: Vec<u64> = Vec::new();
        let mut i: usize = 0;
        while i < cells.len()
            invariant
                i <= cells@.len(),
                target == resolution@,
                target <= 15,
                all_cells(cells@),
                all_cells(after_vec@),
                all_cells(before_vec@),
                after_vec@ == flat_expand(cells@.take(i as int), target),
                forall|t: int| 0 <= t < after_vec@.len() ==> res_of(#[trigger] after_vec@[t]) == target,
                before_vec@ == paired_before(cells@.take(i as int), target),
            decreases cells@.len() - i,
        {
            let cell = cells[i];
            let len_before = after_vec.len();
            extend_with_cell(&mut after_vec, cell, target);
            let added = after_vec.len() - len_before;
            let ghost b0 = before_vec@;
            let mut j: usize = 0;
            while j < added
                invariant
                    j <= added,
                    is_cell(cell),
                    all_cells(before_vec@),
                    before_vec@ =~= b0 + Seq::new(j as nat, |t: int| cell),
                decreases added - j,
            {
                before_vec.push(cell);
                j = j + 1;
                assert(before_vec@ =~= b0 + Seq::new(j as nat, |t: int| cell));
            }
            assert(cells@.take(i + 1).drop_last() =~= cells@.take(i as int));
            assert(Seq::new(added as nat, |t: int| cell) =~= Seq::new(expand(cell, target).len(), |t: int| cells@.take(i + 1).last()));
            i = i + 1;
        }
        assert(cells@.take(i as int) =~= cells@);
        Ok(ChangedResolutionPair { before: valid_array_of(&before_vec), after: valid_array_of(&after_vec) })
    }
}

} // verus!
