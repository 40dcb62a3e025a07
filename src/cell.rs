use vstd::prelude::*;

use crate::array::{all_valid, CellIndexArray, DirectedEdgeIndexArray, H3Array, VertexIndexArray};
use crate::error::Error;
use crate::index::{
    cell_children, children_ok, cell_parent, children_of, is_cell, is_edge, is_vertex, parent_of, res_of, CellIndex,
    Resolution,
};
use crate::list::{H3ListArray, H3ListArrayBuilder};
use crate::resolution::{all_resolutions, ResolutionArray};
use crate::compact::resolution_bits;

verus! {

/// The origin cell of a directed edge.
pub uninterp spec fn origin_of(e: u64) -> u64;

/// The destination cell of a directed edge.
pub uninterp spec fn destination_of(e: u64) -> u64;

/// The cell that owns a vertex.
pub uninterp spec fn owner_of(v: u64) -> u64;

/// Relies on h3o's `CellIndex::children_count`: the number of descendants at resolution `r`.
#[verifier::external_body]
fn cell_children_count(v: u64, r: u8) -> (n: u64)
    requires
        is_cell(v),
        r <= 15,
    ensures
        n == children_of(v, r).len(),
{
    match (h3o::CellIndex::try_from(v), h3o::Resolution::try_from(r)) {
        (Ok(cell), Ok(res)) => cell.children_count(res),
        _ => 0,
    }
}

/// Relies on h3o's `DirectedEdgeIndex::origin`: the cell the edge starts from.
#[verifier::external_body]
fn edge_origin(e: u64) -> (c: u64)
    requires
        is_edge(e),
    ensures
        c == origin_of(e),
        is_cell(c),
{
    h3o::DirectedEdgeIndex::try_from(e).map(|x| u64::from(x.origin())).unwrap_or(0)
}

/// Relies on h3o's `DirectedEdgeIndex::destination`: the cell the edge leads to.
#[verifier::external_body]
fn edge_destination(e: u64) -> (c: u64)
    requires
        is_edge(e),
    ensures
        c == destination_of(e),
        is_cell(c),
{
    h3o::DirectedEdgeIndex::try_from(e).map(|x| u64::from(x.destination())).unwrap_or(0)
}

/// Relies on h3o's `VertexIndex::owner`: the cell that owns the vertex.
#[verifier::external_body]
fn vertex_owner(v: u64) -> (c: u64)
    requires
        is_vertex(v),
    ensures
        c == owner_of(v),
        is_cell(c),
{
    h3o::VertexIndex::try_from(v).map(|x| u64::from(x.owner())).unwrap_or(0)
}

/// `s` with each value `v` replaced by `f(v)`, nulls kept.
pub open spec fn map_valid(s: Seq<Option<u64>>, f: spec_fn(u64) -> u64) -> Seq<Option<u64>> {
    s.map_values(|x: Option<u64>| match x {
        Some(v) => Some(f(v)),
        None => None,
    })
}

impl CellIndexArray {
    /// The resolution of each cell; a null stays null.
    pub fn resolution(&self) -> (r: ResolutionArray)
        ensures
            r@ == self@.map_values(|x: Option<u64>| match x {
                Some(v) => Some(res_of(v)),
                None => None,
            }),
    {
        let n = self.len();
        let mut out: Vec<Option<u8>> = Vec::new();
        let mut i: usize = 0;
        while i < n
            invariant
                i <= n,
                n == self@.len(),
                all_resolutions(out@),
                out@ =~= self@.take(i as int).map_values(|x: Option<u64>| match x {
                    Some(v) => Some(res_of(v)),
                    None => None,
                }),
            decreases n - i,
        {
            let v = match self.get_u64(i) {
                Some(c) => Some(resolution_bits(c) as u8),
                None => None,
            };
            out.push(v);
            i = i + 1;
            assert(out@ =~= self@.take(i as int).map_values(|x: Option<u64>| match x {
                Some(v) => Some(res_of(v)),
                None => None,
            }));
        }
        assert(self@.take(i as int) =~= self@);
        ResolutionArray::from_valid(out)
    }

    /// The ancestor of each cell at `resolution`; null for a null, and where `resolution` is
    /// finer than the cell.
    pub fn parent(&self, resolution: Resolution) -> (r: Self)
        ensures
            r@ == self@.map_values(|x: Option<u64>| match x {
                Some(v) => if resolution@ <= res_of(v) {
                    Some(parent_of(v, resolution@))
                } else {
                    None
                },
                None => None,
            }),
    {
        let target = resolution.value();
        let n = self.len();
        let mut out: Vec<Option<u64>> = Vec::new();
        let mut i: usize = 0;
        while i < n
            invariant
                i <= n,
                n == self@.len(),
                target == resolution@,
                target <= 15,
                all_valid::<CellIndex>(out@),
                out@ =~= self@.take(i as int).map_values(|x: Option<u64>| match x {
                    Some(v) => if target <= res_of(v) {
                        Some(parent_of(v, target))
                    } else {
                        None
                    },
                    None => None,
                }),
            decreases n - i,
        {
            let v = match self.get_u64(i) {
                Some(c) => cell_parent(c, target),
                None => None,
            };
            out.push(v);
            i = i + 1;
            assert(out@ =~= self@.take(i as int).map_values(|x: Option<u64>| match x {
                Some(v) => if target <= res_of(v) {
                    Some(parent_of(v, target))
                } else {
                    None
                },
                None => None,
            }));
        }
        assert(self@.take(i as int) =~= self@);
        H3Array::from_valid_options(&out)
    }

    /// The descendants of each cell at `resolution`; a null gives a null entry.
    pub fn children(&self, resolution: Resolution) -> (r: Result<H3ListArray<CellIndex>, Error>)
        ensures
            r matches Ok(l) && l@ == self@.map_values(|x: Option<u64>| match x {
                Some(v) => Some(children_of(v, resolution@)),
                None => None,
            }),
            forall|i: int| 0 <= i < self@.len() && (#[trigger] self@[i]) is Some ==> children_ok(self@[i]->0, resolution@),
    {
        let target = resolution.value();
        let n = self.len();
        let mut builder: H3ListArrayBuilder<CellIndex> = H3ListArrayBuilder::with_capacity(n, n);
        let mut i: usize = 0;
        while i < n
            invariant
                i <= n,
                n == self@.len(),
                target == resolution@,
                target <= 15,
                builder.wf(),
                builder.pending() == Seq::<u64>::empty(),
                builder.entries() =~= self@.take(i as int).map_values(|x: Option<u64>| match x {
                    Some(v) => Some(children_of(v, target)),
                    None => None,
                }),
                forall|t: int| 0 <= t < i && (#[trigger] self@[t]) is Some ==> children_ok(self@[t]->0, target),
            decreases n - i,
        {
            match self.get_u64(i) {
                Some(cell) => {
                    let children = cell_children(cell, target);
                    assert(children_ok(cell, target));
                    builder.append_valid_u64s(&children);
                    assert(builder.pending() =~= children@);
                    builder.append(true);
                },
                None => {
                    builder.append(false);
                },
            }
            i = i + 1;
            assert(builder.entries() =~= self@.take(i as int).map_values(|x: Option<u64>| match x {
                Some(v) => Some(children_of(v, target)),
                None => None,
            }));
        }
        assert(self@.take(i as int) =~= self@);
        builder.finish()
    }

    /// The number of descendants of each cell at `resolution`; a null stays null.
    pub fn children_count(&self, resolution: Resolution) -> (r: Vec<Option<u64>>)
        ensures
            r@ == self@.map_values(|x: Option<u64>| match x {
                Some(v) => Some(children_of(v, resolution@).len() as u64),
                None => None,
            }),
    {
        let target = resolution.value();
        let n = self.len();
        let mut out: Vec<Option<u64>> = Vec::new();
        let mut i: usize = 0;
        while i < n
            invariant
                i <= n,
                n == self@.len(),
                target == resolution@,
                target <= 15,
                out@ =~= self@.take(i as int).map_values(|x: Option<u64>| match x {
                    Some(v) => Some(children_of(v, target).len() as u64),
                    None => None,
                }),
            decreases n - i,
        {
            let v = match self.get_u64(i) {
                Some(c) => Some(cell_children_count(c, target)),
                None => None,
            };
            out.push(v);
            i = i + 1;
            assert(out@ =~= self@.take(i as int).map_values(|x: Option<u64>| match x {
                Some(v) => Some(children_of(v, target).len() as u64),
                None => None,
            }));
        }
        assert(self@.take(i as int) =~= self@);
        out
    }
}

impl DirectedEdgeIndexArray {
    /// The origin cell of each edge; a null stays null.
    pub fn origin(&self) -> (r: CellIndexArray)
        ensures
            r@ == map_valid(self@, |e: u64| origin_of(e)),
    {
        let n = self.len();
        let mut out: Vec<Option<u64>> = Vec::new();
        let mut i: usize = 0;
        while i < n
            invariant
                i <= n,
                n == self@.len(),
                all_valid::<CellIndex>(out@),
                out@ =~= map_valid(self@.take(i as int), |e: u64| origin_of(e)),
            decreases n - i,
        {
            let v = match self.get_u64(i) {
                Some(e) => Some(edge_origin(e)),
                None => None,
            };
            out.push(v);
            i = i + 1;
            assert(out@ =~= map_valid(self@.take(i as int), |e: u64| origin_of(e)));
        }
        assert(self@.take(i as int) =~= self@);
        H3Array::from_valid_options(&out)
    }

    /// The destination cell of each edge; a null stays null.
    pub fn destination(&self) -> (r: CellIndexArray)
        ensures
            r@ == map_valid(self@, |e: u64| destination_of(e)),
    {
        let n = self.len();
        let mut out: Vec<Option<u64>> = Vec::new();
        let mut i: usize = 0;
        while i < n
            invariant
                i <= n,
                n == self@.len(),
                all_valid::<CellIndex>(out@),
                out@ =~= map_valid(self@.take(i as int), |e: u64| destination_of(e)),
            decreases n - i,
        {
            let v = match self.get_u64(i) {
                Some(e) => Some(edge_destination(e)),
                None => None,
            };
            out.push(v);
            i = i + 1;
            assert(out@ =~= map_valid(self@.take(i as int), |e: u64| destination_of(e)));
        }
        assert(self@.take(i as int) =~= self@);
        H3Array::from_valid_options(&out)
    }
}

impl VertexIndexArray {
    /// The cell that owns each vertex; a null stays null.
    pub fn owner(&self) -> (r: CellIndexArray)
        ensures
            r@ == map_valid(self@, |v: u64| owner_of(v)),
    {
        let n = self.len();
        let mut out: Vec<Option<u64>> = Vec::new();
        let mut i: usize = 0;
        while i < n
            invariant
                i <= n,
                n == self@.len(),
                all_valid::<CellIndex>(out@),
                out@ =~= map_valid(self@.take(i as int), |v: u64| owner_of(v)),
            decreases n - i,
        {
            let v = match self.get_u64(i) {
                Some(x) => Some(vertex_owner(x)),
                None => None,
            };
            out.push(v);
            i = i + 1;
            assert(out@ =~= map_valid(self@.take(i as int), |v: u64| owner_of(v)));
        }
        assert(self@.take(i as int) =~= self@);
        H3Array::from_valid_options(&out)
    }
}

} // verus!
