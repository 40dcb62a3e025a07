use vstd::prelude::*;

use std::collections::HashMap;

use crate::array::{all_some, non_null, CellIndexArray};
use crate::error::Error;
use crate::compact::lemma_push_contains;
use crate::index::{pairs_valid, all_cells, cell_grid_disk, cell_grid_disk_distances, disk_distances_of, disk_of, is_cell, CellIndex};
use crate::list::{valid_array_of, H3ListArray, H3ListArrayBuilder, ListArray, ListArrayBuilder};

verus! {

broadcast use vstd::std_specs::hash::group_hash_axioms;

/// How distances to one cell reached from several sources are merged.
#[derive(Clone, Copy, Debug, PartialEq, Eq, Structural)]
pub enum KAggregationMethod {
    Min,
    Max,
}

/// The neighbours of each cell, beside their distances, entry for entry.
pub struct GridDiskDistances {
    pub cells: H3ListArray<CellIndex>,
    pub distances: ListArray<u32>,
}

/// Each cell reached from any source, once, with its merged distance.
pub struct GridDiskAggregateK {
    pub cells: CellIndexArray,
    pub distances: Vec<u32>,
}

/// The disk of `v`: it holds `v` itself, only cells, each once, at most `3k(k+1)+1` of them.
pub open spec fn disk_ok(v: u64, k: u32) -> bool {
    &&& disk_of(v, k).contains(v)
    &&& disk_of(v, k).no_duplicates()
    &&& all_cells(disk_of(v, k))
    &&& disk_of(v, k).len() <= 3 * k * (k + 1) + 1
}

/// The disk with distances of `v`: `v` first at distance 0, each cell once, every distance
/// at most `k`, at most `3k(k+1)+1` pairs.
pub open spec fn disk_distances_ok(v: u64, k: u32) -> bool {
    let d = disk_distances_of(v, k);
    &&& d.len() > 0 && d[0] == (v, 0u32)
    &&& pairs_valid(d, k)
    &&& forall|i: int, j: int| 0 <= i < j < d.len() ==> (#[trigger] d[i]).0 != (#[trigger] d[j]).0
    &&& d.len() <= 3 * k * (k + 1) + 1
}

/// Every distance of every entry lies between `lo` and `hi`.
pub open spec fn distances_within(e: Seq<Option<Seq<u32>>>, lo: u32, hi: u32) -> bool {
    forall|a: int, b: int| 0 <= a < e.len() && (#[trigger] e[a]) is Some && 0 <= b < e[a]->0.len() ==> lo <= #[trigger] e[a]->0[b] <= hi
}

/// Keeping the pairs at distance 0 or more keeps them all.
pub proof fn lemma_ring_from_zero(s: Seq<(u64, u32)>)
    ensures
        s.filter(|p: (u64, u32)| p.1 >= 0u32) == s,
    decreases s.len(),
{
    reveal(Seq::filter);
    if s.len() > 0 {
        lemma_ring_from_zero(s.drop_last());
        assert(s.drop_last().push(s.last()) =~= s);
    } else {
        assert(s.filter(|p: (u64, u32)| p.1 >= 0u32) =~= s);
    }
}

/// One entry per position: null for a null, else the cells within `k` steps.
pub open spec fn disk_list(s: Seq<Option<u64>>, k: u32) -> Seq<Option<Seq<u64>>> {
    s.map_values(
        |x: Option<u64>|
            match x {
                Some(v) => Some(disk_of(v, k)),
                None => None,
            },
    )
}

/// The neighbours within `k` steps at a distance of at least `k_min`.
pub open spec fn ring_of(v: u64, k: u32, k_min: u32) -> Seq<(u64, u32)> {
    disk_distances_of(v, k).filter(|p: (u64, u32)| p.1 >= k_min)
}

/// One entry per position: null for a null, else the cells of the ring.
pub open spec fn ring_cells(s: Seq<Option<u64>>, k: u32, k_min: u32) -> Seq<Option<Seq<u64>>> {
    s.map_values(
        |x: Option<u64>|
            match x {
                Some(v) => Some(ring_of(v, k, k_min).map_values(|p: (u64, u32)| p.0)),
                None => None,
            },
    )
}

/// One entry per position: null for a null, else the distances of the ring.
pub open spec fn ring_distances(s: Seq<Option<u64>>, k: u32, k_min: u32) -> Seq<Option<Seq<u32>>> {
    s.map_values(
        |x: Option<u64>|
            match x {
                Some(v) => Some(ring_of(v, k, k_min).map_values(|p: (u64, u32)| p.1)),
                None => None,
            },
    )
}

/// The neighbour pairs of every cell of `s`, concatenated in order.
pub open spec fn all_pairs(s: Seq<u64>, k: u32) -> Seq<(u64, u32)>
    decreases s.len(),
{
    if s.len() == 0 {
        Seq::empty()
    } else {
        all_pairs(s.drop_last(), k) + disk_distances_of(s.last(), k)
    }
}

pub open spec fn merge(m: KAggregationMethod, a: u32, b: u32) -> u32 {
    match m {
        KAggregationMethod::Min => if a <= b {
            a
        } else {
            b
        },
        KAggregationMethod::Max => if a >= b {
            a
        } else {
            b
        },
    }
}

/// Each cell of the pairs mapped to the merge of all its distances.
pub open spec fn aggregate(p: Seq<(u64, u32)>, m: KAggregationMethod) -> Map<u64, u32>
    decreases p.len(),
{
    if p.len() == 0 {
        Map::empty()
    } else {
        let prev = aggregate(p.drop_last(), m);
        let (c, d) = p.last();
        if prev.contains_key(c) {
            prev.insert(c, merge(m, prev[c], d))
        } else {
            prev.insert(c, d)
        }
    }
}

/// A cell is reached exactly when some pair names it; its merged distance is one of the
/// distances it is reached at, with `Min` no greater than any of them and with `Max` no
/// smaller. So where one source reaches a cell at 1 and another at 2, `Min` gives 1.
pub proof fn lemma_aggregate_bounds(p: Seq<(u64, u32)>, m: KAggregationMethod, c: u64)
    ensures
        aggregate(p, m).contains_key(c) <==> exists|i: int| 0 <= i < p.len() && (#[trigger] p[i]).0 == c,
        aggregate(p, m).contains_key(c) ==> exists|i: int| 0 <= i < p.len() && (#[trigger] p[i]).0 == c && p[i].1 == aggregate(p, m)[c],
        forall|i: int|
            0 <= i < p.len() && (#[trigger] p[i]).0 == c ==> (m == KAggregationMethod::Min ==> aggregate(p, m)[c] <= p[i].1)
                && (m == KAggregationMethod::Max ==> aggregate(p, m)[c] >= p[i].1),
    decreases p.len(),
{
    if p.len() > 0 {
        let d = p.drop_last();
        lemma_aggregate_bounds(d, m, c);
        let prev = aggregate(d, m);
        let (lc, ld) = p.last();
        assert forall|i: int| 0 <= i < d.len() implies #[trigger] d[i] == p[i] by {}
        if exists|i: int| 0 <= i < p.len() && (#[trigger] p[i]).0 == c {
            let i = choose|i: int| 0 <= i < p.len() && (#[trigger] p[i]).0 == c;
            if i < d.len() {
                assert(d[i].0 == c);
            }
        }
        if lc == c && prev.contains_key(c) {
            let i = choose|i: int| 0 <= i < d.len() && (#[trigger] d[i]).0 == c && d[i].1 == prev[c];
            if merge(m, prev[c], ld) == ld {
                assert(p[p.len() - 1].0 == c);
            } else {
                assert(p[i].0 == c);
            }
        } else if lc == c {
            assert(p[p.len() - 1].0 == c);
        } else if prev.contains_key(c) {
            let i = choose|i: int| 0 <= i < d.len() && (#[trigger] d[i]).0 == c && d[i].1 == prev[c];
            assert(p[i].0 == c);
        }
        assert forall|i: int| 0 <= i < p.len() && (#[trigger] p[i]).0 == c implies (m == KAggregationMethod::Min ==> aggregate(p, m)[c] <= p[i].1)
            && (m == KAggregationMethod::Max ==> aggregate(p, m)[c] >= p[i].1) by {
            if i < d.len() {
                assert(d[i].0 == c);
                assert(prev.contains_key(c));
            } else if prev.contains_key(c) {
                assert(lc == c);
            }
        }
    }
}

fn merge_exec(m: KAggregationMethod, a: u32, b: u32) -> (r: u32)
    ensures
        r == merge(m, a, b),
{
    match m {
        KAggregationMethod::Min => if a <= b {
            a
        } else {
            b
        },
        KAggregationMethod::Max => if a >= b {
            a
        } else {
            b
        },
    }
}

/// The ring of every non-null cell as two list arrays; `k_min == 0` gives the whole disk.
fn build_grid_disk(cellindexarray: &CellIndexArray, k: u32, k_min: u32) -> (r: Result<GridDiskDistances, Error>)
    ensures
        r matches Ok(g) && g.cells@ == ring_cells(cellindexarray@, k, k_min) && g.distances@ == ring_distances(cellindexarray@, k, k_min),
        r matches Ok(g) ==> distances_within(g.distances@, k_min, k),
        forall|i: int| 0 <= i < cellindexarray@.len() && (#[trigger] cellindexarray@[i]) is Some ==> disk_distances_ok(cellindexarray@[i]->0, k),
{
    let n = cellindexarray.len();
    let mut cells_builder: H3ListArrayBuilder<CellIndex> = H3ListArrayBuilder::with_capacity(n, n);
    let mut distances_builder: ListArrayBuilder<u32> = ListArrayBuilder::with_capacity(n, n);
    let mut i: usize = 0;
    while i < n
        invariant
            i <= n,
            n == cellindexarray@.len(),
            cells_builder.wf(),
            distances_builder.wf(),
            cells_builder.pending() == Seq::<u64>::empty(),
            distances_builder.pending() == Seq::<u32>::empty(),
            cells_builder.entries() == ring_cells(cellindexarray@.take(i as int), k, k_min),
            distances_builder.entries() == ring_distances(cellindexarray@.take(i as int), k, k_min),
            distances_within(distances_builder.entries(), k_min, k),
            forall|t: int| 0 <= t < i && (#[trigger] cellindexarray@[t]) is Some ==> disk_distances_ok(cellindexarray@[t]->0, k),
        decreases n - i,
    {
        let ghost e0 = distances_builder.entries();
        let is_valid = match cellindexarray.get_u64(i) {
            Some(cell) => {
                let disk = cell_grid_disk_distances(cell, k);
                let ghost pred = |p: (u64, u32)| p.1 >= k_min;
                let mut cells: Vec<u64> = Vec::new();
                let mut j: usize = 0;
                while j < disk.len()
                    invariant
                        j <= disk@.len(),
                        pairs_valid(disk@, k),
                        all_cells(cells@),
                        cells@ == disk@.take(j as int).filter(pred).map_values(|p: (u64, u32)| p.0),
                        distances_builder.wf(),
                        distances_builder.entries() == ring_distances(cellindexarray@.take(i as int), k, k_min),
                        distances_builder.pending() == disk@.take(j as int).filter(pred).map_values(|p: (u64, u32)| p.1),
                        forall|t: int| 0 <= t < distances_builder.pending().len() ==> k_min <= #[trigger] distances_builder.pending()[t] <= k,
                        pred == (|p: (u64, u32)| p.1 >= k_min),
                    decreases disk@.len() - j,
                {
                    let (c, d) = disk[j];
                    proof {
                        reveal(Seq::filter);
                        assert(disk@.take(j + 1).drop_last() =~= disk@.take(j as int));
                    }
                    assert(d <= k) by {
                        assert(pairs_valid(disk@, k));
                        assert(disk@[j as int].1 <= k);
                    }
                    if d >= k_min {
                        cells.push(c);
                        distances_builder.append_value(d);
                        assert(cells@ =~= disk@.take(j + 1).filter(pred).map_values(|p: (u64, u32)| p.0));
                        assert(distances_builder.pending() =~= disk@.take(j + 1).filter(pred).map_values(|p: (u64, u32)| p.1));
                    } else {
                        assert(cells@ =~= disk@.take(j + 1).filter(pred).map_values(|p: (u64, u32)| p.0));
                    }
                    j = j + 1;
                }
                assert(disk@.take(j as int) =~= disk@);
                cells_builder.append_valid_u64s(&cells);
                true
            },
            None => false,
        };
        cells_builder.append(is_valid);
        let ghost pend = distances_builder.pending();
        distances_builder.append(is_valid);
        proof {
            let e = distances_builder.entries();
            assert forall|a: int, b: int| 0 <= a < e.len() && (#[trigger] e[a]) is Some && 0 <= b < e[a]->0.len() implies k_min <= #[trigger] e[a]->0[b] <= k by {
                if a < e.len() - 1 {
                    assert(e[a] == e0[a]);
                } else {
                    assert(e[a] == Some(pend));
                }
            }
        }
        assert(cells_builder.entries() =~= ring_cells(cellindexarray@.take(i + 1), k, k_min));
        assert(distances_builder.entries() =~= ring_distances(cellindexarray@.take(i + 1), k, k_min));
        i = i + 1;
    }
    assert(cellindexarray@.take(i as int) =~= cellindexarray@);
    let cells = match cells_builder.finish() {
        Ok(c) => c,
        Err(e) => {
            return Err(e);
        },
    };
    Ok(GridDiskDistances { cells, distances: distances_builder.finish() })
}

impl CellIndexArray {
    /// The cells within `k` steps of each cell; a null gives a null entry.
    pub fn grid_disk(&self, k: u32) -> (r: Result<H3ListArray<CellIndex>, Error>)
        ensures
            r matches Ok(l) && l@ == disk_list(self@, k),
            forall|i: int| 0 <= i < self@.len() && (#[trigger] self@[i]) is Some ==> disk_ok(self@[i]->0, k),
    {
        let n = self.len();
        let mut builder: H3ListArrayBuilder<CellIndex> = H3ListArrayBuilder::with_capacity(n, n);
        let mut i: usize = 0;
        while i < n
            invariant
                i <= n,
                n == self@.len(),
                builder.wf(),
                builder.pending() == Seq::<u64>::empty(),
                builder.entries() == disk_list(self@.take(i as int), k),
                forall|t: int| 0 <= t < i && (#[trigger] self@[t]) is Some ==> disk_ok(self@[t]->0, k),
            decreases n - i,
        {
            match self.get_u64(i) {
                Some(cell) => {
                    let disc = cell_grid_disk(cell, k);
                    assert(disc@.contains(disc@[0]));
                    builder.append_valid_u64s(&disc);
                    assert(builder.pending() =~= disc@);
                    builder.append(true);
                },
                None => {
                    builder.append(false);
                },
            }
            assert(builder.entries() =~= disk_list(self@.take(i + 1), k));
            i = i + 1;
        }
        assert(self@.take(i as int) =~= self@);
        builder.finish()
    }

    /// The cells within `k` steps of each cell, with their distances.
    pub fn grid_disk_distances(&self, k: u32) -> (r: Result<GridDiskDistances, Error>)
        ensures
            r matches Ok(g) && g.cells@ == ring_cells(self@, k, 0) && g.distances@ == ring_distances(self@, k, 0),
            r matches Ok(g) ==> distances_within(g.distances@, 0, k),
            r matches Ok(g) ==> forall|i: int| 0 <= i < self@.len() && (#[trigger] self@[i]) is Some ==> g.cells@[i] == Some(
                disk_distances_of(self@[i]->0, k).map_values(|p: (u64, u32)| p.0),
            ) && g.distances@[i] == Some(disk_distances_of(self@[i]->0, k).map_values(|p: (u64, u32)| p.1)),
            forall|i: int| 0 <= i < self@.len() && (#[trigger] self@[i]) is Some ==> disk_distances_ok(self@[i]->0, k),
    {
        let r = build_grid_disk(self, k, 0);
        proof {
            assert forall|i: int| 0 <= i < self@.len() && (#[trigger] self@[i]) is Some implies ring_of(self@[i]->0, k, 0) == disk_distances_of(self@[i]->0, k) by {
                lemma_ring_from_zero(disk_distances_of(self@[i]->0, k));
            }
        }
        r
    }

    /// The cells at `k_min` to `k_max` steps of each cell, with their distances; the bounds
    /// are checked first.
    pub fn grid_ring_distances(&self, k_min: u32, k_max: u32) -> (r: Result<GridDiskDistances, Error>)
        ensures
            r is Err <==> k_min >= k_max,
            r matches Err(e) ==> e == (Error::InvalidKRange { k_min, k_max }),
            r matches Ok(g) ==> g.cells@ == ring_cells(self@, k_max, k_min) && g.distances@ == ring_distances(self@, k_max, k_min),
            r matches Ok(g) ==> distances_within(g.distances@, k_min, k_max),
            r is Ok ==> forall|i: int| 0 <= i < self@.len() && (#[trigger] self@[i]) is Some ==> disk_distances_ok(self@[i]->0, k_max),
    {
        if k_min >= k_max {
            return Err(Error::InvalidKRange { k_min, k_max });
        }
        build_grid_disk(self, k_max, k_min)
    }

    /// Every cell within `k` steps of any cell, once, with the merge of its distances
    /// over all the cells that reach it.
    pub fn grid_disk_aggregate_k(&self, k: u32, k_agg_method: KAggregationMethod) -> (r: Result<GridDiskAggregateK, Error>)
        ensures
            r matches Ok(g) && aggregated(g.cells@, g.distances@, aggregate(all_pairs(non_null(self@), k), k_agg_method)),
            r matches Ok(g) ==> forall|j: int| 0 <= j < g.distances@.len() ==> #[trigger] g.distances@[j] <= k,
    {
        let sources = self.to_valid_u64s();
        let mut cellmap: HashMap<u64, u32> = HashMap::new();
        let mut keys: Vec<u64> = Vec::new();
        let mut i: usize = 0;
        while i < sources.len()
            invariant
                i <= sources@.len(),
                all_cells(sources@),
                cellmap@ == aggregate(all_pairs(sources@.take(i as int), k), k_agg_method),
                forall|c: u64| #[trigger] cellmap@.contains_key(c) ==> cellmap@[c] <= k,
                keys@.no_duplicates(),
                all_cells(keys@),
                forall|c: u64| cellmap@.contains_key(c) <==> keys@.contains(c),
            decreases sources@.len() - i,
        {
            let disk = cell_grid_disk_distances(sources[i], k);
            let ghost pairs_before = all_pairs(sources@.take(i as int), k);
            let mut j: usize = 0;
            while j < disk.len()
                invariant
                    j <= disk@.len(),
                    pairs_valid(disk@, k),
                    cellmap@ == aggregate(pairs_before + disk@.take(j as int), k_agg_method),
                    forall|c: u64| #[trigger] cellmap@.contains_key(c) ==> cellmap@[c] <= k,
                    keys@.no_duplicates(),
                    all_cells(keys@),
                    forall|c: u64| cellmap@.contains_key(c) <==> keys@.contains(c),
                decreases disk@.len() - j,
            {
                let (grid_cell, grid_distance) = disk[j];
                assert(is_cell(disk@[j as int].0));
                assert(grid_distance <= k);
                let ghost prev = pairs_before + disk@.take(j as int);
                let ghost keys0 = keys@;
                assert((pairs_before + disk@.take(j + 1)).drop_last() =~= prev);
                match cellmap.get(&grid_cell) {
                    Some(d) => {
                        let merged = merge_exec(k_agg_method, *d, grid_distance);
                        cellmap.insert(grid_cell, merged);
                    },
                    None => {
                        cellmap.insert(grid_cell, grid_distance);
                        proof {
                            assert forall|t: int, u: int| 0 <= t < u < keys@.len() + 1 implies keys@.push(grid_cell)[t] != keys@.push(grid_cell)[u] by {
                                if u == keys@.len() {
                                    assert(keys@.contains(keys@[t]));
                                }
                            }
                        }
                        keys.push(grid_cell);
                    },
                }
                proof {
                    assert forall|c: u64| cellmap@.contains_key(c) <==> keys@.contains(c) by {
                        lemma_push_contains(keys0, grid_cell, c);
                    }
                    assert forall|t: int| 0 <= t < keys@.len() implies is_cell(#[trigger] keys@[t]) by {
                        if t < keys0.len() {
                            assert(keys@[t] == keys0[t]);
                        }
                    }
                }
                j = j + 1;
            }
            assert(disk@.take(j as int) =~= disk@);
            assert(sources@.take(i + 1).drop_last() =~= sources@.take(i as int));
            i = i + 1;
        }
        assert(sources@.take(i as int) =~= sources@);
        let mut distances: Vec<u32> = Vec::new();
        let mut t: usize = 0;
        while t < keys.len()
            invariant
                t <= keys@.len(),
                forall|c: u64| cellmap@.contains_key(c) <==> keys@.contains(c),
                distances@.len() == t,
                forall|u: int| 0 <= u < t ==> #[trigger] distances@[u] == cellmap@[keys@[u]],
                forall|c: u64| #[trigger] cellmap@.contains_key(c) ==> cellmap@[c] <= k,
                forall|u: int| 0 <= u < t ==> #[trigger] distances@[u] <= k,
            decreases keys@.len() - t,
        {
            assert(keys@.contains(keys@[t as int]));
            let d = match cellmap.get(&keys[t]) {
                Some(d) => *d,
                None => 0,
            };
            distances.push(d);
            t = t + 1;
        }
        let cells = valid_array_of(&keys);
        proof {
            let m = cellmap@;
            assert(m == aggregate(all_pairs(non_null(self@), k), k_agg_method));
            assert forall|i: int| 0 <= i < cells@.len() implies (#[trigger] cells@[i]) is Some && m.contains_key(cells@[i]->0) && distances@[i] == m[cells@[i]->0] by {
                assert(keys@.contains(keys@[i]));
            }
            assert forall|c: u64| m.contains_key(c) implies exists|i: int| 0 <= i < cells@.len() && #[trigger] cells@[i] == Some(c) by {
                assert(keys@.contains(c));
                let i = choose|i: int| 0 <= i < keys@.len() && keys@[i] == c;
                assert(cells@[i] == Some(c));
            }
        }
        Ok(GridDiskAggregateK { cells, distances })
    }
}

/// The cells are the keys of `m`, each once, and each distance is the value of its cell.
pub open spec fn aggregated(cells: Seq<Option<u64>>, distances: Seq<u32>, m: Map<u64, u32>) -> bool {
    &&& cells.len() == distances.len()
    &&& forall|i: int, j: int| 0 <= i < j < cells.len() ==> cells[i] != cells[j]
    &&& forall|i: int| 0 <= i < cells.len() ==> (#[trigger] cells[i]) is Some && m.contains_key(cells[i]->0) && distances[i] == m[cells[i]->0]
    &&& forall|c: u64| m.contains_key(c) ==> exists|i: int| 0 <= i < cells.len() && #[trigger] cells[i] == Some(c)
}

} // verus!
