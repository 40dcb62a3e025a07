use std::collections::HashSet;

use h3arrow::array::CellIndexArray;
use h3arrow::compact::CellSet;
use h3arrow::error::Error;
use h3arrow::grid::KAggregationMethod;
use h3arrow::index::{CellIndex, CompactionFailure, H3IndexArrayValue, Resolution};

fn cell_at(lat: f64, lng: f64, res: h3o::Resolution) -> CellIndex {
    let raw = u64::from(h3o::LatLng::new(lat, lng).unwrap().to_cell(res));
    CellIndex::try_from_u64(raw).unwrap()
}

fn res(r: u8) -> Resolution {
    Resolution::try_from_u8(r).unwrap()
}

fn h3(c: CellIndex) -> h3o::CellIndex {
    h3o::CellIndex::try_from(c.to_u64()).unwrap()
}

fn sample() -> CellIndexArray {
    CellIndexArray::from_options(vec![
        Some(cell_at(23.4, 12.4, h3o::Resolution::Five)),
        None,
        Some(cell_at(12.3, 0.5, h3o::Resolution::Nine)),
    ])
}

#[test]
fn change_resolution() {
    let arr = sample();
    let arr_res_six = arr.change_resolution(res(6)).unwrap();
    assert_eq!(arr_res_six.len(), 7 + 1);

    // no invalid values
    assert_eq!(arr_res_six.to_u64s().iter().filter(|v| v.is_none()).count(), 0);
}

#[test]
fn change_resolution_list() {
    let arr = sample();
    let list_arr = arr.change_resolution_list(res(6)).unwrap();
    assert_eq!(list_arr.len(), 3);

    let arrays = list_arr.iter_arrays();
    assert_eq!(arrays[0].as_ref().map(|a| a.len()).unwrap_or(0), 7);
    assert_eq!(arrays[1].as_ref().map(|a| a.len()).unwrap_or(0), 0);
    assert_eq!(arrays[2].as_ref().map(|a| a.len()).unwrap_or(0), 1);
}

#[test]
fn change_resolution_paired() {
    let arr = sample();
    let arr_res_six = arr.change_resolution_paired(res(6)).unwrap();
    assert_eq!(arr_res_six.after.len(), 7 + 1);
    assert_eq!(arr_res_six.before.len(), arr_res_six.after.len());
    assert_eq!(
        arr_res_six.before.to_u64s().into_iter().flatten().collect::<HashSet<_>>().len(),
        2
    )
}

#[test]
fn change_resolution_one_cell_and_a_null() {
    let c5 = cell_at(23.4, 12.4, h3o::Resolution::Five);
    let arr = CellIndexArray::from_options(vec![Some(c5), None]);
    let flat = arr.change_resolution(res(6)).unwrap();
    assert_eq!(flat.len(), 7);
    assert!(flat.to_u64s().iter().all(|v| v.is_some()));
    let list = arr.change_resolution_list(res(6)).unwrap();
    assert_eq!(list.len(), 2);
    assert_eq!(list.array_at(0).unwrap().len(), 7);
    assert!(list.array_at(1).is_none());
}

#[test]
fn change_resolution_coarsens_and_keeps() {
    let c9 = cell_at(12.3, 0.5, h3o::Resolution::Nine);
    let arr = CellIndexArray::from_values(vec![c9]);
    let same = arr.change_resolution(res(9)).unwrap();
    assert_eq!(same.to_u64s(), vec![Some(c9.to_u64())]);
    let coarse = arr.change_resolution(res(7)).unwrap();
    assert_eq!(coarse.to_u64s(), vec![Some(u64::from(h3(c9).parent(h3o::Resolution::Seven).unwrap()))]);
}

#[test]
fn paired_groups_match_list() {
    let arr = CellIndexArray::from_options(vec![
        Some(cell_at(23.4, 12.4, h3o::Resolution::Five)),
        None,
        Some(cell_at(12.3, 0.5, h3o::Resolution::Four)),
    ]);
    let paired = arr.change_resolution_paired(res(6)).unwrap();
    let list = arr.change_resolution_list(res(6)).unwrap();
    let before = paired.before.to_u64s();
    let after = paired.after.to_u64s();
    assert_eq!(before.len(), after.len());
    let mut pos = 0;
    for (i, entry) in list.iter_arrays().into_iter().enumerate() {
        if let Some(group) = entry {
            let group = group.to_u64s();
            assert_eq!(&after[pos..pos + group.len()], &group[..]);
            assert!(before[pos..pos + group.len()].iter().all(|b| *b == arr.to_u64s()[i]));
            pos += group.len();
        }
    }
    assert_eq!(pos, after.len());
}

fn full_sibling_group() -> (CellIndex, Vec<CellIndex>) {
    let parent = cell_at(23.4, 12.4, h3o::Resolution::Four);
    let children = h3(parent)
        .children(h3o::Resolution::Five)
        .map(|c| CellIndex::try_from_u64(u64::from(c)).unwrap())
        .collect();
    (parent, children)
}

#[test]
fn compact_full_sibling_group() {
    let (parent, children) = full_sibling_group();
    let arr = CellIndexArray::from_values(children);
    let compacted = arr.compact().unwrap();
    assert_eq!(compacted.to_u64s(), vec![Some(parent.to_u64())]);
    assert_eq!(compacted.get(0).unwrap().resolution(), res(4));
}

#[test]
fn compact_errors() {
    let a = cell_at(23.4, 12.4, h3o::Resolution::Five);
    let b = cell_at(12.3, 0.5, h3o::Resolution::Nine);
    let mixed = CellIndexArray::from_values(vec![a, b]);
    assert!(matches!(mixed.compact(), Err(Error::CompactionError(CompactionFailure::HeterogeneousResolution))));
    let dup = CellIndexArray::from_values(vec![a, a]);
    assert!(matches!(dup.compact(), Err(Error::CompactionError(CompactionFailure::DuplicateInput))));
}

fn mixed_input() -> CellIndexArray {
    let (parent, children) = full_sibling_group();
    let mut values: Vec<Option<CellIndex>> = children.into_iter().map(Some).collect();
    // a grandchild already covered by the group, a duplicate, a null, and an unrelated cell
    let grandchild = h3(parent).children(h3o::Resolution::Six).next().unwrap();
    values.push(Some(CellIndex::try_from_u64(u64::from(grandchild)).unwrap()));
    values.push(values[0]);
    values.push(None);
    values.push(Some(cell_at(12.3, 0.5, h3o::Resolution::Nine)));
    CellIndexArray::from_options(values)
}

#[test]
fn compact_mixed_resolutions_merges_levels() {
    let (parent, _) = full_sibling_group();
    let out = mixed_input().compact_mixed_resolutions().unwrap();
    let mut got: Vec<u64> = out.to_u64s().into_iter().map(|v| v.unwrap()).collect();
    got.sort();
    let mut expected = vec![parent.to_u64(), cell_at(12.3, 0.5, h3o::Resolution::Nine).to_u64()];
    expected.sort();
    assert_eq!(got, expected);
}

#[test]
fn compact_mixed_resolutions_idempotent() {
    let once = mixed_input().compact_mixed_resolutions().unwrap();
    let twice = once.compact_mixed_resolutions().unwrap();
    assert_eq!(once.to_u64s(), twice.to_u64s());
}

#[test]
fn compact_mixed_keeps_coverage() {
    let input = mixed_input();
    let out = input.compact_mixed_resolutions().unwrap();
    let a: HashSet<u64> = out.uncompact(res(9)).to_u64s().into_iter().flatten().collect();
    let b: HashSet<u64> = input.uncompact(res(9)).to_u64s().into_iter().flatten().collect();
    assert_eq!(a, b);
}

#[test]
fn compact_mixed_has_no_ancestor_pairs() {
    let out = mixed_input().compact_mixed_resolutions().unwrap();
    let cells: Vec<h3o::CellIndex> = out.to_u64s().into_iter().map(|v| h3o::CellIndex::try_from(v.unwrap()).unwrap()).collect();
    for a in &cells {
        for c in &cells {
            if a.resolution() < c.resolution() {
                assert_ne!(c.parent(a.resolution()), Some(*a));
            }
        }
    }
    let unique: HashSet<_> = cells.iter().collect();
    assert_eq!(unique.len(), cells.len());
}

#[test]
fn uncompact_expands_and_drops_finer() {
    let c4 = cell_at(23.4, 12.4, h3o::Resolution::Four);
    let c9 = cell_at(12.3, 0.5, h3o::Resolution::Nine);
    let arr = CellIndexArray::from_options(vec![Some(c4), None, Some(c9)]);
    let out = arr.uncompact(res(5));
    assert_eq!(out.len(), 7);
}

#[test]
fn grid_disk_and_distances() {
    let arr = sample();
    let disks = arr.grid_disk(1).unwrap();
    assert_eq!(disks.len(), 3);
    assert_eq!(disks.array_at(0).unwrap().len(), 7);
    assert!(disks.array_at(1).is_none());

    let d = arr.grid_disk_distances(2).unwrap();
    assert_eq!(d.cells.len(), 3);
    assert_eq!(d.distances.len(), 3);
    let dist0 = d.distances.value(0).unwrap();
    assert_eq!(dist0.len(), 19);
    assert_eq!(dist0.iter().filter(|k| **k == 0).count(), 1);
    assert!(d.distances.value(1).is_none());
}

#[test]
fn grid_ring_distances_filters() {
    let arr = sample();
    let r = arr.grid_ring_distances(1, 2).unwrap();
    let dist0 = r.distances.value(0).unwrap();
    assert_eq!(dist0.len(), 18);
    assert!(dist0.iter().all(|k| *k >= 1 && *k <= 2));
    assert_eq!(r.cells.array_at(0).unwrap().len(), 18);
}

#[test]
fn grid_ring_distances_rejects_bounds() {
    let arr = sample();
    assert!(matches!(arr.grid_ring_distances(2, 1), Err(Error::InvalidKRange { k_min: 2, k_max: 1 })));
    assert!(matches!(arr.grid_ring_distances(1, 1), Err(Error::InvalidKRange { .. })));
}

#[test]
fn grid_disk_aggregate_k_min_and_max() {
    let a = h3o::LatLng::new(23.4, 12.4).unwrap().to_cell(h3o::Resolution::Five);
    let b = a.grid_ring_fast(3).next().unwrap().unwrap();
    let path: Vec<h3o::CellIndex> = a.grid_path_cells(b).unwrap().map(|c| c.unwrap()).collect();
    let dest = path[1];
    assert_eq!(a.grid_distance(dest).unwrap(), 1);
    assert_eq!(b.grid_distance(dest).unwrap(), 2);

    let arr = CellIndexArray::from_options(vec![
        Some(CellIndex::try_from_u64(u64::from(a)).unwrap()),
        None,
        Some(CellIndex::try_from_u64(u64::from(b)).unwrap()),
    ]);
    for (method, expected) in [(KAggregationMethod::Min, 1u32), (KAggregationMethod::Max, 2u32)] {
        let agg = arr.grid_disk_aggregate_k(2, method).unwrap();
        let cells = agg.cells.to_u64s();
        assert_eq!(cells.len(), agg.distances.len());
        let unique: HashSet<_> = cells.iter().collect();
        assert_eq!(unique.len(), cells.len());
        let pos = cells.iter().position(|c| *c == Some(u64::from(dest))).unwrap();
        assert_eq!(agg.distances[pos], expected);
    }
}

#[test]
fn cellset_compacts_and_uncompacts() {
    let (parent, children) = full_sibling_group();
    let mut set = CellSet::new();
    assert!(set.is_empty());
    for c in &children {
        set.insert(*c);
    }
    set.insert(children[0]);
    assert!(!set.is_empty());
    set.finalize(true).unwrap();
    assert_eq!(set.iter_compacted(), vec![parent.to_u64()]);
    let mut leaves = set.iter_uncompacted(res(5));
    leaves.sort();
    let mut expected: Vec<u64> = children.iter().map(|c| c.to_u64()).collect();
    expected.sort();
    assert_eq!(leaves, expected);
}
