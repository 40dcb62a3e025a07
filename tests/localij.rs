use h3arrow::array::CellIndexArray;
use h3arrow::error::Error;
use h3arrow::index::{CellIndex, H3IndexArrayValue};
use h3arrow::localij::LocalIJArrays;

fn cell_at(lat: f64, lng: f64, res: h3o::Resolution) -> CellIndex {
    let raw = u64::from(h3o::LatLng::new(lat, lng).unwrap().to_cell(res));
    CellIndex::try_from_u64(raw).unwrap()
}

#[test]
fn local_ij_round_trip() {
    let anchor = cell_at(23.4, 12.4, h3o::Resolution::Nine);
    let near = h3o::CellIndex::try_from(anchor.to_u64()).unwrap().grid_disk::<Vec<_>>(2);
    let cells: Vec<Option<CellIndex>> = near
        .iter()
        .map(|c| Some(CellIndex::try_from_u64(u64::from(*c)).unwrap()))
        .chain(std::iter::once(None))
        .collect();
    let arr = CellIndexArray::from_options(cells);
    let local = arr.to_local_ij(anchor, false).unwrap();
    assert_eq!(local.i.len(), arr.len());
    assert_eq!(local.i[arr.len() - 1], None);
    let expected = h3o::CellIndex::try_from(arr.get(1).unwrap().to_u64()).unwrap().to_local_ij(h3o::CellIndex::try_from(anchor.to_u64()).unwrap()).unwrap();
    assert_eq!((local.i[1], local.j[1]), (Some(expected.coord.i), Some(expected.coord.j)));
    let back = local.to_cells().unwrap();
    assert_eq!(back.to_u64s(), arr.to_u64s());
}

#[test]
fn local_ij_length_mismatch() {
    let anchor = cell_at(23.4, 12.4, h3o::Resolution::Nine);
    let anchors = CellIndexArray::from_values(vec![anchor]);
    assert!(matches!(LocalIJArrays::try_new(anchors, vec![Some(0)], vec![]), Err(Error::LengthMismatch)));
    let arr = CellIndexArray::from_values(vec![anchor, anchor]);
    let anchors = CellIndexArray::from_values(vec![anchor]);
    assert!(matches!(arr.to_local_ij_array(anchors, true), Err(Error::LengthMismatch)));
}

#[test]
fn local_ij_too_far() {
    let anchor = cell_at(23.4, 12.4, h3o::Resolution::Nine);
    let far = cell_at(-40.0, -120.0, h3o::Resolution::Nine);
    let arr = CellIndexArray::from_values(vec![far]);
    assert!(matches!(arr.to_local_ij(anchor, false), Err(Error::LocalIjError)));
    let local = arr.to_local_ij(anchor, true).unwrap();
    assert_eq!(local.i, vec![None]);
    assert_eq!(local.j, vec![None]);
}
