use h3arrow::array::{CellIndexArray, DirectedEdgeIndexArray, FromIteratorWithValidity, FromWithValidity, VertexIndexArray};
use h3arrow::error::Error;
use h3arrow::index::{CellIndex, H3IndexArrayValue, Resolution};
use h3arrow::list::{H3ListArray, H3ListArrayBuilder};
use h3arrow::resolution::ResolutionArray;

fn cell_at(lat: f64, lng: f64, res: h3o::Resolution) -> CellIndex {
    let raw = u64::from(h3o::LatLng::new(lat, lng).unwrap().to_cell(res));
    CellIndex::try_from_u64(raw).unwrap()
}

fn res(r: u8) -> Resolution {
    Resolution::try_from_u8(r).unwrap()
}

#[test]
fn construct_invalid_fails() {
    let res: Result<CellIndexArray, _> = CellIndexArray::try_from_u64s(vec![
        u64::from(h3o::LatLng::new(23.4, 12.4).unwrap().to_cell(h3o::Resolution::Five)),
        0,
    ]);
    assert!(res.is_err());
    assert!(matches!(res, Err(Error::InvalidCellIndex(0))));
}

#[test]
fn resolution() {
    let arr = CellIndexArray::from_values(vec![
        cell_at(23.4, 12.4, h3o::Resolution::Five),
        cell_at(12.3, 0.5, h3o::Resolution::Nine),
    ]);

    let r_arr = arr.resolution();
    assert_eq!(r_arr.len(), arr.len());
    let r_values: Vec<_> = r_arr.iter();
    assert_eq!(r_values, vec![Some(res(5)), Some(res(9))]);
}

#[test]
fn children() {
    let arr = CellIndexArray::from_values(vec![
        cell_at(23.4, 12.4, h3o::Resolution::Five),
        cell_at(12.3, 0.5, h3o::Resolution::Nine),
    ]);

    let children = arr.children(res(6)).unwrap();
    assert_eq!(children.len(), 2);
    let cellarray = children.iter_arrays().into_iter().next().flatten().unwrap();
    assert_eq!(cellarray.len(), 7);

    for child in cellarray.to_vec().into_iter().flatten() {
        assert_eq!(arr.get(0), child.parent(res(5)));
    }
}

#[test]
fn construct() {
    let cell = h3o::LatLng::new(23.4, 12.4).unwrap().to_cell(h3o::Resolution::Five);
    let disk = |k: u32| -> Vec<CellIndex> {
        cell.grid_disk::<Vec<_>>(k)
            .into_iter()
            .map(|c| CellIndex::try_from_u64(u64::from(c)).unwrap())
            .collect()
    };

    let mut builder = H3ListArrayBuilder::<CellIndex>::with_capacity(10, 10);
    builder.append_many(disk(1));
    builder.append(true);
    builder.append(false);
    builder.append_many(disk(2));
    builder.append(true);

    let list = builder.finish().unwrap();

    assert_eq!(list.len(), 3);
    let mut list_iter = list.iter_arrays().into_iter();
    assert_eq!(list_iter.next().unwrap().unwrap().len(), 7);
    assert!(list_iter.next().unwrap().is_none());
    assert_eq!(list_iter.next().unwrap().unwrap().len(), 19);
    assert!(list_iter.next().is_none());
    drop(list_iter);

    let cells = list.into_flattened().unwrap();
    assert_eq!(cells.len(), 26);
}

#[test]
fn null_entry_drops_pushed_values() {
    let cell = cell_at(23.4, 12.4, h3o::Resolution::Five);
    let mut builder = H3ListArrayBuilder::<CellIndex>::with_capacity(2, 2);
    builder.append_value(cell);
    builder.append(false);
    builder.append_value(cell);
    builder.append(true);
    let list = builder.finish().unwrap();
    assert_eq!(list.len(), 2);
    assert!(list.array_at(0).is_none());
    assert_eq!(list.array_at(1).unwrap().len(), 1);
    assert_eq!(list.into_flattened().unwrap().len(), 1);
}

#[test]
fn from_with_validity_nulls_invalid() {
    let valid = u64::from(h3o::LatLng::new(23.4, 12.4).unwrap().to_cell(h3o::Resolution::Five));
    let arr = CellIndexArray::from_with_validity(vec![Some(valid), Some(0), None, Some(u64::MAX)]);
    assert_eq!(arr.len(), 4);
    assert_eq!(arr.to_u64s(), vec![Some(valid), None, None, None]);
}

#[test]
fn raw_round_trip() {
    let arr = CellIndexArray::from_options(vec![
        Some(cell_at(23.4, 12.4, h3o::Resolution::Five)),
        None,
        Some(cell_at(12.3, 0.5, h3o::Resolution::Nine)),
    ]);
    let raw = arr.to_u64s();
    let back = CellIndexArray::try_from_options(raw.clone()).unwrap();
    assert_eq!(back.to_u64s(), raw);
    assert_eq!(back.len(), 3);
    assert!(back.get(1).is_none());
}

#[test]
fn slice_and_new_null() {
    let arr = CellIndexArray::from_options(vec![
        Some(cell_at(23.4, 12.4, h3o::Resolution::Five)),
        None,
        Some(cell_at(12.3, 0.5, h3o::Resolution::Nine)),
    ]);
    let s = arr.slice(1, 2);
    assert_eq!(s.len(), 2);
    assert!(s.get(0).is_none());
    assert_eq!(s.get(1), arr.get(2));
    let nulls = CellIndexArray::new_null(3);
    assert_eq!(nulls.to_u64s(), vec![None, None, None]);
    assert!(CellIndexArray::new_null(0).is_empty());
}

#[test]
fn builder_appends_and_resets() {
    let mut b = CellIndexArray::builder(2);
    b.append_value(cell_at(23.4, 12.4, h3o::Resolution::Five));
    b.append_null();
    let arr = b.finish();
    assert_eq!(arr.len(), 2);
    assert!(arr.get(1).is_none());
    assert!(b.finish().is_empty());
}

#[test]
fn parent_at_finer_resolution_is_null() {
    let c5 = cell_at(23.4, 12.4, h3o::Resolution::Five);
    let arr = CellIndexArray::from_options(vec![Some(c5), None]);
    let parents = arr.parent(res(4));
    let expected = u64::from(h3o::CellIndex::try_from(c5.to_u64()).unwrap().parent(h3o::Resolution::Four).unwrap());
    assert_eq!(parents.to_u64s(), vec![Some(expected), None]);
    assert_eq!(arr.parent(res(6)).to_u64s(), vec![None, None]);
    assert_eq!(arr.children_count(res(6)), vec![Some(7), None]);
}

#[test]
fn resolution_array_checks() {
    assert!(matches!(Resolution::try_from_u8(16), Err(Error::InvalidResolution(16))));
    assert!(matches!(ResolutionArray::try_from_u8s(vec![Some(3), Some(20)]), Err(Error::InvalidResolution(20))));
    let arr = ResolutionArray::from_with_validity(vec![Some(0), Some(15), Some(16), None]);
    assert_eq!(arr.succ().into_inner(), vec![Some(1), None, None, None]);
    let arr = ResolutionArray::from_with_validity(vec![Some(0), Some(15), Some(16), None]);
    assert_eq!(arr.pred().into_inner(), vec![None, Some(14), None, None]);
}

#[test]
fn edges_and_vertices() {
    let c = h3o::LatLng::new(23.4, 12.4).unwrap().to_cell(h3o::Resolution::Five);
    let edge = c.edges().next().unwrap();
    let vertex = c.vertexes().next().unwrap();
    let edges = DirectedEdgeIndexArray::from_with_validity(vec![Some(u64::from(edge)), None, Some(u64::from(c))]);
    assert_eq!(edges.to_u64s(), vec![Some(u64::from(edge)), None, None]);
    assert_eq!(edges.origin().to_u64s(), vec![Some(u64::from(edge.origin())), None, None]);
    assert_eq!(edges.destination().to_u64s(), vec![Some(u64::from(edge.destination())), None, None]);
    let vertexes = VertexIndexArray::from_with_validity(vec![Some(u64::from(vertex))]);
    assert_eq!(vertexes.owner().to_u64s(), vec![Some(u64::from(vertex.owner()))]);
    assert!(matches!(DirectedEdgeIndexArray::try_from_u64s(vec![u64::from(c)]), Err(Error::InvalidDirectedEdgeIndex(_))));
    assert!(matches!(VertexIndexArray::try_from_u64s(vec![u64::from(c)]), Err(Error::InvalidVertexIndex(_))));
}

#[test]
fn list_array_from_entries() {
    let c = cell_at(23.4, 12.4, h3o::Resolution::Five).to_u64();
    let list = H3ListArray::<CellIndex>::try_from_entries(vec![Some(vec![c, c]), None, Some(vec![])]).unwrap();
    assert_eq!(list.len(), 3);
    assert_eq!(list.array_at(0).unwrap().len(), 2);
    assert!(list.array_at(1).is_none());
    assert_eq!(list.array_at(2).unwrap().len(), 0);
    assert!(matches!(
        H3ListArray::<CellIndex>::try_from_entries(vec![Some(vec![c]), Some(vec![c, 7])]),
        Err(Error::InvalidCellIndex(7))
    ));
}

#[test]
fn validity_conversion_traits() {
    let valid = u64::from(h3o::LatLng::new(23.4, 12.4).unwrap().to_cell(h3o::Resolution::Five));
    let a: CellIndexArray = FromWithValidity::from_with_validity(vec![valid, 3]);
    assert_eq!(a.to_u64s(), vec![Some(valid), None]);
    let b: CellIndexArray = FromIteratorWithValidity::from_iter_with_validity(vec![None, Some(valid)]);
    assert_eq!(b.to_u64s(), vec![None, Some(valid)]);
    let r: ResolutionArray = FromWithValidity::from_with_validity(vec![Some(3u8), Some(99)]);
    assert_eq!(r.into_inner(), vec![Some(3), None]);
}
