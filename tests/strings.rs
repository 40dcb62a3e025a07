use h3arrow::array::{CellIndexArray, DirectedEdgeIndexArray, VertexIndexArray};
use h3arrow::error::Error;
use h3arrow::index::{CellIndex, DirectedEdgeIndex, H3IndexArrayValue, Resolution, VertexIndex};
use h3arrow::string::{is_whitespace, parse_cell, parse_coordinate_and_resolution, parse_directededge, parse_vertex, CellText, ToHexString};

fn cell_at(lat: f64, lng: f64, res: h3o::Resolution) -> CellIndex {
    let raw = u64::from(h3o::LatLng::new(lat, lng).unwrap().to_cell(res));
    CellIndex::try_from_u64(raw).unwrap()
}

/// Reads a cell the way callers do: the coordinate triple converted through h3o.
fn read_cell(s: &str) -> Result<CellIndex, Error> {
    match parse_cell(s)? {
        CellText::Index(c) => Ok(c),
        CellText::Coordinate(t) => {
            let x: f64 = t.x.parse().map_err(|_| Error::NonParsableCellIndex)?;
            let y: f64 = t.y.parse().map_err(|_| Error::NonParsableCellIndex)?;
            let ll = h3o::LatLng::new(y, x).map_err(|_| Error::NonParsableCellIndex)?;
            let r = Resolution::try_from_u8(t.resolution)?;
            let cell = ll.to_cell(h3o::Resolution::try_from(r.value()).unwrap());
            CellIndex::try_from_u64(u64::from(cell))
        }
    }
}

fn parse_cells(strings: &[Option<String>], set_failing_to_invalid: bool) -> Result<CellIndexArray, Error> {
    let results = strings.iter().map(|s| s.as_ref().map(|s| read_cell(s))).collect();
    CellIndexArray::from_parse_results(results, set_failing_to_invalid)
}

#[test]
fn parse_cell_from_numeric() {
    let cell = CellIndex::try_from_u64(0x89283080ddbffff_u64).unwrap();
    let s = format!("{}", cell.to_u64());

    let cell2 = read_cell(&s).unwrap();
    assert_eq!(cell, cell2);
}

#[test]
fn parse_cell_from_coordinate_and_resolution() {
    let h = h3o::CellIndex::try_from(0x89283080ddbffff_u64).unwrap();
    let ll = h3o::LatLng::from(h);
    let s = format!("{},{},{}", ll.lng(), ll.lat(), h.resolution());

    let cell2 = read_cell(&s).unwrap();
    assert_eq!(CellIndex::try_from_u64(u64::from(h)).unwrap(), cell2);
}

#[test]
fn parse_utf8_array_cells() {
    let cell = CellIndex::try_from_u64(0x89283080ddbffff_u64).unwrap();
    let strings = vec![Some(cell.to_hex_string()), Some(cell.to_u64().to_string())];
    let cell_array = parse_cells(&strings, false).unwrap();
    assert_eq!(cell_array.len(), strings.len());
    assert!(cell_array.to_vec().iter().all(|v| *v == Some(cell)))
}

#[test]
fn parse_utf8_array_cells_invalid_fail() {
    let strings = vec![Some("invalid".to_string())];
    assert!(parse_cells(&strings, false).is_err());
}

#[test]
fn parse_utf8_array_cells_invalid_to_invalid() {
    let strings = vec![Some("invalid".to_string())];
    let cell_array = parse_cells(&strings, true).unwrap();
    assert_eq!(1, cell_array.len());
    assert!(cell_array.to_vec().iter().all(|v| v.is_none()))
}

#[test]
fn to_stringarray() {
    let cellindexarray = CellIndexArray::from_with_validity(vec![Some(0x89283080ddbffff_u64), None]);

    let stringarray = cellindexarray.to_genericstringarray();

    assert_eq!(cellindexarray.len(), stringarray.len());
    assert_eq!(stringarray[0].is_some(), true);
    assert_eq!(stringarray[0].as_deref(), Some("89283080ddbffff"));
    assert_eq!(stringarray[1].is_some(), false);
}

#[test]
fn to_stringarray_roundtrip() {
    let arr = CellIndexArray::from_values(vec![
        cell_at(23.4, 12.4, h3o::Resolution::Five),
        cell_at(12.3, 0.5, h3o::Resolution::Nine),
    ]);

    let stringarray = arr.to_genericstringarray();
    assert_eq!(stringarray.len(), arr.len());

    assert_eq!(
        stringarray.iter().flatten().cloned().collect::<Vec<_>>(),
        vec!["855968a3fffffff", "89599da10d3ffff"]
    );

    let arr2 = parse_cells(&stringarray, false).unwrap();
    assert!(arr.to_u64s() == arr2.to_u64s());
}

#[test]
fn parse_to_string_round_trip() {
    for c in [cell_at(23.4, 12.4, h3o::Resolution::Zero), cell_at(-33.9, 151.2, h3o::Resolution::Fifteen)] {
        assert_eq!(parse_cell(&c.to_hex_string()), Ok(CellText::Index(c)));
    }
}

#[test]
fn parse_cell_text_forms() {
    assert_eq!(parse_cell("invalid"), Err(Error::NonParsableCellIndex));
    assert_eq!(parse_cell("0"), Err(Error::NonParsableCellIndex));
    let t = parse_coordinate_and_resolution("  10.2 ; 45.5 ;5").unwrap();
    assert_eq!((t.x.as_str(), t.y.as_str(), t.resolution), ("10.2", "45.5", 5));
    let t = parse_coordinate_and_resolution("10.2,45.5,123").unwrap();
    assert_eq!(t.resolution, 12);
    assert!(parse_coordinate_and_resolution("10.2,45.5").is_none());
    assert!(parse_coordinate_and_resolution(",45.5,3").is_none());
    assert!(matches!(read_cell("10.2,45.5,16"), Err(Error::InvalidResolution(16))));
    assert!(is_whitespace(' ') && is_whitespace('\t') && !is_whitespace('x'));
}

#[test]
fn parse_edges_and_vertices() {
    let c = h3o::LatLng::new(23.4, 12.4).unwrap().to_cell(h3o::Resolution::Five);
    let edge = c.edges().next().unwrap();
    let vertex = c.vertexes().next().unwrap();
    let e = parse_directededge(&edge.to_string()).unwrap();
    assert_eq!(e.to_u64(), u64::from(edge));
    assert_eq!(parse_directededge(&u64::from(edge).to_string()).unwrap().to_u64(), u64::from(edge));
    assert_eq!(parse_directededge(&c.to_string()), Err(Error::NonParsableDirectedEdgeIndex));
    let v = parse_vertex(&vertex.to_string()).unwrap();
    assert_eq!(v.to_u64(), u64::from(vertex));
    assert_eq!(parse_vertex("x"), Err(Error::NonParsableVertexIndex));
    let edges = DirectedEdgeIndexArray::from_values(vec![DirectedEdgeIndex::try_from_u64(u64::from(edge)).unwrap()]);
    assert_eq!(edges.to_genericstringarray(), vec![Some(edge.to_string())]);
    let vertexes = VertexIndexArray::from_values(vec![VertexIndex::try_from_u64(u64::from(vertex)).unwrap()]);
    assert_eq!(vertexes.to_genericstringarray(), vec![Some(vertex.to_string())]);
}

#[test]
fn coordinate_text_accepts_nan_and_inf() {
    let t = parse_coordinate_and_resolution("nan,1,5").unwrap();
    assert_eq!((t.x.as_str(), t.y.as_str(), t.resolution), ("nan", "1", 5));
    let t = parse_coordinate_and_resolution("-Infinity; 2.5e1 ;7").unwrap();
    assert_eq!((t.x.as_str(), t.y.as_str(), t.resolution), ("-Infinity", "2.5e1", 7));
    assert!(matches!(parse_cell("nan,1,5"), Ok(CellText::Coordinate(_))));
}
