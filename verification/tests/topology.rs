use road_topo::builder::{build_geograph_from_lines, build_geograph_from_lines_with_data};
use road_topo::coords::Coord;
use road_topo::crs::{Crs, CrsCode, CrsKind};
use road_topo::errors::TopoError;
use road_topo::graph::{AttributeValue, GeoGraph};
use road_topo::unify::project_geograph;

fn c(x: i64, y: i64) -> Coord {
    Coord { x, y }
}

#[test]
fn test_build_geograph_from_lines() {
    let node_1_coord = c(0, 0);
    let node_2_coord = c(10, 0);
    let node_3_coord = c(20, 0);
    let node_4_coord = c(10, 10);

    let lines: Vec<Vec<Coord>> = vec![
        vec![node_1_coord, node_2_coord],
        vec![node_2_coord, node_3_coord],
        vec![node_2_coord, node_4_coord],
    ];
    let graph: GeoGraph = build_geograph_from_lines(lines.clone()).unwrap();

    // The expected start and end node indices of edges in the graph.
    let expected_edge_indices = [(0u64, 1u64), (1, 2), (1, 3)];
    assert_eq!(expected_edge_indices.len(), graph.edge_graph().edge_count());
    for (edge_index, (start_node_index, end_node_index)) in
        expected_edge_indices.iter().enumerate()
    {
        let expected_line = lines.get(edge_index).unwrap();
        let edge = graph
            .edge_graph()
            .edge_weight(*start_node_index, *end_node_index)
            .unwrap()
            .get(0)
            .unwrap();
        assert_eq!(*expected_line, edge.geometry);
    }

    // The expected node coordinates in order of the expected node indices.
    let expected_node_coords = [node_1_coord, node_2_coord, node_3_coord, node_4_coord];
    assert_eq!(graph.node_map().len(), expected_node_coords.len());
    for (node_index, expected_coord) in expected_node_coords.iter().enumerate() {
        let node = graph.node_map().get(node_index as u64).unwrap();
        assert_eq!(*expected_coord, node.geometry);
    }
}

#[test]
fn test_build_geograph_from_lines_with_data() {
    let node_1_coord = c(0, 0);
    let node_2_coord = c(10, 0);
    let node_3_coord = c(20, 0);

    let lines: Vec<Vec<Coord>> = vec![
        vec![node_1_coord, node_2_coord],
        vec![node_2_coord, node_3_coord],
    ];
    let data = vec![
        AttributeValue::Text("a".to_string()),
        AttributeValue::Text("b".to_string()),
    ];

    let graph: GeoGraph = build_geograph_from_lines_with_data(lines, data.clone()).unwrap();

    let expected_edge_indices = [(0u64, 1u64), (1, 2)];

    for (expected_data_item, (start_node_id, end_node_id)) in
        data.iter().zip(expected_edge_indices)
    {
        let edge = graph.edge_graph().edge_weight(start_node_id, end_node_id).unwrap();
        // We expect one edge, no parallel edges.
        assert_eq!(1, edge.len());
        assert_eq!(*expected_data_item, edge.get(0).unwrap().data);
    }
}

#[test]
fn test_project_geograph() {
    // EPSG 4326 coordinates in microdegrees.
    let node_1_coord = c(139_789_507, 35_686_210);
    let node_2_coord = c(139_791_298, 35_687_013);
    let node_3_coord = c(139_791_913, 35_686_236);

    let lines: Vec<Vec<Coord>> = vec![
        vec![node_1_coord, node_2_coord],
        vec![node_2_coord, node_3_coord],
    ];

    let mut graph: GeoGraph = build_geograph_from_lines(lines).unwrap();
    assert_eq!(graph.crs.code, CrsCode::Epsg(4326));

    // UTM zone 54N coordinates of the three nodes, in millimetres, from an
    // independent reference transform.
    let exp_node_1 = c(390_467_986, 3_949_820_494);
    let exp_node_2 = c(390_631_113, 3_949_907_576);
    let exp_node_3 = c(390_685_694, 3_949_820_653);
    let target_crs = Crs { kind: CrsKind::Projected, code: CrsCode::Epsg(32654) };

    let node_geoms = vec![exp_node_1, exp_node_2, exp_node_3];
    let edge_geoms = vec![
        vec![vec![exp_node_1, exp_node_2]],
        vec![vec![exp_node_2, exp_node_3]],
    ];
    project_geograph(&mut graph, &target_crs, &node_geoms, &edge_geoms).unwrap();

    let expected_node_coords = [exp_node_1, exp_node_2, exp_node_3];
    for (index, expected) in expected_node_coords.iter().enumerate() {
        let node_geom = graph.node_map().get(index as u64).unwrap().geometry;
        assert_eq!(node_geom, *expected);
    }

    let expected_node_indices = [(0u64, 1u64), (1, 2)];
    for (start_node_idx, end_node_idx) in expected_node_indices {
        let edge = graph
            .edge_graph()
            .edge_weight(start_node_idx, end_node_idx)
            .unwrap()
            .get(0)
            .unwrap();
        let start_node_geom = edge.geometry.first().unwrap();
        assert_eq!(*start_node_geom, expected_node_coords[start_node_idx as usize]);
        let end_node_geom = edge.geometry.last().unwrap();
        assert_eq!(*end_node_geom, expected_node_coords[end_node_idx as usize]);
    }

    assert_eq!(graph.crs.code, target_crs.code);
}

#[test]
fn test_project_geograph_identity_keeps_coordinates() {
    // Reprojecting a graph onto its own coordinates changes nothing.
    let lines: Vec<Vec<Coord>> = vec![vec![c(0, 0), c(10, 0)], vec![c(10, 0), c(10, 10)]];
    let mut graph: GeoGraph = build_geograph_from_lines(lines).unwrap();
    let target = Crs { kind: CrsKind::Projected, code: CrsCode::Epsg(32633) };
    let node_geoms = vec![c(0, 0), c(10, 0), c(10, 10)];
    let edge_geoms = vec![vec![vec![c(0, 0), c(10, 0)]], vec![vec![c(10, 0), c(10, 10)]]];
    project_geograph(&mut graph, &target, &node_geoms, &edge_geoms).unwrap();
    assert_eq!(graph.node_map().get(0).unwrap().geometry, c(0, 0));
    assert_eq!(graph.node_map().get(1).unwrap().geometry, c(10, 0));
    assert_eq!(graph.node_map().get(2).unwrap().geometry, c(10, 10));
    assert_eq!(graph.crs.code, CrsCode::Epsg(32633));
}

#[test]
fn test_project_geograph_rejects_broken_endpoints() {
    // A transform whose edge endpoints do not meet their nodes is refused
    // and leaves the graph untouched.
    let lines: Vec<Vec<Coord>> = vec![vec![c(0, 0), c(10, 0)]];
    let mut graph: GeoGraph = build_geograph_from_lines(lines).unwrap();
    let target = Crs { kind: CrsKind::Projected, code: CrsCode::Epsg(32633) };
    let node_geoms = vec![c(1, 1), c(11, 1)];
    let edge_geoms = vec![vec![vec![c(2, 2), c(11, 1)]]];
    let r = project_geograph(&mut graph, &target, &node_geoms, &edge_geoms);
    assert_eq!(r, Err(TopoError::InvalidGeometry));
    assert_eq!(graph.node_map().get(0).unwrap().geometry, c(0, 0));
    assert_eq!(graph.crs.code, CrsCode::Epsg(4326));
}

#[test]
fn test_insert_node_conflict_is_invalid_geometry() {
    let mut graph = GeoGraph::new(road_topo::crs::epsg_4326());
    graph.insert_node(0, c(0, 0)).unwrap();
    // Re-inserting the same node with the same point is fine.
    graph.insert_node(0, c(0, 0)).unwrap();
    // A different point under the same id is refused.
    assert_eq!(graph.insert_node(0, c(1, 0)), Err(TopoError::InvalidGeometry));
}

#[test]
fn test_insert_edge_too_short_is_invalid_geometry() {
    let mut graph = GeoGraph::new(road_topo::crs::epsg_4326());
    assert_eq!(
        graph.insert_edge(0, 1, vec![c(0, 0)]),
        Err(TopoError::InvalidGeometry)
    );
}

#[test]
fn test_build_with_data_length_mismatch_is_invalid_parameter() {
    let lines: Vec<Vec<Coord>> = vec![vec![c(0, 0), c(10, 0)]];
    let r = build_geograph_from_lines_with_data(lines, vec![]);
    assert!(matches!(r, Err(TopoError::InvalidParameter)));
}

#[test]
fn test_parallel_edges_are_kept() {
    let lines: Vec<Vec<Coord>> = vec![
        vec![c(0, 0), c(10, 0)],
        vec![c(0, 0), c(5, 5), c(10, 0)],
    ];
    let graph: GeoGraph = build_geograph_from_lines(lines).unwrap();
    assert_eq!(graph.edge_graph().edge_count(), 1);
    let parallel = graph.edge_graph().edge_weight(0, 1).unwrap();
    assert_eq!(parallel.len(), 2);
    assert_eq!(parallel[0].geometry, vec![c(0, 0), c(10, 0)]);
    assert_eq!(parallel[1].geometry, vec![c(0, 0), c(5, 5), c(10, 0)]);
}

#[test]
fn test_project_geograph_matches_reference_transform() {
    // Reproject a geographic graph to its auto-selected UTM zone with an
    // independent transformer, and hold the result against reference
    // coordinates. The integer model counts centimetres here, so agreement
    // is checked to a few centimetres.
    let node_coords_deg = [
        (139.7895073, 35.6862101),
        (139.7912979, 35.6870132),
        (139.7919128, 35.6862357),
    ];
    let to_udeg = |&(lon, lat): &(f64, f64)| c((lon * 1e6).round() as i64, (lat * 1e6).round() as i64);
    let lines: Vec<Vec<Coord>> = vec![
        vec![to_udeg(&node_coords_deg[0]), to_udeg(&node_coords_deg[1])],
        vec![to_udeg(&node_coords_deg[1]), to_udeg(&node_coords_deg[2])],
    ];
    let mut graph: GeoGraph = build_geograph_from_lines(lines).unwrap();

    // The auto-selected zone for the first node.
    let first = road_topo::unify::first_node_coordinate(&graph).unwrap();
    let zone_letter = road_topo::crs::lat_to_zone_letter(first.y).unwrap();
    let zone_number = road_topo::crs::lat_lon_to_zone_number(first.y, first.x);
    assert_eq!((zone_number, zone_letter), (54, 'S'));
    let code = road_topo::unify::utm_zone_epsg_code(zone_number, zone_letter);
    assert_eq!(code, 32654);

    // Transform every coordinate independently, in centimetres.
    let scale = 100.0;
    let utm_cm = |co: Coord| {
        let (northing, easting, _) = utm::to_utm_wgs84(co.y as f64 / 1e6, co.x as f64 / 1e6, zone_number);
        c((easting * scale).round() as i64, (northing * scale).round() as i64)
    };
    let node_geoms: Vec<Coord> = (0..3)
        .map(|k| utm_cm(graph.node_map().get(k).unwrap().geometry))
        .collect();
    let edge_geoms = vec![
        vec![vec![node_geoms[0], node_geoms[1]]],
        vec![vec![node_geoms[1], node_geoms[2]]],
    ];
    let target = Crs { kind: CrsKind::Projected, code: CrsCode::Epsg(code) };
    project_geograph(&mut graph, &target, &node_geoms, &edge_geoms).unwrap();

    // Reference UTM 54N coordinates in metres, from an independent
    // converter.
    let expected_m = [
        (390467.986, 3949820.494),
        (390631.113, 3949907.576),
        (390685.694, 3949820.653),
    ];
    for (k, (ex, ey)) in expected_m.iter().enumerate() {
        let geom = graph.node_map().get(k as u64).unwrap().geometry;
        let x_m = geom.x as f64 / scale;
        let y_m = geom.y as f64 / scale;
        assert!((x_m - ex).abs() < 0.05, "x {} vs {}", x_m, ex);
        assert!((y_m - ey).abs() < 0.05, "y {} vs {}", y_m, ey);
    }
    assert_eq!(graph.crs.code, CrsCode::Epsg(32654));
}
