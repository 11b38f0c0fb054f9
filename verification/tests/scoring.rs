use road_topo::builder::build_geograph_from_lines;
use road_topo::coords::Coord;
use road_topo::crs::{epsg_code_to_authority_string, lat_lon_to_zone_number, lat_to_zone_letter,
    utm_zone_to_proj_string, Crs, CrsCode, CrsKind};
use road_topo::errors::TopoError;
use road_topo::graph::GeoGraph;
use road_topo::topo::{calculate_topo, Ratio, TopoParams, TopoResult};
use road_topo::unify::{crs_unification_plan, get_utm_zone_for_graph, utm_zone_epsg_code,
    UnificationPlan};

fn c(x: i64, y: i64) -> Coord {
    Coord { x, y }
}

fn as_f64(r: Ratio) -> f64 {
    r.num as f64 / r.den as f64
}

fn topo_of(proposal: Vec<Vec<Coord>>, ground_truth: Vec<Vec<Coord>>, d: i64, hole: i64) -> TopoResult {
    let proposal_graph: GeoGraph = build_geograph_from_lines(proposal).unwrap();
    let ground_truth_graph: GeoGraph = build_geograph_from_lines(ground_truth).unwrap();
    let params = TopoParams { resampling_distance: d, hole_radius: hole };
    calculate_topo(&proposal_graph, &ground_truth_graph, &params).unwrap()
}

#[test]
fn test_calculate_topo_perfectly_matching_lines() {
    let result = topo_of(
        vec![vec![c(0, 0), c(5, 0), c(11, 0)]],
        vec![vec![c(0, 0), c(5, 0), c(11, 0)]],
        11,
        6,
    );
    let score = result.f1_score_result;
    assert_eq!(as_f64(score.precision), 1.0);
    assert_eq!(as_f64(score.recall), 1.0);
    assert_eq!(as_f64(score.f1_score), 1.0);
    assert!(result.proposal_nodes.iter().all(|n| n.matched));
    assert!(result.ground_truth_nodes.iter().all(|n| n.matched));
}

#[test]
fn test_calculate_topo_unmatched_ground_truth_point() {
    // Two of three ground-truth points are matched, the far one stays
    // unmatched: precision 1, recall 2/3, F1 4/5.
    let result = topo_of(
        vec![vec![c(0, 0), c(6, 0)]],
        vec![vec![c(0, 0), c(6, 0), c(12, 0)]],
        6,
        5,
    );
    let score = result.f1_score_result;
    assert_eq!(as_f64(score.precision), 1.0);
    assert_eq!(as_f64(score.recall), 2.0 / 3.0);
    assert_eq!(as_f64(score.f1_score), 4.0 / 5.0);
    let matched_gt = result.ground_truth_nodes.iter().filter(|n| n.matched).count();
    assert_eq!(matched_gt, 2);
}

#[test]
fn test_ground_truth_claimed_at_most_once() {
    // Both proposal points lie within the hole radius of the single nearby
    // ground-truth point, but only one of them may claim it.
    let result = topo_of(
        vec![vec![c(0, 0), c(1, 0)]],
        vec![vec![c(0, 0), c(9, 0)]],
        100,
        3,
    );
    let matched_props = result.proposal_nodes.iter().filter(|n| n.matched).count();
    let matched_gts = result.ground_truth_nodes.iter().filter(|n| n.matched).count();
    assert_eq!(matched_props, 1);
    assert_eq!(matched_gts, 1);
    let score = result.f1_score_result;
    assert_eq!(as_f64(score.precision), 0.5);
    assert_eq!(as_f64(score.recall), 0.5);
    assert_eq!(as_f64(score.f1_score), 0.5);
}

#[test]
fn test_match_distances_are_exact_squared_distances() {
    // The proposal runs one unit above the ground truth: every match is at
    // squared distance 1.
    let result = topo_of(
        vec![vec![c(0, 1), c(8, 1)]],
        vec![vec![c(0, 0), c(8, 0)]],
        8,
        2,
    );
    for node in &result.proposal_nodes {
        assert!(node.matched);
        assert_eq!(node.match_squared_distance, Some(1));
    }
}

#[test]
fn test_empty_inputs_give_zero_denominators() {
    // The score formulas divide by zero on empty inputs; the exact ratios
    // keep the zero denominator for the caller to see.
    let result = topo_of(vec![], vec![], 10, 5);
    let score = result.f1_score_result;
    assert_eq!(score.precision.den, 0);
    assert_eq!(score.recall.den, 0);
    assert_eq!(score.f1_score.den, 0);
}

#[test]
fn test_epsg_code_to_authority_string() {
    assert_eq!(epsg_code_to_authority_string(32654), "EPSG:32654");
    assert_eq!(epsg_code_to_authority_string(0), "EPSG:0");
    assert_eq!(epsg_code_to_authority_string(4326), "EPSG:4326");
}

#[test]
fn test_utm_zone_to_proj_string_north_and_south() {
    // The northern variant leaves its hemisphere slot empty, doubling the
    // space; the equator-band letter M itself counts as southern.
    assert_eq!(
        utm_zone_to_proj_string(54, 'N', None).unwrap(),
        "+proj=utm +zone=54  +datum=WGS84"
    );
    assert_eq!(
        utm_zone_to_proj_string(34, 'H', None).unwrap(),
        "+proj=utm +zone=34 +south +datum=WGS84"
    );
    assert_eq!(
        utm_zone_to_proj_string(54, 'M', Some("NAD83")).unwrap(),
        "+proj=utm +zone=54 +south +datum=NAD83"
    );
    assert_eq!(utm_zone_to_proj_string(54, 'Z', None), Err(TopoError::InvalidParameter));
}

#[test]
fn test_zone_number_and_letter() {
    // Tokyo.
    assert_eq!(lat_lon_to_zone_number(35_707_318, 139_813_385), 54);
    assert_eq!(lat_to_zone_letter(35_707_318), Some('S'));
    // Cape Town: southern hemisphere.
    assert_eq!(lat_lon_to_zone_number(-33_924_870, 18_424_060), 34);
    assert_eq!(lat_to_zone_letter(-33_924_870), Some('H'));
    // The null island band starts zone 31.
    assert_eq!(lat_lon_to_zone_number(0, 0), 31);
    // Aachen falls in the regular band 32, below the Norway exception.
    assert_eq!(lat_lon_to_zone_number(50_775_350, 6_083_890), 32);
    // The Norway exception widens zone 32.
    assert_eq!(lat_lon_to_zone_number(60_000_000, 4_000_000), 32);
    // Svalbard bands.
    assert_eq!(lat_lon_to_zone_number(78_000_000, 20_000_000), 33);
    // Outside the lettered bands.
    assert_eq!(lat_to_zone_letter(-85_000_000), None);
    assert_eq!(lat_to_zone_letter(85_000_000), None);
}

#[test]
fn test_utm_zone_epsg_code() {
    assert_eq!(utm_zone_epsg_code(54, 'N'), 32654);
    assert_eq!(utm_zone_epsg_code(34, 'H'), 32734);
    assert_eq!(utm_zone_epsg_code(54, 'M'), 32754);
}

#[test]
fn test_crs_unification_plan_decisions() {
    let projected_a = Crs { kind: CrsKind::Projected, code: CrsCode::Epsg(32654) };
    let projected_b = Crs { kind: CrsKind::Projected, code: CrsCode::Epsg(32611) };
    let geographic = Crs { kind: CrsKind::Geographic, code: CrsCode::Epsg(4326) };
    let unknown = Crs { kind: CrsKind::Projected, code: CrsCode::Unknown };

    // Same projected CRS on both sides: nothing is reprojected, every
    // coordinate stays exactly as it is.
    assert_eq!(
        crs_unification_plan(&projected_a, &projected_a).unwrap(),
        UnificationPlan::AlreadyCommon
    );
    assert_eq!(
        crs_unification_plan(&projected_a, &projected_b).unwrap(),
        UnificationPlan::ProjectProposalToGroundTruth(32654)
    );
    assert_eq!(
        crs_unification_plan(&geographic, &projected_a).unwrap(),
        UnificationPlan::ProjectBothToUtm
    );
    assert_eq!(
        crs_unification_plan(&unknown, &projected_a),
        Err(TopoError::InvalidCrsAuthority)
    );
}

#[test]
fn test_get_utm_zone_for_graph() {
    let geographic: GeoGraph =
        build_geograph_from_lines(vec![vec![c(139_789_507, 35_686_210), c(139_791_298, 35_687_013)]])
            .unwrap();
    assert_eq!(get_utm_zone_for_graph(&geographic, &vec![32654, 3095]).unwrap(), 32654);
    assert_eq!(
        get_utm_zone_for_graph(&geographic, &vec![]),
        Err(TopoError::NoProjectedCrsFound)
    );
    let mut projected = build_geograph_from_lines(vec![vec![c(0, 0), c(1, 0)]]).unwrap();
    projected.crs = Crs { kind: CrsKind::Projected, code: CrsCode::Epsg(32654) };
    assert_eq!(
        get_utm_zone_for_graph(&projected, &vec![32654]),
        Err(TopoError::InvalidParameter)
    );
}

#[test]
fn test_no_projected_crs_for_empty_lines() {
    let r = road_topo::crs::get_utm_zone_for_wgs84_lines(&vec![]);
    assert_eq!(r, Err(TopoError::NoProjectedCrsFound));
    let r2 = road_topo::crs::get_utm_zone_for_wgs84_lines(&vec![vec![c(139_813_385, 35_707_318)]]);
    assert_eq!(r2.unwrap(), (54, 'S'));
}
