use std::f64::consts::{FRAC_PI_2, FRAC_PI_4};

use road_topo::coords::Coord;
use road_topo::resample::{get_normalized_line_azimuth, sample_points_on_line};

fn c(x: i64, y: i64) -> Coord {
    Coord { x, y }
}

fn coords_of(line: Vec<Coord>, d: i64) -> Vec<Coord> {
    sample_points_on_line(&line, d).iter().map(|p| p.coord).collect()
}

#[test]
fn test_sample_points_split_exactly_in_two() {
    assert_eq!(coords_of(vec![c(0, 0), c(10, 0)], 5), vec![c(0, 0), c(5, 0), c(10, 0)]);
}

#[test]
fn test_sample_points_split_exactly_in_three() {
    assert_eq!(
        coords_of(vec![c(0, 0), c(9, 0)], 3),
        vec![c(0, 0), c(3, 0), c(6, 0), c(9, 0)]
    );
}

#[test]
fn test_sample_points_split_with_remainder_stays_even() {
    // Twelve units at distance five: two parts of six each, so the spacing
    // is stretched to cover the whole edge evenly.
    assert_eq!(coords_of(vec![c(0, 0), c(12, 0)], 5), vec![c(0, 0), c(6, 0), c(12, 0)]);
}

#[test]
fn test_sample_points_split_by_length() {
    assert_eq!(coords_of(vec![c(0, 0), c(10, 0)], 10), vec![c(0, 0), c(10, 0)]);
}

#[test]
fn test_sample_points_split_by_more_than_length() {
    assert_eq!(coords_of(vec![c(0, 0), c(10, 0)], 11), vec![c(0, 0), c(10, 0)]);
}

#[test]
fn test_sample_points_split_by_zero_is_empty() {
    assert_eq!(coords_of(vec![c(0, 0), c(10, 0)], 0), vec![]);
}

#[test]
fn test_sample_points_split_by_negative_is_empty() {
    assert_eq!(coords_of(vec![c(0, 0), c(10, 0)], -1), vec![]);
}

#[test]
fn test_sample_points_short_line_is_empty() {
    assert_eq!(coords_of(vec![c(0, 0)], 5), vec![]);
    assert_eq!(coords_of(vec![], 5), vec![]);
}

#[test]
fn test_sample_points_multiple_vertices() {
    assert_eq!(
        coords_of(vec![c(0, 0), c(5, 0), c(9, 0)], 3),
        vec![c(0, 0), c(3, 0), c(6, 0), c(9, 0)]
    );
}

#[test]
fn test_sample_points_curving_line() {
    assert_eq!(
        coords_of(vec![c(0, 0), c(45, 0), c(45, 45)], 30),
        vec![c(0, 0), c(30, 0), c(45, 15), c(45, 45)]
    );
}

#[test]
fn test_first_and_last_points_are_the_endpoints() {
    // Whatever the remainder, the produced sequence begins and ends exactly
    // at the edge's own endpoints.
    let pts = sample_points_on_line(&vec![c(3, 4), c(10, 9), c(100, 57)], 7);
    assert_eq!(pts.first().unwrap().coord, c(3, 4));
    assert_eq!(pts.last().unwrap().coord, c(100, 57));
}

#[test]
fn test_consecutive_samples_equally_spaced() {
    // An edge of length 100 at distance 30 gives three parts; consecutive
    // samples sit 100/3 of the way apart, covering the edge evenly.
    let pts = coords_of(vec![c(0, 0), c(100, 0)], 30);
    assert_eq!(pts, vec![c(0, 0), c(33, 0), c(66, 0), c(100, 0)]);
    // Spacing in x is edge_len / num_parts, up to the integer grid.
    for w in pts.windows(2) {
        let dx = w[1].x - w[0].x;
        assert!(dx == 33 || dx == 34);
    }
}

fn azimuth_angle(from: (i64, i64), to: (i64, i64)) -> f64 {
    let az = get_normalized_line_azimuth(c(from.0, from.1), c(to.0, to.1));
    (az.dy as f64).atan2(az.dx as f64)
}

#[test]
fn test_azimuth_horizontal_is_zero() {
    assert_eq!(azimuth_angle((0, 0), (1, 0)), 0.0);
    assert_eq!(azimuth_angle((0, 0), (-1, 0)), 0.0);
}

#[test]
fn test_azimuth_vertical_is_half_pi() {
    assert_eq!(azimuth_angle((0, 0), (0, 1)), FRAC_PI_2);
    assert_eq!(azimuth_angle((0, 0), (0, -1)), FRAC_PI_2);
}

#[test]
fn test_azimuth_diagonal_is_quarter_pi() {
    assert_eq!(azimuth_angle((0, 0), (1, 1)), FRAC_PI_4);
    assert_eq!(azimuth_angle((0, 0), (-1, -1)), FRAC_PI_4);
    assert_eq!(azimuth_angle((0, 0), (1, -1)), -FRAC_PI_4);
    assert_eq!(azimuth_angle((0, 0), (-1, 1)), -FRAC_PI_4);
}

#[test]
fn test_interior_samples_carry_segment_azimuth() {
    // On a right-angle polyline, samples on the horizontal leg head along
    // x, samples on the vertical leg head along y.
    let pts = sample_points_on_line(&vec![c(0, 0), c(45, 0), c(45, 45)], 30);
    assert_eq!((pts[1].azimuth.dx, pts[1].azimuth.dy), (45, 0));
    assert_eq!((pts[2].azimuth.dx, pts[2].azimuth.dy), (0, 45));
}
