use glyph_ring::raster::{arc_sample_angles, get_curve_coordinates, get_line_coordinates};
use glyph_ring::Cell;

fn covers(c: &Cell, px: i32, py: i32) -> bool {
    c.0 <= px && px < c.0 + c.2 && c.1 <= py && py < c.1 + c.3
}

fn assert_runs_partition(x1: i32, y1: i32, x2: i32, y2: i32) {
    let cells = get_line_coordinates(x1, y1, x2, y2);
    assert!(cells.iter().any(|c| covers(c, x1, y1)));
    assert!(cells.iter().any(|c| covers(c, x2, y2)));
    let area: i64 = cells.iter().map(|c| (c.2 as i64) * (c.3 as i64)).sum();
    let dx = (x2 as i64 - x1 as i64).abs();
    let dy = (y2 as i64 - y1 as i64).abs();
    assert_eq!(area, dx.max(dy) + 1);
    for (i, a) in cells.iter().enumerate() {
        assert!(a.2 == 1 || a.3 == 1);
        for b in cells.iter().skip(i + 1) {
            for px in a.0..a.0 + a.2 {
                for py in a.1..a.1 + a.3 {
                    assert!(!covers(b, px, py));
                }
            }
        }
    }
}

#[test]
fn line_shallow_runs() {
    assert_eq!(get_line_coordinates(0, 0, 3, 1), vec![(0, 0, 2, 1), (2, 1, 2, 1)]);
}

#[test]
fn line_endpoints_swapped_gives_same_runs() {
    assert_eq!(get_line_coordinates(3, 1, 0, 0), vec![(0, 0, 2, 1), (2, 1, 2, 1)]);
}

#[test]
fn line_shallow_rising_runs() {
    assert_eq!(get_line_coordinates(0, 1, 3, 0), vec![(0, 1, 2, 1), (2, 0, 2, 1)]);
}

#[test]
fn line_steep_descending_runs() {
    assert_eq!(get_line_coordinates(0, 0, 1, 3), vec![(0, 0, 1, 2), (1, 2, 1, 2)]);
}

#[test]
fn line_steep_rising_runs_do_not_overlap() {
    assert_eq!(get_line_coordinates(0, 3, 1, 0), vec![(0, 2, 1, 2), (1, 0, 1, 2)]);
}

#[test]
fn line_single_point() {
    assert_eq!(get_line_coordinates(5, 5, 5, 5), vec![(5, 5, 1, 1)]);
}

#[test]
fn line_horizontal_and_vertical() {
    assert_eq!(get_line_coordinates(0, 0, 4, 0), vec![(0, 0, 5, 1)]);
    assert_eq!(get_line_coordinates(2, 0, 2, 3), vec![(2, 0, 1, 4)]);
}

#[test]
fn line_diagonal() {
    assert_eq!(get_line_coordinates(0, 0, 2, 2), vec![(0, 0, 1, 1), (1, 1, 1, 1), (2, 2, 1, 1)]);
}

#[test]
fn line_runs_cover_endpoints_and_partition() {
    assert_runs_partition(0, 0, 3, 1);
    assert_runs_partition(10, 40, 52, 25);
    assert_runs_partition(7, 3, -20, 90);
    assert_runs_partition(-5, -5, 30, -40);
    assert_runs_partition(100, 0, 60, 13);
    assert_runs_partition(0, 0, 17, 17);
    assert_runs_partition(3, 9, 3, -9);
}

#[test]
fn line_at_the_largest_extent() {
    let cells = get_line_coordinates(0, 5, i32::MAX - 1, 5);
    assert_eq!(cells, vec![(0, 5, i32::MAX, 1)]);
}

#[test]
fn arc_sample_angles_every_eight_degrees() {
    assert_eq!(arc_sample_angles(0, 90), vec![0, 8, 16, 24, 32, 40, 48, 56, 64, 72, 80, 88]);
    assert_eq!(arc_sample_angles(10, 16), vec![10, 18, 26]);
    assert_eq!(arc_sample_angles(30, 0), vec![30]);
    assert_eq!(arc_sample_angles(30, -1), Vec::<i64>::new());
}

#[test]
fn arc_cells_drop_consecutive_repeats_only() {
    let pts = vec![(1, 1), (1, 1), (2, 1), (1, 1), (1, 1)];
    assert_eq!(get_curve_coordinates(&pts), vec![(1, 1, 1, 1), (2, 1, 1, 1), (1, 1, 1, 1)]);
}

#[test]
fn arc_first_sample_at_minus_one_is_kept() {
    assert_eq!(get_curve_coordinates(&vec![(-1, -1)]), vec![(-1, -1, 1, 1)]);
}

#[test]
fn arc_quarter_circle_bounds() {
    let (x, y, r) = (0.0f64, 0.0f64, 10.0f64);
    let angles = arc_sample_angles(0, 90);
    assert!(angles.iter().all(|a| *a <= 90));
    assert_eq!(*angles.last().unwrap(), 88);
    let pts: Vec<(i32, i32)> = angles
        .iter()
        .map(|a| {
            let t = (*a as f64) * std::f64::consts::PI / 180.0;
            ((x + r * t.cos()).round() as i32, (y - r * t.sin()).round() as i32)
        })
        .collect();
    let cells = get_curve_coordinates(&pts);
    assert_eq!(cells[0], (10, 0, 1, 1));
    assert!(cells.len() <= angles.len());
    for w in cells.windows(2) {
        assert_ne!(w[0], w[1]);
    }
    assert!(cells.iter().all(|c| c.2 == 1 && c.3 == 1));
}
