use glyph_ring::pool::{bounding_box, build_pool, gather_cells, rasterize, topmost_cell};
use glyph_ring::primitive::Primitive;

#[test]
fn pool_from_primitives_arcs_first() {
    let prims = vec![
        Primitive::Line { x1: 0, y1: 0, x2: 3, y2: 1 },
        Primitive::Arc { x: 0, y: 0, radius: 1, start: 0, sweep: 16 },
    ];
    let arc_points = vec![vec![], vec![(1, 1), (1, 1), (2, 1)]];
    let chunks = rasterize(&prims, &arc_points).unwrap();
    assert_eq!(chunks, vec![vec![(0, 0, 2, 1), (2, 1, 2, 1)], vec![(1, 1, 1, 1), (2, 1, 1, 1)]]);
    let arcs = gather_cells(&prims, &chunks, true);
    let lines = gather_cells(&prims, &chunks, false);
    assert_eq!(arcs, vec![(1, 1, 1, 1), (2, 1, 1, 1)]);
    assert_eq!(lines, vec![(0, 0, 2, 1), (2, 1, 2, 1)]);
    assert_eq!(build_pool(&arcs, &lines), vec![(1, 1, 1, 1), (2, 1, 1, 1), (0, 0, 2, 1), (2, 1, 2, 1)]);
}

#[test]
fn pool_keeps_first_occurrence_only() {
    let a = (1, 1, 1, 1);
    let b = (2, 2, 1, 1);
    let c = (3, 3, 2, 1);
    assert_eq!(build_pool(&vec![a, b, a], &vec![b, c]), vec![a, b, c]);
    assert_eq!(build_pool(&vec![], &vec![]), vec![]);
}

#[test]
fn rasterize_refuses_line_too_long() {
    let prims = vec![Primitive::Line { x1: i32::MIN, y1: 0, x2: i32::MAX, y2: 0 }];
    assert_eq!(rasterize(&prims, &vec![vec![]]), None);
}

#[test]
fn topmost_is_first_with_smallest_y() {
    let cells = vec![(5, 3, 1, 1), (1, 0, 2, 1), (2, 0, 1, 1)];
    assert_eq!(topmost_cell(&cells), Some((1, 0, 2, 1)));
    assert_eq!(topmost_cell(&vec![]), None);
}

#[test]
fn bounding_box_of_origins() {
    let cells = vec![(5, 3, 1, 1), (1, 0, 2, 1), (2, 9, 1, 1), (-4, 2, 7, 1)];
    assert_eq!(bounding_box(&cells), Some((-4, 5, 0, 9)));
    assert_eq!(bounding_box(&vec![]), None);
}
