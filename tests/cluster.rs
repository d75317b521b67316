use glyph_ring::cluster::{analyze_character, contains_cell};
use glyph_ring::Cell;

fn sorted(mut v: Vec<Cell>) -> Vec<Cell> {
    v.sort();
    v
}

#[test]
fn cluster_joins_an_l_junction_and_leaves_far_cells() {
    let pool = vec![(0, 0, 1, 3), (1, 2, 2, 1), (10, 10, 1, 1)];
    let glyph = analyze_character(pool, vec![(0, 0, 1, 3)]);
    assert_eq!(sorted(glyph), vec![(0, 0, 1, 3), (1, 2, 2, 1)]);
}

#[test]
fn cluster_twice_in_any_order_gives_same_cells() {
    let pool = vec![(5, 0, 1, 1), (6, 0, 1, 1), (7, 1, 1, 1), (7, 2, 1, 3), (20, 20, 2, 1), (3, 5, 1, 1)];
    let mut reversed = pool.clone();
    reversed.reverse();
    let a = analyze_character(pool.clone(), vec![(5, 0, 1, 1)]);
    let b = analyze_character(pool, vec![(5, 0, 1, 1)]);
    let c = analyze_character(reversed, vec![(5, 0, 1, 1)]);
    assert_eq!(sorted(a.clone()), sorted(b));
    assert_eq!(sorted(a.clone()), sorted(c));
    assert_eq!(sorted(a), vec![(5, 0, 1, 1), (6, 0, 1, 1), (7, 1, 1, 1), (7, 2, 1, 3)]);
}

#[test]
fn cluster_result_has_no_repeats() {
    let pool = vec![(0, 0, 1, 1), (1, 0, 1, 1), (0, 0, 1, 1), (1, 0, 1, 1)];
    let glyph = analyze_character(pool, vec![(0, 0, 1, 1), (0, 0, 1, 1)]);
    assert_eq!(sorted(glyph), vec![(0, 0, 1, 1), (1, 0, 1, 1)]);
}

#[test]
fn cluster_seed_outside_pool_is_kept() {
    let glyph = analyze_character(vec![], vec![(4, 4, 1, 1)]);
    assert_eq!(glyph, vec![(4, 4, 1, 1)]);
}

#[test]
fn cluster_arc_sample_on_line_run_origin() {
    let pool = vec![(3, 3, 4, 1), (3, 3, 1, 1)];
    let glyph = analyze_character(pool, vec![(3, 3, 1, 1)]);
    assert_eq!(sorted(glyph), vec![(3, 3, 1, 1), (3, 3, 4, 1)]);
}

#[test]
fn contains_cell_finds_exact_tuple() {
    let v = vec![(1, 2, 3, 4)];
    assert!(contains_cell(&v, (1, 2, 3, 4)));
    assert!(!contains_cell(&v, (1, 2, 3, 5)));
}
