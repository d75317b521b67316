use glyph_ring::walker::{remove_cells, section_for, walk_ring};
use glyph_ring::{Cell, GlyphError, Section};

fn sorted(mut v: Vec<Cell>) -> Vec<Cell> {
    v.sort();
    v
}

#[test]
fn walker_section_a_picks_smaller_y() {
    let pool = vec![(3, 10, 1, 1), (4, 8, 1, 1)];
    assert_eq!(Section::A.get_next((5, 5, 1, 1), &pool), Ok((4, 8, 1, 1)));
}

#[test]
fn walker_ties_go_to_first_found() {
    let pool = vec![(3, 8, 1, 1), (4, 8, 2, 1), (1, 9, 1, 1)];
    assert_eq!(Section::A.get_next((5, 5, 1, 1), &pool), Ok((3, 8, 1, 1)));
}

#[test]
fn walker_each_section_direction() {
    let pool = vec![(2, 2, 1, 1), (8, 2, 1, 1), (2, 8, 1, 1), (8, 8, 1, 1), (9, 9, 1, 1), (1, 1, 1, 1)];
    let prev = (5, 5, 1, 1);
    assert_eq!(Section::A.get_next(prev, &pool), Ok((2, 8, 1, 1)));
    assert_eq!(Section::B.get_next(prev, &pool), Ok((8, 8, 1, 1)));
    assert_eq!(Section::C.get_next(prev, &pool), Ok((8, 2, 1, 1)));
    assert_eq!(Section::D.get_next(prev, &pool), Ok((2, 2, 1, 1)));
}

#[test]
fn walker_empty_quadrant_is_no_next_glyph() {
    let pool = vec![(3, 10, 1, 1)];
    assert_eq!(Section::B.get_next((5, 5, 1, 1), &pool), Err(GlyphError::NoNextGlyph));
    assert_eq!(Section::A.get_next((5, 5, 1, 1), &vec![]), Err(GlyphError::NoNextGlyph));
}

#[test]
fn walker_section_changes_every_cadence() {
    assert_eq!(section_for(0, 9), Section::A);
    assert_eq!(section_for(1, 9), Section::A);
    assert_eq!(section_for(9, 9), Section::A);
    assert_eq!(section_for(10, 9), Section::B);
    assert_eq!(section_for(18, 9), Section::B);
    assert_eq!(section_for(19, 9), Section::C);
    assert_eq!(section_for(28, 9), Section::D);
    assert_eq!(section_for(37, 9), Section::A);
    assert_eq!(section_for(252, 9), Section::D);
}

#[test]
fn remove_cells_keeps_order_of_the_rest() {
    let pool = vec![(1, 1, 1, 1), (2, 2, 1, 1), (3, 3, 1, 1), (4, 4, 1, 1)];
    let gone = vec![(3, 3, 1, 1), (1, 1, 1, 1)];
    assert_eq!(remove_cells(&pool, &gone), vec![(2, 2, 1, 1), (4, 4, 1, 1)]);
}

#[test]
fn walk_exhausts_pool_of_two_glyphs() {
    let pool = vec![(5, 0, 1, 1), (6, 0, 1, 1), (3, 5, 1, 1), (3, 6, 1, 1)];
    let (glyphs, rest) = walk_ring(&pool, (5, 0, 1, 1), 2, 9).unwrap();
    assert_eq!(glyphs.len(), 2);
    assert_eq!(sorted(glyphs[0].clone()), vec![(5, 0, 1, 1), (6, 0, 1, 1)]);
    assert_eq!(sorted(glyphs[1].clone()), vec![(3, 5, 1, 1), (3, 6, 1, 1)]);
    assert!(rest.is_empty());
}

#[test]
fn walk_leaves_extraneous_cells() {
    let pool = vec![(5, 0, 1, 1), (6, 0, 1, 1), (3, 5, 1, 1), (3, 6, 1, 1), (40, 40, 1, 1)];
    let (glyphs, rest) = walk_ring(&pool, (5, 0, 1, 1), 2, 9).unwrap();
    assert_eq!(glyphs.len(), 2);
    assert_eq!(rest, vec![(40, 40, 1, 1)]);
}

#[test]
fn walk_stops_when_no_next_glyph() {
    let pool = vec![(5, 0, 1, 1), (6, 0, 1, 1), (30, 1, 1, 1)];
    assert_eq!(walk_ring(&pool, (5, 0, 1, 1), 2, 9), Err(GlyphError::NoNextGlyph));
}

#[test]
fn walk_of_zero_glyphs_keeps_pool() {
    let pool = vec![(5, 0, 1, 1)];
    assert_eq!(walk_ring(&pool, (5, 0, 1, 1), 0, 9), Ok((vec![], pool.clone())));
}
