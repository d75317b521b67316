use glyph_ring::classify::classify_ring;
use glyph_ring::{Analyze, CharacterID, Coordinates, GlyphError, Section};

fn identify(cells: Vec<(i32, i32, i32, i32)>, section: Section, arcs: Vec<(i32, i32, i32, i32)>) -> CharacterID {
    let glyph = Analyze { coordinates_vec: cells, coordinates_angle: 0, section };
    glyph.identify_char(arcs).unwrap().id
}

#[test]
fn classifier_bottom_positive_top_negative_is_one() {
    assert_eq!(identify(vec![(0, 5, 1, 1), (0, 0, 1, 1)], Section::A, vec![]), CharacterID::One);
}

#[test]
fn classifier_broken_top_gradient_is_e() {
    assert_eq!(identify(vec![(0, 5, 1, 1), (10, 0, 0, 1)], Section::A, vec![]), CharacterID::E);
}

#[test]
fn classifier_top_gradient_only_is_seven() {
    assert_eq!(identify(vec![(0, 5, 0, 0), (0, 0, 1, 1)], Section::A, vec![]), CharacterID::Seven);
}

#[test]
fn classifier_no_gradient_is_four() {
    assert_eq!(identify(vec![(0, 0, 0, 0)], Section::A, vec![]), CharacterID::Four);
}

#[test]
fn classifier_other_sections_use_their_extremes() {
    assert_eq!(identify(vec![(5, 0, 1, 1), (0, 0, 1, 1)], Section::B, vec![]), CharacterID::One);
    assert_eq!(identify(vec![(5, 0, 1, 1), (0, 0, 0, 1)], Section::B, vec![]), CharacterID::E);
    assert_eq!(identify(vec![(0, 0, 1, 1), (0, 5, 0, 1)], Section::C, vec![]), CharacterID::E);
    assert_eq!(identify(vec![(0, 0, 1, 1), (5, 0, 0, 1)], Section::D, vec![]), CharacterID::E);
}

#[test]
fn classifier_arc_cell_goes_to_curve_rules() {
    let glyph = Analyze { coordinates_vec: vec![(3, 3, 1, 1), (3, 4, 5, 1)], coordinates_angle: 0, section: Section::A };
    let c = glyph.identify_char(vec![(3, 3, 1, 1)]).unwrap();
    assert_eq!(c.id, CharacterID::Zero);
    assert_eq!(c.val, "0");
}

#[test]
fn classifier_unit_line_cell_is_not_an_arc() {
    assert_eq!(identify(vec![(0, 5, 1, 1), (0, 0, 1, 1)], Section::A, vec![(7, 7, 1, 1)]), CharacterID::One);
}

#[test]
fn classifier_character_symbol_matches_id() {
    let glyph = Analyze { coordinates_vec: vec![(0, 5, 1, 1), (10, 0, 0, 1)], coordinates_angle: 0, section: Section::A };
    let c = glyph.identify_char(vec![]).unwrap();
    assert_eq!(c.val, "E");
    assert_eq!(CharacterID::Seven.symbol(), "7");
    assert_eq!(CharacterID::F.symbol(), "F");
}

#[test]
fn classifier_empty_glyph_fails() {
    let glyph = Analyze { coordinates_vec: vec![], coordinates_angle: 0, section: Section::A };
    assert_eq!(glyph.identify_char(vec![]).unwrap_err(), GlyphError::ClassificationFailed);
    assert!(!GlyphError::ClassificationFailed.message().is_empty());
}

#[test]
fn is_arc_needs_unit_cell_at_sample() {
    let unit = Coordinates { x: 1, y: 1, w: 1, h: 1 };
    let run = Coordinates { x: 1, y: 1, w: 2, h: 1 };
    assert!(unit.is_arc(vec![(1, 1, 1, 1)]));
    assert!(!unit.is_arc(vec![(1, 2, 1, 1)]));
    assert!(!run.is_arc(vec![(1, 1, 1, 1)]));
    assert!(!unit.is_arc(vec![]));
}

#[test]
fn classify_ring_in_walk_order() {
    let glyphs = vec![vec![(0, 0, 1, 1)], vec![(5, 5, 1, 1)], vec![]];
    let r = classify_ring(&glyphs, &vec![(5, 5, 1, 1)], 9);
    assert_eq!(r, vec![Some(CharacterID::One), Some(CharacterID::Zero), None]);
}
