use glyph_ring::primitive::{decode_primitives, Primitive};
use glyph_ring::GlyphError;

#[test]
fn decode_round_trip_of_known_primitives() {
    let prims = vec![
        Primitive::Line { x1: 1, y1: 2, x2: 30, y2: 4 },
        Primitive::Arc { x: 5, y: 6, radius: 7, start: 0, sweep: 90 },
        Primitive::Line { x1: -3, y1: 40, x2: 12, y2: -8 },
        Primitive::Arc { x: 100, y: 200, radius: 9, start: 180, sweep: 45 },
    ];
    let data = vec![1, 2, 30, 4, 5, 6, 7, 0, 90, -3, 40, 12, -8, 100, 200, 9, 180, 45];
    assert_eq!(decode_primitives(&data), Ok(prims));
}

#[test]
fn decode_empty_stream() {
    assert_eq!(decode_primitives(&vec![]), Ok(vec![]));
}

#[test]
fn decode_tag_threshold_is_ten() {
    let data = vec![0, 0, 10, 0, 0, 0, 9, 1, 2];
    assert_eq!(
        decode_primitives(&data),
        Ok(vec![
            Primitive::Line { x1: 0, y1: 0, x2: 10, y2: 0 },
            Primitive::Arc { x: 0, y: 0, radius: 9, start: 1, sweep: 2 },
        ])
    );
}

#[test]
fn decode_reports_offset_of_truncated_arc() {
    let data = vec![1, 2, 30, 4, 5, 6, 7, 0];
    assert_eq!(decode_primitives(&data), Err(GlyphError::MalformedPrimitiveStream(4)));
}

#[test]
fn decode_reports_offset_of_truncated_line() {
    let data = vec![1, 2, 30];
    assert_eq!(decode_primitives(&data), Err(GlyphError::MalformedPrimitiveStream(0)));
}

#[test]
fn decode_reports_stream_too_short_to_tag() {
    let data = vec![5, 6, 7, 0, 90, 1, 2];
    assert_eq!(decode_primitives(&data), Err(GlyphError::MalformedPrimitiveStream(5)));
}
