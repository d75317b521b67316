use glyph_ring::page::{extract_draw_data, parse_int};

#[test]
fn page_extracts_array_between_marks() {
    let page = b"<script>var drawData = new Array(1,2,30,4,-5);\nfoo();</script>";
    assert_eq!(extract_draw_data(page), Some(vec![1, 2, 30, 4, -5]));
}

#[test]
fn page_without_array_mark() {
    assert_eq!(extract_draw_data(b"nothing here (1,2);"), None);
}

#[test]
fn page_without_closing_mark() {
    assert_eq!(extract_draw_data(b"Array(1,2,3"), None);
}

#[test]
fn page_with_bad_piece() {
    assert_eq!(extract_draw_data(b"Array(1, 2);"), None);
    assert_eq!(extract_draw_data(b"Array(1,,2);"), None);
    assert_eq!(extract_draw_data(b"Array();"), None);
}

#[test]
fn page_closing_mark_before_array_is_skipped() {
    assert_eq!(extract_draw_data(b"f(); Array(7,8);"), Some(vec![7, 8]));
}

#[test]
fn parse_int_limits() {
    assert_eq!(parse_int(&b"2147483647".to_vec()), Some(i32::MAX));
    assert_eq!(parse_int(&b"-2147483648".to_vec()), Some(i32::MIN));
    assert_eq!(parse_int(&b"2147483648".to_vec()), None);
    assert_eq!(parse_int(&b"-2147483649".to_vec()), None);
    assert_eq!(parse_int(&b"99999999999999999999".to_vec()), None);
    assert_eq!(parse_int(&b"+12".to_vec()), Some(12));
    assert_eq!(parse_int(&b"-".to_vec()), None);
    assert_eq!(parse_int(&b"".to_vec()), None);
    assert_eq!(parse_int(&b"1a".to_vec()), None);
    assert_eq!(parse_int(&b"007".to_vec()), Some(7));
}
