use geoms::wkt::{linestring_to_wkt, parse_linestring, parse_point, point_to_wkt, WktError};

fn coords(text: &str) -> (f64, f64) {
    let (x, y) = parse_point(text).unwrap();
    (x.parse::<f64>().unwrap(), y.parse::<f64>().unwrap())
}

fn fmt(v: f64) -> String {
    format!("{}", v)
}

fn line_text(points: &[(f64, f64)]) -> String {
    let pairs: Vec<(String, String)> = points.iter().map(|p| (fmt(p.0), fmt(p.1))).collect();
    linestring_to_wkt(&pairs)
}

#[test]
fn test_creation_wkt_int() {
    let result = coords("POINT (34 2)");
    assert_eq!(result.0, 34.0);
    assert_eq!(result.1, 2.0);
}

#[test]
fn test_creation_wkt_small_int() {
    let result = coords("point (34 2)");
    assert_eq!(result.0, 34.0);
    assert_eq!(result.1, 2.0);
}

#[test]
fn test_creation_wkt_dbl() {
    let result = coords("POINT (34.98 -8.543)");
    assert_eq!(result.0, 34.98);
    assert_eq!(result.1, -8.543);
}

#[test]
fn test_get_coords_wkt() {
    let result = coords("POINT (-3.14 9.1548595)");
    assert_eq!(result.0, -3.14);
    assert_eq!(result.1, 9.1548595);
}

#[test]
fn test_creation_wkt_fail_comma() {
    let result = parse_point("POINT (34, 2)");
    assert!(result.is_err());
}

#[test]
fn test_creation_wkt_fail_invalid_wkt() {
    let wkt = "POINTS ( 5 4)";
    let result = parse_point(wkt);
    assert!(result.is_err());
    assert_eq!(result.unwrap_err().message(), "Invalid WKT format");
}

#[test]
fn test_creation_wkt_fail_invalid_x() {
    let wkt = "POINT (test 2)";
    let result = parse_point(wkt);
    assert!(result.is_err());
    assert_eq!(result.unwrap_err().message(), "Invalid WKT format");
}

#[test]
fn test_creation_wkt_fail_invalid_y() {
    let wkt = "POINT (98 test)";
    let result = parse_point(wkt);
    assert!(result.is_err());
    assert_eq!(result.unwrap_err().message(), "Invalid WKT format");
}

#[test]
fn test_to_wkt_origin() {
    assert_eq!("POINT (0 0)", point_to_wkt(&fmt(0.0), &fmt(0.0)));
}

#[test]
fn test_to_wkt_other_point() {
    assert_eq!("POINT (-9.4874 67598.58548)", point_to_wkt(&fmt(-9.4874), &fmt(67598.58548)));
}

#[test]
fn test_to_wkt_other_point2() {
    assert_eq!("POINT (2 67598.58548)", point_to_wkt(&fmt(2.0), &fmt(67598.58548)));
}

#[test]
fn test_to_wkt_two_points() {
    let wkt = line_text(&[(0.0, 0.0), (1.0, 1.0)]);
    assert_eq!(wkt, "LINESTRING (0 0, 1 1)");
}

#[test]
fn test_to_wkt_four_points() {
    let wkt = line_text(&[(0.0, 0.0), (1.0, 1.0), (-34.2, 45.21), (12.021, -1.74)]);
    assert_eq!(wkt, "LINESTRING (0 0, 1 1, -34.2 45.21, 12.021 -1.74)");
}

#[test]
fn point_tokens_are_the_written_text() {
    let (x, y) = parse_point("POINT (34.98 -8.543)").unwrap();
    assert_eq!(x, "34.98");
    assert_eq!(y, "-8.543");
}

#[test]
fn point_text_tolerates_whitespace_and_case() {
    let (x, y) = parse_point("  \tpOiNt(\n+1.   -0.5 )  ").unwrap();
    assert_eq!(x, "+1.");
    assert_eq!(y, "-0.5");
}

#[test]
fn point_text_needs_space_between_coordinates() {
    assert_eq!(parse_point("POINT (1-2)"), Err(WktError::InvalidFormat));
}

#[test]
fn point_text_rejects_two_decimal_points() {
    assert_eq!(parse_point("POINT (1.2.3 4)"), Err(WktError::InvalidFormat));
}

#[test]
fn point_text_rejects_trailing_text() {
    assert_eq!(parse_point("POINT (1 2) x"), Err(WktError::InvalidFormat));
    assert_eq!(parse_point("POINT (1 2 3)"), Err(WktError::InvalidFormat));
    assert_eq!(parse_point(""), Err(WktError::InvalidFormat));
}

#[test]
fn point_text_rejects_missing_digits() {
    assert_eq!(parse_point("POINT (.5 1)"), Err(WktError::InvalidFormat));
    assert_eq!(parse_point("POINT (- 1)"), Err(WktError::InvalidFormat));
}

#[test]
fn point_text_round_trip() {
    let text = point_to_wkt("-12.5", "7");
    assert_eq!(text, "POINT (-12.5 7)");
    let (x, y) = parse_point(&text).unwrap();
    assert_eq!(x, "-12.5");
    assert_eq!(y, "7");
}

#[test]
fn test_from_wkt() {
    let pairs = parse_linestring("LINESTRING (0.0 0.0, 1.0 1.0)").unwrap();
    assert_eq!(pairs.len(), 2);
    assert_eq!(pairs[0].0.parse::<f64>().unwrap(), 0.0);
    assert_eq!(pairs[0].1.parse::<f64>().unwrap(), 0.0);
    assert_eq!(pairs[1].0.parse::<f64>().unwrap(), 1.0);
    assert_eq!(pairs[1].1.parse::<f64>().unwrap(), 1.0);
}

#[test]
fn linestring_text_tolerates_whitespace_and_case() {
    let pairs = parse_linestring(" linestring( 1 2 ,3.5   -4,5 6 ) ").unwrap();
    let expected = vec![
        ("1".to_string(), "2".to_string()),
        ("3.5".to_string(), "-4".to_string()),
        ("5".to_string(), "6".to_string()),
    ];
    assert_eq!(pairs, expected);
}

#[test]
fn linestring_text_needs_two_pairs() {
    assert_eq!(parse_linestring("LINESTRING (1 2)"), Err(WktError::InvalidFormat));
}

#[test]
fn linestring_text_rejects_comma_inside_pair() {
    assert_eq!(parse_linestring("LINESTRING (1, 2, 3 4)"), Err(WktError::InvalidFormat));
    assert_eq!(parse_linestring("LINESTRING (1 2, 3 4,)"), Err(WktError::InvalidFormat));
    assert_eq!(parse_linestring("LINESTRING (1 2, 3 4"), Err(WktError::InvalidFormat));
}

#[test]
fn linestring_text_round_trip() {
    let pairs = vec![
        ("0".to_string(), "-1.25".to_string()),
        ("+3".to_string(), "4.".to_string()),
        ("10".to_string(), "0.5".to_string()),
    ];
    let text = linestring_to_wkt(&pairs);
    assert_eq!(text, "LINESTRING (0 -1.25, +3 4., 10 0.5)");
    assert_eq!(parse_linestring(&text).unwrap(), pairs);
}

#[test]
fn error_messages() {
    assert_eq!(WktError::InvalidFormat.message(), "Invalid WKT format");
    assert_eq!(WktError::MissingX.message(), "Missing X coordinate");
    assert_eq!(WktError::MissingY.message(), "Missing Y coordinate");
    assert_eq!(WktError::InvalidX.message(), "Invalid X value");
    assert_eq!(WktError::InvalidY.message(), "Invalid Y value");
}

#[test]
fn point_text_accepts_unicode_space_before_keyword() {
    let (x, y) = parse_point("\u{3000}POINT (1 2)").unwrap();
    assert_eq!(x, "1");
    assert_eq!(y, "2");
}

#[test]
fn point_text_accepts_unicode_space_after_keyword() {
    let (x, y) = parse_point("POINT\u{A0}(1 2)").unwrap();
    assert_eq!(x, "1");
    assert_eq!(y, "2");
}

#[test]
fn point_text_accepts_unicode_space_between_and_after_tokens() {
    let (x, y) = parse_point("POINT (\u{2009}-1.5\u{85}2\u{202F})\u{2028}").unwrap();
    assert_eq!(x, "-1.5");
    assert_eq!(y, "2");
}

#[test]
fn linestring_text_accepts_unicode_space() {
    let pairs = parse_linestring("\u{205F}LINESTRING\u{1680}(0 0\u{3000},\u{A0}1\u{2000}1)\u{2029}").unwrap();
    let expected = vec![
        ("0".to_string(), "0".to_string()),
        ("1".to_string(), "1".to_string()),
    ];
    assert_eq!(pairs, expected);
}

#[test]
fn keyword_folds_long_s() {
    let pairs = parse_linestring("line\u{17F}tring (0 0, 1 1)").unwrap();
    assert_eq!(pairs.len(), 2);
}

#[test]
fn non_space_separators_are_refused() {
    assert_eq!(parse_point("POINT (1\u{200B}2)"), Err(WktError::InvalidFormat));
    assert_eq!(parse_point("POINT (1_2)"), Err(WktError::InvalidFormat));
}
