use geo_ring_viewer::parser::{
    parse_2d, parse_3d, parse_point_line, parse_rings, split_rings, strip_comment, ParseResult2D,
    ParseResult3D,
};

fn coord(s: &str) -> f64 {
    s.parse::<f64>().unwrap()
}

#[test]
fn splits_rings_by_separator() {
    let input = "116.3 39.9\n117.0 40.0\n===============\n115.0 38.0\n115.5 38.5";
    let result = parse_2d(input);
    assert_eq!(result.rings.len(), 2);
    assert_eq!(result.rings[0].points.len(), 2);
    assert_eq!(result.rings[1].points.len(), 2);
}

#[test]
fn parses_3d_with_altitude() {
    let input = "116.3 39.9 100\n117.0 40.0 200";
    let result = parse_3d(input);
    assert_eq!(result.rings.len(), 1);
    assert_eq!(coord(&result.rings[0].points[0].alt), 100.0);
}

#[test]
fn coordinates_keep_their_text() {
    let result = parse_2d("116.3, 39.9\n-1e3;+.5");
    assert!(result.errors.is_empty());
    let pts = &result.rings[0].points;
    assert_eq!(pts[0].lon, "116.3");
    assert_eq!(pts[0].lat, "39.9");
    assert_eq!(pts[1].lon, "-1e3");
    assert_eq!(pts[1].lat, "+.5");
    assert_eq!(coord(&pts[1].lon), -1000.0);
    assert_eq!(coord(&pts[1].lat), 0.5);
}

#[test]
fn every_coordinate_reads_as_a_number() {
    let input = "1 2 3\nINF nan -Infinity\n1.5e+2 7. .25\n====\nabc 1 2 3";
    let result = parse_3d(input);
    for ring in &result.rings {
        assert!(!ring.points.is_empty());
        for p in &ring.points {
            for c in [&p.lon, &p.lat, &p.alt] {
                assert!(c.parse::<f64>().is_ok(), "{c}");
            }
        }
    }
}

#[test]
fn invalid_line_gives_numbered_message() {
    let result = parse_2d("1 2\n\nhello\n===============\n# only a comment\n5 x");
    assert_eq!(result.rings.len(), 1);
    assert_eq!(
        result.errors,
        vec![
            "Ring 1 line 3: invalid coordinates; use 'lon lat' or 'lon lat altitude'".to_string(),
            "Ring 2 line 2: invalid coordinates; use 'lon lat' or 'lon lat altitude'".to_string(),
        ]
    );
}

#[test]
fn three_d_needs_three_numbers() {
    let result = parse_3d("1 2\n3 4 5");
    assert_eq!(result.rings.len(), 1);
    assert_eq!(result.rings[0].points.len(), 1);
    assert_eq!(result.rings[0].points[0].alt, "5");
    assert_eq!(result.errors.len(), 1);
    assert_eq!(
        result.errors[0],
        "Ring 1 line 1: invalid coordinates; use 'lon lat' or 'lon lat altitude'"
    );
}

#[test]
fn two_d_takes_first_two_of_more() {
    let result = parse_2d("1 2 3 4");
    assert_eq!(result.rings[0].points[0].lon, "1");
    assert_eq!(result.rings[0].points[0].lat, "2");
}

#[test]
fn parse_rings_with_three_dims_keeps_lon_lat() {
    let result = parse_rings("1 2\n3 4 5", 3);
    assert_eq!(result.rings.len(), 1);
    assert_eq!(result.rings[0].points[0].lon, "3");
    assert_eq!(result.rings[0].points[0].lat, "4");
    assert_eq!(result.errors.len(), 1);
}

#[test]
fn comments_and_crlf_are_ignored() {
    let result = parse_2d("1 2 # first\r\n3 4 // second\r\n// 9 9\r\n5 6#7 8");
    assert!(result.errors.is_empty());
    let lats: Vec<&str> = result.rings[0].points.iter().map(|p| p.lat.as_str()).collect();
    assert_eq!(lats, vec!["2", "4", "6"]);
}

#[test]
fn rings_without_points_are_dropped() {
    let result = parse_2d("===============\n\n===============\n1 2\n===============\n  \n");
    assert_eq!(result.rings.len(), 1);
    assert!(result.errors.is_empty());
}

#[test]
fn empty_input_has_nothing() {
    let result = parse_2d("");
    assert!(result.rings.is_empty());
    assert!(result.errors.is_empty());
    assert!(split_rings("").is_empty());
}

#[test]
fn split_rings_trims_and_drops_empty_blocks() {
    let blocks = split_rings("  a b \n===============\n\n===============\n\n  c  \n");
    assert_eq!(blocks, vec!["a b".to_string(), "c".to_string()]);
}

#[test]
fn split_rings_at_separator_anywhere() {
    let blocks = split_rings("1 2================3 4");
    assert_eq!(blocks, vec!["1 2".to_string(), "=3 4".to_string()]);
    let blocks = split_rings("a\n===============c===============\nb");
    assert_eq!(blocks, vec!["a".to_string(), "c".to_string(), "b".to_string()]);
}

#[test]
fn ring_texts_keep_carriage_returns() {
    assert_eq!(split_rings("1\r\n2"), vec!["1\r\n2".to_string()]);
    let blocks = split_rings("1 2\r\n  =============== # next ring\r\n3 4");
    assert_eq!(blocks, vec!["1 2".to_string(), "# next ring\r\n3 4".to_string()]);
}

#[test]
fn separator_line_may_carry_spaces_and_comment() {
    let result = parse_2d("1 2\n\t=============== // next\n3 4");
    assert_eq!(result.rings.len(), 2);
    assert!(result.errors.is_empty());
}

#[test]
fn commented_separator_does_not_split() {
    let result = parse_2d("1 2\n# ===============\n3 4");
    assert_eq!(result.rings.len(), 1);
    assert_eq!(result.rings[0].points.len(), 2);
    assert_eq!(coord(&result.rings[0].points[0].lon), 1.0);
    assert_eq!(coord(&result.rings[0].points[0].lat), 2.0);
    assert_eq!(coord(&result.rings[0].points[1].lon), 3.0);
    assert_eq!(coord(&result.rings[0].points[1].lat), 4.0);
    assert!(result.errors.is_empty());
    let result = parse_2d("1 2\n// ===============\n3 4");
    assert_eq!(result.rings.len(), 1);
    assert!(result.errors.is_empty());
    assert_eq!(split_rings("1 2 # a ===============\n3 4"), vec!["1 2 # a ===============\n3 4".to_string()]);
}

#[test]
fn separator_inside_a_line_splits() {
    let result = parse_2d("1 1===============1 1");
    assert_eq!(result.rings.len(), 2);
    assert_eq!(result.rings[1].points[0].lon, "1");
    assert!(result.errors.is_empty());
    let result = parse_3d("1 1 1===============1 1 1");
    assert_eq!(result.rings.len(), 2);
    assert!(result.errors.is_empty());
    let result = parse_2d("1 2 =============== 3 4");
    assert_eq!(result.rings.len(), 2);
    assert_eq!(result.rings[1].points[0].lat, "4");
}

#[test]
fn longer_run_of_equals_leaves_the_rest() {
    let result = parse_2d("1 2\n================\n3 4");
    assert_eq!(result.rings.len(), 2);
    assert_eq!(
        result.errors,
        vec!["Ring 2 line 1: invalid coordinates; use 'lon lat' or 'lon lat altitude'".to_string()]
    );
    let result = parse_2d("1 2\n==============================\n3 4");
    assert_eq!(result.rings.len(), 2);
    assert!(result.errors.is_empty());
}

#[test]
fn default_results_are_empty() {
    let r2 = ParseResult2D::default();
    assert!(r2.rings.is_empty());
    assert!(r2.errors.is_empty());
    let r3 = ParseResult3D::default();
    assert!(r3.rings.is_empty());
    assert!(r3.errors.is_empty());
}

#[test]
fn strip_comment_prefers_hash() {
    assert_eq!(strip_comment("1 2 // a # b"), "1 2 // a ");
    assert_eq!(strip_comment("1 2 // a"), "1 2 ");
    assert_eq!(strip_comment("1 2"), "1 2");
    assert_eq!(strip_comment("#"), "");
}

#[test]
fn parse_point_line_results() {
    assert_eq!(
        parse_point_line("1, 2; 3", 3).unwrap(),
        vec!["1".to_string(), "2".to_string(), "3".to_string()]
    );
    assert_eq!(parse_point_line("x 1 y 2", 2).unwrap(), vec!["1".to_string(), "2".to_string()]);
    assert_eq!(
        parse_point_line("1", 2).unwrap_err(),
        "invalid coordinates; use 'lon lat' or 'lon lat altitude'"
    );
    assert!(parse_point_line("1 2 3 4", 4).is_err());
    assert!(parse_point_line("1 2 3", 1).is_err());
}

#[test]
fn number_syntax_follows_f64() {
    for text in ["1", "+1", "-1.", ".5", "1e5", "1E-5", "inf", "-INF", "Infinity", "NaN", "00.00e+00"] {
        assert!(parse_point_line(&format!("{text} 0"), 2).is_ok(), "{text}");
        assert!(text.parse::<f64>().is_ok());
    }
    for text in [".", "e5", "1e", "1.2.3", "+-1", "1_0", "0x10", "infinit", "--1", "1e+"] {
        assert!(parse_point_line(&format!("{text} 0"), 2).is_err(), "{text}");
        assert!(text.parse::<f64>().is_err());
    }
}

#[test]
fn unicode_whitespace_separates_values() {
    let result = parse_2d("1\u{3000}2\n\u{a0}3\u{2003}4\u{85}");
    assert!(result.errors.is_empty());
    assert_eq!(result.rings[0].points.len(), 2);
    assert_eq!(result.rings[0].points[1].lat, "4");
}

fn points_2d(text: &str) -> Vec<Vec<(String, String)>> {
    parse_2d(text)
        .rings
        .iter()
        .map(|r| r.points.iter().map(|p| (p.lon.clone(), p.lat.clone())).collect())
        .collect()
}

#[test]
fn ring_texts_are_the_pieces_between_separators() {
    for text in [
        "1 2\n3 4\n===============\n5 6",
        "1 1===============1 1",
        "a\r\nb===============\r\n\r\n==============================c\n",
        "  x  ===============  ",
    ] {
        let pieces: Vec<String> = text
            .split("===============")
            .map(|p| p.trim().to_string())
            .filter(|p| !p.is_empty())
            .collect();
        assert_eq!(split_rings(text), pieces, "{text:?}");
    }
}

#[test]
fn joined_texts_keep_rings_and_messages() {
    let a = "1 2\nbad\n===============\n3 4";
    let b = "oops\n5 6 # c\n7 8";
    let joined = format!("{a}\n===============\n{b}");
    let mut rings = points_2d(a);
    rings.extend(points_2d(b));
    assert_eq!(points_2d(&joined), rings);
    let ea = parse_2d(a).errors;
    let eb = parse_2d(b).errors;
    let ej = parse_2d(&joined).errors;
    assert_eq!(ej.len(), ea.len() + eb.len());
    assert_eq!(&ej[..ea.len()], &ea[..]);
    assert_eq!(ej[1], "Ring 3 line 1: invalid coordinates; use 'lon lat' or 'lon lat altitude'");
}

#[test]
fn three_d_reading_covers_two_d() {
    let text = "1 2 3\n4 5 6 7\n===============\n8, 9; 10";
    let r3 = parse_3d(text);
    let r2 = parse_2d(text);
    assert!(r3.errors.is_empty() && r2.errors.is_empty());
    let flat: Vec<Vec<(String, String)>> = r3
        .rings
        .iter()
        .map(|r| r.points.iter().map(|p| (p.lon.clone(), p.lat.clone())).collect())
        .collect();
    assert_eq!(points_2d(text), flat);
    let text = "1 2\nx\n3 4 5";
    assert_eq!(parse_3d(text).errors.len(), 2);
    assert_eq!(parse_2d(text).errors.len(), 1);
}
