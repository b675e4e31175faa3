use geo_ring_viewer::parser::{parse_2d, parse_point_line};
use geo_ring_viewer::selection::{
    char_index_for_line, line_highlight_segments, looks_like_point_line, selected_line_for_2d,
    selected_line_for_3d, selected_line_for_dims, strip_inline_comment, PickedPoint2D,
    PickedPoint3D,
};

const TEXT: &str = "# header\n1 2\n\n3 4\n===============\nbad\n5 6\n7 8 9";

#[test]
fn selects_line_of_point() {
    assert_eq!(selected_line_for_dims(TEXT, 0, 0, 2), Some(1));
    assert_eq!(selected_line_for_dims(TEXT, 0, 1, 2), Some(3));
    assert_eq!(selected_line_for_dims(TEXT, 1, 0, 2), Some(6));
    assert_eq!(selected_line_for_dims(TEXT, 1, 1, 2), Some(7));
    assert_eq!(selected_line_for_dims(TEXT, 1, 2, 2), None);
    assert_eq!(selected_line_for_dims(TEXT, 2, 0, 2), None);
    assert_eq!(selected_line_for_dims(TEXT, 0, 0, 3), Some(7));
}

#[test]
fn separator_before_any_point_starts_no_ring() {
    let text = "===============\n1 2\n===============\n===============\n3 4";
    assert_eq!(selected_line_for_dims(text, 0, 0, 2), Some(1));
    assert_eq!(selected_line_for_dims(text, 1, 0, 2), Some(4));
}

#[test]
fn picked_points_select_lines() {
    let p2 = PickedPoint2D { ring_idx: 1, point_idx: 0 };
    assert_eq!(selected_line_for_2d(TEXT, Some(p2)), Some(6));
    assert_eq!(selected_line_for_2d(TEXT, None), None);
    let p3 = PickedPoint3D { ring_idx: 0, point_idx: 0 };
    assert_eq!(selected_line_for_3d(TEXT, Some(p3)), Some(7));
    assert_eq!(selected_line_for_3d(TEXT, None), None);
}

#[test]
fn point_lines() {
    assert!(looks_like_point_line("1, 2", 2));
    assert!(!looks_like_point_line("1 x", 2));
    assert!(looks_like_point_line("1 2 3", 3));
    assert!(!looks_like_point_line("", 2));
    assert_eq!(strip_inline_comment("1 2 # c"), "1 2 ");
}

#[test]
fn char_index_of_lines() {
    let text = "ab\ncde\n\nf";
    assert_eq!(char_index_for_line(text, 0), 0);
    assert_eq!(char_index_for_line(text, 1), 3);
    assert_eq!(char_index_for_line(text, 2), 7);
    assert_eq!(char_index_for_line(text, 3), 8);
    assert_eq!(char_index_for_line(text, 4), 10);
    assert_eq!(char_index_for_line("é\nx", 1), 2);
    assert_eq!(char_index_for_line("", 5), 1);
}

#[test]
fn segments_rebuild_text() {
    let text = "a\nbb\n\nc";
    let segs = line_highlight_segments(text, Some(1));
    let joined: String = segs.iter().map(|(s, _)| s.as_str()).collect();
    assert_eq!(joined, text);
    assert_eq!(segs.len(), 4);
    assert_eq!(segs[1], ("bb\n".to_string(), true));
    assert_eq!(segs.iter().filter(|(_, m)| *m).count(), 1);
    assert_eq!(segs[3], ("c".to_string(), false));
}

#[test]
fn segments_of_empty_text() {
    assert_eq!(line_highlight_segments("", Some(0)), vec![(String::new(), false)]);
    let segs = line_highlight_segments("x\n", None);
    assert_eq!(segs, vec![("x\n".to_string(), false), (String::new(), false)]);
    assert!(line_highlight_segments("a\nb", Some(7)).iter().all(|(_, m)| !*m));
}

#[test]
fn picked_point_line_holds_the_point() {
    let text = "# rings\n1 2\n\n3 4 # c\n===============\nbad\n5 6\n===============\n\n7 8";
    let parsed = parse_2d(text);
    let lines: Vec<&str> = text.lines().collect();
    for (r, ring) in parsed.rings.iter().enumerate() {
        for (p, point) in ring.points.iter().enumerate() {
            let l = selected_line_for_dims(text, r, p, 2).unwrap();
            let fields = parse_point_line(strip_inline_comment(lines[l]).trim(), 2).unwrap();
            assert_eq!(fields, vec![point.lon.clone(), point.lat.clone()]);
        }
    }
    assert_eq!(selected_line_for_dims(text, 2, 0, 2), Some(9));
}

#[test]
fn slash_comment_with_hash_is_read() {
    let parsed = parse_2d("// see #3\n1 2");
    assert_eq!(parsed.errors.len(), 1);
    assert!(parse_2d("  # 1 2\n// 3 4\n5 6").errors.is_empty());
}

#[test]
fn commented_separator_keeps_one_ring_in_selection() {
    let text = "1 2\n# ===============\n3 4";
    assert_eq!(parse_2d(text).rings.len(), 1);
    assert_eq!(selected_line_for_dims(text, 0, 0, 2), Some(0));
    assert_eq!(selected_line_for_dims(text, 0, 1, 2), Some(2));
    assert_eq!(selected_line_for_dims(text, 1, 0, 2), None);
}

#[test]
fn selection_matches_parse_in_both_directions() {
    let text = "1 2 # a=b\r\n  =============== // next\r\n\r\n3 4\n5 6 =\n===============\n# ===============\n7 8\n9 x";
    let parsed = parse_2d(text);
    let lines: Vec<&str> = text.lines().collect();
    for r in 0..4 {
        for p in 0..4 {
            let found = selected_line_for_dims(text, r, p, 2);
            let exists = r < parsed.rings.len() && p < parsed.rings[r].points.len();
            assert_eq!(found.is_some(), exists, "ring {r} point {p}");
            if let Some(l) = found {
                let fields = parse_point_line(strip_inline_comment(lines[l]).trim(), 2).unwrap();
                let point = &parsed.rings[r].points[p];
                assert_eq!(fields, vec![point.lon.clone(), point.lat.clone()]);
                if p > 0 {
                    let k = selected_line_for_dims(text, r, p - 1, 2).unwrap();
                    assert!(k < l);
                }
                assert!(looks_like_point_line(strip_inline_comment(lines[l]).trim(), 2));
            }
        }
    }
    assert_eq!(parsed.rings.len(), 3);
    assert_eq!(selected_line_for_dims(text, 1, 1, 2), Some(4));
    assert_eq!(selected_line_for_dims(text, 2, 0, 2), Some(7));
}
