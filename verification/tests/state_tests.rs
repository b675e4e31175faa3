use geo_ring_viewer::palette::{ring_color, ring_outline, Rgb};
use geo_ring_viewer::selection::{PickedPoint2D, PickedPoint3D};
use geo_ring_viewer::import::ImportedFile;
use geo_ring_viewer::state::{CoordDimension, ViewerState};

#[test]
fn new_state_is_empty() {
    let st = ViewerState::new();
    assert!(st.input_2d.is_empty() && st.input_3d.is_empty());
    assert!(st.parsed_2d.rings.is_empty() && st.parsed_3d.errors.is_empty());
    assert!(!st.show_errors);
    assert_eq!(st.status_message, None);
}

#[test]
fn import_parses_and_clears_selection() {
    let mut st = ViewerState::new();
    st.selected_2d = Some(PickedPoint2D { ring_idx: 0, point_idx: 0 });
    st.last_scrolled_3d = Some(PickedPoint3D { ring_idx: 0, point_idx: 0 });
    st.input_revision = u64::MAX;
    st.apply_imported_text(CoordDimension::Dim2D, "1 2\n3 4\nzzz".to_string());
    assert_eq!(st.input_2d, "1 2\n3 4\nzzz");
    assert_eq!(st.parsed_2d.rings.len(), 1);
    assert_eq!(st.parsed_2d.errors.len(), 1);
    assert!(st.show_errors);
    assert_eq!(st.input_revision, 0);
    assert_eq!(st.view_revision, 1);
    assert_eq!(st.selected_2d, None);
    assert_eq!(st.last_scrolled_3d, None);

    st.apply_imported_text(CoordDimension::Dim3D, "1 2 3".to_string());
    assert_eq!(st.parsed_3d.rings.len(), 1);
    assert_eq!(st.input_2d, "1 2\n3 4\nzzz");
}

#[test]
fn refresh_shows_errors_only_when_any() {
    let mut st = ViewerState::new();
    st.input_3d = "1 2 3".to_string();
    st.refresh();
    assert!(!st.show_errors);
    st.input_3d = "1 2".to_string();
    st.refresh();
    assert!(st.show_errors);
}

#[test]
fn clear_resets_everything() {
    let mut st = ViewerState::new();
    st.apply_imported_text(CoordDimension::Dim2D, "oops".to_string());
    st.set_status("Plot updated.".to_string(), true);
    st.clear_inputs();
    assert!(st.input_2d.is_empty());
    assert!(!st.show_errors);
    assert_eq!(st.status_message.as_deref(), Some("Cleared 2D and 3D inputs."));
    assert!(!st.status_is_error);
    assert_eq!(st.input_revision, 2);
}

#[test]
fn ring_colors_cycle() {
    assert_eq!(ring_color(0), Rgb { r: 56, g: 189, b: 248 });
    assert_eq!(ring_color(7), Rgb { r: 248, g: 113, b: 113 });
    assert_eq!(ring_color(9), ring_color(1));
    assert_eq!(ring_color(1), Rgb { r: 251, g: 146, b: 60 });
}

#[test]
fn outlines_close_from_three_points() {
    assert!(ring_outline(0).is_empty());
    assert!(ring_outline(1).is_empty());
    assert_eq!(ring_outline(2), vec![0, 1]);
    assert_eq!(ring_outline(4), vec![0, 1, 2, 3, 0]);
}


#[test]
fn draw_parses_and_reports() {
    let mut st = ViewerState::new();
    st.input_2d = "1 2\nx".to_string();
    st.draw();
    assert_eq!(st.parsed_2d.rings.len(), 1);
    assert!(st.show_errors);
    assert_eq!(st.status_message.as_deref(), Some("Plot updated."));
    assert!(!st.status_is_error);
}

#[test]
fn finish_import_applies_text_or_reports_error() {
    let files = vec![
        ImportedFile { display: "/d/a.txt".to_string(), file_name: "a.txt".to_string() },
        ImportedFile { display: "/d/b.txt".to_string(), file_name: "b.txt".to_string() },
    ];
    let mut st = ViewerState::new();
    st.selected_2d = Some(PickedPoint2D { ring_idx: 0, point_idx: 0 });
    st.finish_import(CoordDimension::Dim3D, Ok("1 2 3\n===============\n4 5 6".to_string()), &files);
    assert_eq!(st.parsed_3d.rings.len(), 2);
    assert_eq!(st.selected_2d, None);
    assert_eq!(st.view_revision, 1);
    assert_eq!(
        st.status_message.as_deref(),
        Some("Imported 2 files (merged with ===============): a.txt, b.txt")
    );
    assert!(!st.status_is_error);

    st.finish_import(CoordDimension::Dim2D, Err("No files selected.".to_string()), &files);
    assert_eq!(st.status_message.as_deref(), Some("No files selected."));
    assert!(st.status_is_error);
    assert_eq!(st.parsed_3d.rings.len(), 2);
    assert_eq!(st.view_revision, 1);
}
