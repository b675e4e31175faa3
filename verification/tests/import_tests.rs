use geo_ring_viewer::import::{
    format_import_status, merge_file_contents, ImportedFile, EXAMPLES_SAMPLE_PATHS,
    RING_JOIN_SEPARATOR,
};
use geo_ring_viewer::parser::{parse_2d, split_rings};

#[test]
fn sample_paths_are_relative() {
    assert!(!EXAMPLES_SAMPLE_PATHS.starts_with('/'));
    assert!(EXAMPLES_SAMPLE_PATHS.contains("examples/beijing_2d.txt"));
    assert!(EXAMPLES_SAMPLE_PATHS.contains("examples/beijing_3d.txt"));
}

#[test]
fn merge_single_file_contents() {
    let merged = merge_file_contents(&vec!["1.0 2.0\n3.0 4.0\n".to_string()]).unwrap();
    assert!(merged.contains("1.0 2.0"));
    assert_eq!(merged, "1.0 2.0\n3.0 4.0");
}

#[test]
fn merge_multiple_contents_adds_separator() {
    let merged =
        merge_file_contents(&vec!["1.0 2.0".to_string(), "3.0 4.0".to_string()]).unwrap();
    assert!(merged.contains(RING_JOIN_SEPARATOR));
    assert_eq!(merged, "1.0 2.0\n===============\n3.0 4.0");
}

#[test]
fn merge_errors() {
    assert_eq!(merge_file_contents(&vec![]).unwrap_err(), "No files selected.");
    assert_eq!(
        merge_file_contents(&vec![" \n".to_string(), String::new()]).unwrap_err(),
        "Selected file(s) contain no coordinate data."
    );
}

#[test]
fn merge_skips_blank_files() {
    let merged = merge_file_contents(&vec![
        "\n 1 2 \n".to_string(),
        "   ".to_string(),
        "3 4\n".to_string(),
    ])
    .unwrap();
    assert_eq!(merged, "1 2\n===============\n3 4");
}

#[test]
fn merged_text_keeps_each_files_rings() {
    let a = "1 2\n3 4\n===============\n5 6".to_string();
    let b = "  \n7 8==\n".to_string();
    let c = "===============\n9 10\n".to_string();
    let merged = merge_file_contents(&vec![a.clone(), b.clone(), c.clone()]).unwrap();
    let mut each = split_rings(&a);
    each.extend(split_rings(&b));
    each.extend(split_rings(&c));
    assert_eq!(split_rings(&merged), each);
    assert_eq!(parse_2d(&merged).rings.len(), 3);
}

fn file(display: &str, name: &str) -> ImportedFile {
    ImportedFile { display: display.to_string(), file_name: name.to_string() }
}

#[test]
fn status_for_one_file() {
    let files = vec![file("/data/a.txt", "a.txt")];
    assert_eq!(format_import_status(&files, false), "Imported: /data/a.txt");
    assert_eq!(format_import_status(&files, true), "Imported: /data/a.txt");
}

#[test]
fn status_for_merged_files() {
    let files = vec![file("/data/a.txt", "a.txt"), file("/data/b.txt", "b.txt")];
    assert_eq!(
        format_import_status(&files, true),
        "Imported 2 files (merged with ===============): a.txt, b.txt"
    );
    assert_eq!(format_import_status(&files, false), "Imported 2 files.");
}

#[test]
fn status_for_many_files_counts_in_decimal() {
    let files: Vec<ImportedFile> = (0..12).map(|i| file("x", &format!("f{i}"))).collect();
    assert!(format_import_status(&files, false) == "Imported 12 files.");
    assert_eq!(format_import_status(&[], false), "Imported 0 files.");
}

fn ring_points(text: &str) -> Vec<Vec<(String, String)>> {
    parse_2d(text)
        .rings
        .iter()
        .map(|r| r.points.iter().map(|p| (p.lon.clone(), p.lat.clone())).collect())
        .collect()
}

#[test]
fn merged_rings_are_each_files_rings() {
    let files = vec![
        "\r\n  1 2 # a\n3 4\n===============\n\n".to_string(),
        " \n\t ".to_string(),
        "# ===============\n5 6 // b\n  =============== \n7 8\r\n".to_string(),
        "x y\n9 10".to_string(),
    ];
    let merged = merge_file_contents(&files).unwrap();
    let mut each = Vec::new();
    for f in &files {
        each.extend(ring_points(f));
    }
    assert_eq!(ring_points(&merged), each);
    assert_eq!(each.len(), 4);
}

#[test]
fn trimming_keeps_rings() {
    for text in ["\n\n 1 2\n3 4 \n\n", "  ===============\n1 2\n===============  ", "\r\n5 6\r\n"] {
        assert_eq!(ring_points(text.trim()), ring_points(text));
    }
}
