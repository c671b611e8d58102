use radix_patterns::extract::{extract_patterns, CellPattern};
use radix_patterns::scan::{capture_hits, corroborated_radixes, scan_radixes, Hit};

fn listing(names: &[&str]) -> Vec<String> {
    names.iter().map(|name| name.to_string()).collect()
}

fn cell(regex_str: &str) -> CellPattern {
    CellPattern { label: String::new(), tail: String::new(), regex_str: regex_str.to_string() }
}

fn hit(entry: usize, cell: usize, radix: &str) -> Hit {
    Hit { entry, cell, radix: radix.to_string() }
}

#[test]
fn scan_finds_radixes_same_ext() {
    let mut entries = Vec::new();
    for radix in &["shot_001", "shot_002", "shot_003"] {
        for tail in &["_diffuse.jpg", "_specular.jpg"] {
            entries.push(format!("{}{}", radix, tail));
        }
    }
    entries.push("unrelated.txt".to_string());

    let result = extract_patterns(&["shot_001_diffuse.jpg", "shot_001_specular.jpg"]).unwrap();
    let radixes = scan_radixes(&entries, &result.cell_patterns);
    assert_eq!(radixes, vec!["shot_001", "shot_002", "shot_003"]);
}

#[test]
fn scan_finds_radixes_mixed_ext() {
    let mut entries = Vec::new();
    for radix in &["shot_001", "shot_002", "shot_003"] {
        for tail in &[".jpg", "_diffuse.tiff", "_specular.jpeg"] {
            entries.push(format!("{}{}", radix, tail));
        }
    }
    entries.push("unrelated.txt".to_string());

    let result =
        extract_patterns(&["shot_001.jpg", "shot_001_diffuse.tiff", "shot_001_specular.jpeg"])
            .unwrap();
    let radixes = scan_radixes(&entries, &result.cell_patterns);
    assert_eq!(radixes, vec!["shot_001", "shot_002", "shot_003"]);
}

#[test]
fn scan_single_cell_match_filtered_out() {
    let entries = listing(&["shot_003_diffuse.jpg"]);

    let result = extract_patterns(&["shot_001_diffuse.jpg", "shot_001_specular.jpg"]).unwrap();
    let radixes = scan_radixes(&entries, &result.cell_patterns);
    assert!(radixes.is_empty());
}

#[test]
fn scan_partial_match_two_of_three() {
    let entries = listing(&["shot_003.jpg", "shot_003_diffuse.tiff"]);

    let result =
        extract_patterns(&["shot_001.jpg", "shot_001_diffuse.tiff", "shot_001_specular.jpeg"])
            .unwrap();
    let radixes = scan_radixes(&entries, &result.cell_patterns);
    assert_eq!(radixes, vec!["shot_003"]);
}

#[test]
fn scan_of_the_sample_directory() {
    let entries = listing(&[
        "shot_002_specular.jpg",
        "unrelated.txt",
        "shot_001_diffuse.jpg",
        "shot_002_diffuse.jpg",
        "shot_001_specular.jpg",
    ]);
    let result = extract_patterns(&["shot_001_diffuse.jpg", "shot_001_specular.jpg"]).unwrap();
    assert_eq!(scan_radixes(&entries, &result.cell_patterns), vec!["shot_001", "shot_002"]);
}

#[test]
fn scan_of_an_empty_listing() {
    let result = extract_patterns(&["shot_001_diffuse.jpg", "shot_001_specular.jpg"]).unwrap();
    assert!(scan_radixes(&[], &result.cell_patterns).is_empty());
}

#[test]
fn scan_without_cells() {
    let entries = listing(&["shot_001_diffuse.jpg", "shot_001_specular.jpg"]);
    assert!(scan_radixes(&entries, &[]).is_empty());
}

#[test]
fn scan_with_one_cell_keeps_every_radix() {
    let entries = listing(&["b.jpg", "a.jpg", "c.png", "a.jpg"]);
    let radixes = scan_radixes(&entries, &[cell("^(.*)\\.jpg$")]);
    assert_eq!(radixes, vec!["a", "b"]);
}

#[test]
fn scan_twice_gives_the_same_list() {
    let entries = listing(&[
        "b_x.png", "a_y.png", "a_x.png", "c_x.png", "b_y.png", "notes.txt", "c_y.png", "d_x.png",
    ]);
    let result = extract_patterns(&["a_x.png", "a_y.png"]).unwrap();
    let first = scan_radixes(&entries, &result.cell_patterns);
    let second = scan_radixes(&entries, &result.cell_patterns);
    assert_eq!(first, vec!["a", "b", "c"]);
    assert_eq!(first, second);
}

#[test]
fn scan_passes_over_an_invalid_pattern() {
    let entries = listing(&["a.jpg", "a.png", "b.jpg"]);
    let broken = [cell("^(.*)\\.jpg$"), cell("^(.*"), cell("^(.*)\\.png$")];
    assert_eq!(scan_radixes(&entries, &broken), vec!["a"]);
    let lonely = [cell("^(.*)\\.jpg$"), cell("(")];
    assert!(scan_radixes(&entries, &lonely).is_empty());
}

#[test]
fn scan_needs_two_different_cells() {
    let entries = listing(&["a.jpg", "a.jpg", "b.jpg", "b.JPG"]);
    let cells = [cell("^(.*)\\.jpg$"), cell("^(.*)\\.JPG$")];
    assert_eq!(scan_radixes(&entries, &cells), vec!["b"]);
}

#[test]
fn scan_lists_in_code_point_order() {
    let entries = listing(&[
        "b.1", "b.2", "B.1", "B.2", "a10.1", "a10.2", "a9.1", "a9.2", "é.1", "é.2", ".1", ".2",
    ]);
    let cells = [cell("^(.*)\\.1$"), cell("^(.*)\\.2$")];
    let radixes = scan_radixes(&entries, &cells);
    assert_eq!(radixes, vec!["", "B", "a10", "a9", "b", "é"]);
    let mut sorted = radixes.clone();
    sorted.sort();
    assert_eq!(radixes, sorted);
}

#[test]
fn hits_are_collected_row_by_row() {
    let entries = listing(&["a.jpg", "notes.txt", "a.png", "b.jpg"]);
    let cells = [cell("^(.*)\\.jpg$"), cell("^(.*)\\.png$"), cell("^(.).*$")];
    let hits = capture_hits(&entries, &cells);
    assert_eq!(
        hits,
        vec![
            hit(0, 0, "a"),
            hit(0, 2, "a"),
            hit(1, 2, "n"),
            hit(2, 1, "a"),
            hit(2, 2, "a"),
            hit(3, 0, "b"),
            hit(3, 2, "b"),
        ]
    );
}

#[test]
fn corroborated_radixes_of_hits() {
    let hits = vec![
        hit(0, 1, "m"),
        hit(1, 0, "z"),
        hit(2, 0, "m"),
        hit(3, 1, "z"),
        hit(4, 2, "k"),
        hit(5, 2, "k"),
        hit(6, 0, "a"),
        hit(7, 2, "a"),
        hit(8, 1, "a"),
    ];
    assert_eq!(corroborated_radixes(&hits, 3), vec!["a", "m", "z"]);
    assert_eq!(corroborated_radixes(&hits, 2), vec!["a", "m", "z"]);
    assert_eq!(corroborated_radixes(&hits, 1), vec!["a", "k", "m", "z"]);
    assert_eq!(corroborated_radixes(&hits, 0), vec!["a", "k", "m", "z"]);
    assert!(corroborated_radixes(&[], 2).is_empty());
    assert!(corroborated_radixes(&[hit(0, 0, "a")], 2).is_empty());
    assert_eq!(corroborated_radixes(&[hit(0, 0, "a")], 1), vec!["a"]);
}
