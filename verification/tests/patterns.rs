use radix_patterns::extract::extract_patterns;
use radix_patterns::matcher::{anchored_pattern, extract_radix_from_filename};
use radix_patterns::order::{compare_text, Rank};

#[test]
fn regex_matches_different_radix() {
    let result = extract_patterns(&["shot_001_diffuse.jpg", "shot_001_specular.jpg"]).unwrap();
    let radix = extract_radix_from_filename(&result.cell_patterns[0].regex_str, "shot_042_diffuse.jpg");
    assert_eq!(radix, Some("shot_042".to_string()));
}

#[test]
fn regex_matches_mixed_ext() {
    let result =
        extract_patterns(&["shot_001.jpg", "shot_001_diffuse.tiff", "shot_001_specular.jpeg"])
            .unwrap();
    let radix = extract_radix_from_filename(&result.cell_patterns[1].regex_str, "shot_042_diffuse.tiff");
    assert_eq!(radix, Some("shot_042".to_string()));
}

#[test]
fn regex_rejects_unrelated_file() {
    let result = extract_patterns(&["shot_001_diffuse.jpg", "shot_001_specular.jpg"]).unwrap();
    let radix = extract_radix_from_filename(&result.cell_patterns[0].regex_str, "photo_holiday.png");
    assert!(radix.is_none());
}

#[test]
fn pattern_gives_back_any_radix_before_its_tail() {
    let names = ["r_1_(a).x.png", "r_1_b+c.png", "r_1.png"];
    let result = extract_patterns(&names).unwrap();
    assert_eq!(result.radix, "r_1");
    for cell in &result.cell_patterns {
        for radix in ["r_1", "other", "x", "", "a.b-c_d", "été", "r_1_b+c.png"] {
            let name = format!("{}{}", radix, cell.tail);
            assert_eq!(
                extract_radix_from_filename(&cell.regex_str, &name),
                Some(radix.to_string())
            );
        }
    }
}

#[test]
fn pattern_rejects_names_without_its_tail() {
    let result = extract_patterns(&["shot_001_diffuse.jpg", "shot_001_specular.jpg"]).unwrap();
    let diffuse = &result.cell_patterns[0].regex_str;
    for name in [
        "shot_001_specular.jpg",
        "shot_001_diffuse.jpg.bak",
        "shot_001_diffuseXjpg",
        "shot_001_diffuse.jp",
        "diffuse.jpg",
        "",
    ] {
        assert_eq!(extract_radix_from_filename(diffuse, name), None);
    }
}

#[test]
fn invalid_pattern_captures_nothing() {
    assert_eq!(extract_radix_from_filename("^(.*", "shot_001.jpg"), None);
    assert_eq!(extract_radix_from_filename("[", "["), None);
}

#[test]
fn pattern_without_a_group_captures_nothing() {
    assert_eq!(extract_radix_from_filename("^shot.*$", "shot_001.jpg"), None);
    assert_eq!(extract_radix_from_filename("^(?:a|(b))$", "a"), None);
    assert_eq!(extract_radix_from_filename("^(?:a|(b))$", "b"), Some("b".to_string()));
}

#[test]
fn edited_pattern_is_evaluated_as_written() {
    assert_eq!(
        extract_radix_from_filename("^(shot_[0-9]+)_.*\\.jpg$", "shot_017_depth.jpg"),
        Some("shot_017".to_string())
    );
    assert_eq!(extract_radix_from_filename("(0+)", "a001_00"), Some("00".to_string()));
}

#[test]
fn anchored_pattern_of_a_tail() {
    assert_eq!(anchored_pattern(""), "^(.*)$");
    assert_eq!(anchored_pattern("_a"), "^(.*)_a$");
    assert_eq!(anchored_pattern(".jpg"), "^(.*)\\.jpg$");
    assert_eq!(anchored_pattern("-v1.0"), "^(.*)\\-v1\\.0$");
    assert_eq!(anchored_pattern("_é b"), "^(.*)_é b$");
}

#[test]
fn texts_compare_by_code_point() {
    assert_eq!(compare_text("", ""), Rank::Same);
    assert_eq!(compare_text("abc", "abc"), Rank::Same);
    assert_eq!(compare_text("", "a"), Rank::Before);
    assert_eq!(compare_text("a", ""), Rank::After);
    assert_eq!(compare_text("ab", "abc"), Rank::Before);
    assert_eq!(compare_text("abd", "abc"), Rank::After);
    assert_eq!(compare_text("B", "a"), Rank::Before);
    assert_eq!(compare_text("shot_10", "shot_9"), Rank::Before);
    assert_eq!(compare_text("z", "é"), Rank::Before);
    assert_eq!(compare_text("\u{ffff}", "\u{10000}"), Rank::Before);
}

#[test]
fn pattern_does_not_cross_a_line_break() {
    let result = extract_patterns(&["shot_001_a.png", "shot_001_b.png"]).unwrap();
    let pattern = &result.cell_patterns[0].regex_str;
    assert_eq!(extract_radix_from_filename(pattern, "x y_a.png"), Some("x y".to_string()));
    assert_eq!(extract_radix_from_filename(pattern, "x\ny_a.png"), None);
}
