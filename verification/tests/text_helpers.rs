use radix_patterns::text::{
    chars_of, count_leading_separators, find_last_dot, find_last_separator, separator, substring,
    trim_end,
};
use radix_patterns::{extract_patterns, resolve_files_for_radix, scan_radixes};

#[test]
fn separators_are_three() {
    assert!(separator('_'));
    assert!(separator('-'));
    assert!(separator('.'));
    assert!(!separator(' '));
    assert!(!separator('a'));
    assert!(!separator('/'));
}

#[test]
fn characters_and_substrings() {
    assert_eq!(chars_of("aé_"), vec!['a', 'é', '_']);
    assert!(chars_of("").is_empty());
    assert_eq!(substring("aé_b", 1, 3), "é_");
    assert_eq!(substring("aé_b", 0, 4), "aé_b");
    assert_eq!(substring("aé_b", 2, 2), "");
}

#[test]
fn trailing_separators_are_trimmed() {
    let text = chars_of("ab_-.cd._");
    assert_eq!(trim_end(&text, 9), 7);
    assert_eq!(trim_end(&text, 7), 7);
    assert_eq!(trim_end(&text, 5), 2);
    assert_eq!(trim_end(&text, 0), 0);
    assert_eq!(trim_end(&chars_of("_-."), 3), 0);
}

#[test]
fn leading_separators_are_counted() {
    assert_eq!(count_leading_separators(&chars_of("_-.a_b")), 3);
    assert_eq!(count_leading_separators(&chars_of("a_b")), 0);
    assert_eq!(count_leading_separators(&chars_of("._")), 2);
    assert_eq!(count_leading_separators(&chars_of("")), 0);
}

#[test]
fn last_separator_and_last_dot() {
    let text = chars_of("a_b.c-d");
    assert_eq!(find_last_separator(&text, 7), Some(5));
    assert_eq!(find_last_separator(&text, 5), Some(3));
    assert_eq!(find_last_separator(&text, 1), None);
    assert_eq!(find_last_separator(&text, 0), None);
    assert_eq!(find_last_dot(&text, 0), Some(3));
    assert_eq!(find_last_dot(&text, 2), Some(1));
    assert_eq!(find_last_dot(&text, 4), None);
    assert_eq!(find_last_dot(&chars_of("a.b.c"), 0), Some(3));
    assert_eq!(find_last_dot(&text, 7), None);
}

#[test]
fn from_names_to_files() {
    let entries: Vec<String> = ["t_2_l.png", "t_1_r.png", "t_2_r.png", "t_1_l.png", "t_3_l.png"]
        .iter()
        .map(|name| name.to_string())
        .collect();
    let extraction = extract_patterns(&["t_1_l.png", "t_1_r.png"]).unwrap();
    let radixes = scan_radixes(&entries, &extraction.cell_patterns);
    assert_eq!(radixes, vec!["t_1", "t_2"]);
    let files = resolve_files_for_radix(&entries, &radixes[1], &extraction.cell_patterns);
    assert_eq!(files, vec![Some("t_2_l.png".to_string()), Some("t_2_r.png".to_string())]);
    let lone = resolve_files_for_radix(&entries, "t_3", &extraction.cell_patterns);
    assert_eq!(lone, vec![Some("t_3_l.png".to_string()), None]);
}
