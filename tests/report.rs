use detect_changed_files::config::parse_config;
use detect_changed_files::diff::DiffFiles;
use detect_changed_files::json::generate_json;
use detect_changed_files::report::check_patterns;

#[test]
fn end_to_end_groups() {
    let config = parse_config("[compile]\nsrc/**\n.github/changed-files.conf\n[test]\ntests/**\n").unwrap();
    let files = DiffFiles::from_text("src/lib.rs\nREADME.md\n");
    let results = check_patterns(&config, &files);
    assert_eq!(results, vec![("compile".to_string(), true), ("test".to_string(), false)]);
    assert_eq!(generate_json(&results), "{\n  \"compile\": true,\n  \"test\": false\n}");
}

#[test]
fn changed_files_skip_blank_lines() {
    let files = DiffFiles::from_text("  a/b.rs  \n\n   \r\nc.rs\r\n");
    assert_eq!(files.files.len(), 2);
    let pattern = detect_changed_files::matching::MatchPath::from_str("a/b.rs");
    assert!(pattern.is_match(&files.files[0]));
    assert!(!pattern.is_match(&files.files[1]));
}

#[test]
fn json_keys_sorted() {
    let results = vec![
        ("zeta".to_string(), false),
        ("alpha".to_string(), true),
        ("al".to_string(), false),
    ];
    assert_eq!(
        generate_json(&results),
        "{\n  \"al\": false,\n  \"alpha\": true,\n  \"zeta\": false\n}"
    );
}

#[test]
fn json_of_no_groups() {
    assert_eq!(generate_json(&Vec::new()), "{\n}");
}

#[test]
fn group_without_match_or_files() {
    let config = parse_config("[docs]\ndocs/\n[none]\n").unwrap();
    let empty = DiffFiles::from_text("");
    assert_eq!(
        check_patterns(&config, &empty),
        vec![("docs".to_string(), false), ("none".to_string(), false)]
    );
    let files = DiffFiles::from_text("docs/guide/intro.md");
    assert_eq!(
        check_patterns(&config, &files),
        vec![("docs".to_string(), true), ("none".to_string(), false)]
    );
}
