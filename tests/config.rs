use detect_changed_files::config::{parse_config, ParseErrorKind};

#[test]
fn test_empty_config() {
    let content = "";
    let result = parse_config(content).unwrap();
    assert!(result.is_empty());
}

#[test]
fn test_valid_config() {
    let content = r#"
[compile]
.github/changed-files.conf
src/**

[test]
tests/**
"#;

    let result = parse_config(content).unwrap();
    assert_eq!(result.len(), 2);
    assert!(result.contains_key("compile"));
    assert_eq!(result.get("compile").unwrap().len(), 2);
    assert!(result.contains_key("test"));
    assert_eq!(result.get("test").unwrap().len(), 1);
}

#[test]
fn test_empty_section_alone() {
    let content = "[empty-section]\n";
    let result = parse_config(content).unwrap();
    assert!(result.contains_key("empty-section"));
    assert_eq!(result.get("empty-section").unwrap().len(), 0);
}

#[test]
fn test_empty_section_before_full_section() {
    let content = r#"
[empty-section]
[section]
item1
item2
"#;
    let result = parse_config(content).unwrap();
    assert!(result.contains_key("empty-section"));
    assert_eq!(result.get("empty-section").unwrap().len(), 0);
    assert!(result.contains_key("section"));
    assert_eq!(result.get("section").unwrap().len(), 2);
}

#[test]
fn test_comments() {
    let content = r#"
# This is a comment
[section]
# Another comment
item1
item2
"#;
    let result = parse_config(content).unwrap();
    assert_eq!(result.get("section").unwrap().len(), 2);
}

#[test]
fn test_duplicate_section() {
    let content = r#"
[section]
item1
[section]
item2
"#;
    let err = parse_config(content).unwrap_err();
    assert_eq!(err.line, 4);
    assert!(err.message.contains("Duplicate section"));
}

#[test]
fn test_item_before_section() {
    let content = r#"
item1
[section]
"#;
    let err = parse_config(content).unwrap_err();
    assert_eq!(err.line, 2);
    assert!(err.message.contains("before any section"));
}

#[test]
fn test_whitespace_only_line() {
    let content = r#"
[section]
        
item1
"#;
    let result = parse_config(content).unwrap();
    assert_eq!(result.get("section").unwrap().len(), 1);
    assert_eq!(result.get("section").unwrap()[0], "item1");
}

#[test]
fn error_kinds_and_messages() {
    let err = parse_config("[a]\nx\n[a]\n").unwrap_err();
    assert_eq!(err.kind, ParseErrorKind::DuplicateSection);
    assert_eq!(err.message, "Duplicate section: 'a'");
    assert_eq!(err.line, 3);

    let err = parse_config("\n\n[]\n").unwrap_err();
    assert_eq!(err.kind, ParseErrorKind::HeaderTooShort);
    assert_eq!(err.message, "Invalid section header: too short");
    assert_eq!(err.line, 3);

    let err = parse_config("; note\nx\n").unwrap_err();
    assert_eq!(err.kind, ParseErrorKind::ItemBeforeSection);
    assert_eq!(err.message, "Item found before any section is defined");
    assert_eq!(err.line, 2);
}

#[test]
fn items_are_trimmed_and_ordered() {
    let result = parse_config("  [g]  \r\n\t b/** \r\n;c\na\n[h]\n[i]\nz").unwrap();
    assert_eq!(result.len(), 3);
    let g = result.get("g").unwrap();
    assert_eq!(g, &vec!["b/**".to_string(), "a".to_string()]);
    assert_eq!(result.sections[0].name, "g");
    assert_eq!(result.sections[1].name, "h");
    assert_eq!(result.sections[2].name, "i");
    assert_eq!(result.get("i").unwrap(), &vec!["z".to_string()]);
    assert!(result.get("missing").is_none());
    assert!(!result.contains_key("missing"));
}
