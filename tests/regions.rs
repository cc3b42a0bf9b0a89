use clippy_dev::{has_region_start, replace_region_in_text};

#[test]
fn test_replace_region() {
    let text = r#"
abc
123
789
def
ghi"#;
    let expected = r#"
abc
hello world
def
ghi"#;
    let result = replace_region_in_text(text, r#"^\s*abc$"#, r#"^\s*def"#, false, || {
        vec!["hello world".to_string()]
    });
    assert_eq!(expected, result.unwrap());
}

#[test]
fn test_replace_region_with_start() {
    let text = r#"
abc
123
789
def
ghi"#;
    let expected = r#"
hello world
def
ghi"#;
    let result = replace_region_in_text(text, r#"^\s*abc$"#, r#"^\s*def"#, true, || {
        vec!["hello world".to_string()]
    });
    assert_eq!(expected, result.unwrap());
}

#[test]
fn replace_region_doc_example() {
    let the_text = "replace_start\nsome text\nthat will be replaced\nreplace_end";
    let result = replace_region_in_text(the_text, "replace_start", "replace_end", false, || {
        vec!["a different".to_string(), "text".to_string()]
    });
    assert_eq!("replace_start\na different\ntext\nreplace_end", result.unwrap());
}

#[test]
fn replace_region_without_start_is_unchanged() {
    let text = "a\nb\nc";
    let result = replace_region_in_text(text, "^x$", "^c$", false, || vec!["new".to_string()]);
    assert_eq!(result.unwrap(), "a\nb\nc");
}

#[test]
fn replace_region_trailing_newline_dropped() {
    let result = replace_region_in_text("a\nb\n", "^x$", "^c$", false, || vec![]);
    assert_eq!(result.unwrap(), "a\nb");
}

#[test]
fn replace_region_without_end_drops_rest() {
    let result = replace_region_in_text("a\nstart\nb\nc", "start", "end", false, || vec!["x".to_string()]);
    assert_eq!(result.unwrap(), "a\nstart");
}

#[test]
fn replace_region_only_first() {
    let text = "s\n1\ne\ns\n2\ne";
    let result = replace_region_in_text(text, "^s$", "^e$", false, || vec!["X".to_string()]);
    assert_eq!(result.unwrap(), "s\nX\ne\ns\n2\ne");
}

#[test]
fn replace_region_strips_carriage_returns() {
    let result = replace_region_in_text("s\r\nold\r\ne", "^s$", "^e$", false, || vec!["new".to_string()]);
    assert_eq!(result.unwrap(), "s\nnew\ne");
}

#[test]
fn replace_region_invalid_pattern() {
    assert!(replace_region_in_text("a", "(", "b", false, || vec![]).is_err());
    assert!(replace_region_in_text("a", "a", "[", false, || vec![]).is_err());
}

#[test]
fn replace_region_round_trip() {
    let text = "head\nstart\none\ntwo\nend\ntail";
    let once = replace_region_in_text(text, "^start$", "^end$", false, || vec!["other".to_string()]).unwrap();
    assert_eq!(once, "head\nstart\nother\nend\ntail");
    let twice = replace_region_in_text(&once, "^start$", "^end$", false, || {
        vec!["one".to_string(), "two".to_string()]
    })
    .unwrap();
    assert_eq!(twice, text);
}

#[test]
fn region_start_detection() {
    assert!(has_region_start("\nabc\n123", "^\\s*abc$").unwrap());
    assert!(!has_region_start("x abc\n123", "^abc$").unwrap());
    assert!(has_region_start("a", "(").is_err());
}
