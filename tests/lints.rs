use clippy_dev::{gen_changelog_lint_list, gen_deprecated, gather_all, parse_contents, Lint, DOCS_LINK};
use std::collections::HashMap;

#[test]
fn test_parse_contents() {
    let result: Vec<Lint> = parse_contents(
        r#"
declare_clippy_lint! {
    pub PTR_ARG,
    style,
    "really long \
     text"
}

declare_clippy_lint!{
    pub DOC_MARKDOWN,
    pedantic,
    "single line"
}

/// some doc comment
declare_deprecated_lint! {
    pub SHOULD_ASSERT_EQ,
    "`assert!()` will be more flexible with RFC 2011"
}
    "#,
        "module_name",
    );

    let expected = vec![
        Lint::new("ptr_arg", "style", "really long text", None, "module_name"),
        Lint::new("doc_markdown", "pedantic", "single line", None, "module_name"),
        Lint::new(
            "should_assert_eq",
            "Deprecated",
            "`assert!()` will be more flexible with RFC 2011",
            Some("`assert!()` will be more flexible with RFC 2011"),
            "module_name",
        ),
    ];
    assert_eq!(expected, result);
}

#[test]
fn test_usable_lints() {
    let lints = vec![
        Lint::new("should_assert_eq", "Deprecated", "abc", Some("Reason"), "module_name"),
        Lint::new("should_assert_eq2", "Not Deprecated", "abc", None, "module_name"),
        Lint::new("should_assert_eq2", "internal", "abc", None, "module_name"),
        Lint::new("should_assert_eq2", "internal_style", "abc", None, "module_name"),
    ];
    let expected = vec![Lint::new("should_assert_eq2", "Not Deprecated", "abc", None, "module_name")];
    assert_eq!(expected, Lint::usable_lints(lints));
}

#[test]
fn test_by_lint_group() {
    let lints = vec![
        Lint::new("should_assert_eq", "group1", "abc", None, "module_name"),
        Lint::new("should_assert_eq2", "group2", "abc", None, "module_name"),
        Lint::new("incorrect_match", "group1", "abc", None, "module_name"),
    ];
    let mut expected: HashMap<String, Vec<Lint>> = HashMap::new();
    expected.insert(
        "group1".to_string(),
        vec![
            Lint::new("should_assert_eq", "group1", "abc", None, "module_name"),
            Lint::new("incorrect_match", "group1", "abc", None, "module_name"),
        ],
    );
    expected.insert(
        "group2".to_string(),
        vec![Lint::new("should_assert_eq2", "group2", "abc", None, "module_name")],
    );
    assert_eq!(expected, Lint::by_lint_group(&lints));
}

#[test]
fn test_gen_changelog_lint_list() {
    let lints = vec![
        Lint::new("should_assert_eq", "group1", "abc", None, "module_name"),
        Lint::new("should_assert_eq2", "group2", "abc", None, "module_name"),
        Lint::new("incorrect_internal", "internal_style", "abc", None, "module_name"),
    ];
    let expected = vec![
        format!("[`should_assert_eq`]: {}#should_assert_eq", DOCS_LINK.to_string()),
        format!("[`should_assert_eq2`]: {}#should_assert_eq2", DOCS_LINK.to_string()),
    ];
    assert_eq!(expected, gen_changelog_lint_list(lints));
}

#[test]
fn test_gen_deprecated() {
    let lints = vec![
        Lint::new(
            "should_assert_eq",
            "group1",
            "abc",
            Some("has been superseeded by should_assert_eq2"),
            "module_name",
        ),
        Lint::new("should_assert_eq2", "group2", "abc", None, "module_name"),
    ];
    let expected: Vec<String> = vec![r#"    store.register_removed(
        "should_assert_eq",
        "has been superseeded by should_assert_eq2",
    );"#
    .to_string()];
    assert_eq!(expected, gen_deprecated(&lints));
}

#[test]
fn new_lowercases_mixed_case_name() {
    let l = Lint::new("Ptr_ARG", "style", "d", None, "m");
    assert_eq!(l.name, "ptr_arg");
    assert_eq!(l.group, "style");
    assert_eq!(l.deprecation, None);
    assert_eq!(l.module, "m");
}

#[test]
fn new_unescapes_quotes_and_joins_continuations() {
    let l = Lint::new("a", "g", "say \\\"hi\\\" \\\n    to all \\\n  of you", None, "m");
    assert_eq!(l.desc, "say \"hi\" to all of you");
}

#[test]
fn new_keeps_deprecation_text() {
    let l = Lint::new("a", "Deprecated", "why", Some("why"), "m");
    assert_eq!(l.deprecation, Some("why".to_string()));
}

#[test]
fn is_internal_by_prefix() {
    assert!(Lint::new("a", "internal", "d", None, "m").is_internal());
    assert!(Lint::new("a", "internal_style", "d", None, "m").is_internal());
    assert!(!Lint::new("a", "intern", "d", None, "m").is_internal());
    assert!(!Lint::new("a", "style_internal", "d", None, "m").is_internal());
}

#[test]
fn usable_is_identity_without_excluded() {
    let lints = vec![
        Lint::new("b", "style", "d", None, "m"),
        Lint::new("a", "pedantic", "d", None, "m"),
    ];
    assert_eq!(Lint::usable_lints(lints.clone()), lints);
}

#[test]
fn usable_excludes_deprecated_internal() {
    let lints = vec![Lint::new("a", "internal", "d", Some("gone"), "m")];
    assert_eq!(Lint::usable_lints(lints), Vec::<Lint>::new());
}

#[test]
fn by_lint_group_sizes_add_up() {
    let lints = vec![
        Lint::new("a", "g1", "d", None, "m"),
        Lint::new("b", "g2", "d", None, "m"),
        Lint::new("c", "g1", "d", None, "m"),
        Lint::new("d", "g3", "d", None, "m"),
    ];
    let groups = Lint::by_lint_group(&lints);
    assert_eq!(groups.len(), 3);
    assert_eq!(groups.values().map(|v| v.len()).sum::<usize>(), 4);
    for l in &lints {
        assert!(groups[&l.group].contains(l));
    }
}

#[test]
fn by_lint_group_empty() {
    assert!(Lint::by_lint_group(&[]).is_empty());
}

#[test]
fn changelog_sorted_regardless_of_order() {
    let lints = vec![
        Lint::new("zeta", "style", "d", None, "m"),
        Lint::new("alpha", "internal", "d", None, "m"),
        Lint::new("beta", "style", "d", Some("x"), "m"),
        Lint::new("abc", "pedantic", "d", None, "m"),
        Lint::new("ab", "pedantic", "d", None, "m"),
    ];
    let expected = vec![
        format!("[`ab`]: {}#ab", DOCS_LINK),
        format!("[`abc`]: {}#abc", DOCS_LINK),
        format!("[`beta`]: {}#beta", DOCS_LINK),
        format!("[`zeta`]: {}#zeta", DOCS_LINK),
    ];
    assert_eq!(gen_changelog_lint_list(lints), expected);
}

#[test]
fn changelog_empty() {
    assert_eq!(gen_changelog_lint_list(vec![]), Vec::<String>::new());
}

#[test]
fn deprecated_count_matches() {
    let lints = vec![
        Lint::new("a", "g", "d", Some("r1"), "m"),
        Lint::new("b", "g", "d", None, "m"),
        Lint::new("c", "g", "d", Some("r2"), "m"),
    ];
    let out = gen_deprecated(&lints);
    assert_eq!(out.len(), 2);
    assert_eq!(out[1], "    store.register_removed(\n        \"c\",\n        \"r2\",\n    );");
}

#[test]
fn parse_contents_paren_delimiters_and_no_match() {
    let text = "declare_clippy_lint!(pub FOO_BAR, correctness, \"x\")\ndeclare_clippy_lint! { pub lower, style, \"y\" }";
    let result = parse_contents(text, "file");
    assert_eq!(result, vec![Lint::new("foo_bar", "correctness", "x", None, "file")]);
    assert!(parse_contents("nothing here", "file").is_empty());
}

#[test]
fn gather_all_concatenates_files() {
    let files = vec![
        ("one".to_string(), "declare_deprecated_lint! { pub OLD, \"gone\" }".to_string()),
        ("two".to_string(), "declare_clippy_lint! { pub NEW, style, \"here\" }".to_string()),
    ];
    let expected = vec![
        Lint::new("old", "Deprecated", "gone", Some("gone"), "one"),
        Lint::new("new", "style", "here", None, "two"),
    ];
    assert_eq!(gather_all(&files), expected);
}
