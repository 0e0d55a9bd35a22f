use vimhelp_index::adapters::parser::vimdoc::{header_text, is_section_rule, parse_source};

#[test]
fn empty_input_yields_document_with_no_sections_or_tags() {
    let doc = parse_source("", "doc/empty.txt");
    assert_eq!(doc.path, "doc/empty.txt".to_string());
    assert!(doc.tags.is_empty());
    assert!(doc.sections.is_empty());
}

#[test]
fn plain_text_with_no_rules_yields_one_headerless_section() {
    let src = "just some prose\nno rules at all\n";
    let doc = parse_source(src, "doc/plain.txt");
    assert_eq!(doc.sections.len(), 1);
    let sec = &doc.sections[0];
    assert_eq!(sec.header, None);
    assert_eq!(sec.body, "just some prose\nno rules at all");
    assert_eq!(sec.line_start, 1);
}

#[test]
fn extracts_tags_from_body_in_first_occurrence_order() {
    let src = "text with *first* and *second* and *first* again\n";
    let doc = parse_source(src, "doc/tags.txt");
    assert_eq!(doc.tags, vec!["first".to_string(), "second".to_string()]);
}

#[test]
fn asterisks_around_whitespace_are_not_tags() {
    let src = "*foo bar* is not a tag; *foo-bar* is\n";
    let doc = parse_source(src, "doc/mixed.txt");
    assert_eq!(doc.tags, vec!["foo-bar".to_string()]);
}

#[test]
fn section_rule_boundary_at_40_equals() {
    assert!(is_section_rule(&"=".repeat(40)));
    assert!(is_section_rule(&"=".repeat(78)));
    assert!(!is_section_rule(&"=".repeat(39)));
    assert!(!is_section_rule("=== not a rule ==="));
    assert!(!is_section_rule(""));
}

#[test]
fn subsection_dashes_do_not_split_sections() {
    let rule = "=".repeat(78);
    let sub_rule = "-".repeat(78);
    let src = format!(
        "preamble\n{rule}\nHEADER *tag*\nbody line 1\n{sub_rule}\nSubsection *sub-tag*\nmore body\n"
    );
    let doc = parse_source(&src, "doc/nested.txt");
    assert_eq!(doc.sections.len(), 2);
    let sec = &doc.sections[1];
    assert_eq!(sec.header.as_deref(), Some("HEADER"));
    assert!(sec.body.contains(&sub_rule));
    assert!(sec.body.contains("Subsection"));
    assert_eq!(doc.tags, vec!["tag".to_string(), "sub-tag".to_string()]);
    assert_eq!(sec.tags, vec!["tag".to_string(), "sub-tag".to_string()]);
}

#[test]
fn header_strips_trailing_tag_markers() {
    assert_eq!(
        header_text("CONTENTS                                     *operator-contents*"),
        "CONTENTS"
    );
}

#[test]
fn empty_preamble_before_first_rule_is_omitted() {
    let rule = "=".repeat(78);
    let src = format!("{rule}\nHEADER\nbody\n");
    let doc = parse_source(&src, "doc/prefixed.txt");
    assert_eq!(doc.sections.len(), 1);
    assert_eq!(doc.sections[0].header.as_deref(), Some("HEADER"));
}

#[test]
fn section_line_start_is_1_indexed() {
    let rule = "=".repeat(78);
    let src = format!("preamble\n{rule}\nSECOND\nbody\n");
    let doc = parse_source(&src, "doc/positioned.txt");
    assert_eq!(doc.sections.len(), 2);
    assert_eq!(doc.sections[0].line_start, 1);
    assert_eq!(doc.sections[1].line_start, 3);
}

#[test]
fn rule_at_eof_does_not_panic() {
    let rule = "=".repeat(78);
    let src = format!("body\n{rule}");
    let doc = parse_source(&src, "doc/trailing-rule.txt");
    assert_eq!(doc.sections.len(), 1);
    assert_eq!(doc.sections[0].header, None);
}
