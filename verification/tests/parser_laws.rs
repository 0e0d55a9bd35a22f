use vimhelp_index::adapters::parser::vimdoc::{extract_tags, parse_source};

fn sample() -> String {
    let rule = "=".repeat(78);
    format!(
        "*tiny.txt* intro\n\n{rule}\n1. Introduction    *tiny-intro*\n\nsee *tiny-ref* here\n{rule}\n2. Reference   *tiny-ref*\r\nbody *tiny-second-tag* *x y*\n"
    )
}

#[test]
fn every_section_tag_is_a_document_tag() {
    let doc = parse_source(&sample(), "doc/tiny.txt");
    for sec in &doc.sections {
        for t in &sec.tags {
            assert!(doc.tags.contains(t), "{t}");
        }
    }
    assert_eq!(
        doc.tags,
        vec![
            "tiny.txt".to_string(),
            "tiny-intro".to_string(),
            "tiny-ref".to_string(),
            "tiny-second-tag".to_string(),
        ]
    );
}

#[test]
fn sections_come_in_line_order_with_stripped_headers() {
    let doc = parse_source(&sample(), "doc/tiny.txt");
    assert_eq!(doc.sections.len(), 3);
    let starts: Vec<usize> = doc.sections.iter().map(|s| s.line_start).collect();
    assert_eq!(starts, vec![1, 4, 8]);
    assert_eq!(doc.sections[0].header, None);
    assert!(doc.sections[0].body.contains("*tiny.txt*"));
    assert_eq!(doc.sections[1].header.as_deref(), Some("1. Introduction"));
    assert_eq!(
        doc.sections[1].tags,
        vec!["tiny-intro".to_string(), "tiny-ref".to_string()]
    );
    assert_eq!(doc.sections[2].header.as_deref(), Some("2. Reference"));
    assert_eq!(
        doc.sections[2].tags,
        vec!["tiny-ref".to_string(), "tiny-second-tag".to_string()]
    );
    assert_eq!(doc.sections[2].body, "body *tiny-second-tag* *x y*");
}

#[test]
fn tags_never_hold_whitespace_or_stars() {
    let doc = parse_source("**a** *b*c* *\td* *e\u{a0}f* *g*", "x");
    assert_eq!(doc.tags, vec!["a".to_string(), "b".to_string(), "g".to_string()]);
    for t in &doc.tags {
        assert!(!t.is_empty());
        assert!(!t.chars().any(|c| c.is_whitespace() || c == '*'));
    }
}

#[test]
fn extract_tags_puts_header_tags_first_without_repeats() {
    assert_eq!(
        extract_tags("body *b* *a*", Some("head *a*")),
        vec!["a".to_string(), "b".to_string()]
    );
    assert_eq!(extract_tags("no tags", None), Vec::<String>::new());
}

#[test]
fn header_line_right_after_a_rule_is_taken_even_when_it_is_a_rule() {
    let rule = "=".repeat(40);
    let doc = parse_source(&format!("{rule}\n{rule}\nbody\n"), "x");
    assert_eq!(doc.sections.len(), 1);
    assert_eq!(doc.sections[0].header.as_deref(), Some(rule.as_str()));
    assert_eq!(doc.sections[0].line_start, 2);
}

#[test]
fn blank_headerless_chunks_are_dropped_but_blank_headed_ones_kept() {
    let rule = "=".repeat(50);
    let doc = parse_source(&format!("  \n\t\n{rule}\n\n"), "x");
    assert_eq!(doc.sections.len(), 1);
    assert_eq!(doc.sections[0].header.as_deref(), Some(""));
    assert_eq!(doc.sections[0].body, "");
}
