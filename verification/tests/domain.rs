use vimhelp_index::adapters::tantivy::ShapedHit;
use vimhelp_index::domain::{Document, Query, QueryError, Section};

#[test]
fn query_new_trims_and_rejects_empty() {
    assert_eq!(
        Query::new("  floating window  ", 10).unwrap(),
        Query {
            text: "floating window".to_string(),
            max_hits: 10,
        }
    );
}

#[test]
fn query_new_rejects_empty_string() {
    assert_eq!(Query::new("", 10).unwrap_err(), QueryError::Empty);
}

#[test]
fn query_new_rejects_whitespace_only() {
    assert_eq!(Query::new("   \t  ", 10).unwrap_err(), QueryError::Empty);
}

#[test]
fn query_preserves_zero_max_hits_as_sentinel() {
    let q = Query::new("x", 0).unwrap();
    assert_eq!(q.max_hits, 0);
}

#[test]
fn document_and_hit_are_constructible() {
    let doc = Document {
        path: "doc/example.txt".to_string(),
        tags: vec!["example".to_string()],
        sections: vec![Section {
            header: Some("1. Intro".to_string()),
            tags: vec!["example-intro".to_string()],
            body: "hello".to_string(),
            line_start: 1,
        }],
    };
    assert_eq!(doc.sections.len(), 1);

    let hit = ShapedHit {
        document: "doc/example.txt".to_string(),
        tag: Some("example-intro".to_string()),
        section_header: Some("1. Intro".to_string()),
        line: 3,
        snippet: "hello".to_string(),
    };
    assert_eq!(hit.line, 3);
}

#[test]
fn query_error_message_names_the_problem() {
    assert_eq!(QueryError::Empty.message(), "query text must not be empty");
}

#[test]
fn query_new_trims_unicode_whitespace_but_keeps_inner_spaces() {
    let q = Query::new("\u{3000}\u{a0} a  b \u{2009}\n", 5).unwrap();
    assert_eq!(q.text, "a  b");
    assert_eq!(q.max_hits, 5);
    assert_eq!(Query::new("\u{85}\u{2028}", 1).unwrap_err(), QueryError::Empty);
}
