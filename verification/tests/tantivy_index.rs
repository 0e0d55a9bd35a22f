use vimhelp_index::adapters::tantivy::{
    build_schema, search_limit, section_records, shape_hit, Fields, MissingField, StoredHit,
    DEFAULT_MAX_HITS,
};
use vimhelp_index::domain::{Document, Section};

#[test]
fn schema_defines_all_expected_fields() {
    let (schema, _fields) = build_schema();
    for name in ["doc_path", "header", "tags", "body", "line_start"] {
        assert!(
            schema.get_field(name).is_ok(),
            "schema missing field {name}"
        );
    }
}

#[test]
fn schema_field_handles_match_the_schema() {
    let (schema, fields) = build_schema();
    assert_eq!(
        fields,
        Fields {
            doc_path: 0,
            header: 1,
            tags: 2,
            body: 3,
            line_start: 4
        }
    );
    assert_eq!(schema.get_field("body").unwrap().field_id(), fields.body);
    assert_eq!(schema.get_field("line_start").unwrap().field_id(), 4);
    assert!(schema.get_field("snippet").is_err());
}

#[test]
fn zero_max_hits_uses_the_default_cap() {
    assert_eq!(search_limit(0), DEFAULT_MAX_HITS);
    assert_eq!(search_limit(0), 50);
    assert_eq!(search_limit(5), 5);
}

#[test]
fn each_section_becomes_one_record() {
    let doc = Document {
        path: "doc/multi.txt".to_string(),
        tags: vec![],
        sections: vec![
            Section {
                header: Some("Intro".to_string()),
                tags: vec!["intro".to_string(), "intro-2".to_string()],
                body: "welcome".to_string(),
                line_start: 1,
            },
            Section {
                header: None,
                tags: vec![],
                body: "setup".to_string(),
                line_start: 20,
            },
        ],
    };
    let records = section_records(&doc);
    assert_eq!(records.len(), 2);
    assert_eq!(records[0].doc_path, "doc/multi.txt");
    assert_eq!(records[0].header, "Intro");
    assert_eq!(records[0].tags, "intro intro-2");
    assert_eq!(records[0].line_start, 1);
    assert_eq!(records[1].header, "");
    assert_eq!(records[1].tags, "");
    assert_eq!(records[1].body, "setup");
    assert_eq!(records[1].line_start, 20);
}

#[test]
fn shape_hit_takes_first_tag_nonempty_header_and_line() {
    let h = shape_hit(&StoredHit {
        doc_path: Some("doc/telescope.txt".to_string()),
        header: Some("Find files".to_string()),
        tags: Some("  telescope-find-files other".to_string()),
        body: Some("fuzzy find files inside a floating window".to_string()),
        line_start: Some(42),
    });
    assert_eq!(h.document, "doc/telescope.txt");
    assert_eq!(h.tag.as_deref(), Some("telescope-find-files"));
    assert_eq!(h.section_header.as_deref(), Some("Find files"));
    assert_eq!(h.line, 42);
    assert_eq!(h.snippet, "fuzzy find files inside a floating window");

    let empty = shape_hit(&StoredHit {
        doc_path: None,
        header: Some(String::new()),
        tags: Some(" ".to_string()),
        body: None,
        line_start: None,
    });
    assert_eq!(empty.document, "");
    assert_eq!(empty.tag, None);
    assert_eq!(empty.section_header, None);
    assert_eq!(empty.line, 0);
    assert_eq!(empty.snippet, "");
}

#[test]
fn snippet_truncates_to_240_chars_with_ellipsis() {
    let long_body = "x".repeat(500) + " floating";
    let h = shape_hit(&StoredHit {
        doc_path: None,
        header: None,
        tags: None,
        body: Some(long_body),
        line_start: Some(1),
    });
    assert!(h.snippet.ends_with('…'));
    assert_eq!(h.snippet.chars().count(), 241);
    assert_eq!(h.snippet, "x".repeat(240) + "…");

    let exact = shape_hit(&StoredHit {
        doc_path: None,
        header: None,
        tags: None,
        body: Some("y".repeat(240)),
        line_start: None,
    });
    assert_eq!(exact.snippet, "y".repeat(240));
}

#[test]
fn field_handles_are_found_again_in_the_built_schema() {
    let (schema, fields) = build_schema();
    assert_eq!(Fields::from_schema(&schema), Ok(fields));
}

#[test]
fn field_handles_follow_the_schema_order() {
    let mut b = tantivy::schema::Schema::builder();
    b.add_u64_field("line_start", tantivy::schema::STORED);
    b.add_text_field("body", tantivy::schema::TEXT);
    b.add_text_field("tags", tantivy::schema::TEXT);
    b.add_text_field("header", tantivy::schema::TEXT);
    b.add_text_field("doc_path", tantivy::schema::STRING);
    let schema = b.build();
    assert_eq!(
        Fields::from_schema(&schema),
        Ok(Fields {
            doc_path: 4,
            header: 3,
            tags: 2,
            body: 1,
            line_start: 0
        })
    );
}

#[test]
fn a_schema_without_an_index_field_names_the_first_one_missing() {
    let mut b = tantivy::schema::Schema::builder();
    b.add_text_field("doc_path", tantivy::schema::STRING);
    b.add_text_field("body", tantivy::schema::TEXT);
    let schema = b.build();
    assert_eq!(
        Fields::from_schema(&schema),
        Err(MissingField {
            name: "header".to_string()
        })
    );
}

#[test]
fn snippet_counts_characters_not_bytes() {
    let short = "\u{e9}".repeat(200);
    let h = shape_hit(&StoredHit {
        doc_path: None,
        header: None,
        tags: None,
        body: Some(short.clone()),
        line_start: None,
    });
    assert_eq!(h.snippet, short);

    let long = "a".to_string() + &"\u{e9}".repeat(300);
    let h = shape_hit(&StoredHit {
        doc_path: None,
        header: None,
        tags: None,
        body: Some(long),
        line_start: None,
    });
    assert_eq!(h.snippet, "a".to_string() + &"\u{e9}".repeat(239) + "\u{2026}");
    assert_eq!(h.snippet.chars().count(), 241);
}
