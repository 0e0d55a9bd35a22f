use std::str::FromStr;
use vimhelp_index::cli::search::{render_console, HitRow, OutputFormat};

fn hit(tag: &str, header: &str, line: usize, score: f32, snippet: &str) -> HitRow {
    HitRow {
        document: "doc/example.txt".to_string(),
        tag: Some(tag.to_string()),
        section_header: Some(header.to_string()),
        line,
        score: format!("{:.2}", score),
        snippet: snippet.to_string(),
    }
}

#[test]
fn output_format_from_str_accepts_console_and_json() {
    assert_eq!(
        OutputFormat::from_str("console").unwrap(),
        OutputFormat::Console
    );
    assert_eq!(OutputFormat::from_str("json").unwrap(), OutputFormat::Json);
}

#[test]
fn output_format_from_str_rejects_unknown() {
    let err = OutputFormat::from_str("yaml").unwrap_err();
    assert!(err.message().contains("invalid --format"));
}

#[test]
fn render_console_names_no_hits() {
    let out = render_console("floating", &vec![]);
    assert_eq!(out, r#"no hits for "floating""#);
}

#[test]
fn render_console_ranks_hits_1_indexed_with_scores_and_paths() {
    let hits = vec![
        hit(
            "telescope-find-files",
            "Find files",
            42,
            2.35,
            "fuzzy find files",
        ),
        hit(
            "telescope-live-grep",
            "Live grep",
            55,
            1.10,
            "grep across files",
        ),
    ];
    let out = render_console("find", &hits);
    assert!(out.contains("1. telescope-find-files"));
    assert!(out.contains("score 2.35"));
    assert!(out.contains("doc/example.txt:42"));
    assert!(out.contains("— Find files"));
    assert!(out.contains("fuzzy find files"));
    assert!(out.contains("2. telescope-live-grep"));
    assert!(out.contains("score 1.10"));
}

#[test]
fn render_console_exact_shape_with_missing_tag_header_and_snippet() {
    let hits = vec![HitRow {
        document: "x".to_string(),
        tag: None,
        section_header: None,
        line: 1207,
        score: "0.10".to_string(),
        snippet: String::new(),
    }];
    assert_eq!(
        render_console("q", &hits),
        "1. <no tag>  (score 0.10)\n   x:1207  — <no header>"
    );
}

#[test]
fn invalid_format_message_quotes_the_value() {
    let err = OutputFormat::parse("ya\"ml").unwrap_err();
    assert_eq!(err.value, "ya\"ml");
    assert_eq!(
        err.message(),
        "invalid --format \"ya\\\"ml\" (expected console|json)"
    );
}

#[test]
fn no_hits_message_escapes_the_query() {
    assert_eq!(render_console("a\tb", &vec![]), "no hits for \"a\\tb\"");
}
