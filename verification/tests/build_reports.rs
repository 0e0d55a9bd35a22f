use vimhelp_index::adapters::manifest::ManifestDiff;
use vimhelp_index::adapters::parser::vimdoc::parse_source;
use vimhelp_index::cli::build::{
    full_build_summary, incremental_summary, no_changes_message, no_match_message,
    no_prior_manifest_message, section_count,
};

#[test]
fn no_match_message_counts_and_lists_the_globs() {
    let globs = vec!["/t/*.nonexistent-a".to_string(), "/t/*.nonexistent-b".to_string()];
    let msg = no_match_message(&globs);
    assert!(msg.contains("no files matched"));
    assert!(msg.contains("2 glob"));
    assert_eq!(
        msg,
        format!("no files matched any --docs pattern (checked 2 glob(s): {:?})", globs)
    );
    assert_eq!(
        no_match_message(&vec![]),
        "no files matched any --docs pattern (checked 0 glob(s): [])"
    );
}

#[test]
fn full_build_summary_names_sections_files_and_directory() {
    let msg = full_build_summary(12, 2, "/tmp/idx");
    assert!(msg.contains("Indexed"));
    assert!(msg.contains("2 file(s)"));
    assert_eq!(msg, "Indexed 12 section(s) from 2 file(s) → /tmp/idx");
}

#[test]
fn incremental_reports_have_a_stable_shape() {
    assert_eq!(
        no_prior_manifest_message("idx"),
        "no prior manifest at idx — running full build"
    );
    assert_eq!(
        no_changes_message("idx", 3),
        "Incremental update at idx: no changes (3 unchanged)"
    );
    let d = ManifestDiff {
        new: vec!["a".to_string()],
        changed: vec![],
        removed: vec!["b".to_string(), "c".to_string()],
        unchanged: vec!["d".to_string()],
    };
    assert_eq!(
        incremental_summary("idx", &d),
        "Incremental update at idx:\n  new:       1\n  changed:   0\n  removed:   2\n  unchanged: 1"
    );
}

#[test]
fn section_count_sums_over_documents() {
    let rule = "=".repeat(78);
    let a = parse_source(&format!("pre\n{rule}\nH\nb\n"), "a");
    let b = parse_source("just one\n", "b");
    assert_eq!(section_count(&vec![a, b]), 3);
    assert_eq!(section_count(&vec![]), 0);
}
