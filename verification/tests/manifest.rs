use vimhelp_index::adapters::manifest::{
    diff, stat_all, FileState, FileStates, Manifest, MANIFEST_VERSION,
};

fn fs_of(mtime_ns: i128, size: u64) -> FileState {
    FileState { mtime_ns, size }
}

fn path(s: &str) -> String {
    s.to_string()
}

#[test]
fn new_manifest_has_current_version_and_empty_files() {
    let m = Manifest::new();
    assert_eq!(m.version, MANIFEST_VERSION);
    assert!(m.files.is_empty());
}

#[test]
fn diff_flags_files_only_in_current_as_new() {
    let mut current = FileStates::new();
    current.insert(path("a"), fs_of(1, 10));
    let prior = Manifest::new();
    let d = diff(&current, &prior);
    assert_eq!(d.new, vec![path("a")]);
    assert!(d.changed.is_empty());
    assert!(d.removed.is_empty());
    assert!(d.unchanged.is_empty());
}

#[test]
fn diff_flags_mtime_or_size_change_as_changed() {
    let mut current = FileStates::new();
    current.insert(path("a"), fs_of(2, 10));
    current.insert(path("b"), fs_of(1, 99));
    current.insert(path("c"), fs_of(3, 30));
    let mut prior = Manifest::new();
    prior.files.insert(path("a"), fs_of(1, 10));
    prior.files.insert(path("b"), fs_of(1, 10));
    prior.files.insert(path("c"), fs_of(3, 30));
    let d = diff(&current, &prior);
    assert_eq!(d.changed, vec![path("a"), path("b")]);
    assert_eq!(d.unchanged, vec![path("c")]);
}

#[test]
fn diff_flags_files_only_in_prior_as_removed() {
    let current = FileStates::new();
    let mut prior = Manifest::new();
    prior.files.insert(path("gone.txt"), fs_of(1, 1));
    let d = diff(&current, &prior);
    assert_eq!(d.removed, vec![path("gone.txt")]);
}

#[test]
fn diff_is_empty_when_no_change() {
    let mut current = FileStates::new();
    current.insert(path("a"), fs_of(1, 10));
    let mut prior = Manifest::new();
    prior.files.insert(path("a"), fs_of(1, 10));
    let d = diff(&current, &prior);
    assert!(d.is_empty());
}

#[test]
fn diff_output_is_sorted_for_deterministic_reports() {
    let mut current = FileStates::new();
    for name in ["c", "a", "b"] {
        current.insert(path(name), fs_of(1, 1));
    }
    let prior = Manifest::new();
    let d = diff(&current, &prior);
    assert_eq!(d.new, vec![path("a"), path("b"), path("c")]);
}

#[test]
fn insert_then_get_reads_back_and_keeps_the_first_key_text() {
    let mut files = FileStates::new();
    assert_eq!(files.insert(path("doc/a.txt"), fs_of(1, 2)), None);
    assert_eq!(files.insert(path("doc//a.txt"), fs_of(3, 4)), Some(fs_of(1, 2)));
    assert_eq!(files.len(), 1);
    assert_eq!(files.get("doc/./a.txt"), Some(fs_of(3, 4)));
    assert_eq!(files.path_at(0), "doc/a.txt");
    assert!(files.contains_key("doc/a.txt/"));
    assert!(!files.contains_key("doc/b.txt"));
    assert_eq!(files.get("doc/b.txt"), None);
}

#[test]
fn diff_against_itself_finds_no_work() {
    let mut files = FileStates::new();
    files.insert(path("x/1.txt"), fs_of(5, 6));
    files.insert(path("x/2.txt"), fs_of(7, 8));
    let mut prior = Manifest::new();
    prior.files.insert(path("x/2.txt"), fs_of(7, 8));
    prior.files.insert(path("x/1.txt"), fs_of(5, 6));
    let d = diff(&files, &prior);
    assert!(d.is_empty());
    assert_eq!(d.unchanged, vec![path("x/1.txt"), path("x/2.txt")]);
}

#[test]
fn diff_sorts_by_path_components_not_by_text() {
    // `a/b` sorts before `a-b` as paths ("a" < "a-b"), though not as text.
    let mut current = FileStates::new();
    current.insert(path("a-b"), fs_of(1, 1));
    current.insert(path("a/b"), fs_of(1, 1));
    let d = diff(&current, &Manifest::new());
    assert_eq!(d.new, vec![path("a/b"), path("a-b")]);
}

#[test]
fn stat_all_collects_states_and_later_results_replace_earlier_ones() {
    let t = stat_all(vec![
        (path("a.txt"), fs_of(1, 1)),
        (path("b.txt"), fs_of(2, 2)),
        (path("a.txt/"), fs_of(3, 3)),
    ]);
    assert_eq!(t.len(), 2);
    assert_eq!(t.get("a.txt"), Some(fs_of(3, 3)));
    assert_eq!(t.get("b.txt"), Some(fs_of(2, 2)));
}

#[test]
fn file_state_from_stat_records_pre_epoch_time_as_zero() {
    assert_eq!(FileState::from_stat(Some(1_500), 11), fs_of(1_500, 11));
    assert_eq!(FileState::from_stat(None, 7), fs_of(0, 7));
}

#[test]
fn manifest_version_gate_accepts_only_the_current_version() {
    assert!(Manifest::new().usable().is_some());
    let mut old = Manifest::new();
    old.version = 9999;
    assert!(old.usable().is_none());
    assert!(Manifest::is_current_version(1));
    assert!(!Manifest::is_current_version(0));
    assert!(!Manifest::is_current_version(9999));
}
