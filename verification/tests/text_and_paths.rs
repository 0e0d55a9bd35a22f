use std::path::PathBuf;
use vimhelp_index::cli::build::union_paths;
use vimhelp_index::text::{
    chars_of, decimal_string, first_word_of, is_whitespace, split_lines, trimmed, trimmed_end,
};

#[test]
fn whitespace_agrees_with_std_for_every_char() {
    for u in 0u32..=0x10FFFF {
        if let Some(c) = char::from_u32(u) {
            assert_eq!(is_whitespace(c), c.is_whitespace(), "{u:#x}");
        }
    }
}

#[test]
fn trims_agree_with_std() {
    for s in ["", "  ", " a ", "\u{2003}x y\u{feff}", "\tz\r\n", "é  "] {
        assert_eq!(trimmed(s), s.trim());
        assert_eq!(trimmed_end(s), s.trim_end());
    }
}

#[test]
fn lines_agree_with_std() {
    for s in ["", "\n", "a", "a\n", "a\r\nb", "a\n\nb\n", "x\r", "x\r\r\n", "\r\n\r\n"] {
        let ours: Vec<String> = split_lines(&chars_of(s))
            .iter()
            .map(|l| l.iter().collect())
            .collect();
        let std_lines: Vec<String> = s.lines().map(|l| l.to_string()).collect();
        assert_eq!(ours, std_lines, "{s:?}");
    }
}

#[test]
fn decimals_agree_with_std() {
    for n in [0usize, 7, 10, 99, 100, 1207, usize::MAX] {
        assert_eq!(decimal_string(n), n.to_string());
    }
}

#[test]
fn first_word_agrees_with_split_whitespace() {
    for s in ["", "   ", "a b", "  tag-one  tag-two", "\u{3000}x"] {
        assert_eq!(
            first_word_of(s),
            s.split_whitespace().next().map(|w| w.to_string())
        );
    }
}

#[test]
fn union_of_paths_agrees_with_std_sort_and_dedup() {
    let found: Vec<String> = [
        "b/x.txt", "a-b", "a/b", "./a/b", "a//b", "/root/z", "..", "../a", "a/./c", "é.txt",
        "z.txt", "a/b/", ".", "a", "A",
    ]
    .iter()
    .map(|s| s.to_string())
    .collect();
    let ours = union_paths(&found);
    let mut std_paths: Vec<PathBuf> = found.iter().map(PathBuf::from).collect();
    std_paths.sort();
    std_paths.dedup();
    let expected: Vec<String> = std_paths
        .iter()
        .map(|p| p.to_str().unwrap().to_string())
        .collect();
    assert_eq!(ours, expected);
}

#[test]
fn union_keeps_the_first_spelling_of_a_path() {
    let found = vec!["d/a.txt".to_string(), "d//a.txt".to_string(), "d/b.txt".to_string()];
    assert_eq!(
        union_paths(&found),
        vec!["d/a.txt".to_string(), "d/b.txt".to_string()]
    );
}
