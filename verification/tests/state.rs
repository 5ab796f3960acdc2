use rusty_sort::state::{
    diff_files, diff_state, parse_state, render_state, state_path, validate_directory,
    DirectoryError,
};

#[test]
fn state_path_is_the_hidden_file_under_the_root() {
    assert_eq!(state_path("root"), "root/.rusty-sort-state.txt");
    assert_eq!(state_path("/a/b"), "/a/b/.rusty-sort-state.txt");
}

#[test]
fn render_writes_relative_paths_one_per_line() {
    let files = vec![
        "root/Images/a.jpg".to_string(),
        "root/Documents/b.txt".to_string(),
        "root/Archives/c.zip".to_string(),
        "root/Others/d".to_string(),
    ];
    let text = render_state("root", &files);
    assert_eq!(text, "Images/a.jpg\nDocuments/b.txt\nArchives/c.zip\nOthers/d\n");
}

#[test]
fn render_ignores_paths_outside_the_root() {
    let files = vec!["root/a.txt".to_string(), "elsewhere/b.txt".to_string()];
    assert_eq!(render_state("root", &files), "a.txt\n");
}

#[test]
fn parse_reads_back_what_render_wrote() {
    let files = vec!["root/x.txt".to_string(), "root/sub/y.png".to_string()];
    let text = render_state("root", &files);
    let parsed = parse_state("root", &text);
    assert_eq!(parsed, files);
}

#[test]
fn parse_skips_blank_lines_and_missing_file_is_empty() {
    let parsed = parse_state("root", "a.txt\n\n  \nsub/b.txt\n");
    assert_eq!(parsed, vec!["root/a.txt".to_string(), "root/sub/b.txt".to_string()]);
    assert_eq!(parse_state("root", "").len(), 0);
}

#[test]
fn diff_of_identical_lists_is_zero() {
    let a = vec!["x/a".to_string(), "x/b".to_string()];
    assert_eq!(diff_files(&a, &a), (0, 0));
    assert_eq!(diff_state(&a, &a, "x"), (0, 0));
}

#[test]
fn diff_counts_one_added_and_one_removed() {
    let previous = vec!["root/a".to_string(), "root/b".to_string()];
    let current = vec!["root/b".to_string(), "root/c".to_string()];
    assert_eq!(diff_state(&previous, &current, "root"), (1, 1));
}

#[test]
fn diff_is_a_set_difference_not_a_count() {
    // Duplicates collapse; order does not matter.
    let before = vec!["a".to_string(), "a".to_string(), "b".to_string()];
    let after = vec!["b".to_string(), "c".to_string(), "c".to_string()];
    assert_eq!(diff_files(&before, &after), (1, 1));
}

#[test]
fn validate_directory_rejects_missing_and_non_directories() {
    assert_eq!(validate_directory(false, false), Err(DirectoryError::NotFound));
    assert_eq!(validate_directory(false, true), Err(DirectoryError::NotFound));
    assert_eq!(validate_directory(true, false), Err(DirectoryError::NotADirectory));
    assert_eq!(validate_directory(true, true), Ok(()));
}
