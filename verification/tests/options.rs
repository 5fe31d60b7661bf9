use org_plugin::options::{highest_priority, inline_images_enabled, string_list, todo_keyword_lines, todo_keywords};

/// `string_list`'s resolution of a list option's elements.
fn string_list_of(items: &[&str]) -> Vec<String> {
    let owned: Vec<String> = items.iter().map(|s| s.to_string()).collect();
    string_list(&owned)
}

#[test]
fn blank_elements_are_dropped_and_the_rest_are_trimmed() {
    assert_eq!(
        string_list_of(&["  ~/org  ", "", "   ", "~/org/anniversaries.org"]),
        vec!["~/org".to_string(), "~/org/anniversaries.org".to_string(),]
    );
}

#[test]
fn an_empty_option_is_no_opinion() {
    assert!(string_list_of(&[]).is_empty());
    assert!(string_list_of(&["", "   "]).is_empty());
}

#[test]
fn a_path_may_contain_what_a_separator_based_format_would_have_cut() {
    assert_eq!(
        string_list_of(&["/tmp/notes: drafts", "/tmp/a,b/notes.org"]),
        vec!["/tmp/notes: drafts".to_string(), "/tmp/a,b/notes.org".to_string()]
    );
}

#[test]
fn an_unset_keyword_option_is_the_default_sequence() {
    assert_eq!(todo_keyword_lines(&[]), vec!["TODO | DONE".to_string()]);
    assert_eq!(todo_keywords(&[]), vec!["TODO".to_string(), "DONE".to_string()]);
    assert_eq!(todo_keywords(&["   ".to_string()]), vec!["TODO".to_string(), "DONE".to_string()]);
}

#[test]
fn emacs_sequence_lines_keep_their_meaning() {
    let lines = vec!["sequence: TODO(t) NEXT(n) | DONE(d!)".to_string(), "WAITING | CANCELLED".to_string()];
    assert_eq!(
        todo_keywords(&lines),
        vec!["TODO", "NEXT", "DONE", "WAITING", "CANCELLED"].iter().map(|s| s.to_string()).collect::<Vec<_>>()
    );
    // A sequence that names no keyword falls back rather than leaving a dead key.
    assert_eq!(todo_keywords(&["| |".to_string()]), vec!["TODO".to_string(), "DONE".to_string()]);
}

#[test]
fn the_priority_cycle_ends_at_the_configured_letter() {
    assert_eq!(highest_priority(None), 'C');
    assert_eq!(highest_priority(Some("E")), 'E');
    assert_eq!(highest_priority(Some("dx")), 'd');
    assert_eq!(highest_priority(Some("9")), 'C');
    assert_eq!(highest_priority(Some("")), 'C');
}

#[test]
fn inline_images_are_off_unless_the_option_says_true() {
    assert!(!inline_images_enabled(None));
    assert!(inline_images_enabled(Some("true")));
    assert!(inline_images_enabled(Some("TRUE")));
    assert!(!inline_images_enabled(Some("yes")));
    assert!(!inline_images_enabled(Some("false")));
}
