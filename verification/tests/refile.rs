use org_plugin::refile::{decode, encode, targets_in};

const SAMPLE: &str = "* Work\n** Q3\nbody\n** Q4\n* Personal\n";

#[test]
fn the_file_itself_is_the_first_target() {
    let t = targets_in("/org/notes.org", "notes.org", SAMPLE, 3);
    assert_eq!(t[0].label, "notes.org");
    assert!(t[0].before_line.is_none(), "the file target appends");
}

#[test]
fn headlines_are_shown_by_their_path() {
    let t = targets_in("/org/notes.org", "notes.org", SAMPLE, 3);
    let labels: Vec<&str> = t.iter().map(|t| t.label.as_str()).collect();
    assert_eq!(
        labels,
        vec!["notes.org", "notes.org  Work", "notes.org  Work / Q3", "notes.org  Work / Q4", "notes.org  Personal"]
    );
}

#[test]
fn a_target_inserts_after_the_whole_subtree() {
    let t = targets_in("/org/notes.org", "notes.org", SAMPLE, 3);
    let work = t.iter().find(|t| t.label.ends_with("Work")).unwrap();
    assert_eq!(work.before_line, Some(4), "after Q4, before Personal");
    let q3 = t.iter().find(|t| t.label.ends_with("Q3")).unwrap();
    assert_eq!(q3.before_line, Some(3), "after its body, before Q4");
}

#[test]
fn the_last_headline_targets_past_the_end() {
    let t = targets_in("/org/notes.org", "notes.org", SAMPLE, 3);
    let last = t.last().unwrap();
    assert_eq!(last.before_line, Some(5));
}

#[test]
fn max_level_bounds_the_list_without_losing_the_path() {
    let t = targets_in("/org/notes.org", "notes.org", SAMPLE, 1);
    let labels: Vec<&str> = t.iter().map(|t| t.label.as_str()).collect();
    assert_eq!(labels, vec!["notes.org", "notes.org  Work", "notes.org  Personal"]);
}

#[test]
fn a_token_round_trips_through_the_picker() {
    let t = &targets_in("/org/notes.org", "notes.org", SAMPLE, 3)[1];
    assert_eq!(decode(&encode(t)), Some(("/org/notes.org".to_string(), Some(4))));
}

#[test]
fn the_file_target_round_trips_as_an_append() {
    let t = &targets_in("/org/notes.org", "notes.org", SAMPLE, 3)[0];
    assert_eq!(decode(&encode(t)), Some(("/org/notes.org".to_string(), None)));
}

#[test]
fn a_malformed_token_is_refused_rather_than_guessed_at() {
    assert!(decode("no-tab-here").is_none());
    assert!(decode("\t3").is_none(), "an empty path is not a file");
    assert!(decode("/org/notes.org\tnotanumber").is_none());
}
