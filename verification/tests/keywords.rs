use org_plugin::capture::{capture_buffer_name, capture_key_from_prompt_name, captured_title, clock_title, roam_capture_buffer_name};
use org_plugin::headline::{headline_level, outline_text, Entry};
use org_plugin::planning::{existing_stamp, Field};
use org_plugin::refile::{decode, encode, Target};
use org_plugin::todo::{conventional, headline_title_of, parse_keywords, rules};

fn kw() -> Vec<String> {
    vec!["TODO".to_string(), "DONE".to_string()]
}

#[test]
fn conventional_keywords_have_their_colours() {
    assert_eq!(conventional("TODO"), Some(("red", true, false, false)));
    assert_eq!(conventional("WAITING"), Some(("yellow", false, true, false)));
    assert_eq!(conventional("KILL"), Some(("overlay", false, false, true)));
    assert_eq!(conventional("DONE"), Some(("green", true, false, false)));
    assert_eq!(conventional("todo"), None, "keywords are case-sensitive");
    assert_eq!(conventional("MAYBE"), None);
}

#[test]
fn one_highlight_rule_per_keyword() {
    assert_eq!(
        rules(&kw()),
        "(headline (item . (expr) @org.todo.TODO)\n  (#eq? @org.todo.TODO \"TODO\"))\n\
         (headline (item . (expr) @org.todo.DONE)\n  (#eq? @org.todo.DONE \"DONE\"))\n"
    );
    assert_eq!(rules(&[]), "");
}

#[test]
fn a_sequence_names_its_keywords_without_keys_or_separators() {
    assert_eq!(parse_keywords("TODO | DONE"), kw());
    assert_eq!(parse_keywords("sequence: TODO(t) | DONE(d!)"), kw());
    assert_eq!(parse_keywords("TODO bad!word | DONE"), kw(), "a word that is not a keyword is refused");
    assert!(parse_keywords("").is_empty());
}

#[test]
fn a_headline_title_drops_its_stars_and_keyword() {
    assert_eq!(headline_title_of("** TODO Deep Work :tag:", &kw()).as_deref(), Some("Deep Work"));
    assert_eq!(headline_title_of("**bold** text", &kw()), None);
    assert_eq!(headline_level("*** three"), Some(3));
    assert_eq!(headline_level("***"), None);
}

#[test]
fn the_modeline_title_has_no_stars_or_keyword() {
    assert_eq!(clock_title("** TODO Write the report", &kw()), "Write the report");
    assert_eq!(clock_title("* Plain heading ", &kw()), "Plain heading");
    assert_eq!(clock_title("* MAYBE later", &kw()), "MAYBE later");
    assert_eq!(captured_title("* DONE Filed\nbody\n", &kw()), "Filed");
    assert_eq!(captured_title("", &kw()), "");
}

#[test]
fn capture_buffers_are_named_by_template() {
    assert_eq!(capture_buffer_name(""), "*org-capture*");
    assert_eq!(capture_buffer_name("t"), "*org-capture:t*");
    assert_eq!(roam_capture_buffer_name(""), "*org-roam-capture*");
    assert_eq!(roam_capture_buffer_name("d"), "*org-roam-capture:d*");
    assert_eq!(capture_key_from_prompt_name("*org-capture:t*").as_deref(), Some("t"));
    assert_eq!(capture_key_from_prompt_name("*org-capture:*").as_deref(), Some(""));
    assert_eq!(capture_key_from_prompt_name("*org-capture*"), None, "no state is not an empty key");
    assert_eq!(capture_key_from_prompt_name(&capture_buffer_name("key")).as_deref(), Some("key"));
}

#[test]
fn the_prompt_opens_with_the_date_already_there() {
    let line = Some("  DEADLINE: <2026-09-10 Thu> SCHEDULED: <2026-09-03 Thu .+1d>");
    assert_eq!(existing_stamp(line, Field::Scheduled), "2026-09-03 Thu .+1d");
    assert_eq!(existing_stamp(line, Field::Deadline), "2026-09-10 Thu");
    assert_eq!(existing_stamp(Some("body text"), Field::Scheduled), "");
    assert_eq!(existing_stamp(None, Field::Deadline), "");
}

#[test]
fn an_outline_reads_each_headline_and_its_subtree() {
    let lines: Vec<String> = "* Work\n** Q3\nbody\n** Q4\n* Personal\n".lines().map(str::to_string).collect();
    assert_eq!(
        outline_text(&lines),
        vec![
            Entry { line: 0, level: 1, end_line: 3 },
            Entry { line: 1, level: 2, end_line: 2 },
            Entry { line: 3, level: 2, end_line: 3 },
            Entry { line: 4, level: 1, end_line: 4 },
        ]
    );
}

#[test]
fn a_token_with_a_large_line_round_trips() {
    let t = Target { file: "/a b/c.org".to_string(), before_line: Some(4294967295), label: String::new() };
    assert_eq!(encode(&t), "/a b/c.org\t4294967295");
    assert_eq!(decode(&encode(&t)), Some(("/a b/c.org".to_string(), Some(4294967295))));
    assert_eq!(decode("/a\t+7"), Some(("/a".to_string(), Some(7))), "a line reads as `u32` parsing reads it");
    assert_eq!(decode("/a\t4294967296"), None);
}
