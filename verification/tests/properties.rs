use org_plugin::properties::{format_property, property_write, set_entry_property, PropertyEdit, PropertyWrite};

/// The file as lines.
fn lines(text: &str) -> Vec<String> {
    text.lines().map(str::to_string).collect()
}

#[test]
fn a_headline_with_no_drawer_gets_a_whole_one() {
    let l = lines("* Topic\nbody\n");
    assert_eq!(
        set_entry_property(&l, 0, "CATEGORY", "work"),
        PropertyEdit::Insert { at: 1, text: ":PROPERTIES:\n:CATEGORY: work\n:END:".to_string() }
    );
}

#[test]
fn a_new_drawer_goes_below_the_planning_line() {
    let l = lines("* TODO Task\nSCHEDULED: <2026-09-04 Fri>\nbody\n");
    let PropertyEdit::Insert { at, .. } = set_entry_property(&l, 0, "CATEGORY", "work") else {
        panic!("a headline with no drawer gets one");
    };
    assert_eq!(at, 2);
}

#[test]
fn an_existing_drawer_is_extended_at_the_top() {
    let l = lines("* Topic\n:PROPERTIES:\n:ID:       ABC\n:END:\n");
    assert_eq!(
        set_entry_property(&l, 0, "CATEGORY", "work"),
        PropertyEdit::Insert { at: 2, text: ":CATEGORY: work".to_string() }
    );
}

#[test]
fn an_existing_key_is_replaced_not_duplicated() {
    let l = lines("* Topic\n:PROPERTIES:\n:CATEGORY: old\n:END:\n");
    assert_eq!(
        set_entry_property(&l, 0, "CATEGORY", "new"),
        PropertyEdit::Replace { at: 2, text: ":CATEGORY: new".to_string() }
    );
}

#[test]
fn a_key_differing_only_in_case_is_the_same_key() {
    let l = lines("* Topic\n:PROPERTIES:\n:category: old\n:END:\n");
    let PropertyEdit::Replace { at, .. } = set_entry_property(&l, 0, "CATEGORY", "new") else {
        panic!("the same property, however it is spelled");
    };
    assert_eq!(at, 2);
}

#[test]
fn a_value_may_contain_colons() {
    let l = lines("* Topic\n:PROPERTIES:\n:URL: old\n:END:\n");
    assert_eq!(
        set_entry_property(&l, 0, "URL", "https://example.com:8443/x"),
        PropertyEdit::Replace { at: 2, text: ":URL:      https://example.com:8443/x".to_string() }
    );
}

#[test]
fn an_added_line_matches_the_drawers_indent() {
    let l = lines("* Topic\n  :PROPERTIES:\n  :ID:       ABC\n  :END:\n");
    assert_eq!(
        set_entry_property(&l, 0, "CATEGORY", "work"),
        PropertyEdit::Insert { at: 2, text: "  :CATEGORY: work".to_string() }
    );
}

#[test]
fn an_unterminated_drawer_stops_at_the_next_headline() {
    let l = lines("* One\n:PROPERTIES:\n* Two\n:PROPERTIES:\n:CATEGORY: theirs\n:END:\n");
    assert_eq!(
        set_entry_property(&l, 0, "CATEGORY", "mine"),
        PropertyEdit::Insert { at: 2, text: ":CATEGORY: mine".to_string() },
        "the first entry's own drawer, not the second's line"
    );
}

#[test]
fn prose_mentioning_scheduled_does_not_move_the_drawer() {
    let l = lines("* Topic\nSCHEDULED: is how org spells it\n");
    let PropertyEdit::Insert { at, .. } = set_entry_property(&l, 0, "CATEGORY", "work") else {
        panic!("no drawer here");
    };
    assert_eq!(at, 1);
}

#[test]
fn properties_are_padded_the_way_org_pads_them() {
    assert_eq!(format_property("", "ID", "ABC"), ":ID:       ABC");
    assert_eq!(format_property("", "CATEGORY", "work"), ":CATEGORY: work");
    assert_eq!(
        format_property("", "A_VERY_LONG_KEY", "v"),
        ":A_VERY_LONG_KEY: v",
        "a long key is not truncated — a truncated key is a different property"
    );
}

#[test]
fn a_new_drawer_is_written_after_the_line_above_it() {
    let l = lines("* TODO Task\nSCHEDULED: <2026-09-04 Fri>\nbody\n");
    assert_eq!(
        property_write(&l, 0, " CATEGORY ", " work "),
        Some(PropertyWrite {
            from: 1,
            to: 1,
            to_len: 27,
            text: "SCHEDULED: <2026-09-04 Fri>\n:PROPERTIES:\n:CATEGORY: work\n:END:".to_string(),
        })
    );
}

#[test]
fn an_existing_key_is_rewritten_in_place() {
    let l = lines("* Topic\n:PROPERTIES:\n:CATEGORY: old\n:END:\n");
    assert_eq!(
        property_write(&l, 0, "CATEGORY", "new"),
        Some(PropertyWrite { from: 2, to: 2, to_len: 14, text: ":CATEGORY: new".to_string() })
    );
}

#[test]
fn a_blank_key_writes_nothing() {
    let l = lines("* Topic\nbody\n");
    assert_eq!(property_write(&l, 0, "   ", "x"), None);
}

#[test]
fn a_key_written_twice_is_replaced_where_the_first_write_put_it() {
    let l = lines("* Topic\nbody\n");
    let w = property_write(&l, 0, "CATEGORY", "work").expect("a write");
    let mut after: Vec<String> = l[..w.from as usize].to_vec();
    after.extend(w.text.split('\n').map(str::to_string));
    after.extend(l[w.to as usize + 1..].iter().cloned());
    assert_eq!(after, vec!["* Topic", ":PROPERTIES:", ":CATEGORY: work", ":END:", "body"]);
    assert_eq!(
        set_entry_property(&after, 0, "CATEGORY", "home"),
        PropertyEdit::Replace { at: 2, text: ":CATEGORY: home".to_string() }
    );
}
