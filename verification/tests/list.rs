use org_plugin::list::{move_item, move_span, parse_bullet, renumber, shift_item, Bullet, Check, Delim, Lists};

#[test]
fn parses_every_bullet_shape_org_accepts() {
    assert_eq!(parse_bullet("- milk", 0).unwrap().bullet, Bullet::Dash);
    assert_eq!(parse_bullet("+ milk", 0).unwrap().bullet, Bullet::Plus);
    assert_eq!(parse_bullet("1. milk", 0).unwrap().bullet, Bullet::Ordered { n: 1, delim: Delim::Dot });
    assert_eq!(parse_bullet("12) milk", 0).unwrap().bullet, Bullet::Ordered { n: 12, delim: Delim::Paren });
}

#[test]
fn a_star_at_column_zero_is_a_headline_not_a_bullet() {
    assert!(parse_bullet("* Heading", 0).is_none());
    assert_eq!(parse_bullet("  * nested", 2).unwrap().bullet, Bullet::Star);
}

#[test]
fn an_item_carries_its_checkbox_when_it_has_one() {
    assert_eq!(parse_bullet("- [ ] milk", 0).unwrap().checkbox, Some(Check::Off));
    assert_eq!(parse_bullet("- milk", 0).unwrap().checkbox, None);
}

#[test]
fn rejects_markers_that_are_not_followed_by_a_space() {
    assert!(parse_bullet("-foo", 0).is_none());
    assert!(parse_bullet("1.5 litres", 0).is_none());
    assert!(parse_bullet("-", 0).is_none());
}

#[test]
fn content_byte_lands_after_the_bullet_and_the_box() {
    assert_eq!(parse_bullet("- milk", 0).unwrap().content_byte, 2);
    assert_eq!(parse_bullet("-   milk", 0).unwrap().content_byte, 4);
    assert_eq!(parse_bullet("- [ ] milk", 0).unwrap().content_byte, 6);
    assert_eq!(parse_bullet("  * [X] a", 2).unwrap().content_byte, 8);
}

#[test]
fn the_cycle_closes_and_never_lands_on_star() {
    let mut seen = Vec::new();
    let mut b = Bullet::Dash;
    for _ in 0..4 {
        b = b.cycled();
        seen.push(b);
    }
    assert_eq!(
        seen,
        vec![
            Bullet::Plus,
            Bullet::Ordered { n: 1, delim: Delim::Dot },
            Bullet::Ordered { n: 1, delim: Delim::Paren },
            Bullet::Dash,
        ],
        "four steps return to the start, and none of them is `*`"
    );
    assert_eq!(Bullet::Star.cycled(), Bullet::Dash, "a `*` item joins the cycle rather than staying outside it");
}

#[test]
fn entering_an_ordered_form_restarts_the_count() {
    assert_eq!(Bullet::Plus.cycled(), Bullet::Ordered { n: 1, delim: Delim::Dot });
    assert_eq!(Bullet::Ordered { n: 9, delim: Delim::Dot }.cycled(), Bullet::Ordered { n: 1, delim: Delim::Paren });
}

#[test]
fn renders_each_shape_back_to_its_literal_text() {
    assert_eq!(Bullet::Dash.render(), "-");
    assert_eq!(Bullet::Plus.render(), "+");
    assert_eq!(Bullet::Star.render(), "*");
    assert_eq!(Bullet::Ordered { n: 3, delim: Delim::Dot }.render(), "3.");
    assert_eq!(Bullet::Ordered { n: 3, delim: Delim::Paren }.render(), "3)");
}

const NESTED: &str = "\
- one
  continued
  - one-a
  - one-b
- two
";

/// Build a `Lists` over `text` and hand it to `check`.
fn over(text: &str, check: impl FnOnce(&Lists)) {
    let lines: Vec<String> = text.lines().map(str::to_string).collect();
    check(&Lists::new(lines));
}

#[test]
fn item_end_spans_continuation_lines_and_children() {
    over(NESTED, |lists| {
        assert_eq!(lists.item_end(0), 3, "`- one` runs through `- one-b`");
        assert_eq!(lists.item_end(2), 2, "`- one-a` is one line");
    });
}

#[test]
fn siblings_skip_nested_children() {
    over(NESTED, |lists| {
        assert_eq!(lists.siblings(0), vec![0, 4]);
        assert_eq!(lists.children(0), vec![2, 3]);
    });
}

#[test]
fn enclosing_item_walks_back_over_a_continuation_line() {
    over(NESTED, |lists| {
        assert!(lists.item_at(1).is_none(), "a continuation line is not an item");
        assert_eq!(lists.enclosing_item(1).unwrap().line, 0);
    });
}

#[test]
fn list_span_bounds_the_whole_list() {
    over(NESTED, |lists| {
        assert_eq!(lists.list_span(2), Some((0, 4)));
    });
}

#[test]
fn siblings_of_a_nested_item_stay_inside_the_sublist() {
    over(NESTED, |lists| {
        assert_eq!(lists.siblings(2), vec![2, 3]);
        assert_eq!(lists.children(2), Vec::<u32>::new(), "a leaf has none");
    });
}

#[test]
fn a_following_headline_ends_the_list() {
    over("- a\n- b\n* Next\n- c\n", |lists| {
        assert_eq!(lists.siblings(0), vec![0, 1]);
        assert_eq!(lists.item_end(1), 1);
    });
}

#[test]
fn renumber_fixes_gaps_and_leaves_unordered_alone() {
    over("1. a\n5. b\n9. c\n", |lists| {
        assert_eq!(
            renumber(lists, (0, 2)),
            vec![(1, "2. b".to_string()), (2, "3. c".to_string())],
            "only the lines that change"
        );
    });
    over("- a\n- b\n", |plain| {
        assert!(renumber(plain, (0, 1)).is_empty());
    });
}

#[test]
fn each_indent_level_restarts_at_one() {
    over("1. a\n   1. a-a\n   7. a-b\n2. b\n", |lists| {
        assert_eq!(renumber(lists, (0, 3)), vec![(2, "   2. a-b".to_string())]);
    });
}

#[test]
fn renumber_preserves_the_delimiter_each_item_uses() {
    over("1) a\n4) b\n", |lists| {
        assert_eq!(renumber(lists, (0, 1)), vec![(1, "2) b".to_string())]);
    });
}

#[test]
fn leaving_a_level_drops_its_counter() {
    over("1. a\n   5. x\n2. b\n   9. y\n", |lists| {
        assert_eq!(
            renumber(lists, (0, 3)),
            vec![(1, "   1. x".to_string()), (3, "   1. y".to_string())],
            "each sublist restarts"
        );
    });
}

#[test]
fn renumber_leaves_a_checkbox_and_its_spacing_alone() {
    over("1. [X] a\n7. [ ] b\n", |lists| {
        assert_eq!(renumber(lists, (0, 1)), vec![(1, "2. [ ] b".to_string())]);
    });
}

#[test]
fn indenting_an_item_carries_its_children() {
    over("- a\n- b\n  - b-a\n", |lists| {
        let out = shift_item(lists, 1, 1, true).unwrap();
        assert_eq!(out, vec![(1, "  - b".to_string()), (2, "    - b-a".to_string())]);
    });
}

#[test]
fn indenting_without_children_leaves_them_behind() {
    over("- a\n- b\n  - b-a\n", |lists| {
        let out = shift_item(lists, 1, 1, false).unwrap();
        assert_eq!(out, vec![(1, "  - b".to_string())]);
    });
}

#[test]
fn a_continuation_line_travels_with_its_item() {
    over("- a\n- b\n  more b\n", |lists| {
        let out = shift_item(lists, 1, 1, false).unwrap();
        assert_eq!(out, vec![(1, "  - b".to_string()), (2, "    more b".to_string())]);
    });
}

#[test]
fn the_new_indent_is_the_previous_siblings_content_column() {
    over("1. a\n2. b\n1. c\n", |lists| {
        let out = shift_item(lists, 2, 1, true).unwrap();
        assert_eq!(out, vec![(2, "   1. c".to_string())]);
    });
}

#[test]
fn outdenting_a_top_level_item_is_refused() {
    over("- a\n", |lists| {
        assert!(shift_item(lists, 0, -1, true).is_none());
    });
}

#[test]
fn indenting_the_first_item_of_a_list_is_refused() {
    over("- a\n- b\n", |lists| {
        assert!(shift_item(lists, 0, 1, true).is_none());
    });
}

#[test]
fn outdenting_returns_to_the_parents_own_indent() {
    over("- a\n  - a-a\n", |lists| {
        let out = shift_item(lists, 1, -1, true).unwrap();
        assert_eq!(out, vec![(1, "- a-a".to_string())]);
    });
}

#[test]
fn moving_an_item_carries_its_children_and_skips_theirs() {
    over("- a\n  - a-a\n- b\n", |lists| {
        assert_eq!(move_item(lists, 0, 1).unwrap(), "- b\n- a\n  - a-a");
        assert_eq!(move_span(lists, 0, 1).unwrap(), (0, 2));
    });
}

#[test]
fn moving_up_swaps_with_the_previous_sibling() {
    over("- a\n- b\n  - b-a\n", |lists| {
        assert_eq!(move_item(lists, 1, -1).unwrap(), "- b\n  - b-a\n- a");
        assert_eq!(move_span(lists, 1, -1).unwrap(), (0, 2));
    });
}

#[test]
fn moving_the_last_sibling_down_is_refused() {
    over("- a\n- b\n", |lists| {
        assert!(move_item(lists, 1, 1).is_none());
    });
}

#[test]
fn moving_the_first_sibling_up_is_refused() {
    over("- a\n- b\n", |lists| {
        assert!(move_item(lists, 0, -1).is_none());
    });
}

#[test]
fn a_nested_item_moves_only_among_its_own_siblings() {
    over("- a\n  - a-a\n  - a-b\n- b\n", |lists| {
        assert_eq!(move_item(lists, 1, 1).unwrap(), "  - a-b\n  - a-a");
        assert!(move_item(lists, 2, 1).is_none(), "`- b` is the PARENT's sibling, not this item's");
    });
}

#[test]
fn a_blank_line_does_not_end_an_item() {
    over("- a\n\n  more a\n- b\n", |lists| {
        assert_eq!(lists.item_end(0), 2);
        assert_eq!(lists.siblings(3), vec![0, 3]);
    });
}

#[test]
fn a_number_too_large_for_a_u32_is_not_a_bullet() {
    assert!(parse_bullet("4294967296. x", 0).is_none());
    assert_eq!(parse_bullet("4294967295. x", 0).unwrap().bullet, Bullet::Ordered { n: 4294967295, delim: Delim::Dot });
}

#[test]
fn every_renumbered_line_differs_from_what_was_there() {
    let text = "3. a\n2. b\n3. c\n   5. d\n   1. e\n";
    let lines: Vec<&str> = text.lines().collect();
    over(text, |lists| {
        let edits = renumber(lists, (0, 4));
        assert_eq!(
            edits,
            vec![(0, "1. a".to_string()), (3, "   1. d".to_string()), (4, "   2. e".to_string())]
        );
        for (line, new_text) in edits {
            assert_ne!(lines[line as usize], new_text);
        }
    });
}

#[test]
fn a_line_belongs_to_its_own_item_or_one_above_and_never_across_a_headline() {
    over("- a\n  more\n* Head\n  stray\n- b\n", |lists| {
        assert_eq!(lists.enclosing_item(0), lists.item_at(0));
        assert_eq!(lists.enclosing_item(1).map(|i| i.line), Some(0));
        assert_eq!(lists.enclosing_item(2), None);
        assert_eq!(lists.enclosing_item(3), None);
        assert_eq!(lists.enclosing_item(4), lists.item_at(4));
    });
}
