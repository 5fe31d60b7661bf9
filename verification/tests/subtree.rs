use org_plugin::subtree::{clamped_cursor, meta_return, move_subtree, text_object_range, Position, Range, TextObject};

fn doc(text: &str) -> Vec<String> {
    text.lines().map(str::to_string).collect()
}

const OUTLINE: &str = "* A\nbody a\n** A1\ntext\n* B\nb body";

fn range(l0: u32, b0: u32, l1: u32, b1: u32) -> Range {
    Range { start: Position { line: l0, byte: b0 }, end: Position { line: l1, byte: b1 } }
}

#[test]
fn the_inner_headline_is_its_title() {
    let lines = doc(OUTLINE);
    assert_eq!(text_object_range(&lines, 3, TextObject::InnerHeadline), Ok(range(2, 3, 2, 5)));
    assert_eq!(text_object_range(&lines, 3, TextObject::AroundHeadline), Ok(range(2, 0, 2, 5)));
}

#[test]
fn a_subtree_runs_to_the_next_headline_as_shallow() {
    let lines = doc(OUTLINE);
    assert_eq!(text_object_range(&lines, 3, TextObject::AroundSubtree), Ok(range(2, 0, 3, 4)));
    assert_eq!(text_object_range(&lines, 0, TextObject::InnerSubtree), Ok(range(1, 0, 3, 4)));
    assert_eq!(text_object_range(&lines, 5, TextObject::InnerSubtree), Ok(range(5, 0, 5, 6)));
}

#[test]
fn a_childless_headline_has_an_empty_inner_subtree() {
    let lines = doc("* A\n* B");
    assert_eq!(text_object_range(&lines, 0, TextObject::InnerSubtree), Ok(range(0, 3, 0, 3)));
}

#[test]
fn no_headline_above_the_cursor_is_an_error() {
    let lines = doc("text\n* A");
    assert_eq!(
        text_object_range(&lines, 0, TextObject::AroundSubtree),
        Err("org: no headline at or above the cursor".to_string())
    );
}

#[test]
fn moving_a_subtree_up_swaps_it_with_its_previous_sibling() {
    let lines = doc(OUTLINE);
    let edit = move_subtree(&lines, Position { line: 4, byte: 1 }, true).expect("a sibling above");
    assert_eq!((edit.from, edit.to, edit.to_len), (0, 5, 6));
    assert_eq!(edit.text, "* B\nb body\n* A\nbody a\n** A1\ntext");
    assert_eq!(edit.cursor, Position { line: 0, byte: 1 });
}

#[test]
fn moving_a_subtree_down_carries_the_caret_with_it() {
    let lines = doc(OUTLINE);
    let edit = move_subtree(&lines, Position { line: 1, byte: 2 }, false).expect("a sibling below");
    assert_eq!((edit.from, edit.to, edit.to_len), (0, 5, 6));
    assert_eq!(edit.text, "* B\nb body\n* A\nbody a\n** A1\ntext");
    assert_eq!(edit.cursor, Position { line: 3, byte: 2 });
}

#[test]
fn a_move_past_the_parent_or_the_end_is_no_edit() {
    let lines = doc(OUTLINE);
    assert_eq!(move_subtree(&lines, Position { line: 4, byte: 0 }, false), None);
    assert_eq!(move_subtree(&lines, Position { line: 2, byte: 0 }, true), None);
}

#[test]
fn the_caret_follows_the_stars_only_on_a_headline() {
    let lines = doc("** A\ntext");
    assert_eq!(clamped_cursor(&lines, Position { line: 0, byte: 3 }, 0, 1, -1), Position { line: 0, byte: 2 });
    assert_eq!(clamped_cursor(&lines, Position { line: 0, byte: 3 }, 0, 1, 1), Position { line: 0, byte: 4 });
    assert_eq!(clamped_cursor(&lines, Position { line: 0, byte: 0 }, 0, 1, -1), Position { line: 0, byte: 0 });
    assert_eq!(clamped_cursor(&lines, Position { line: 1, byte: 3 }, 0, 1, -1), Position { line: 1, byte: 3 });
}

#[test]
fn a_new_sibling_lands_after_the_children() {
    let lines = doc(OUTLINE);
    let edit = meta_return(&lines, Position { line: 0, byte: 0 }).expect("a headline above");
    assert_eq!((edit.from, edit.to, edit.to_len), (3, 3, 4));
    assert_eq!(edit.text, "text\n* ");
    assert_eq!(edit.cursor, Position { line: 4, byte: 2 });
    let deep = meta_return(&lines, Position { line: 3, byte: 1 }).expect("a headline above");
    assert_eq!(deep.text, "text\n** ");
    assert_eq!(deep.cursor, Position { line: 4, byte: 3 });
}

#[test]
fn the_preamble_has_no_level_to_take() {
    let lines = doc("intro\n* A");
    assert_eq!(meta_return(&lines, Position { line: 0, byte: 0 }), None);
}

/// The document after a replacement of whole lines.
fn applied(lines: &[String], from: u32, to: u32, text: &str) -> Vec<String> {
    let mut out: Vec<String> = lines[..from as usize].to_vec();
    out.extend(text.split('\n').map(str::to_string));
    out.extend(lines[to as usize + 1..].iter().cloned());
    out
}

#[test]
fn moving_up_then_down_restores_the_document_and_the_caret() {
    let lines = doc("* A\nbody a\n** A1\n* B\nb body\n** B1\nb1\n* C");
    let at = Position { line: 4, byte: 2 };
    let up = move_subtree(&lines, at, true).expect("a sibling above");
    let moved = applied(&lines, up.from, up.to, &up.text);
    assert_eq!(moved[0], "* B");
    let down = move_subtree(&moved, up.cursor, false).expect("the sibling it jumped");
    assert_eq!(applied(&moved, down.from, down.to, &down.text), lines);
    assert_eq!(down.cursor, at);
}

#[test]
fn moving_down_then_up_restores_the_document_and_the_caret() {
    let lines = doc("* A\nbody a\n** A1\n* B\nb body\n** B1\nb1\n* C");
    let at = Position { line: 1, byte: 0 };
    let down = move_subtree(&lines, at, false).expect("a sibling below");
    let moved = applied(&lines, down.from, down.to, &down.text);
    let up = move_subtree(&moved, down.cursor, true).expect("the sibling it jumped");
    assert_eq!(applied(&moved, up.from, up.to, &up.text), lines);
    assert_eq!(up.cursor, at);
}
