use org_plugin::roam_capture::{ensure_id, expand_fields, file_level_id, roam_note_filename, Node};

fn node<'a>(title: &'a str, slug: &'a str, id: &'a str) -> Node<'a> {
    Node { title, slug, id, origin: "" }
}

#[test]
fn origin_expands_to_the_reference() {
    let with = Node { origin: "[[id:P][Parent]]", ..node("T", "t", "I") };
    assert_eq!(expand_fields("From: ${origin}", &with), "From: [[id:P][Parent]]");
    assert_eq!(expand_fields("From: ${origin}", &node("T", "t", "I")), "From: ");
}

#[test]
fn the_three_fields_expand() {
    let n = node("Rust Async", "rust_async", "ABC-123");
    assert_eq!(expand_fields("#+title: ${title}", &n), "#+title: Rust Async");
    assert_eq!(expand_fields("${slug}.org", &n), "rust_async.org");
    assert_eq!(expand_fields(":ID: ${id}", &n), ":ID: ABC-123");
}

#[test]
fn several_fields_in_one_body_all_expand() {
    let n = node("Rust Async", "rust_async", "ABC-123");
    assert_eq!(
        expand_fields(":ID: ${id}\n#+title: ${title}\n# ${slug}", &n),
        ":ID: ABC-123\n#+title: Rust Async\n# rust_async"
    );
}

#[test]
fn an_unknown_field_is_left_verbatim() {
    let n = node("T", "t", "I");
    assert_eq!(expand_fields("${autor}", &n), "${autor}");
    assert_eq!(expand_fields("a ${x} b ${title}", &n), "a ${x} b T");
}

#[test]
fn an_unterminated_field_does_not_eat_the_template() {
    let n = node("T", "t", "I");
    assert_eq!(expand_fields("#+title: ${title\nbody stays", &n), "#+title: ${title\nbody stays");
}

#[test]
fn a_dollar_that_opens_nothing_is_literal() {
    let n = node("T", "t", "I");
    assert_eq!(expand_fields("costs $5 and $HOME", &n), "costs $5 and $HOME");
    assert_eq!(expand_fields("$", &n), "$");
}

#[test]
fn a_body_with_no_fields_is_unchanged() {
    let n = node("T", "t", "I");
    assert_eq!(expand_fields("* plain\nbody\n", &n), "* plain\nbody\n");
    assert_eq!(expand_fields("", &n), "");
}

#[test]
fn capture_placeholders_pass_through_untouched() {
    let n = node("Rust", "rust", "I");
    assert_eq!(
        expand_fields("#+title: ${title}\n:Q: %^{Question}\n%U\n%?", &n),
        "#+title: Rust\n:Q: %^{Question}\n%U\n%?"
    );
}

#[test]
fn a_title_is_data_not_syntax() {
    let n = node("100% done", "100_done", "I");
    assert_eq!(expand_fields("#+title: ${title}", &n), "#+title: 100% done");
}

#[test]
fn a_body_with_no_drawer_gets_one_at_the_very_top() {
    let out = ensure_id("#+title: T\n\n* Heading\n", "ABC");
    assert!(
        out.starts_with(":PROPERTIES:\n:ID:       ABC\n:END:\n#+title: T"),
        "the drawer must precede the keywords — a file-level drawer is the FIRST element or it is not the file's: {out}"
    );
}

#[test]
fn a_body_that_opens_with_a_drawer_gains_the_id_inside_it() {
    let out = ensure_id(":PROPERTIES:\n:TYPE: book\n:END:\n#+title: T\n", "ABC");
    assert_eq!(out, ":PROPERTIES:\n:ID:       ABC\n:TYPE: book\n:END:\n#+title: T\n");
}

#[test]
fn an_existing_id_is_left_alone() {
    let body = ":PROPERTIES:\n:ID:       KEEP-ME\n:END:\n#+title: T\n";
    assert_eq!(ensure_id(body, "FRESH"), body);
}

#[test]
fn a_template_that_writes_its_own_id_gets_no_second_one() {
    let expanded = expand_fields(
        ":PROPERTIES:\n:ID: ${id}\n:END:\n#+title: ${title}\n",
        &Node { title: "T", slug: "t", id: "ABC", origin: "" },
    );
    let out = ensure_id(&expanded, "ABC");
    assert_eq!(out.matches(":ID:").count(), 1, "exactly one id: {out}");
}

#[test]
fn a_drawer_below_the_keywords_does_not_count_as_the_files() {
    let body = "#+Title: test123\n#+Filetags: :source:book:\n:PROPERTIES:\n:TYPE: source\n:END:\n\n* Why\n";
    let out = ensure_id(body, "ABC");
    assert!(out.starts_with(":PROPERTIES:\n:ID:       ABC\n:END:\n#+Title: test123"));
    assert!(out.contains(":TYPE: source"), "the template's own drawer is left where it put it: {out}");
    assert_eq!(out.matches(":PROPERTIES:").count(), 2);
}

#[test]
fn an_empty_id_line_does_not_count_as_present() {
    let out = ensure_id(":PROPERTIES:\n:ID:\n:END:\n", "ABC");
    assert!(out.contains(":ID:       ABC"), "{out}");
}

#[test]
fn ensuring_an_id_twice_changes_nothing_the_second_time() {
    let once = ensure_id("#+title: T\n", "ABC");
    assert_eq!(ensure_id(&once, "OTHER"), once);
    let inside = ensure_id(":PROPERTIES:\n:TYPE: book\n:END:\n", "ABC");
    assert_eq!(ensure_id(&inside, "OTHER"), inside);
}

#[test]
fn a_note_filename_is_the_pattern_or_the_stamp_and_slug() {
    let n = node("Rust Async", "rust_async", "I");
    assert_eq!(roam_note_filename(Some("${slug}.org"), &n, "20260903101500"), "rust_async.org");
    assert_eq!(roam_note_filename(None, &n, "20260903101500"), "20260903101500-rust_async.org");
    assert_eq!(roam_note_filename(None, &node("T", "", "I"), "20260903101500"), "20260903101500.org");
}

#[test]
fn an_id_written_once_is_kept_by_every_later_call() {
    let first = ensure_id("#+title: T\n", "  abc-1 \r");
    assert_eq!(file_level_id(&first).as_deref(), Some("abc-1"));
    assert_eq!(ensure_id(&first, "other"), first);
    assert_eq!(ensure_id(&first, "  abc-1 \r"), first);
}

#[test]
fn a_carriage_return_no_newline_follows_is_kept() {
    let body = ":PROPERTIES:\n:TYPE: x\n:END:\r";
    assert_eq!(ensure_id(body, "ABC"), ":PROPERTIES:\n:ID:       ABC\n:TYPE: x\n:END:\r");
}
