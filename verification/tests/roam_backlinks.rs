use org_plugin::roam::Node;
use org_plugin::roam_backlinks::{accept, file_label, init, node_id_at, row, AcceptOutcome, Location, Routing};

fn lines(text: &str) -> (Vec<String>, u32) {
    let owned: Vec<String> = text.lines().map(str::to_string).collect();
    let n = owned.len() as u32;
    (owned, n)
}

const FILE_AND_HEADLINE: &str = ":PROPERTIES:\n\
     :ID:       FILE-1\n\
     :END:\n\
     #+title: A file\n\
     \n\
     * First\n\
     :PROPERTIES:\n\
     :ID:       HEAD-1\n\
     :END:\n\
     body of first\n\
     * Second, unidentified\n\
     body of second\n";

#[test]
fn the_cursor_inside_a_headline_node_gets_the_headline_id() {
    let (l, n) = lines(FILE_AND_HEADLINE);
    assert_eq!(node_id_at(&l, n, 9).as_deref(), Some("HEAD-1"));
}

#[test]
fn the_cursor_above_the_first_headline_gets_the_file_id() {
    let (l, n) = lines(FILE_AND_HEADLINE);
    assert_eq!(node_id_at(&l, n, 3).as_deref(), Some("FILE-1"));
}

#[test]
fn an_unidentified_headline_falls_back_to_its_file() {
    let (l, n) = lines(FILE_AND_HEADLINE);
    assert_eq!(node_id_at(&l, n, 11).as_deref(), Some("FILE-1"));
}

#[test]
fn a_sub_headline_belongs_to_its_identified_ancestor() {
    let (l, n) = lines(
        "* Parent\n             :PROPERTIES:\n             :ID:       PARENT-1\n             :END:\n             ** Child, unidentified\n             body of child\n",
    );
    assert_eq!(node_id_at(&l, n, 5).as_deref(), Some("PARENT-1"));
}

#[test]
fn a_bold_run_at_column_zero_is_not_a_headline() {
    let (l, n) = lines(
        "* Topic\n             :PROPERTIES:\n             :ID:       TOP-1\n             :END:\n             **bold** text\n             more\n",
    );
    assert_eq!(node_id_at(&l, n, 5).as_deref(), Some("TOP-1"));
}

#[test]
fn a_file_with_no_ids_at_all_is_not_a_node() {
    let (l, n) = lines("#+title: Plain\n\n* A headline\nbody\n");
    assert_eq!(node_id_at(&l, n, 3), None);
}

#[test]
fn an_id_is_read_whatever_the_drawers_case() {
    let (l, n) = lines("* Topic\n:properties:\n:id:       lower\n:end:\n");
    assert_eq!(node_id_at(&l, n, 0).as_deref(), Some("lower"));
}

#[test]
fn an_empty_id_property_is_not_an_id() {
    let (l, n) = lines("* Topic\n:PROPERTIES:\n:ID:\n:END:\n");
    assert_eq!(node_id_at(&l, n, 0), None);
}

fn linking_note() -> Node {
    Node {
        id: "X".into(),
        title: "Linking note".into(),
        aliases: vec![],
        tags: vec![],
        refs: vec![],
        file: "/notes/20250603-linking.org".into(),
        line: 12,
        level: 1,
    }
}

#[test]
fn a_row_shows_the_title_and_annotates_the_file() {
    let node = linking_note();
    let (raw, routing) = row(&node);
    assert_eq!(raw.display, "Linking note");
    assert_eq!(raw.annotations.len(), 1);
    match routing {
        Routing::FileLocation(loc) => {
            assert_eq!(loc.line, 12, "jumps to the node's own line");
            assert_eq!(loc.path, "/notes/20250603-linking.org");
        }
        other => panic!("expected a file location, got {other:?}"),
    }
}

#[test]
fn the_file_label_is_the_basename() {
    assert_eq!(file_label("/a/b/c.org"), "c.org");
    assert_eq!(file_label("c.org"), "c.org");
}

#[test]
fn the_picker_needs_a_directory_and_an_id() {
    let nodes = vec![linking_note()];
    let err = init(false, &["X".to_string()], &nodes).unwrap_err();
    assert!(err.contains("org.roam-directory"), "{err}");
    let err = init(true, &["  ".to_string()], &nodes).unwrap_err();
    assert_eq!(err, "org-roam: backlinks needs a node id");
    let rows = init(true, &["X".to_string()], &nodes).unwrap();
    assert_eq!(rows.len(), 1);
    assert_eq!(rows[0].0.annotations[0].text, "20250603-linking.org");
    assert!(init(true, &["X".to_string()], &[]).unwrap().is_empty(), "an honest empty picker");
}

#[test]
fn accepting_a_row_jumps_to_its_location_and_a_foreign_token_is_refused() {
    let loc = Location { path: "/n.org".into(), line: 3, col: 0 };
    match accept(Routing::FileLocation(loc.clone())) {
        Ok(AcceptOutcome::JumpToLocation(to)) => assert_eq!(to, loc),
        other => panic!("expected a jump, got {other:?}"),
    }
    assert!(accept(Routing::Token("x".into())).is_err());
}
