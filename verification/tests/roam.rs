use org_plugin::roam::{extract, id_links_in, strip_headline, Outline, Section};

fn keywords() -> Vec<String> {
    ["TODO", "NEXT", "DONE"].iter().map(|s| s.to_string()).collect()
}

/// The file grain: a drawer at the top of the file, read from its lines.
fn file_outline(drawer: (u32, u32), directives: &[(&str, &str)]) -> Outline {
    Outline {
        file_drawer: Some(drawer),
        directives: directives.iter().map(|(n, v)| (n.to_string(), v.to_string())).collect(),
        sections: Vec::new(),
    }
}

const FILE_NOTE: &str = "\
:PROPERTIES:
:ID:       6F398E54-1111-2222-3333-444455556666
:ROAM_ALIASES: \"Honey Garlic\" Chicken
:END:
#+title: Honey Garlic Chicken Breast
#+filetags: :food:recipe:

Prose with a [[id:AAAA-BBBB][link]] in it.
";

#[test]
fn a_file_node_is_read_from_the_lines_its_drawer_spans() {
    let outline = file_outline((0, 3), &[("title", "Honey Garlic Chicken Breast"), ("filetags", ":food:recipe:")]);
    let got = extract("/roam/chicken.org", FILE_NOTE, &outline, &keywords());
    assert_eq!(got.len(), 1, "one file node: {got:?}");
    let n = &got[0].node;
    assert_eq!(n.id, "6F398E54-1111-2222-3333-444455556666");
    assert_eq!(n.title, "Honey Garlic Chicken Breast");
    assert_eq!(n.tags, vec!["food", "recipe"]);
    assert_eq!(n.line, 0, "a file node has no headline line");
    assert_eq!(n.level, 0);
    assert_eq!(got[0].links, vec!["AAAA-BBBB"]);
}

#[test]
fn a_quoted_alias_is_one_alias() {
    let outline = file_outline((0, 3), &[("title", "Honey Garlic Chicken Breast")]);
    let got = extract("/roam/chicken.org", FILE_NOTE, &outline, &keywords());
    assert_eq!(got[0].node.aliases, vec!["Honey Garlic", "Chicken"]);
}

#[test]
fn keyword_case_does_not_matter() {
    let text = ":PROPERTIES:\n:ID: ABC\n:END:\n#+TITLE: Shouty\n#+Filetags: :one:\n";
    let outline = file_outline((0, 2), &[("TITLE", "Shouty"), ("Filetags", ":one:")]);
    let got = extract("/n.org", text, &outline, &keywords());
    assert_eq!(got[0].node.title, "Shouty");
    assert_eq!(got[0].node.tags, vec!["one"]);
}

#[test]
fn a_file_node_with_no_title_falls_back_to_its_slug() {
    let text = ":PROPERTIES:\n:ID: ABC\n:END:\n";
    let outline = file_outline((0, 2), &[]);
    let got = extract("/roam/20250603103551-chicken.org", text, &outline, &keywords());
    assert_eq!(got[0].node.title, "20250603103551-chicken");
}

fn section(headline_line: u32, end_line: u32, level: u32, title: &str) -> Section {
    Section {
        headline_line,
        end_line,
        level,
        raw_title: title.to_string(),
        own_tags: Vec::new(),
        drawer: None,
        parent: None,
    }
}

const BOTH_GRAINS: &str = "\
:PROPERTIES:
:ID: FILE-ID
:END:
#+title: The File
#+filetags: :filetag:

* A headline node
:PROPERTIES:
:ID: HEAD-ID
:END:

Body with [[id:TARGET][a link]].
";

#[test]
fn a_file_node_and_a_headline_node_coexist() {
    let mut head = section(6, 11, 1, "A headline node");
    head.drawer = Some((7, 9));
    let outline = Outline {
        file_drawer: Some((0, 2)),
        directives: vec![("title".into(), "The File".into()), ("filetags".into(), ":filetag:".into())],
        sections: vec![head],
    };
    let got = extract("/n.org", BOTH_GRAINS, &outline, &keywords());
    assert_eq!(got.len(), 2, "both grains: {got:?}");
    assert_eq!(got[0].node.id, "FILE-ID");
    assert_eq!(got[1].node.id, "HEAD-ID");
    assert_eq!(got[1].node.line, 6, "a headline node lands on its headline");
    assert_eq!(got[1].node.level, 1);
    assert_eq!(got[0].links, Vec::<String>::new());
    assert_eq!(got[1].links, vec!["TARGET"]);
}

#[test]
fn a_headline_node_inherits_its_ancestors_tags_and_the_files() {
    let text = ":PROPERTIES:\n:ID: F\n:END:\n#+filetags: :file:\n\n* Parent\n\n** Child\n:PROPERTIES:\n:ID: C\n:END:\n";
    let mut parent = section(5, 10, 1, "Parent");
    parent.own_tags = vec!["parent".into()];
    let mut child = section(7, 10, 2, "Child");
    child.own_tags = vec!["child".into()];
    child.parent = Some(0);
    child.drawer = Some((8, 10));
    let outline = Outline {
        file_drawer: Some((0, 2)),
        directives: vec![("filetags".into(), ":file:".into())],
        sections: vec![parent, child],
    };
    let got = extract("/n.org", text, &outline, &keywords());
    let child = got.iter().find(|e| e.node.id == "C").expect("the child");
    assert_eq!(child.node.tags, vec!["child", "parent", "file"], "own, then ancestors', then the file's");
}

#[test]
fn an_untagged_intermediate_section_still_passes_its_tags_down() {
    let text = "* Middle\n** Leaf\n:PROPERTIES:\n:ID: L\n:END:\n";
    let mut middle = section(0, 4, 1, "Middle");
    middle.own_tags = vec!["middle".into()];
    let mut leaf = section(1, 4, 2, "Leaf");
    leaf.parent = Some(0);
    leaf.drawer = Some((2, 4));
    let outline = Outline { file_drawer: None, directives: Vec::new(), sections: vec![middle, leaf] };
    let got = extract("/n.org", text, &outline, &keywords());
    assert_eq!(got.len(), 1, "the middle section is not a node");
    assert_eq!(got[0].node.tags, vec!["middle"]);
}

#[test]
fn the_innermost_node_owns_a_link() {
    let text = "* Outer\n:PROPERTIES:\n:ID: O\n:END:\n** Inner\n:PROPERTIES:\n:ID: I\n:END:\nlink [[id:T]]\n";
    let mut outer = section(0, 8, 1, "Outer");
    outer.drawer = Some((1, 3));
    let mut inner = section(4, 8, 2, "Inner");
    inner.drawer = Some((5, 7));
    inner.parent = Some(0);
    let outline = Outline { file_drawer: None, directives: Vec::new(), sections: vec![outer, inner] };
    let got = extract("/n.org", text, &outline, &keywords());
    let outer = got.iter().find(|e| e.node.id == "O").unwrap();
    let inner = got.iter().find(|e| e.node.id == "I").unwrap();
    assert!(outer.links.is_empty(), "the outer node does not own it");
    assert_eq!(inner.links, vec!["T"]);
}

#[test]
fn both_link_shapes_are_found_including_across_a_split_description() {
    assert_eq!(id_links_in("see [[id:ABC]] here"), vec!["ABC"]);
    assert_eq!(id_links_in("see [[id:ABC][a long description]] here"), vec!["ABC"]);
    assert_eq!(id_links_in("[[id:A][one]] and [[id:B][two]]"), vec!["A", "B"]);
    assert_eq!(id_links_in("no links here"), Vec::<String>::new());
}

#[test]
fn link_scanning_is_case_insensitive() {
    assert_eq!(id_links_in("[[ID:ABC][x]]"), vec!["ABC"]);
    assert_eq!(id_links_in("[[Id:ABC]]"), vec!["ABC"]);
}

#[test]
fn repeated_links_to_one_target_are_deduplicated() {
    let text = ":PROPERTIES:\n:ID: F\n:END:\n[[id:T]] [[id:T]]\n[[id:t]]\n";
    let outline = file_outline((0, 2), &[]);
    let got = extract("/n.org", text, &outline, &keywords());
    assert_eq!(got[0].links, vec!["T"], "including across letter case, which is how ids compare");
}

#[test]
fn a_headline_title_loses_its_keyword_priority_tags_and_cookie() {
    let k = keywords();
    assert_eq!(strip_headline("TODO Write the thing", &k), "Write the thing");
    assert_eq!(strip_headline("DONE [#A] Ship it", &k), "Ship it");
    assert_eq!(strip_headline("Plain title  :tag:other:", &k), "Plain title");
    assert_eq!(strip_headline("Reading list [2/5]", &k), "Reading list");
    assert_eq!(strip_headline("NEXT [#B] Do it [40%]", &k), "Do it");
}

#[test]
fn a_title_ending_in_a_colon_survives() {
    assert_eq!(strip_headline("A note about C++:", &keywords()), "A note about C++:");
}

#[test]
fn a_non_keyword_first_word_stays_in_the_title() {
    assert_eq!(strip_headline("MAYBE do it", &keywords()), "MAYBE do it");
    let custom = vec!["MAYBE".to_string()];
    assert_eq!(strip_headline("MAYBE do it", &custom), "do it");
}

#[test]
fn a_file_with_no_ids_produces_nothing() {
    let text = "#+title: Just a file\n\nWith a [[id:T]] link.\n";
    let outline = Outline {
        file_drawer: None,
        directives: vec![("title".into(), "Just a file".into())],
        sections: Vec::new(),
    };
    assert!(extract("/n.org", text, &outline, &keywords()).is_empty());
}

#[test]
fn a_malformed_property_line_is_skipped_not_fatal() {
    let text = ":PROPERTIES:\nnot a property\n:ID: ABC\n:  : empty name\n:END:\n";
    let outline = file_outline((0, 4), &[]);
    let got = extract("/n.org", text, &outline, &keywords());
    assert_eq!(got.len(), 1);
    assert_eq!(got[0].node.id, "ABC");
}
