use org_plugin::links::{find_headline, image_link, link_at, open_link, Follow, Target};
use org_plugin::todo::parse_keywords;

#[test]
fn a_bare_file_link_alone_on_its_line_is_an_image() {
    let l = image_link("[[file:img/diagram.png]]", 4).expect("is an image");
    assert_eq!(l.line, 4);
    assert_eq!(l.path, "img/diagram.png");
    assert_eq!(l.description, None);
}

#[test]
fn a_description_becomes_the_alt_text() {
    let l = image_link("[[file:a.png][a wiring diagram]]", 0).unwrap();
    assert_eq!(l.path, "a.png");
    assert_eq!(l.description.as_deref(), Some("a wiring diagram"));
}

#[test]
fn a_link_with_text_around_it_is_left_as_a_link() {
    assert!(image_link("see [[file:a.png]] for detail", 0).is_none());
    assert!(image_link("[[file:a.png]] and more", 0).is_none());
}

#[test]
fn indentation_does_not_disqualify_a_link() {
    assert!(image_link("   [[file:a.png]]  ", 0).is_some());
}

#[test]
fn only_image_extensions_qualify() {
    for ok in ["a.png", "a.JPG", "a.jpeg", "a.gif", "a.webp", "a.svg"] {
        assert!(image_link(&format!("[[file:{ok}]]"), 0).is_some(), "{ok} should qualify");
    }
    for no in ["notes.org", "a.txt", "a", "a.png.bak", "archive.tar.gz"] {
        assert!(image_link(&format!("[[file:{no}]]"), 0).is_none(), "{no} should not");
    }
}

#[test]
fn non_file_schemes_are_not_images() {
    assert!(image_link("[[https://example.com/a.png]]", 0).is_none());
    assert!(image_link("[[id:abcd-1234]]", 0).is_none());
    assert!(image_link("[[mailto:a@b.com]]", 0).is_none());
}

#[test]
fn a_bare_path_is_a_file_link() {
    assert_eq!(image_link("[[img/a.png]]", 0).unwrap().path, "img/a.png");
    assert_eq!(image_link("[[c:/img/a.png]]", 0).unwrap().path, "c:/img/a.png");
}

#[test]
fn malformed_links_are_refused_rather_than_guessed() {
    for bad in ["[[file:]]", "[[]]", "[[file:a.png", "file:a.png]]", ""] {
        assert!(image_link(bad, 0).is_none(), "{bad:?}");
    }
}

#[test]
fn classifies_the_three_kinds() {
    assert_eq!(link_at("[[file:a.org]]", 3).unwrap().target, Target::File("a.org".into()));
    assert_eq!(
        link_at("[[https://example.com]]", 5).unwrap().target,
        Target::Uri("https://example.com".into())
    );
    assert_eq!(link_at("[[*Some Heading]]", 5).unwrap().target, Target::Headline("Some Heading".into()));
    assert_eq!(link_at("[[notes/a.org]]", 4).unwrap().target, Target::File("notes/a.org".into()));
}

#[test]
fn a_link_inside_a_sentence_still_opens() {
    let l = "see [[file:a.org][the notes]] for detail";
    assert!(link_at(l, 10).is_some());
    assert!(link_at(l, 0).is_none());
    assert!(link_at(l, 35).is_none());
}

#[test]
fn the_description_is_ignored_when_resolving_the_target() {
    let l = "[[file:a.org][a description with ][ brackets]]";
    assert_eq!(link_at(l, 3).unwrap().target, Target::File("a.org".into()));
}

#[test]
fn picks_the_link_the_cursor_is_actually_in() {
    let l = "[[file:a.org]] and [[file:b.org]]";
    assert_eq!(link_at(l, 3).unwrap().target, Target::File("a.org".into()));
    assert_eq!(link_at(l, 22).unwrap().target, Target::File("b.org".into()));
    assert!(link_at(l, 16).is_none(), "between them");
}

#[test]
fn malformed_and_empty_links_are_refused() {
    assert!(link_at("[[]]", 2).is_none());
    assert!(link_at("[[*]]", 2).is_none());
    assert!(link_at("[[file:]]", 3).is_none());
    assert!(link_at("[[id:]]", 3).is_none());
    assert!(link_at("no link", 2).is_none());
}

#[test]
fn an_id_link_classifies_as_an_id() {
    assert_eq!(
        link_at("[[id:6F398E54-7E63-4492-9EB6-89C8A90E7DD3]]", 5).unwrap().target,
        Target::Id("6F398E54-7E63-4492-9EB6-89C8A90E7DD3".into())
    );
    assert_eq!(link_at("see [[id:ABC][Some Note]] here", 10).unwrap().target, Target::Id("ABC".into()));
}

#[test]
fn an_id_link_is_not_a_file() {
    let t = link_at("[[id:6F39]]", 5).unwrap().target;
    assert!(!matches!(t, Target::File(_)), "an id must never reach the file branch: {t:?}");
}

#[test]
fn an_id_link_is_not_a_uri() {
    assert!(!matches!(link_at("[[id:6F39]]", 5).unwrap().target, Target::Uri(_)));
}

#[test]
fn only_the_id_scheme_is_an_id() {
    assert_eq!(link_at("[[file:id:weird.org]]", 5).unwrap().target, Target::File("id:weird.org".into()));
    assert_eq!(link_at("[[notes/id-list.org]]", 5).unwrap().target, Target::File("notes/id-list.org".into()));
}

#[test]
fn internal_links_resolve_against_headline_titles() {
    let lines: Vec<String> = ["* One", "** TODO Deep Work", "text", "** Other"].iter().map(|s| s.to_string()).collect();
    let kw = parse_keywords("TODO | DONE");

    assert_eq!(find_headline(&lines, 4, "Deep Work", &kw), Some(1), "the TODO keyword is not part of the title");
    assert_eq!(find_headline(&lines, 4, "Other", &kw), Some(3));
    assert_eq!(find_headline(&lines, 4, "deep work", &kw), None, "case matters");
    assert_eq!(find_headline(&lines, 4, "Missing", &kw), None);
}

#[test]
fn a_link_span_is_counted_in_bytes() {
    // A multibyte character before the link moves its byte span, not its
    // character span.
    let l = "é [[file:a.org]]";
    let link = link_at(l, 3).unwrap();
    assert_eq!((link.start, link.end), (3, 17));
    assert!(link_at(l, 2).is_none());
}

#[test]
fn following_a_link_goes_where_its_kind_says() {
    let lines: Vec<String> = [
        "see [[*Goal][the goal]] here",
        "* TODO Goal",
        "[[https://example.com]]",
        "[[id:abc-123]]",
        "[[file:a.org]]",
        "[[*Missing]]",
    ]
    .iter()
    .map(|s| s.to_string())
    .collect();
    let kws = parse_keywords("TODO | DONE");
    assert_eq!(open_link(&lines, 0, 8, &kws), Some(Follow::MoveTo(1)));
    assert_eq!(open_link(&lines, 2, 4, &kws), Some(Follow::OpenUri("https://example.com".into())));
    assert_eq!(open_link(&lines, 3, 4, &kws), Some(Follow::FollowId("abc-123".into())));
    assert_eq!(open_link(&lines, 4, 4, &kws), Some(Follow::OpenFile("a.org".into())));
    assert_eq!(
        open_link(&lines, 5, 4, &kws),
        Some(Follow::NoHeadline("org: no headline named \"Missing\"".into()))
    );
    assert_eq!(open_link(&lines, 0, 0, &kws), None);
    assert_eq!(open_link(&lines, 9, 0, &kws), None);
}
