use org_plugin::text::lines_of;

#[test]
fn lines_split_as_str_lines_does() {
    assert_eq!(lines_of("a\r"), vec!["a\r"]);
    assert_eq!(lines_of("a\r\nb\r"), vec!["a", "b\r"]);
    assert_eq!(lines_of("a\nb\n"), vec!["a", "b"]);
    assert_eq!(lines_of("x\r\n"), vec!["x"]);
    for s in ["a\r", "a\r\nb\r", "\r\n\r", "p\n\nq\r\n"] {
        assert_eq!(lines_of(s), s.lines().collect::<Vec<_>>());
    }
}
