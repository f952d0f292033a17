use modenv::envfile::{AddOutcome, EnvFile, Line};

fn parsed(text: &str) -> EnvFile {
    EnvFile::parse(text, ".env").unwrap()
}

#[test]
fn parse_classifies_lines() {
    let env = parsed("# header\n\nA=1\nB=2");
    assert_eq!(env.lines.len(), 4);
    assert!(matches!(env.lines[0], Line::Comment(_)));
    assert!(matches!(env.lines[1], Line::Blank));
    assert!(matches!(env.lines[2], Line::Pair(_, _)));
    assert_eq!(env.lookup("A").unwrap(), "1");
    assert_eq!(env.lookup("B").unwrap(), "2");
    assert!(!env.modified);
    assert_eq!(env.path, ".env");
}

#[test]
fn parse_splits_on_first_equals_only() {
    let env = parsed("URL=http://x/?a=b");
    assert_eq!(env.lookup("URL").unwrap(), "http://x/?a=b");
}

#[test]
fn parse_keeps_pair_segments_verbatim() {
    let env = parsed("  A=1  ");
    assert_eq!(env.lookup("  A").unwrap(), "1  ");
    assert!(!env.has_key("A"));
    assert_eq!(env.serialize(), "  A=1  ");
}

#[test]
fn parse_keeps_comments_verbatim() {
    let env = parsed("# x ");
    match &env.lines[0] {
        Line::Comment(text) => assert_eq!(text, "# x "),
        _ => panic!("expected a comment"),
    }
    assert_eq!(env.serialize(), "# x ");
}

#[test]
fn whitespace_only_line_is_blank() {
    let env = parsed(" \t \r\nA=1");
    assert!(matches!(env.lines[0], Line::Blank));
    assert_eq!(env.serialize(), "\nA=1");
}

#[test]
fn indented_comment_is_not_a_comment() {
    let err = EnvFile::parse(" # note", "f").unwrap_err();
    assert_eq!(err.line, 0);
}

#[test]
fn parse_strips_matching_quotes() {
    let env = parsed("A=\"hello world\"\nB=\"unterminated\nC=x\"y");
    assert_eq!(env.lookup("A").unwrap(), "hello world");
    assert_eq!(env.lookup("B").unwrap(), "\"unterminated");
    assert_eq!(env.lookup("C").unwrap(), "x\"y");
}

#[test]
fn parse_rejects_line_without_equals() {
    let err = EnvFile::parse("A=1\nnot a pair\nB=2", "bad.env").unwrap_err();
    assert_eq!(err.line, 1);
    assert_eq!(err.path, "bad.env");
}

#[test]
fn parse_empty_text_is_one_blank_line() {
    let env = parsed("");
    assert_eq!(env.lines.len(), 1);
    assert!(matches!(env.lines[0], Line::Blank));
    assert_eq!(env.serialize(), "");
}

#[test]
fn round_trip_canonical_document() {
    let text = "# header\n\nA=1\nB=2\n# tail\nC=three";
    assert_eq!(parsed(text).serialize(), text);
}

#[test]
fn round_trip_keeps_edge_whitespace() {
    let text = "# x \n A =\t1 \nB=2";
    assert_eq!(parsed(text).serialize(), text);
}

#[test]
fn round_trip_keeps_trailing_newline() {
    let text = "A=1\nB=2\n";
    assert_eq!(parsed(text).serialize(), text);
}

#[test]
fn serialize_writes_values_unquoted() {
    let env = parsed("A=\"q\"");
    assert_eq!(env.serialize(), "A=q");
}

#[test]
fn add_appends_then_updates_in_place() {
    let mut env = parsed("A=1\nB=2");
    assert!(matches!(env.add("FOO", "1"), AddOutcome::Appended));
    assert_eq!(env.serialize(), "A=1\nB=2\nFOO=1");
    assert!(matches!(env.add("FOO", "2"), AddOutcome::Updated));
    assert_eq!(env.serialize(), "A=1\nB=2\nFOO=2");
}

#[test]
fn add_same_value_twice_is_idempotent() {
    let mut env = parsed("A=1");
    assert!(matches!(env.add("B", "x"), AddOutcome::Appended));
    assert!(env.modified);
    let bytes = env.serialize();
    let second = env.add("B", "x");
    assert!(matches!(second, AddOutcome::Unchanged));
    assert_eq!(env.serialize(), bytes);
}

#[test]
fn add_unchanged_does_not_mark_modified() {
    let mut env = parsed("A=1");
    assert!(matches!(env.add("A", "1"), AddOutcome::Unchanged));
    assert!(!env.modified);
    assert!(matches!(env.add("A", "2"), AddOutcome::Updated));
    assert!(env.modified);
}

#[test]
fn add_updates_only_first_occurrence() {
    let mut env = parsed("A=1\nA=2");
    env.add("A", "9");
    assert_eq!(env.serialize(), "A=9\nA=2");
}

#[test]
fn lookup_returns_first_match_only() {
    let env = parsed("A=first\nA=second");
    assert_eq!(env.lookup("A").unwrap(), "first");
    assert_eq!(env.lookup("missing"), None);
}

#[test]
fn remove_deletes_every_occurrence() {
    let mut env = parsed("A=1\n# keep\nA=2\nB=3");
    assert!(env.remove("A"));
    assert_eq!(env.serialize(), "# keep\nB=3");
    assert!(env.modified);
}

#[test]
fn remove_of_absent_key_does_not_mark_modified() {
    let mut env = parsed("A=1");
    assert!(!env.remove("B"));
    assert!(!env.modified);
    assert_eq!(env.serialize(), "A=1");
}

#[test]
fn has_key_and_has_value_differ_on_empty_values() {
    let env = parsed("A=\nB=1");
    assert!(env.has_key("A"));
    assert!(!env.has_value("A"));
    assert!(env.has_key("B"));
    assert!(env.has_value("B"));
    assert!(!env.has_key("C"));
}

#[test]
fn reorder_mirrors_reference_structure() {
    let reference = parsed("# top\nA=1\n\nB=2");
    let mut dest = parsed("B=9\nC=3");
    dest.use_ordering_from(&reference);
    assert_eq!(dest.serialize(), "# top\nA=\n\nB=9");
    assert!(dest.modified);
}

#[test]
fn reorder_drops_lines_absent_from_reference() {
    let reference = parsed("A=1");
    let mut dest = parsed("# gone\nB=9\nA=5");
    dest.use_ordering_from(&reference);
    assert_eq!(dest.serialize(), "A=5");
}

#[test]
fn pairs_skips_blanks_and_comments() {
    let env = parsed("# c\nA=1\n\nB=2");
    let ps = env.pairs();
    assert_eq!(ps.len(), 2);
    assert_eq!(ps[0].key, "A");
    assert_eq!(ps[0].value, "1");
    assert_eq!(ps[1].key, "B");
    assert_eq!(ps[1].value, "2");
}

#[test]
fn iter_yields_pairs_in_order() {
    let env = parsed("# c\nA=1\n\nB=2");
    let mut it = env.iter();
    let first = it.next().unwrap();
    assert_eq!(first.key, "A");
    let second = it.next().unwrap();
    assert_eq!(second.value, "2");
    assert!(it.next().is_none());
    assert!(it.next().is_none());
}

#[test]
fn empty_document_has_no_lines() {
    let env = EnvFile::empty("fresh.env");
    assert_eq!(env.lines.len(), 0);
    assert_eq!(env.serialize(), "");
    assert_eq!(env.path, "fresh.env");
    assert!(!env.modified);
}
