use envfile::{Change, EnvFile, Line};

fn doc(text: &str) -> EnvFile {
    match EnvFile::parse(text) {
        Ok(f) => f,
        Err(e) => panic!("line {} does not parse: {}", e.line, e.text),
    }
}

fn pairs(f: &EnvFile) -> Vec<(String, String)> {
    let mut out = Vec::new();
    let mut it = f.iter();
    while let Some((k, v)) = it.next() {
        out.push((k.to_string(), v.to_string()));
    }
    out
}

#[test]
fn round_trip_trims_each_line() {
    let f = doc("A=1\n# note\n\n  B = x=y  \n\t# indented\t");
    assert_eq!(f.render(), "A=1\n# note\n\nB = x=y\n# indented");
}

#[test]
fn round_trip_of_trimmed_text_is_exact() {
    let text = "# header\nA=1\n\nB=two=2\nC=\n";
    assert_eq!(doc(text).render(), text);
}

#[test]
fn parse_splits_at_first_equals_only() {
    let f = doc("  KEY = a=b  ");
    assert_eq!(f.lookup("KEY "), Some(" a=b"));
    assert_eq!(f.lookup("KEY"), None);
}

#[test]
fn trailing_newline_gives_blank_line() {
    let f = doc("A=1\n");
    assert_eq!(f.len(), 2);
    assert!(matches!(f.line(1), Line::Blank));
    assert!(matches!(f.line(0), Line::Pair(_)));
}

#[test]
fn empty_text_is_one_blank_line() {
    let f = doc("");
    assert_eq!(f.len(), 1);
    assert!(matches!(f.line(0), Line::Blank));
    assert_eq!(f.render(), "");
}

#[test]
fn whitespace_only_line_is_blank() {
    let f = doc("A=1\n \t \nB=2");
    assert!(matches!(f.line(1), Line::Blank));
    assert_eq!(f.render(), "A=1\n\nB=2");
}

#[test]
fn comment_keeps_trimmed_text() {
    let f = doc("   # A=1  ");
    match f.line(0) {
        Line::Comment(c) => assert_eq!(c, "# A=1"),
        _ => panic!("expected a comment"),
    }
}

#[test]
fn line_without_equals_is_an_error() {
    match EnvFile::parse("A=1\n# ok\n  no delimiter here \nB=2") {
        Ok(_) => panic!("expected an error"),
        Err(e) => {
            assert_eq!(e.line, 2);
            assert_eq!(e.text, "no delimiter here");
        }
    }
}

#[test]
fn parse_leaves_document_clean() {
    let f = doc("A=1");
    assert!(!f.is_modified());
    assert_eq!(f.path, "");
    assert_eq!(f.save_if_modified(), None);
}

#[test]
fn idempotent_add() {
    let mut f = doc("A=1");
    assert_eq!(f.add("B", "2"), Some(Change::Added));
    assert!(f.is_modified());
    let before = f.render();
    assert_eq!(f.add("B", "2"), None);
    assert_eq!(f.render(), before);

    let mut g = doc("A=1");
    assert_eq!(g.add("A", "1"), None);
    assert_eq!(g.add("A", "1"), None);
    assert!(!g.is_modified());
}

#[test]
fn add_protects_non_empty_values() {
    let mut f = doc("FOO=bar");
    assert_eq!(f.add("FOO", ""), Some(Change::AlreadyExists));
    assert_eq!(f.lookup("FOO"), Some("bar"));
    assert!(!f.is_modified());
}

#[test]
fn add_fills_an_empty_value() {
    let mut f = doc("FOO=");
    assert_eq!(f.add("FOO", "bar"), Some(Change::Updated));
    assert_eq!(f.lookup("FOO"), Some("bar"));
    assert!(f.is_modified());
}

#[test]
fn add_updates_in_place() {
    let mut f = doc("# c\nA=1\nB=2");
    assert_eq!(f.add("A", "9"), Some(Change::Updated));
    assert_eq!(f.render(), "# c\nA=9\nB=2");
    assert!(f.is_modified());
}

#[test]
fn add_touches_first_duplicate_only() {
    let mut f = doc("A=1\nA=2");
    assert_eq!(f.add("A", "3"), Some(Change::Updated));
    assert_eq!(f.render(), "A=3\nA=2");
}

#[test]
fn add_appends_missing_key() {
    let mut f = doc("A=1\n");
    assert_eq!(f.add("B", "x=y"), Some(Change::Added));
    assert_eq!(f.render(), "A=1\n\nB=x=y");
}

#[test]
fn add_ignores_comment_with_key() {
    let mut f = doc("# A=1");
    assert_eq!(f.add("A", "1"), Some(Change::Added));
    assert_eq!(f.render(), "# A=1\nA=1");
}

#[test]
fn remove_deletes_all_duplicates() {
    let mut f = doc("A=1\nA=2\nB=3");
    assert_eq!(f.remove("A"), Some(Change::Removed(2)));
    assert_eq!(f.render(), "B=3");
    assert!(f.is_modified());
    assert!(!f.has_key("A"));
}

#[test]
fn remove_keeps_comments_and_blanks() {
    let mut f = doc("# A=1\n\nA=2\nB=3");
    assert_eq!(f.remove("A"), Some(Change::Removed(1)));
    assert_eq!(f.render(), "# A=1\n\nB=3");
}

#[test]
fn remove_missing_key_does_nothing() {
    let mut f = doc("A=1");
    assert_eq!(f.remove("B"), None);
    assert!(!f.is_modified());
    assert_eq!(f.render(), "A=1");
}

#[test]
fn lookup_ignores_comments_and_blanks() {
    let f = doc("# A=1\n\nA=2");
    assert_eq!(f.lookup("A"), Some("2"));
}

#[test]
fn lookup_returns_first_match() {
    let f = doc("A=1\nA=2");
    assert_eq!(f.lookup("A"), Some("1"));
    assert_eq!(f.lookup("Z"), None);
}

#[test]
fn has_value_vs_has_key() {
    let f = doc("C=");
    assert!(f.has_key("C"));
    assert!(!f.has_value("C"));
    assert!(!f.has_key("D"));
    assert!(!f.has_value("D"));
}

#[test]
fn has_value_looks_past_empty_duplicate() {
    let f = doc("C=\nC=1");
    assert!(f.has_value("C"));
    assert_eq!(f.lookup("C"), Some(""));
}

#[test]
fn reorder_fills_missing_keys() {
    let template = doc("A=x\nB=y");
    let mut f = doc("A=1");
    let missing = f.reorder_based_on(&template);
    assert_eq!(missing, vec!["B".to_string()]);
    assert_eq!(f.render(), "A=1\nB=");
    assert!(f.is_modified());
}

#[test]
fn reorder_takes_template_shape() {
    let template = doc("# head\nB=b\n\nA=a\n# tail");
    let mut f = doc("A=1\n# mine\nC=3\nB=2");
    let missing = f.reorder_based_on(&template);
    assert!(missing.is_empty());
    assert_eq!(f.render(), "# head\nB=2\n\nA=1\n# tail");
    assert!(!f.has_key("C"));
}

#[test]
fn iter_yields_pairs_in_order() {
    let f = doc("# c\nA=1\n\nB=\nC=x=y");
    assert_eq!(
        pairs(&f),
        vec![
            ("A".to_string(), "1".to_string()),
            ("B".to_string(), "".to_string()),
            ("C".to_string(), "x=y".to_string()),
        ]
    );
    assert_eq!(pairs(&f).len(), 3);
}

#[test]
fn iter_is_restartable() {
    let f = doc("A=1\nB=2");
    let mut it = f.iter();
    assert_eq!(it.next(), Some(("A", "1")));
    assert_eq!(it.next(), Some(("B", "2")));
    assert_eq!(it.next(), None);
    assert_eq!(it.next(), None);
    assert_eq!(pairs(&f).len(), 2);
}

#[test]
fn iter_over_no_pairs() {
    let f = doc("# only\n\n");
    assert!(pairs(&f).is_empty());
}

#[test]
fn clone_to_path_is_modified() {
    let f = doc("A=1\n# c");
    let g = f.clone_to_path("other.env");
    assert_eq!(g.path, "other.env");
    assert!(g.is_modified());
    assert_eq!(g.render(), "A=1\n# c");
    assert_eq!(g.save_if_modified(), Some("A=1\n# c".to_string()));
}

#[test]
fn save_if_modified_after_edit() {
    let mut f = doc("A=1");
    assert_eq!(f.save_if_modified(), None);
    f.add("B", "2");
    assert_eq!(f.save_if_modified(), Some("A=1\nB=2".to_string()));
}

#[test]
fn unicode_whitespace_is_trimmed() {
    let f = doc("\u{3000}A=1\u{a0}\n\u{2003}#c");
    assert_eq!(f.lookup("A"), Some("1"));
    assert_eq!(f.render(), "A=1\n#c");
}

#[test]
fn non_ascii_text_survives() {
    let f = doc("NAME=héllo wörld ✓");
    assert_eq!(f.lookup("NAME"), Some("héllo wörld ✓"));
    assert_eq!(f.render(), "NAME=héllo wörld ✓");
}

#[test]
fn reparse_gives_same_lines() {
    let first = doc("  # top \nA = 1\n\n\tB=x=y\n");
    let again = doc(&first.render());
    assert_eq!(again.len(), first.len());
    assert_eq!(again.render(), first.render());
    assert_eq!(pairs(&again), pairs(&first));
}
