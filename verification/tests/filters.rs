use xf::{Entry, EntryType, Metadata, ScanError, Directory, Hidden};
use xf::filter::{And, Binary, Dot, Extensions, Filter, Match, Not, Or};
use xf::permission::Perms;
use xf::sort::Natural;

fn file(name: &str) -> Entry {
    let path = format!("/base/{}", name);
    Entry::new(path, EntryType::File, Perms::from_mode(0o644, "me", "us"), Metadata::new(1, None, false))
}

fn dir(name: &str) -> Entry {
    let path = format!("/base/{}", name);
    Entry::new(path, EntryType::Dir, Perms::from_mode(0o755, "me", "us"), Metadata::new(4096, None, false))
}

#[test]
fn identity_keeps_everything() {
    assert!(().keep(&file("a")));
    assert!(().keep(&dir("d")));
}

#[test]
fn and_or_not_evaluate_boolean_algebra() {
    let e = file("pic.png");
    let d = dir("folder");
    let is_dir = Directory(Natural);
    // and with the identity keeps exactly what the filter keeps
    assert_eq!(And::new(is_dir, ()).keep(&e), is_dir.keep(&e));
    assert_eq!(And::new(is_dir, ()).keep(&d), is_dir.keep(&d));
    // a filter or its negation keeps every entry
    assert!(Or::new(is_dir, Not::new(is_dir)).keep(&e));
    assert!(Or::new(is_dir, Not::new(is_dir)).keep(&d));
    // double negation changes nothing
    assert_eq!(Not::new(Not::new(is_dir)).keep(&e), is_dir.keep(&e));
    // commutativity
    let dot = Dot;
    assert_eq!(And::new(is_dir, dot).keep(&d), And::new(dot, is_dir).keep(&d));
    assert_eq!(Or::new(is_dir, dot).keep(&e), Or::new(dot, is_dir).keep(&e));
    // De Morgan
    assert_eq!(
        Not::new(And::new(is_dir, dot)).keep(&e),
        Or::new(Not::new(is_dir), Not::new(dot)).keep(&e)
    );
    assert_eq!(
        Not::new(Or::new(is_dir, dot)).keep(&e),
        And::new(Not::new(is_dir), Not::new(dot)).keep(&e)
    );
    // the combinator builder spells the same filters
    assert!(is_dir.not().keep(&e));
    assert!(is_dir.or(()).keep(&e));
    assert!(!is_dir.and(()).keep(&e));
}

#[test]
fn extension_filter_folds_case() {
    let f = Extensions::new(vec!["txt".to_string(), "md".to_string()]);
    assert!(f.keep(&file("notes.txt")));
    assert!(f.keep(&file("notes.TXT")));
    assert!(f.keep(&file("readme.md")));
    assert!(!f.keep(&file("image.png")));
    assert!(!f.keep(&file("bare")));

    // the entry's extension is lower case by the data model, so the
    // case mode decides only how the filter's own patterns are read
    let relaxed = Extensions::new(vec!["TXT".to_string()]);
    assert!(relaxed.keep(&file("notes.txt")));
    let strict = Extensions::new(vec!["TXT".to_string()]).case_sensitive(true);
    assert!(!strict.keep(&file("notes.txt")));
    let strict_lower = Extensions::new(vec!["txt".to_string()]).case_sensitive(true);
    assert!(strict_lower.keep(&file("notes.TXT")));
}

#[test]
fn dot_filter_keeps_dotfiles() {
    assert!(Dot.keep(&file(".config")));
    assert!(!Dot.keep(&file("config")));
}

#[test]
fn hidden_filter_and_negation() {
    let hidden = Hidden(Natural);
    assert!(hidden.keep(&file(".secret")));
    assert!(!hidden.keep(&file("open")));
    assert!(Not::new(hidden).keep(&file("open")));
    assert!(!Not::new(hidden).keep(&file(".secret")));
}

#[test]
fn regex_filter_matches_names() {
    let m = Match::new("^a").unwrap();
    assert!(m.keep(&file("apple")));
    assert!(m.keep(&file("avocado")));
    assert!(!m.keep(&file("banana")));
}

#[test]
fn bad_pattern_is_reported() {
    let r = Match::new("[");
    match r {
        Err(ScanError::InvalidPattern(msg)) => {
            assert!(!msg.is_empty());
        },
        _ => panic!("a malformed pattern must be rejected"),
    }
}

#[test]
fn accessors_hand_back_parts() {
    let a = And::new(Dot, ());
    let _ = a.a();
    let _ = a.b();
    let o = Or::new(Dot, ());
    let _ = o.a();
    let _ = o.b();
    let n = Not::new(Dot);
    let _ = n.filter();
}
