use xf::{organize, filter_entries, Directory, Entry, EntryType, Hidden, Metadata};
use xf::filter::{Match, Not};
use xf::permission::Perms;
use xf::sort::{Natural, Reverse, Size, sort_entries};

fn file(name: &str, size: u64) -> Entry {
    let path = format!("/base/{}", name);
    Entry::new(path, EntryType::File, Perms::from_mode(0o644, "me", "us"), Metadata::new(size, None, false))
}

fn dir(name: &str) -> Entry {
    let path = format!("/base/{}", name);
    Entry::new(path, EntryType::Dir, Perms::from_mode(0o755, "me", "us"), Metadata::new(4096, None, false))
}

fn names(entries: &[Entry]) -> Vec<String> {
    entries.iter().map(|e| e.file_name().to_string()).collect()
}

fn fixture() -> Vec<Entry> {
    vec![file("b.txt", 10), file(".hidden", 5), dir("dir"), file("a.txt", 20)]
}

#[test]
fn default_listing_hides_dotfiles() {
    let out = organize(fixture(), &Not::new(Hidden(Natural)), &Directory(Natural));
    assert_eq!(names(&out), vec!["dir", "a.txt", "b.txt"]);
}

#[test]
fn listing_all_keeps_dotfiles() {
    let out = organize(fixture(), &(), &Directory(Natural));
    assert_eq!(names(&out), vec!["dir", ".hidden", "a.txt", "b.txt"]);
}

#[test]
fn size_listing_keeps_directories_first() {
    let entries = vec![file("big", 1_048_576), file("small", 1), dir("dir")];
    let out = organize(entries, &Not::new(Hidden(Natural)), &Directory(Size(Natural)));
    assert_eq!(names(&out), vec!["dir", "small", "big"]);
}

#[test]
fn reverse_listing_turns_names_around() {
    let entries = vec![file("a", 1), file("b", 1), file("c", 1)];
    let out = organize(entries, &Not::new(Hidden(Natural)), &Directory(Reverse(Natural)));
    assert_eq!(names(&out), vec!["c", "b", "a"]);
}

#[test]
fn regex_listing_keeps_matching_names() {
    let entries = vec![file("apple", 1), file("banana", 1), file("avocado", 1)];
    let m = Match::new("^a").unwrap();
    let out = organize(entries, &m, &Directory(Natural));
    assert_eq!(names(&out), vec!["apple", "avocado"]);
}

#[test]
fn directories_precede_files_under_any_sort() {
    let entries = vec![file("a", 9), dir("zzz"), file("m", 2), dir("aaa"), file("z", 1)];
    for out in [
        sort_entries(entries.clone(), &Directory(Natural)),
        sort_entries(entries.clone(), &Directory(Size(Natural))),
        sort_entries(entries.clone(), &Directory(Reverse(Natural))),
    ] {
        let mut seen_file = false;
        for e in &out {
            if e.etype() == EntryType::Dir {
                assert!(!seen_file, "a directory came after a file");
            } else {
                seen_file = true;
            }
        }
    }
}

#[test]
fn filtering_keeps_order() {
    let entries = vec![file("one", 1), file(".two", 1), file("three", 1)];
    let kept = filter_entries(entries, &Not::new(Hidden(Natural)));
    assert_eq!(names(&kept), vec!["one", "three"]);
}
