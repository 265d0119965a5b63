use std::cmp::Ordering;
use xf::{Directory, Entry, EntryType, Metadata, Timestamp};
use xf::permission::Perms;
use xf::sort::{sort_entries, Date, DateTime, Extension, Natural, Reverse, Size, SortStrategy, Time};

fn file(name: &str) -> Entry {
    let path = format!("/base/{}", name);
    Entry::new(path, EntryType::File, Perms::from_mode(0o644, "me", "us"), Metadata::new(1, None, false))
}

fn file_sized(name: &str, size: u64) -> Entry {
    let path = format!("/base/{}", name);
    Entry::new(path, EntryType::File, Perms::from_mode(0o644, "me", "us"), Metadata::new(size, None, false))
}

fn file_dated(name: &str, unix: i64) -> Entry {
    let path = format!("/base/{}", name);
    let ts = Timestamp::from_unix(unix, 0).unwrap();
    Entry::new(path, EntryType::File, Perms::from_mode(0o644, "me", "us"), Metadata::new(1, Some(ts), false))
}

fn names(entries: &[Entry]) -> Vec<String> {
    entries.iter().map(|e| e.file_name().to_string()).collect()
}

#[test]
fn natural_numeric_runs() {
    let input = vec![file("_12"), file("_1"), file("_2")];
    let sorted = sort_entries(input, &Natural);
    assert_eq!(names(&sorted), vec!["_1", "_2", "_12"]);

    let input = vec![file("a10b"), file("a2b"), file("a10a")];
    let sorted = sort_entries(input, &Natural);
    assert_eq!(names(&sorted), vec!["a2b", "a10a", "a10b"]);
}

#[test]
fn natural_leading_zeros() {
    assert_eq!(Natural.compare(&file("a01"), &file("a1")), Ordering::Equal);
    assert_eq!(Natural.compare(&file("a02"), &file("a1")), Ordering::Greater);
    assert_eq!(Natural.compare(&file("a9"), &file("a10")), Ordering::Less);
    assert_eq!(
        Natural.compare(&file("a100000000000000000000000001"), &file("a100000000000000000000000002")),
        Ordering::Less
    );
}

#[test]
fn comparisons_form_a_total_order() {
    let sample = vec![file("a1"), file("a01"), file("b"), file("10"), file(".z"), file("a10")];
    for x in &sample {
        assert_eq!(Natural.compare(x, x), Ordering::Equal);
        for y in &sample {
            let xy = Natural.compare(x, y);
            let yx = Natural.compare(y, x);
            assert_eq!(xy, yx.reverse());
            for z in &sample {
                let yz = Natural.compare(y, z);
                let xz = Natural.compare(x, z);
                if xy == Ordering::Less && yz == Ordering::Less {
                    assert_eq!(xz, Ordering::Less);
                }
            }
        }
    }
}

#[test]
fn sorting_twice_equals_sorting_once() {
    let input = vec![file("c"), file("a2"), file("a1"), file("b"), file("a02")];
    let once = sort_entries(input.clone(), &Natural);
    let twice = sort_entries(once.clone(), &Natural);
    assert_eq!(names(&once), names(&twice));
}

#[test]
fn sort_is_stable_on_equal_keys() {
    // equal sizes keep their input order under a size sort
    let input = vec![
        file_sized("third", 7),
        file_sized("first", 3),
        file_sized("second", 3),
        file_sized("zeroth", 1),
    ];
    let sorted = sort_entries(input, &Size(Natural));
    assert_eq!(names(&sorted), vec!["zeroth", "first", "second", "third"]);
}

#[test]
fn reverse_involution_restores_order() {
    let a = file("alpha");
    let b = file("beta");
    let double = Reverse(Reverse(Natural));
    assert_eq!(double.compare(&a, &b), Natural.compare(&a, &b));
    assert_eq!(double.compare(&b, &a), Natural.compare(&b, &a));
    assert_eq!(Reverse(Natural).compare(&a, &b), Natural.compare(&a, &b).reverse());
}

#[test]
fn extension_sort_no_extension_first() {
    let input = vec![file("a.zip"), file("b"), file("c.txt")];
    let sorted = sort_entries(input, &Extension(Natural));
    assert_eq!(names(&sorted), vec!["b", "c.txt", "a.zip"]);
}

#[test]
fn date_and_time_orders() {
    let old = file_dated("old", 1_000_000_000);
    let new = file_dated("new", 1_700_000_000);
    let unknown = file("unknown");
    assert_eq!(DateTime(Natural).compare(&old, &new), Ordering::Less);
    assert_eq!(DateTime(Natural).compare(&new, &old), Ordering::Greater);
    // an entry without a modified time sorts after one with
    assert_eq!(Date(Natural).compare(&old, &unknown), Ordering::Less);
    assert_eq!(Time(Natural).compare(&unknown, &old), Ordering::Greater);
    // same instant falls through to the inner strategy
    let a = file_dated("a", 1_700_000_000);
    let b = file_dated("b", 1_700_000_000);
    assert_eq!(DateTime(Natural).compare(&a, &b), Ordering::Less);
}

#[test]
fn size_ties_fall_through() {
    let a = file_sized("a", 5);
    let b = file_sized("b", 5);
    let c = file_sized("c", 4);
    assert_eq!(Size(Natural).compare(&a, &b), Ordering::Less);
    assert_eq!(Size(Natural).compare(&a, &c), Ordering::Greater);
}

#[test]
fn directory_combinator_orders_kinds() {
    let d = Entry::new(
        "/base/zzz".to_string(),
        EntryType::Dir,
        Perms::from_mode(0o755, "me", "us"),
        Metadata::new(4096, None, false),
    );
    let f = file("aaa");
    assert_eq!(Directory(Natural).compare(&d, &f), Ordering::Less);
    assert_eq!(Directory(Natural).compare(&f, &d), Ordering::Greater);
}
