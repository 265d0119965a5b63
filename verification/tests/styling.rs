use chrono::{Datelike, Timelike};
use xf::{Entry, EntryType, Metadata, Timestamp};
use xf::permission::Perms;
use xf::style::{humansize, right_align, Color, Colorizer, GroupMatch, Spacer, Style};

fn file(name: &str) -> Entry {
    let path = format!("/base/{}", name);
    Entry::new(path, EntryType::File, Perms::from_mode(0o644, "me", "us"), Metadata::new(1, None, false))
}

#[test]
fn humansize_breakpoints() {
    assert_eq!(humansize(0), "-");
    assert_eq!(humansize(1), "1");
    assert_eq!(humansize(1023), "1023");
    assert_eq!(humansize(1024), "1K");
    assert_eq!(humansize(2048), "2K");
    assert_eq!(humansize(1_048_575), "1023K");
    assert_eq!(humansize(1_048_576), "1M");
    assert_eq!(humansize(1_073_741_824), "1G");
    assert_eq!(humansize(1_099_511_627_776), "1T");
    assert_eq!(humansize(1_125_899_906_842_624), "1P");
    assert_eq!(humansize(u64::MAX), "16383P");
}

#[test]
fn first_matching_group_decides() {
    let gray = Style::default().fg(Color::Gray);
    let magenta = Style::default().magenta();
    let classifier = Colorizer::default()
        .group("HIDDEN", vec![GroupMatch::Hidden], gray)
        .group("IMAGE", vec![GroupMatch::extensions(vec!["png".to_string()])], magenta);
    let e = file(".hidden.png");
    assert_eq!(classifier.style_for(&e), gray);
    let plain_png = file("photo.png");
    assert_eq!(classifier.style_for(&plain_png), magenta);
    let other = file("notes.txt");
    assert_eq!(classifier.style_for(&other), Style::default());
}

#[test]
fn group_rules_match_entries() {
    let e = file("Cargo.toml");
    assert!(GroupMatch::filenames(vec!["Cargo.toml".to_string()]).matches(&e));
    assert!(!GroupMatch::filenames(vec!["config.toml".to_string()]).matches(&e));
    assert!(GroupMatch::starts_with("Car").matches(&e));
    assert!(!GroupMatch::starts_with("car").matches(&e));
    assert!(GroupMatch::ends_with(".toml").matches(&e));
    assert!(GroupMatch::extensions(vec!["TOML".to_string()]).matches(&e));
    assert!(GroupMatch::Hidden.matches(&file(".git")));
    assert!(!GroupMatch::Directory.matches(&e));
    let exec_entry = Entry::new(
        "/base/run.sh".to_string(),
        EntryType::File,
        Perms::from_mode(0o755, "me", "us"),
        Metadata::new(1, None, false),
    );
    assert!(GroupMatch::Executable.matches(&exec_entry));
    assert!(!GroupMatch::Executable.matches(&file("plain.txt")));
}

#[test]
fn amendment_merges_sets() {
    let classifier = Colorizer::default()
        .group("IMAGE", vec![GroupMatch::extensions(vec!["png".to_string()])], Style::default().magenta())
        .add("IMAGE", GroupMatch::extensions(vec!["gif".to_string()]));
    assert_eq!(classifier.style_for(&file("a.png")), Style::default().magenta());
    assert_eq!(classifier.style_for(&file("a.gif")), Style::default().magenta());
    assert_eq!(classifier.style_for(&file("a.txt")), Style::default());
    // amending a group that does not exist changes nothing
    let unchanged = Colorizer::default()
        .group("IMAGE", vec![GroupMatch::extensions(vec!["png".to_string()])], Style::default().magenta())
        .add("MISSING", GroupMatch::Hidden);
    assert_eq!(unchanged.style_for(&file(".dot")), Style::default());
}

#[test]
fn permission_strings_render_mode_bits() {
    let classifier = Colorizer::default();
    let f = Entry::new(
        "/base/f".to_string(),
        EntryType::File,
        Perms::from_mode(0o750, "me", "us"),
        Metadata::new(1, None, false),
    );
    assert_eq!(classifier.permissions(&f), ".rwxr-x---");
    let d = Entry::new(
        "/base/d".to_string(),
        EntryType::Dir,
        Perms::from_mode(0o755, "me", "us"),
        Metadata::new(4096, None, false),
    );
    assert_eq!(classifier.permissions(&d), "drwxr-xr-x");
}

#[test]
fn long_listing_columns_for_a_fresh_file() {
    let now = chrono::Local::now();
    let ts = Timestamp::from_unix(now.timestamp(), 0).unwrap();
    assert_eq!(ts.year, now.year());
    assert_eq!(ts.month as u32, now.month());
    assert_eq!(ts.day as u32, now.day());
    assert_eq!(ts.hour as u32, now.hour());
    let e = Entry::new(
        "/base/foo.txt".to_string(),
        EntryType::File,
        Perms::from_mode(0o644, "me", "us"),
        Metadata::new(2048, Some(ts), false),
    );
    let classifier = Colorizer::default();
    let perms = classifier.permissions(&e);
    assert!(perms.starts_with('.'));
    assert_eq!(classifier.file_size(&e), "2K");
    let date = classifier.date_modified(&e, now.year());
    assert_eq!(date.chars().count(), 12);
    assert!(date.contains(&format!("{}", now.day())));
    let months = ["Jan", "Feb", "Mar", "Apr", "May", "Jun", "Jul", "Aug", "Sep", "Oct", "Nov", "Dec"];
    assert!(date.contains(months[now.month0() as usize]));
    assert_eq!(e.file_name(), "foo.txt");
}

#[test]
fn date_column_shows_year_for_old_files() {
    // a mid-year instant, so the local calendar agrees on the year
    let ts = Timestamp::from_unix(86_400 * 200, 0).unwrap();
    assert_eq!(ts.year, 1970);
    let e = Entry::new(
        "/base/old".to_string(),
        EntryType::File,
        Perms::from_mode(0o644, "me", "us"),
        Metadata::new(1, Some(ts), false),
    );
    let date = Colorizer::default().date_modified(&e, 2026);
    assert!(date.contains("1970"));
    let missing = file("nodate");
    assert_eq!(Colorizer::default().date_modified(&missing, 2026).trim_start(), "-");
}

#[test]
fn symlinks_show_a_caret() {
    let e = Entry::new(
        "/base/link".to_string(),
        EntryType::File,
        Perms::from_mode(0o644, "me", "us"),
        Metadata::new(2048, None, true),
    );
    assert_eq!(Colorizer::default().file_size(&e), "^");
}

#[test]
fn spacers_and_alignment() {
    assert_eq!((0..4).spacer(), "    ");
    assert_eq!((3..3).spacer(), "");
    assert_eq!(right_align("ab", 5), "   ab");
    assert_eq!(right_align("abcdef", 3), "abcdef");
}

#[test]
fn construction_merges_duplicate_kinds() {
    // two extension rules union their sets
    let c = Colorizer::default().group(
        "IMAGE",
        vec![
            GroupMatch::extensions(vec!["png".to_string()]),
            GroupMatch::extensions(vec!["GIF".to_string()]),
        ],
        Style::default().magenta(),
    );
    assert_eq!(c.style_for(&file("a.png")), Style::default().magenta());
    assert_eq!(c.style_for(&file("a.gif")), Style::default().magenta());
    assert_eq!(c.style_for(&file("a.txt")), Style::default());
    // a repeated single-valued kind is dropped
    let c = Colorizer::default().group(
        "PREFIX",
        vec![GroupMatch::starts_with("a"), GroupMatch::starts_with("b")],
        Style::default().green(),
    );
    assert_eq!(c.style_for(&file("alpha")), Style::default().green());
    assert_eq!(c.style_for(&file("beta")), Style::default());
}

#[test]
fn rule_kinds_have_names() {
    assert_eq!(GroupMatch::Hidden.as_ref(), "Hidden");
    assert_eq!(GroupMatch::extensions(vec![]).as_ref(), "Extension");
    assert_eq!(GroupMatch::filenames(vec![]).as_ref(), "Filename");
}
