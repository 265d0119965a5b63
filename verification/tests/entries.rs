use xf::{Entry, EntryType, Metadata, Timestamp};
use xf::permission::{AccessRights, Attributes, Group, Perms, SidType, User};

fn plain(path: &str, kind: EntryType) -> Entry {
    Entry::new(path.to_string(), kind, Perms::from_mode(0o644, "me", "us"), Metadata::new(1, None, false))
}

#[test]
fn names_come_from_the_path() {
    let e = plain("/tmp/dir/a.txt", EntryType::File);
    assert_eq!(e.file_name(), "a.txt");
    assert_eq!(e.path(), "/tmp/dir/a.txt");
    assert_eq!(plain("bare", EntryType::File).file_name(), "bare");
    assert_eq!(plain("C:\\dir\\sub", EntryType::Dir).file_name(), "sub");
}

#[test]
fn extensions_come_from_the_name() {
    assert_eq!(plain("/d/a.txt", EntryType::File).extension(), Some("txt".to_string()));
    assert_eq!(plain("/d/archive.tar.gz", EntryType::File).extension(), Some("gz".to_string()));
    assert_eq!(plain("/d/.hidden", EntryType::File).extension(), None);
    assert_eq!(plain("/d/plain", EntryType::File).extension(), None);
    assert_eq!(plain("/d/dot.", EntryType::File).extension(), None);
    assert_eq!(plain("/d/.hidden.png", EntryType::File).extension(), Some("png".to_string()));
    // extensions come out lower-cased, and directories have none
    assert_eq!(plain("/d/A.TXT", EntryType::File).extension(), Some("txt".to_string()));
    assert_eq!(plain("/d/A.TXT", EntryType::Dir).extension(), None);
    assert_eq!(plain("/d/backup.old", EntryType::Dir).extension(), None);
}

#[test]
fn kinds_and_dotfiles() {
    let d = plain("/tmp/dir", EntryType::Dir);
    assert!(d.is_dir());
    assert!(!d.is_file());
    assert_eq!(d.etype(), EntryType::Dir);
    let h = plain("/tmp/.config", EntryType::File);
    assert!(h.is_hidden());
    assert!(!plain("/tmp/shown", EntryType::File).is_hidden());
}

#[test]
fn entries_equal_on_kind_and_path() {
    let a = plain("/tmp/a", EntryType::File);
    let b = plain("/tmp/a", EntryType::File);
    let c = plain("/tmp/a", EntryType::Dir);
    let d = plain("/tmp/b", EntryType::File);
    assert_eq!(a, b);
    assert_ne!(a, c);
    assert_ne!(a, d);
}

#[test]
fn access_rights_unpack_mode_bits() {
    let p = Perms::from_mode(0o750, "owner", "team");
    assert!(p.user().readable());
    assert!(p.user().writable());
    assert!(p.user().executable());
    assert!(p.group().readable());
    assert!(!p.group().writable());
    assert!(p.group().executable());
    assert!(!p.everyone().readable());
    assert!(!p.everyone().writable());
    assert!(!p.everyone().executable());
    assert_eq!(p.user().name, "owner");
    assert_eq!(p.group().name, "team");
    assert_eq!(p.everyone().name, "Everyone");
    assert!(!p.is_hidden());
}

#[test]
fn rights_render_as_triplets() {
    assert_eq!(AccessRights::new(true, true, true).mode_string(), "rwx");
    assert_eq!(AccessRights::new(true, false, false).mode_string(), "r--");
    assert_eq!(AccessRights::new(false, false, true).mode_string(), "--x");
    assert_eq!(AccessRights::from_bits(0o7).mode_string(), "rwx");
    assert_eq!(AccessRights::default().mode_string(), "---");
}

#[test]
fn executables_by_any_principal_or_attribute() {
    let by_mode = plain("/d/tool", EntryType::File);
    assert!(!by_mode.is_executable());
    let e = Entry::new(
        "/d/tool".to_string(),
        EntryType::File,
        Perms::from_mode(0o100, "me", "us"),
        Metadata::new(1, None, false),
    );
    assert!(e.is_executable());
    let attrs = Attributes { archivable: false, readonly: false, hidden: false, system: false, executable: true };
    let perms = Perms::new(User::default(), Group::default(), Group::default(), attrs);
    let windowsish = Entry::new("/d/tool.exe".to_string(), EntryType::File, perms, Metadata::new(1, None, false));
    assert!(windowsish.is_executable());
}

#[test]
fn hidden_attribute_marks_entries() {
    let attrs = Attributes { archivable: false, readonly: false, hidden: true, system: false, executable: false };
    let perms = Perms::new(User::default(), Group::default(), Group::default(), attrs);
    let e = Entry::new("/d/shy".to_string(), EntryType::File, perms, Metadata::new(1, None, false));
    assert!(e.is_hidden());
}

#[test]
fn metadata_snapshot_reads_back() {
    let ts = Timestamp::from_unix(86_400 * 200, 0).unwrap();
    let m = Metadata::new(42, Some(ts), true);
    assert_eq!(m.file_size(), 42);
    assert!(m.is_symlink());
    assert_eq!(m.modified().unwrap().unix, 86_400 * 200);
    assert!(m.modified().unwrap().month >= 1 && m.modified().unwrap().month <= 12);
}

#[test]
fn principal_kinds_by_code() {
    assert_eq!(SidType::from_code(1), Some(SidType::User));
    assert_eq!(SidType::from_code(2), Some(SidType::Group));
    assert_eq!(SidType::from_code(11), Some(SidType::LogonSession));
    assert_eq!(SidType::from_code(0), None);
    assert_eq!(SidType::from_code(12), None);
}

#[test]
fn groups_carry_their_parts() {
    let g = Group::new("BUILTIN", "Administrators", AccessRights::new(true, false, true));
    assert_eq!(g.domain, "BUILTIN");
    assert_eq!(g.name, "Administrators");
    assert!(g.readable());
    assert!(!g.writable());
    assert!(g.executable());
}
