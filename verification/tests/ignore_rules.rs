use xf::ignore::GitIgnore;

#[test]
fn parse_git_ignore() {
    let ignore = GitIgnore::parse("**/test.txt");
    assert!(ignore.is_ok());
    assert_eq!(ignore.unwrap().exclude_len(), 1);

    let ignore = GitIgnore::parse("target/*");
    assert!(ignore.is_ok());
    assert_eq!(ignore.unwrap().exclude_len(), 1);

    let ignore = GitIgnore::parse("*.txt");
    assert!(ignore.is_ok());
    assert_eq!(ignore.unwrap().exclude_len(), 1);

    let ignore = GitIgnore::parse("!test.txt");
    assert!(ignore.is_ok());
    let ignore = ignore.unwrap();
    assert_eq!(ignore.exclude_len(), 0);
    assert_eq!(ignore.include_len(), 1);

    let ignore = GitIgnore::parse("# test.txt");
    assert!(ignore.is_ok());
    let ignore = ignore.unwrap();
    assert_eq!(ignore.exclude_len(), 0);
    assert_eq!(ignore.include_len(), 0);
}

#[test]
fn should_include() {
    let ignore = GitIgnore::parse(
        "
**/test.rs
*.zip
# comment
tests/**/*.log
!examples/test.rs
",
    )
    .unwrap();

    assert!(ignore.includes("examples/test.rs"));
    assert!(!ignore.includes("compressed.zip"));
    assert!(!ignore.includes("tests/nested/output.log"));
    assert!(!ignore.includes("tests/test.rs"));
}

#[test]
fn nested_log_patterns() {
    let ignore = GitIgnore::parse("tests/**/*.log").unwrap();
    assert!(!ignore.includes("tests/nested/output.log"));
    assert!(!ignore.includes("tests/test.log"));
    assert!(ignore.includes("tests/test.txt"));
    assert!(ignore.includes("src/main.rs"));
}

#[test]
fn explicit_include_wins() {
    let ignore = GitIgnore::parse("**/*.rs\n!examples/test.rs").unwrap();
    assert!(!ignore.includes("src/lib.rs"));
    assert!(ignore.includes("examples/test.rs"));
}

#[test]
fn path_normalization() {
    let ignore = GitIgnore::parse("target/*").unwrap();
    assert!(!ignore.includes("/target/debug/"));
    assert!(!ignore.includes("target\\debug"));
    assert!(ignore.includes("target"));
}

#[test]
fn empty_rules_include_everything() {
    let ignore = GitIgnore::parse("").unwrap();
    assert_eq!(ignore.exclude_len(), 0);
    assert_eq!(ignore.include_len(), 0);
    assert!(ignore.includes("anything/at/all.txt"));
}

#[test]
fn unbalanced_pattern_is_rejected() {
    // a bracket passes through the translation and the regex engine
    // refuses it, so parsing reports the error
    let r = GitIgnore::parse("[");
    assert!(r.is_err());
    assert!(!r.err().unwrap().is_empty());
}
