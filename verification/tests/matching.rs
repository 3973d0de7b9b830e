use globmatch::is_hidden_entry;
use globmatch::is_hidden_path;
use globmatch::utils::to_upper;
use globmatch::Builder;
use globmatch::Error;
use globmatch::WalkIoClass;

#[test]
fn builder_build() -> Result<(), String> {
    let root = "/";
    let pattern = "**/*.txt";

    let _builder = Builder::new(pattern).build(root)?;
    Ok(())
}

#[test]
fn builder_err() -> Result<(), String> {
    let root = "/";
    let pattern = "a[";

    match Builder::new(pattern).build(root) {
        Ok(_) => Err("Expected pattern to fail".to_string()),
        Err(_) => Ok(()),
    }
}

#[test]
fn match_absolute_pattern() -> Result<(), String> {
    match Builder::new("/test-files/**/*.txt").build("/") {
        Err(_) => Ok(()),
        Ok(_) => Err("Expected failure".to_string()),
    }
}

#[test]
fn match_globset() {
    // yes, it is on purpose that this is a simple list and not read from
    // the filesystem
    let files = vec![
        "/some/path/test-files/a",
        "/some/path/test-files/a/a0",
        "/some/path/test-files/a/a0/a0_0.txt",
        "/some/path/test-files/a/a0/a0_1.txt",
        "/some/path/test-files/a/a0/A0_3.txt",
        "/some/path/test-files/a/a0/a0_2.md",
        "/some/path/test-files/a/a1",
        "/some/path/test-files/a/a1/a1_0.txt",
        "/some/path/test-files/a/a2",
        "/some/path/test-files/a/a2/a2_0.txt",
        "/some/path/test-files/b/b_0.txt",
        "some_file.txt",
    ];

    fn test_for(glob: &str, len: usize, files: &[&str], case_sensitive: bool) {
        let glob = Builder::new(glob)
            .case_sensitive(case_sensitive)
            .build_glob()
            .unwrap();
        let matches: Vec<_> = files.iter().filter(|f| glob.is_match(f)).collect();
        println!(
            "matches for {}:\n'{}'",
            glob.glob(),
            matches
                .iter()
                .map(|f| f.to_string())
                .collect::<Vec<_>>()
                .join("\n")
        );
        assert_eq!(len, matches.len());
    }

    test_for("/test-files/**/*.txt", 0, &files, true);
    test_for("test-files/**/*.txt", 0, &files, true);
    test_for("**/test-files/**/*.txt", 6, &files, true);
    test_for("**/test-files/**/a*.txt", 4, &files, true);
    test_for("**/test-files/**/a*.txt", 5, &files, false);
    test_for("**/test-files/a/a*/a*.txt", 5, &files, false);
    test_for("**/test-files/a/a[01]/a*.txt", 4, &files, false);

    // an empty pattern cannot even be built here
    assert!(Builder::new("").build_glob().is_err());

    // notice that **/*.txt also matches zero recursive levels and thus
    // also "some_file.txt"
    test_for("**/*.txt", 7, &files, false);
}

#[test]
fn glob_is_match_basic() {
    let g = Builder::new("*.txt").build_glob().unwrap();
    assert!(g.is_match("a.txt"));
    assert!(!g.is_match("a.md"));
    // a single asterisk does not cross a path separator
    assert!(!g.is_match("a/b.txt"));

    let g = Builder::new("**/*.txt").build_glob().unwrap();
    assert!(g.is_match("a/b.txt"));
}

#[test]
fn glob_case_insensitive() {
    let g = Builder::new("*.txt").case_sensitive(false).build_glob().unwrap();
    assert!(g.is_match("A.TXT"));
    let g = Builder::new("*.txt").case_sensitive(true).build_glob().unwrap();
    assert!(!g.is_match("A.TXT"));
}

#[test]
fn glob_set_two_patterns() {
    let g = Builder::new("*.txt").build_glob_set().unwrap();
    assert_eq!(g.glob(), "*.txt");
    // the pattern itself
    assert!(g.is_match("a.txt"));
    // and the pattern at any depth
    assert!(g.is_match("x/y/a.txt"));
    assert!(!g.is_match("a.md"));
    assert!(!g.is_match("x/y/a.md"));
}

#[test]
fn glob_set_rejects_empty_and_absolute() {
    match Builder::new("").build_glob_set() {
        Err(m) => assert_eq!(m, "Empty glob"),
        Ok(_) => panic!("expected failure"),
    }
    match Builder::new("/a/*.txt").build_glob_set() {
        Err(m) => assert_eq!(m, "'/a/*.txt' is an absolute path"),
        Ok(_) => panic!("expected failure"),
    }
}

#[test]
fn builder_err_message_names_pattern() {
    let msg = Builder::new("a[").build("/").unwrap_err();
    assert!(msg.starts_with("'a[': "));
    // the kind text opens uppercased
    assert_eq!(msg, "'a[': Unclosed character class; missing ']'");
}

#[test]
fn build_error_empty_pattern_message() {
    let msg = Builder::new("").build("/").unwrap_err();
    assert_eq!(msg, "'Failed to resolve paths': Empty pattern");
}

#[test]
fn build_error_missing_root_message() {
    let msg = Builder::new("*.txt").build("/nonexistent-dir-zzz").unwrap_err();
    assert_eq!(msg, "'Failed to resolve paths': Entity not found");
}

#[test]
fn matcher_accessors_and_match() {
    let m = Builder::new("zz-none/*.txt").build("/").unwrap();
    assert_eq!(m.glob(), "zz-none/*.txt");
    assert_eq!(m.root(), "/");
    assert_eq!(m.rest(), "zz-none/*.txt");

    // the raw matcher tests against the remainder pattern
    assert!(m.is_match("zz-none/a.txt"));
    assert!(!m.is_match("zz-none/a.md"));

    // one iteration step strips the root before matching
    assert_eq!(m.match_entry("/zz-none/a.txt"), Some("/zz-none/a.txt".to_string()));
    assert_eq!(m.match_entry("/zz-none/a.md"), None);
    // an entry outside the root is skipped
    assert_eq!(m.match_entry("elsewhere/zz-none/a.txt"), None);
}

#[test]
fn to_upper_first_char() {
    assert_eq!(to_upper("abc".to_string()), "Abc");
    assert_eq!(to_upper("Abc".to_string()), "Abc");
    assert_eq!(to_upper("".to_string()), "");
    assert_eq!(to_upper("x".to_string()), "X");
}

#[test]
fn hidden_entry_checks() {
    assert!(is_hidden_entry(".git"));
    assert!(is_hidden_entry("a/.git"));
    assert!(is_hidden_entry("a/.hidden/"));
    assert!(!is_hidden_entry("a/b.txt"));
    assert!(!is_hidden_entry(""));
    // a path ending in `..` has no file name: the whole string decides
    assert!(!is_hidden_entry("a/.."));
    assert!(is_hidden_entry(".."));
}

#[test]
fn hidden_path_checks() {
    assert!(is_hidden_path(".git/x"));
    assert!(is_hidden_path("a/.git/x"));
    assert!(!is_hidden_path("a/b/c.txt"));
    // `..` counts: its text starts with a dot
    assert!(is_hidden_path("a/../b"));
}

#[test]
fn error_new_and_message() {
    let e = Error::new("boom");
    assert_eq!(e.message(), "boom");
}

#[test]
fn walk_failure_messages() {
    assert_eq!(
        Error::walk_failure(None, None).message(),
        "<unknown-path>: Unknown error occurred"
    );
    assert_eq!(
        Error::walk_failure(Some("/p"), None).message(),
        "Failed to walk path /p: Unknown error occurred"
    );
    assert_eq!(
        Error::walk_failure(Some("/p"), Some((WalkIoClass::InvalidData, "bad"))).message(),
        "Failed to walk path /p: Invalid data encountered: bad"
    );
    assert_eq!(
        Error::walk_failure(Some("/p"), Some((WalkIoClass::PermissionDenied, "no"))).message(),
        "Failed to walk path /p: Missing permissions to read entry: no"
    );
    assert_eq!(
        Error::walk_failure(Some("/p"), Some((WalkIoClass::Other, "odd"))).message(),
        "Failed to walk path /p: Unexpected error occurred: odd"
    );
}
