use std::path;

use globmatch::resolve_root;
use globmatch::resolve_with_depth;
use globmatch::RootError;

#[test]
fn test_path() {
    let path = path::Path::new("");
    assert!(!path.is_absolute());
}

#[test]
fn match_flavours() -> Result<(), String> {
    Ok(())
}

/// This test just demonstrates that this crate "gracefully" handles relative
/// paths that would go outside of the file system (go back more levels than
/// exist in the actual path) just like `ls` does: `ls` will return the root
/// path (`/` on unix) in case a relative path goes back too many levels.
#[test]
fn util_outside_root() -> Result<(), String> {
    let root = path::Path::new("/");
    let levels = vec!["../"; root.components().count() * 2];
    let pattern = levels.join("") + "*.txt";

    let (root, rest) = resolve_root("/", pattern.as_str()).map_err(|e| e.message())?;
    println!("root-rest {:?}  {:?}", path::PathBuf::from(&root).canonicalize(), rest);
    Ok(())
}

#[test]
fn dummy_b() -> Result<(), String> {
    let root = "/";
    let pattern = "../../../../../../../../../../../*.txt";

    let (root, rest) = resolve_root(root, pattern).map_err(|e| e.message())?;
    println!("root-rest {:?}  {:?}", path::PathBuf::from(&root).canonicalize(), rest);
    Ok(())
}

#[test]
fn utils_outside_root() -> Result<(), String> {
    let base = path::Path::new("/");
    let levels = vec!["../"; base.components().count() * 2];
    let pattern = levels.join("") + "*.txt";

    let (root, rest) = resolve_root("/", pattern.as_str()).map_err(|e| e.message())?;
    let root = path::PathBuf::from(root)
        .canonicalize()
        .map_err(|e| e.to_string())?;
    let root = root.to_str().ok_or_else(|| "not utf-8".to_string())?;

    assert_eq!(root, "/");
    assert_eq!(rest, "*.txt");
    Ok(())
}

#[test]
fn patterns() -> Result<(), String> {
    fn tst(base: &str, pattern: &str, exp_root: &str, exp_pattern: &str) -> Result<(), String> {
        let (root, rest) = resolve_root(base, pattern).map_err(|e| e.message())?;

        let root = path::PathBuf::from(root)
            .canonicalize()
            .map_err(|e| e.to_string())?;
        let root = root.to_str().ok_or_else(|| "not utf-8".to_string())?;

        let exp_root = path::PathBuf::from(exp_root)
            .canonicalize()
            .map_err(|e| e.to_string())?;
        let exp_root = exp_root.to_str().ok_or_else(|| "not utf-8".to_string())?;

        assert_eq!(root, exp_root);
        assert_eq!(rest, exp_pattern);
        Ok(())
    }
    // A relative prefix that walks up and back into an existing folder is
    // absorbed whole; the workaround moves the last component back into
    // the remainder.
    tst("/usr/bin", "../bin", "/usr/bin/..", "bin")?;

    // A pattern with no existing leading component stays untouched.
    tst("/usr", "*.txt", "/usr", "*.txt")?;

    // More `../` than the base is deep still resolves.
    tst("/usr/bin", "../../../../*.txt", "/", "*.txt")?;

    // A plain file name below an existing base.
    tst("/usr", "zz-no-such-file.txt", "/usr", "zz-no-such-file.txt")?;

    // Up and back down into the same folder.
    tst("/usr/bin", "../bin/zz-no-such-file.txt", "/usr/bin/../bin", "zz-no-such-file.txt")?;
    Ok(())
}

#[test]
fn empty_pattern_invalid() {
    // An empty pattern is invalid input, whatever the base.
    let r = resolve_root("/", "");
    assert!(matches!(r, Err(RootError::InvalidInput(_))));
    match resolve_root("/nonexistent-dir-zzz", "") {
        Err(RootError::InvalidInput(m)) => assert_eq!(m, "empty pattern"),
        _ => panic!("expected invalid input"),
    }
}

#[test]
fn absolute_pattern_unsupported() {
    // An absolute pattern always fails resolution, whatever the base.
    match resolve_root("/", "/abs/path/*.txt") {
        Err(RootError::Unsupported(m)) => {
            assert_eq!(m, "'/abs/path/*.txt' is an absolute path");
        }
        _ => panic!("expected unsupported"),
    }
}

#[test]
fn missing_base_not_found() {
    let r = resolve_root("/nonexistent-dir-zzz", "*.txt");
    assert!(matches!(r, Err(RootError::NotFound)));
    assert_eq!(RootError::NotFound.message(), "entity not found");
}

#[test]
fn parent_in_rest_invalid() {
    // Once absorption has stopped, a remaining `..` is refused.
    match resolve_root("/", "zzz-none/../x.txt") {
        Err(RootError::InvalidInput(m)) => {
            assert_eq!(
                m,
                "pattern remainder 'zzz-none/../x.txt' contains unresolved relative path components"
            );
        }
        _ => panic!("expected invalid input"),
    }
}

#[test]
fn resolve_depth_zero_identity() {
    // At depth 0 nothing moves: base and pattern come back unchanged.
    let r = resolve_with_depth("/base", "x/y/*.txt", 0);
    assert_eq!(r, Ok(("/base".to_string(), "x/y/*.txt".to_string())));
}

#[test]
fn resolve_depth_absorbs() {
    // At depth 2 the first two components join the root and the remainder
    // is the original trailing substring.
    let r = resolve_with_depth("/base", "x/y/*.txt", 2);
    assert_eq!(r, Ok(("/base/x/y".to_string(), "*.txt".to_string())));
}

#[test]
fn resolve_depth_idempotent() {
    // Resolving the previous result again, with nothing left to absorb,
    // changes nothing.
    let (root, rest) = resolve_with_depth("/base", "a/b/c/*.md", 3).unwrap();
    let again = resolve_with_depth(root.as_str(), rest.as_str(), 0);
    assert_eq!(again, Ok((root, rest)));
}

#[test]
fn resolve_depth_overlong_parents() {
    // Over-long `../` prefixes are absorbed, never an error; the root is
    // not collapsed.
    let r = resolve_with_depth("/a/b", "../../../../*.txt", 4);
    assert_eq!(r, Ok(("/a/b/../../../..".to_string(), "*.txt".to_string())));
}

#[test]
fn resolve_depth_pushback() {
    // A fully absorbed pattern gives one component back, so the remainder
    // handed to the glob engine is never empty.
    let r = resolve_with_depth("/base", "file.txt", 1);
    assert_eq!(r, Ok(("/base".to_string(), "file.txt".to_string())));
}

#[test]
fn probe_absorbs_real_fs() {
    // `/usr` exists, so the first component is absorbed; the second does
    // not, so it opens the remainder.
    let (root, rest) = resolve_root("/", "usr/nonexistent-zzz/*.txt").unwrap();
    assert_eq!(root, "/usr");
    assert_eq!(rest, "nonexistent-zzz/*.txt");
}
