use globmatch::wrappers::build_glob_set;
use globmatch::wrappers::build_matchers;
use globmatch::wrappers::match_paths;

fn strings(items: &[&str]) -> Vec<String> {
    items.iter().map(|s| s.to_string()).collect()
}

#[test]
fn test_foreach() {
    let items = vec![0u8, 1u8, 2u8];
    let filter: Vec<u8> = vec![];

    // show that an empty filter list yields all elements
    let filter_zero: Vec<_> = items
        .iter()
        .filter(|item| {
            let do_filter = filter
                .iter()
                .try_for_each(|filter_item| {
                    if *filter_item == **item {
                        None // abort on first match
                    } else {
                        Some(()) // no match, continue
                    }
                })
                .is_none(); // the value remains "Some" if no match was encountered
            !do_filter
        })
        .cloned()
        .collect();

    assert_eq!(filter_zero, items);
}

/// The walked entries of a tree like the one the crate's documentation
/// uses, rooted directly under `/` so that no leading pattern component
/// exists on disk and resolution leaves every pattern whole.
fn c_simple_walk() -> Vec<String> {
    strings(&[
        "/",
        "/test-files",
        "/test-files/c-simple",
        "/test-files/c-simple/.hidden",
        "/test-files/c-simple/.hidden/h_0.txt",
        "/test-files/c-simple/.hidden/h_1.txt",
        "/test-files/c-simple/a",
        "/test-files/c-simple/a/a0",
        "/test-files/c-simple/a/a0/a0_0.txt",
        "/test-files/c-simple/a/a0/a0_1.txt",
        "/test-files/c-simple/a/a0/A0_3.txt",
        "/test-files/c-simple/a/a0/a0_2.md",
        "/test-files/c-simple/a/a1",
        "/test-files/c-simple/a/a1/a1_0.txt",
        "/test-files/c-simple/a/a2",
        "/test-files/c-simple/a/a2/a2_0.txt",
        "/test-files/c-simple/b",
        "/test-files/c-simple/b/b_0.txt",
        "/test-files/c-simple/some_file.txt",
    ])
}

#[test]
fn test_usecase() -> Result<(), String> {
    let root = "/";
    let patterns = strings(&[
        "test-files/c-simple/**/[aA]*.txt",
        "test-files/c-simple/**/*.md",
    ]);
    let filter_entry = Some(strings(&[".*"]));
    let filter_post = Some(strings(&[
        "test-files/c-simple/**/a1/*.txt",
        "test-files/c-simple/**/a0/*.*",
    ]));

    let candidates = build_matchers(&patterns, root)?;
    let filter_pre = build_glob_set(&filter_entry, true)?;
    let filter_post = build_glob_set(&filter_post, true)?;

    let walked = vec![c_simple_walk(), c_simple_walk()];
    let (paths, filtered) = match_paths(&candidates, &walked, &filter_pre, &filter_post);

    println!("paths:\n{}", paths.join("\n"));
    println!("filtered:\n{}", filtered.join("\n"));

    assert_eq!(1, paths.len());
    assert_eq!(5, filtered.len());
    assert_eq!(paths[0], "/test-files/c-simple/a/a2/a2_0.txt");
    Ok(())
}

#[test]
fn match_paths_scenario() -> Result<(), String> {
    // Files a/a0/a0_0.txt, a/a0/a0_1.txt, a/a1/a1_0.txt and
    // .hidden/h.txt below the root; pattern `**/*.txt` with the default
    // pre-filter yields exactly the three visible files.
    let patterns = strings(&["**/*.txt"]);
    let candidates = build_matchers(&patterns, "/")?;
    let walked = vec![strings(&[
        "/",
        "/a",
        "/a/a0",
        "/a/a0/a0_0.txt",
        "/a/a0/a0_1.txt",
        "/a/a1",
        "/a/a1/a1_0.txt",
        "/.hidden",
        "/.hidden/h.txt",
    ])];

    let (paths, filtered) = match_paths(&candidates, &walked, &None, &None);
    assert_eq!(
        paths,
        strings(&["/a/a0/a0_0.txt", "/a/a0/a0_1.txt", "/a/a1/a1_0.txt"])
    );
    assert_eq!(filtered.len(), 0);
    Ok(())
}

#[test]
fn match_paths_order_independent() -> Result<(), String> {
    // Permuting the matcher list, with each matcher's walk alongside it,
    // yields the same pair of collections.
    let walk_a = strings(&["/", "/x", "/x/a.txt", "/x/b.md"]);
    let walk_b = strings(&["/", "/x", "/x/a.txt", "/x/c.txt"]);

    let p1 = strings(&["**/*.txt", "**/*.md"]);
    let p2 = strings(&["**/*.md", "**/*.txt"]);
    let c1 = build_matchers(&p1, "/")?;
    let c2 = build_matchers(&p2, "/")?;

    let w1 = vec![walk_a.clone(), walk_b.clone()];
    let w2 = vec![walk_b, walk_a];

    let r1 = match_paths(&c1, &w1, &None, &None);
    let r2 = match_paths(&c2, &w2, &None, &None);
    assert_eq!(r1, r2);
    Ok(())
}

#[test]
fn match_paths_dedup() -> Result<(), String> {
    // Two matchers that both match the same absolute path produce it once.
    let patterns = strings(&["**/*.txt", "**/a*.txt"]);
    let candidates = build_matchers(&patterns, "/")?;
    let walk = strings(&["/", "/x", "/x/a.txt"]);
    let walked = vec![walk.clone(), walk];

    let (paths, _) = match_paths(&candidates, &walked, &None, &None);
    assert_eq!(paths, strings(&["/x/a.txt"]));
    Ok(())
}

#[test]
fn default_prune_excludes_hidden() -> Result<(), String> {
    // With no pre-filter, a hidden directory and everything below it are
    // pruned, and so is a hidden file itself.
    let patterns = strings(&["**/*.txt"]);
    let candidates = build_matchers(&patterns, "/")?;
    let walked = vec![strings(&[
        "/",
        "/.git",
        "/.git/deep",
        "/.git/deep/notes.txt",
        "/ok",
        "/ok/.secret.txt",
        "/ok/plain.txt",
    ])];

    let (paths, _) = match_paths(&candidates, &walked, &None, &None);
    assert_eq!(paths, strings(&["/ok/plain.txt"]));
    Ok(())
}

#[test]
fn explicit_prune_filter() -> Result<(), String> {
    // An explicit pre-filter replaces the hidden-entry default: now `b`
    // is pruned with its subtree, while hidden entries pass.
    let patterns = strings(&["**/*.txt"]);
    let candidates = build_matchers(&patterns, "/")?;
    let pre = build_glob_set(&Some(strings(&["b"])), true)?;
    let walked = vec![strings(&[
        "/",
        "/b",
        "/b/inside.txt",
        "/.hidden.txt",
        "/a.txt",
    ])];

    let (paths, _) = match_paths(&candidates, &walked, &pre, &None);
    assert_eq!(paths, strings(&["/.hidden.txt", "/a.txt"]));
    Ok(())
}

#[test]
fn build_matchers_collects_all_failures() {
    let patterns = strings(&["a[", "fine/*.txt", "b["]);
    let err = build_matchers(&patterns, "/").unwrap_err();
    assert_eq!(
        err,
        "Failed to compile patterns: \n\
         'a[': Unclosed character class; missing ']'\n\
         'b[': Unclosed character class; missing ']'"
    );
}

#[test]
fn build_matchers_empty_list_succeeds() {
    let v = build_matchers(&Vec::new(), "/").unwrap();
    assert!(v.is_empty());
}

#[test]
fn build_glob_set_none_passes_through() {
    let r = build_glob_set(&None, true).unwrap();
    assert!(r.is_none());
}

#[test]
fn build_glob_set_collects_all_failures() {
    let err = build_glob_set(&Some(strings(&["a[", "/abs", "ok/*.txt", ""])), true).unwrap_err();
    assert_eq!(
        err,
        "Failed to compile patterns: \n\
         'a[': Unclosed character class; missing ']'\n\
         '/abs' is an absolute path\n\
         Empty glob"
    );
}
