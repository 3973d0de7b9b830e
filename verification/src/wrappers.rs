//! The multi-pattern pipeline.
//!
//! [`build_matchers`] compiles a list of globs against one root and
//! reports every failure at once; [`build_glob_set`] does the same for
//! filter patterns. [`match_paths`] takes the walked entries of each
//! matcher, prunes them (an explicit pre-filter, or hidden entries by
//! default), matches what remains, splits the matches by the post-filter
//! into accepted and rejected, and returns both sorted and free of
//! duplicates.

use vstd::prelude::*;

use crate::components::comps_of;
use crate::components::join_all;
use crate::components::join_push;
use crate::components::parse_components;
use crate::components::strip_prefix_str;
use crate::components::strip_spec;
use crate::order::lemma_lex_asym;
use crate::order::lemma_sorted_unique;
use crate::order::sort_dedup;
use crate::order::sorted_strict;
use crate::utils::hidden_entry_spec;
use crate::utils::is_hidden_entry;
use crate::Builder;
use crate::BuilderView;
use crate::GlobSet;
use crate::GlobSetView;
use crate::Matcher;
use crate::MatcherView;
use crate::build_glob_set_outcome;
use crate::build_outcome;
use crate::glob_match;
use crate::glob_set_match;
use crate::resolve_failed_msg;

verus! {

/// The matchers' abstract contents.
pub open spec fn matcher_views(s: Seq<Matcher>) -> Seq<MatcherView> {
    s.map_values(|m: Matcher| m@)
}

/// The glob sets' abstract contents.
pub open spec fn glob_set_views(o: Option<Vec<GlobSet>>) -> Option<Seq<GlobSetView>> {
    match o {
        None => None,
        Some(v) => Some(v@.map_values(|g: GlobSet| g@)),
    }
}

/// Whether any of the glob sets matches the path.
pub open spec fn any_set_match(fs: Seq<GlobSetView>, path: Seq<char>) -> bool {
    exists|i: int|
        0 <= i < fs.len() && #[trigger] glob_set_match(fs[i].glob, fs[i].case_sensitive, path)
}

/// Whether any of the post-filter sets matches the path; no filter
/// matches nothing.
pub open spec fn post_hit(filters: Option<Seq<GlobSetView>>, e: Seq<char>) -> bool {
    match filters {
        None => false,
        Some(fs) => any_set_match(fs, e),
    }
}

/// Whether a walked entry is kept (not pruned): with a pre-filter, kept
/// unless some filter set matches it; with none, kept unless it is a
/// hidden entry.
pub open spec fn prune_keep(filters: Option<Seq<GlobSetView>>, path: Seq<char>) -> bool {
    match filters {
        None => !hidden_entry_spec(path),
        Some(fs) => !any_set_match(fs, path),
    }
}

/// Whether every path on the way from `root` down to the entry whose
/// relative part is `rel` is kept: the root itself, each directory, and
/// the entry.
pub open spec fn survives_rel(
    filters: Option<Seq<GlobSetView>>,
    root: Seq<char>,
    rel: Seq<char>,
) -> bool {
    forall|j: int|
        0 <= j <= comps_of(rel).len() ==> prune_keep(
            filters,
            #[trigger] join_all(root, comps_of(rel), j),
        )
}

/// Whether an entry below `root` survives a pruning walk: every path on
/// the way down to it, the root and the entry itself included, is kept.
/// An entry that does not lie below `root` does not survive.
pub open spec fn survives_pruning(
    filters: Option<Seq<GlobSetView>>,
    root: Seq<char>,
    e: Seq<char>,
) -> bool {
    strip_spec(root, e) is Some && survives_rel(filters, root, strip_spec(root, e).unwrap())
}

/// The entries of `entries` that survive pruning for matcher `m` and
/// match its remainder below its root.
pub open spec fn kept_set(
    m: MatcherView,
    entries: Seq<Seq<char>>,
    pre: Option<Seq<GlobSetView>>,
) -> Set<Seq<char>> {
    Set::new(
        |e: Seq<char>|
            entries.contains(e) && survives_pruning(pre, m.root, e) && (strip_spec(
                m.root,
                e,
            ) matches Some(rel) && glob_match(m.rest, m.case_sensitive, rel)),
    )
}

/// Everything the first `upto` matchers match among their walked
/// entries.
pub open spec fn all_matched_upto(
    ms: Seq<MatcherView>,
    walked: Seq<Seq<Seq<char>>>,
    pre: Option<Seq<GlobSetView>>,
    upto: int,
) -> Set<Seq<char>> {
    Set::new(
        |e: Seq<char>|
            exists|i: int|
                0 <= i < upto && i < ms.len() && i < walked.len() && kept_set(
                    ms[i],
                    walked[i],
                    pre,
                ).contains(e),
    )
}

/// Everything any matcher matches among its walked entries.
pub open spec fn all_matched(
    ms: Seq<MatcherView>,
    walked: Seq<Seq<Seq<char>>>,
    pre: Option<Seq<GlobSetView>>,
) -> Set<Seq<char>> {
    all_matched_upto(ms, walked, pre, ms.len() as int)
}

/// The matched paths that no post-filter diverts.
pub open spec fn accepted_set(
    ms: Seq<MatcherView>,
    walked: Seq<Seq<Seq<char>>>,
    pre: Option<Seq<GlobSetView>>,
    post: Option<Seq<GlobSetView>>,
) -> Set<Seq<char>> {
    Set::new(|e: Seq<char>| all_matched(ms, walked, pre).contains(e) && !post_hit(post, e))
}

/// The matched paths that the post-filter diverts.
pub open spec fn rejected_set(
    ms: Seq<MatcherView>,
    walked: Seq<Seq<Seq<char>>>,
    pre: Option<Seq<GlobSetView>>,
    post: Option<Seq<GlobSetView>>,
) -> Set<Seq<char>> {
    Set::new(|e: Seq<char>| all_matched(ms, walked, pre).contains(e) && post_hit(post, e))
}

/// What [`match_paths`] returns: both collections strictly ascending,
/// holding exactly the accepted and the diverted matches.
pub open spec fn pipeline_ok(
    ms: Seq<MatcherView>,
    walked: Seq<Seq<Seq<char>>>,
    pre: Option<Seq<GlobSetView>>,
    post: Option<Seq<GlobSetView>>,
    accepted: Seq<Seq<char>>,
    rejected: Seq<Seq<char>>,
) -> bool {
    &&& sorted_strict(accepted)
    &&& sorted_strict(rejected)
    &&& accepted.to_set() == accepted_set(ms, walked, pre, post)
    &&& rejected.to_set() == rejected_set(ms, walked, pre, post)
}

/// The pruning predicate of the walk: `true` keeps the entry, `false`
/// skips it and, for a directory, its whole subtree. With no filter,
/// hidden entries are pruned.
pub fn prune_filter(path: &str, filter_entry: &Option<Vec<GlobSet>>) -> (r: bool)
    ensures
        r == prune_keep(glob_set_views(*filter_entry), path@),
{
    match filter_entry {
        None => !is_hidden_entry(path),
        Some(fs) => {
            let ghost fv = fs@.map_values(|g: GlobSet| g@);
            proof {
                assert(glob_set_views(*filter_entry) == Some(fv));
            }
            let mut i: usize = 0;
            while i < fs.len()
                invariant
                    i <= fs@.len(),
                    glob_set_views(*filter_entry) == Some(fv),
                    fv == fs@.map_values(|g: GlobSet| g@),
                    fv.len() == fs@.len(),
                    forall|k: int|
                        0 <= k < i ==> !glob_set_match(fv[k].glob, fv[k].case_sensitive, path@),
                decreases fs@.len() - i,
            {
                if fs[i].is_match(path) {
                    proof {
                        assert(any_set_match(fv, path@)) by {
                            assert(glob_set_match(
                                fv[i as int].glob,
                                fv[i as int].case_sensitive,
                                path@,
                            ));
                        }
                    }
                    return false;
                }
                i += 1;
            }
            true
        },
    }
}

/// Whether any post-filter set matches the path.
fn post_filter_hit(filters: &Option<Vec<GlobSet>>, path: &str) -> (r: bool)
    ensures
        r == post_hit(glob_set_views(*filters), path@),
{
    match filters {
        None => false,
        Some(fs) => {
            let ghost fv = fs@.map_values(|g: GlobSet| g@);
            proof {
                assert(glob_set_views(*filters) == Some(fv));
            }
            let mut i: usize = 0;
            while i < fs.len()
                invariant
                    i <= fs@.len(),
                    glob_set_views(*filters) == Some(fv),
                    fv == fs@.map_values(|g: GlobSet| g@),
                    fv.len() == fs@.len(),
                    forall|k: int|
                        0 <= k < i ==> !glob_set_match(fv[k].glob, fv[k].case_sensitive, path@),
                decreases fs@.len() - i,
            {
                if fs[i].is_match(path) {
                    proof {
                        assert(any_set_match(fv, path@)) by {
                            assert(glob_set_match(
                                fv[i as int].glob,
                                fv[i as int].case_sensitive,
                                path@,
                            ));
                        }
                    }
                    return true;
                }
                i += 1;
            }
            false
        },
    }
}

/// Whether the entry `e` below `root` survives a pruning walk: the root,
/// every directory on the way down, and the entry itself pass the
/// pruning predicate.
pub fn entry_survives(root: &str, e: &str, filter_entry: &Option<Vec<GlobSet>>) -> (r: bool)
    ensures
        r == survives_pruning(glob_set_views(*filter_entry), root@, e@),
{
    let ghost fv = glob_set_views(*filter_entry);
    match strip_prefix_str(root, e) {
        None => false,
        Some(rel) => {
            let ghost cs = comps_of(rel@);
            let comps = parse_components(rel.as_str());
            let mut cur = String::from_str(root);
            let mut j: usize = 0;
            while j < comps.len()
                invariant
                    j <= comps@.len(),
                    fv == glob_set_views(*filter_entry),
                    strip_spec(root@, e@) == Some(rel@),
                    cs == comps_of(rel@),
                    comps.deep_view() == cs,
                    cs.len() == comps@.len(),
                    cur@ == join_all(root@, cs, j as int),
                    forall|jj: int| 0 <= jj < j ==> prune_keep(fv, join_all(root@, cs, jj)),
                decreases comps@.len() - j,
            {
                if !prune_filter(cur.as_str(), filter_entry) {
                    proof {
                        assert(!prune_keep(fv, join_all(root@, comps_of(rel@), j as int)));
                        assert(!survives_rel(fv, root@, rel@));
                        assert(strip_spec(root@, e@).unwrap() == rel@);
                    }
                    return false;
                }
                cur = join_push(cur.as_str(), comps[j].as_str());
                j += 1;
            }
            let keep_last = prune_filter(cur.as_str(), filter_entry);
            proof {
                assert(strip_spec(root@, e@).unwrap() == rel@);
                if keep_last {
                    assert forall|jj: int| 0 <= jj <= comps_of(rel@).len() implies prune_keep(
                        fv,
                        #[trigger] join_all(root@, comps_of(rel@), jj),
                    ) by {
                        if jj < cs.len() {
                            assert(prune_keep(fv, join_all(root@, cs, jj)));
                        } else {
                            assert(cur@ == join_all(root@, cs, cs.len() as int));
                        }
                    }
                    assert(survives_rel(fv, root@, rel@));
                } else {
                    assert(!prune_keep(
                        fv,
                        join_all(root@, comps_of(rel@), comps_of(rel@).len() as int),
                    ));
                    assert(!survives_rel(fv, root@, rel@));
                }
            }
            keep_last
        },
    }
}

/// Collects all paths using a set of matchers and optional filters.
///
/// `walked[i]` holds the paths that a recursive walk below
/// `candidates[i]`'s root produced. Each is kept only if the whole
/// descent to it passes the pruning predicate (the `filter_entry` sets,
/// or the hidden-entry default) and its path relative to the root
/// matches the matcher's remainder. Paths matching any `filter_post` set
/// are diverted into the second collection instead of the first. Both
/// collections come back sorted and without duplicates, so the result
/// does not depend on the order of the matchers or of their walks.
pub fn match_paths(
    candidates: &Vec<Matcher>,
    walked: &Vec<Vec<String>>,
    filter_entry: &Option<Vec<GlobSet>>,
    filter_post: &Option<Vec<GlobSet>>,
) -> (r: (Vec<String>, Vec<String>))
    requires
        walked@.len() == candidates@.len(),
    ensures
        pipeline_ok(
            matcher_views(candidates@),
            walked.deep_view(),
            glob_set_views(*filter_entry),
            glob_set_views(*filter_post),
            r.0.deep_view(),
            r.1.deep_view(),
        ),
{
    let ghost ms = matcher_views(candidates@);
    let ghost wv = walked.deep_view();
    let ghost pre = glob_set_views(*filter_entry);
    let ghost post = glob_set_views(*filter_post);

    let mut acc: Vec<String> = Vec::new();
    let mut rej: Vec<String> = Vec::new();
    let mut i: usize = 0;
    proof {
        assert(acc.deep_view().to_set() =~= Set::<Seq<char>>::empty());
        assert(rej.deep_view().to_set() =~= Set::<Seq<char>>::empty());
        assert forall|e: Seq<char>| !all_matched_upto(ms, wv, pre, 0).contains(e) by {}
    }
    while i < candidates.len()
        invariant
            i <= candidates@.len(),
            walked@.len() == candidates@.len(),
            ms == matcher_views(candidates@),
            wv == walked.deep_view(),
            pre == glob_set_views(*filter_entry),
            post == glob_set_views(*filter_post),
            ms.len() == candidates@.len(),
            wv.len() == candidates@.len(),
            acc.deep_view().to_set() == Set::<Seq<char>>::new(
                |e: Seq<char>| all_matched_upto(ms, wv, pre, i as int).contains(e) && !post_hit(post, e),
            ),
            rej.deep_view().to_set() == Set::<Seq<char>>::new(
                |e: Seq<char>| all_matched_upto(ms, wv, pre, i as int).contains(e) && post_hit(post, e),
            ),
        decreases candidates@.len() - i,
    {
        let m = &candidates[i];
        let entries = &walked[i];
        let root = m.root();
        let mut j: usize = 0;
        proof {
            assert(wv[i as int].take(0) =~= Seq::<Seq<char>>::empty());
        }
        while j < entries.len()
            invariant
                j <= entries@.len(),
                i < candidates@.len(),
                walked@.len() == candidates@.len(),
                ms == matcher_views(candidates@),
                wv == walked.deep_view(),
                pre == glob_set_views(*filter_entry),
                post == glob_set_views(*filter_post),
                ms.len() == candidates@.len(),
                wv.len() == candidates@.len(),
                entries == &walked[i as int],
                m == &candidates[i as int],
                root@ == ms[i as int].root,
                entries.deep_view() == wv[i as int],
                entries.deep_view().len() == entries@.len(),
                acc.deep_view().to_set() == Set::<Seq<char>>::new(
                    |e: Seq<char>|
                        (all_matched_upto(ms, wv, pre, i as int).contains(e) || kept_set(
                            ms[i as int],
                            wv[i as int].take(j as int),
                            pre,
                        ).contains(e)) && !post_hit(post, e),
                ),
                rej.deep_view().to_set() == Set::<Seq<char>>::new(
                    |e: Seq<char>|
                        (all_matched_upto(ms, wv, pre, i as int).contains(e) || kept_set(
                            ms[i as int],
                            wv[i as int].take(j as int),
                            pre,
                        ).contains(e)) && post_hit(post, e),
                ),
            decreases entries@.len() - j,
        {
            let e = &entries[j];
            let ghost acc_before = acc.deep_view();
            let ghost rej_before = rej.deep_view();
            let survives = entry_survives(root.as_str(), e.as_str(), filter_entry);
            let mut added: bool = false;
            let ghost ev = e@;
            if survives {
                match m.match_entry(e.as_str()) {
                    Some(p) => {
                        if post_filter_hit(filter_post, p.as_str()) {
                            rej.push(p);
                        } else {
                            acc.push(p);
                        }
                        added = true;
                    },
                    None => {},
                }
            }
            proof {
                let prev = kept_set(ms[i as int], wv[i as int].take(j as int), pre);
                let next = kept_set(ms[i as int], wv[i as int].take(j as int + 1), pre);
                assert(wv[i as int].take(j as int + 1) =~= wv[i as int].take(j as int).push(ev));
                assert(wv[i as int][j as int] == ev);
                // Membership in the grown prefix: the old members, plus
                // this entry when it survives and matches.
                assert forall|x: Seq<char>| next.contains(x) implies (prev.contains(x) || x
                    == ev) by {
                    let t = wv[i as int].take(j as int + 1);
                    if x != ev {
                        let k = choose|k: int| 0 <= k < t.len() && t[k] == x;
                        assert(wv[i as int].take(j as int)[k] == x);
                    }
                }
                assert forall|x: Seq<char>| prev.contains(x) implies next.contains(x) by {
                    let t = wv[i as int].take(j as int);
                    let k = choose|k: int| 0 <= k < t.len() && t[k] == x;
                    assert(wv[i as int].take(j as int + 1)[k] == x);
                }
                if added {
                    assert(next.contains(ev)) by {
                        assert(wv[i as int].take(j as int + 1)[j as int] == ev);
                    }
                    if post_hit(post, ev) {
                        assert(rej.deep_view() =~= rej_before.push(ev));
                        rej_before.lemma_push_to_set_commute(ev);
                        assert(rej.deep_view().to_set() =~= rej_before.to_set().insert(ev));
                        assert(acc.deep_view() == acc_before);
                    } else {
                        assert(acc.deep_view() =~= acc_before.push(ev));
                        acc_before.lemma_push_to_set_commute(ev);
                        assert(acc.deep_view().to_set() =~= acc_before.to_set().insert(ev));
                        assert(rej.deep_view() == rej_before);
                    }
                } else {
                    // A skipped entry is not in the kept set.
                    assert(!(survives_pruning(pre, ms[i as int].root, ev) && (strip_spec(
                        ms[i as int].root,
                        ev,
                    ) matches Some(rel) && glob_match(
                        ms[i as int].rest,
                        ms[i as int].case_sensitive,
                        rel,
                    ))));
                }
                assert(acc.deep_view().to_set() =~= Set::<Seq<char>>::new(
                    |x: Seq<char>|
                        (all_matched_upto(ms, wv, pre, i as int).contains(x) || next.contains(x))
                            && !post_hit(post, x),
                ));
                assert(rej.deep_view().to_set() =~= Set::<Seq<char>>::new(
                    |x: Seq<char>|
                        (all_matched_upto(ms, wv, pre, i as int).contains(x) || next.contains(x))
                            && post_hit(post, x),
                ));
            }
            j += 1;
        }
        proof {
            assert(wv[i as int].take(wv[i as int].len() as int) =~= wv[i as int]);
            assert forall|x: Seq<char>|
                (all_matched_upto(ms, wv, pre, i as int).contains(x) || kept_set(
                    ms[i as int],
                    wv[i as int],
                    pre,
                ).contains(x)) == all_matched_upto(ms, wv, pre, i as int + 1).contains(x) by {
                if all_matched_upto(ms, wv, pre, i as int).contains(x) {
                    let ii = choose|ii: int|
                        0 <= ii < i as int && ii < ms.len() && ii < wv.len() && kept_set(
                            ms[ii],
                            wv[ii],
                            pre,
                        ).contains(x);
                    assert(all_matched_upto(ms, wv, pre, i as int + 1).contains(x));
                } else if kept_set(ms[i as int], wv[i as int], pre).contains(x) {
                    assert(all_matched_upto(ms, wv, pre, i as int + 1).contains(x));
                } else if all_matched_upto(ms, wv, pre, i as int + 1).contains(x) {
                    let ii = choose|ii: int|
                        0 <= ii < i as int + 1 && ii < ms.len() && ii < wv.len() && kept_set(
                            ms[ii],
                            wv[ii],
                            pre,
                        ).contains(x);
                    if ii < i as int {
                        assert(all_matched_upto(ms, wv, pre, i as int).contains(x));
                    }
                }
            }
            assert(acc.deep_view().to_set() =~= Set::<Seq<char>>::new(
                |e: Seq<char>|
                    all_matched_upto(ms, wv, pre, i as int + 1).contains(e) && !post_hit(post, e),
            ));
            assert(rej.deep_view().to_set() =~= Set::<Seq<char>>::new(
                |e: Seq<char>|
                    all_matched_upto(ms, wv, pre, i as int + 1).contains(e) && post_hit(post, e),
            ));
        }
        i += 1;
    }
    let acc_sorted = sort_dedup(acc);
    let rej_sorted = sort_dedup(rej);
    proof {
        assert(acc_sorted.deep_view().to_set() =~= accepted_set(ms, wv, pre, post));
        assert(rej_sorted.deep_view().to_set() =~= rejected_set(ms, wv, pre, post));
    }
    (acc_sorted, rej_sorted)
}

/// Whether every build result in the list succeeded.
pub open spec fn all_ok<T>(s: Seq<Result<T, String>>) -> bool {
    forall|i: int| 0 <= i < s.len() ==> s[i] is Ok
}

/// The successful values, in order.
pub open spec fn oks<T>(s: Seq<Result<T, String>>) -> Seq<T>
    decreases s.len(),
{
    if s.len() == 0 {
        Seq::empty()
    } else {
        match s[0] {
            Ok(v) => seq![v] + oks(s.skip(1)),
            Err(_) => oks(s.skip(1)),
        }
    }
}

/// The failure messages, in order.
pub open spec fn err_texts<T>(s: Seq<Result<T, String>>) -> Seq<Seq<char>>
    decreases s.len(),
{
    if s.len() == 0 {
        Seq::empty()
    } else {
        match s[0] {
            Ok(_) => err_texts(s.skip(1)),
            Err(m) => seq![m@] + err_texts(s.skip(1)),
        }
    }
}

/// Texts joined with newlines.
pub open spec fn join_lines(ms: Seq<Seq<char>>) -> Seq<char>
    decreases ms.len(),
{
    if ms.len() == 0 {
        Seq::empty()
    } else if ms.len() == 1 {
        ms[0]
    } else {
        ms[0] + seq!['\n'] + join_lines(ms.skip(1))
    }
}

proof fn lemma_join_lines_push(ms: Seq<Seq<char>>, m: Seq<char>)
    ensures
        ms.len() == 0 ==> join_lines(ms.push(m)) == m,
        ms.len() > 0 ==> join_lines(ms.push(m)) == join_lines(ms) + seq!['\n'] + m,
    decreases ms.len(),
{
    if ms.len() == 0 {
        assert(join_lines(ms.push(m)) == ms.push(m)[0]);
        assert(ms.push(m)[0] == m);
    } else if ms.len() == 1 {
        assert(ms.push(m).skip(1) =~= seq![m]);
        assert(ms.push(m)[0] == ms[0]);
        assert(join_lines(ms.push(m)) == ms.push(m)[0] + seq!['\n'] + join_lines(
            ms.push(m).skip(1),
        ));
        assert(join_lines(ms) == ms[0]);
    } else {
        lemma_join_lines_push(ms.skip(1), m);
        assert(ms.push(m).skip(1) =~= ms.skip(1).push(m));
        assert(join_lines(ms.push(m)) == ms.push(m)[0] + seq!['\n'] + join_lines(
            ms.skip(1).push(m),
        ));
        assert(ms.push(m)[0] == ms[0]);
    }
}

proof fn lemma_oks_push<T>(s: Seq<Result<T, String>>, x: Result<T, String>)
    ensures
        oks(s.push(x)) == (match x {
            Ok(v) => oks(s).push(v),
            Err(_) => oks(s),
        }),
        err_texts(s.push(x)) == (match x {
            Ok(_) => err_texts(s),
            Err(m) => err_texts(s).push(m@),
        }),
    decreases s.len(),
{
    if s.len() == 0 {
        assert(s.push(x)[0] == x);
        assert(s.push(x).skip(1) =~= s);
        assert(oks(s) =~= Seq::<T>::empty());
        assert(err_texts(s) =~= Seq::<Seq<char>>::empty());
        match x {
            Ok(v) => {
                assert(oks(s.push(x)) == seq![v] + oks(s));
                assert(err_texts(s.push(x)) == err_texts(s));
                assert(oks(s.push(x)) =~= oks(s).push(v));
            },
            Err(m) => {
                assert(oks(s.push(x)) == oks(s));
                assert(err_texts(s.push(x)) == seq![m@] + err_texts(s));
                assert(err_texts(s.push(x)) =~= err_texts(s).push(m@));
            },
        }
    } else {
        lemma_oks_push(s.skip(1), x);
        assert(s.push(x).skip(1) =~= s.skip(1).push(x));
        assert(s.push(x)[0] == s[0]);
        match s[0] {
            Ok(h) => {
                assert(oks(s.push(x)) == seq![h] + oks(s.skip(1).push(x)));
                assert(err_texts(s.push(x)) == err_texts(s.skip(1).push(x)));
                assert(oks(s) == seq![h] + oks(s.skip(1)));
                assert(err_texts(s) == err_texts(s.skip(1)));
                match x {
                    Ok(v) => {
                        assert(oks(s.push(x)) =~= oks(s).push(v));
                        assert(err_texts(s.push(x)) =~= err_texts(s));
                    },
                    Err(m) => {
                        assert(oks(s.push(x)) =~= oks(s));
                        assert(err_texts(s.push(x)) =~= err_texts(s).push(m@));
                    },
                }
            },
            Err(h) => {
                assert(oks(s.push(x)) == oks(s.skip(1).push(x)));
                assert(err_texts(s.push(x)) == seq![h@] + err_texts(s.skip(1).push(x)));
                assert(oks(s) == oks(s.skip(1)));
                assert(err_texts(s) == seq![h@] + err_texts(s.skip(1)));
                match x {
                    Ok(v) => {
                        assert(oks(s.push(x)) =~= oks(s).push(v));
                        assert(err_texts(s.push(x)) =~= err_texts(s));
                    },
                    Err(m) => {
                        assert(oks(s.push(x)) =~= oks(s));
                        assert(err_texts(s.push(x)) =~= err_texts(s).push(m@));
                    },
                }
            },
        }
    }
}

proof fn lemma_no_errs_all_ok<T>(s: Seq<Result<T, String>>)
    ensures
        (err_texts(s).len() == 0) == all_ok(s),
        all_ok(s) ==> oks(s).len() == s.len(),
        all_ok(s) ==> forall|i: int| 0 <= i < s.len() ==> oks(s)[i] == s[i]->Ok_0,
    decreases s.len(),
{
    if s.len() > 0 {
        lemma_no_errs_all_ok(s.skip(1));
        assert forall|i: int| 0 <= i < s.skip(1).len() implies s.skip(1)[i] == s[i + 1] by {}
        if s[0] is Ok {
            if err_texts(s.skip(1)).len() == 0 {
                assert forall|i: int| 0 <= i < s.len() implies s[i] is Ok by {
                    if i > 0 {
                        assert(s.skip(1)[i - 1] == s[i]);
                    }
                }
            }
            if all_ok(s) {
                assert(all_ok(s.skip(1)));
                assert(oks(s) == seq![s[0]->Ok_0] + oks(s.skip(1)));
            }
        } else {
            assert(!all_ok(s));
        }
    }
}

/// The aggregate message for a list with failed builds: every failure,
/// one per line.
pub open spec fn combined_failure_msg(texts: Seq<Seq<char>>) -> Seq<char> {
    "Failed to compile patterns: \n"@ + join_lines(texts)
}

/// Splits the build results: all values if every build succeeded, one
/// combined message naming every failure otherwise.
fn extract_patterns<T>(candidates: Vec<Result<T, String>>) -> (r: Result<Vec<T>, String>)
    ensures
        all_ok(candidates@) ==> (r matches Ok(v) && v@ == oks(candidates@)),
        !all_ok(candidates@) ==> (r matches Err(m) && m@ == combined_failure_msg(
            err_texts(candidates@),
        )),
{
    let ghost cv = candidates@;
    let mut failures: Vec<String> = Vec::new();
    let mut i: usize = 0;
    proof {
        assert(cv.take(0) =~= Seq::<Result<T, String>>::empty());
        assert(failures.deep_view() =~= err_texts(cv.take(0)));
    }
    while i < candidates.len()
        invariant
            i <= candidates@.len(),
            cv == candidates@,
            failures.deep_view() == err_texts(cv.take(i as int)),
        decreases candidates@.len() - i,
    {
        let ghost fd = failures.deep_view();
        match &candidates[i] {
            Ok(_) => {
                proof {
                    assert(cv.take(i as int + 1) =~= cv.take(i as int).push(cv[i as int]));
                    lemma_oks_push(cv.take(i as int), cv[i as int]);
                }
            },
            Err(m) => {
                failures.push(m.clone());
                proof {
                    assert(cv.take(i as int + 1) =~= cv.take(i as int).push(cv[i as int]));
                    lemma_oks_push(cv.take(i as int), cv[i as int]);
                    assert(failures.deep_view() =~= fd.push(cv[i as int]->Err_0@));
                }
            },
        }
        i += 1;
    }
    proof {
        assert(cv.take(cv.len() as int) =~= cv);
        lemma_no_errs_all_ok(cv);
    }
    if failures.len() > 0 {
        let mut m = String::new();
        m.append("Failed to compile patterns: \n");
        let mut j: usize = 0;
        let ghost fd = failures.deep_view();
        while j < failures.len()
            invariant
                j <= failures@.len(),
                fd == failures.deep_view(),
                fd.len() == failures@.len(),
                m@ == "Failed to compile patterns: \n"@ + join_lines(fd.take(j as int)),
            decreases failures@.len() - j,
        {
            if j > 0 {
                m.append("\n");
            }
            m.append(failures[j].as_str());
            proof {
                reveal_strlit("\n");
                assert("\n"@ =~= seq!['\n']);
                let prev = fd.take(j as int);
                lemma_join_lines_push(prev, fd[j as int]);
                assert(fd.take(j as int + 1) =~= prev.push(fd[j as int]));
                if j > 0 {
                    assert(m@ =~= "Failed to compile patterns: \n"@ + (join_lines(prev)
                        + seq!['\n'] + fd[j as int]));
                } else {
                    assert(prev.len() == 0);
                    assert(m@ =~= "Failed to compile patterns: \n"@ + fd[j as int]);
                }
            }
            j += 1;
        }
        proof {
            assert(fd.take(fd.len() as int) =~= fd);
        }
        return Err(m);
    }
    let mut out: Vec<T> = Vec::new();
    let mut rest = candidates;
    proof {
        assert(cv.skip(0) =~= cv);
        assert(out@ + oks(cv.skip(0)) =~= oks(cv));
    }
    let mut k: usize = 0;
    while rest.len() > 0
        invariant
            k <= cv.len(),
            cv.len() <= usize::MAX,
            all_ok(cv),
            rest@ == cv.skip(k as int),
            rest@.len() == cv.len() - k,
            oks(cv) == out@ + oks(cv.skip(k as int)),
        decreases rest@.len(),
    {
        let x = rest.remove(0);
        proof {
            assert(cv.skip(k as int)[0] == cv[k as int]);
            assert(rest@ =~= cv.skip(k as int + 1)) by {
                assert(rest@ =~= cv.skip(k as int).remove(0));
                assert forall|p: int| 0 <= p < cv.skip(k as int).remove(0).len() implies cv.skip(
                    k as int,
                ).remove(0)[p] == cv.skip(k as int + 1)[p] by {}
            }
            assert(cv.skip(k as int).skip(1) =~= cv.skip(k as int + 1));
        }
        match x {
            Ok(v) => {
                out.push(v);
                proof {
                    assert(oks(cv.skip(k as int)) == seq![cv[k as int]->Ok_0] + oks(
                        cv.skip(k as int + 1),
                    ));
                    assert(oks(cv) =~= out@ + oks(cv.skip(k as int + 1)));
                }
            },
            Err(_) => {
                proof {
                    assert(cv[k as int] is Ok);
                    assert(false);
                }
                return vstd::pervasive::unreached();
            },
        }
        k += 1;
    }
    proof {
        assert(cv.skip(cv.len() as int) =~= Seq::<Result<T, String>>::empty());
        assert(out@ =~= oks(cv));
    }
    Ok(out)
}

/// A matcher that [`build_matchers`] made for `glob` against `root`: the
/// glob unchanged, case-sensitive matching, and root and remainder given
/// by the resolution at some absorption depth, with a remainder that
/// compiles.
pub open spec fn matcher_built(glob: Seq<char>, root: Seq<char>, m: MatcherView) -> bool {
    &&& m.glob == glob
    &&& m.case_sensitive == true
    &&& exists|k: int|
        0 <= k <= comps_of(glob).len() && (#[trigger] crate::utils::resolve_spec(
            root,
            glob,
            k,
        ) matches crate::utils::Resolution::Resolved { root: rt, rest } && m.root == rt && m.rest
            == rest)
    &&& crate::glob_check_of(m.rest, true) is None
}

/// What building one glob of [`build_matchers`] can come to: exactly a
/// [`Builder::build`] outcome at some absorption depth, or the missing-
/// root error (possible only for a non-empty glob, whose resolution
/// probes the disk).
pub open spec fn per_glob_outcome(glob: Seq<char>, root: Seq<char>, c: Result<
    Matcher,
    String,
>) -> bool {
    (exists|k: int|
        0 <= k <= comps_of(glob).len() && #[trigger] build_outcome(
            BuilderView { glob, case_sensitive: true },
            root,
            k,
            c,
        )) || (glob.len() > 0 && (c matches Err(m) && m@ == resolve_failed_msg(
        "entity not found"@,
    )))
}

/// Builds a set of [`Matcher`]s for the list of `globs` relative to
/// `root`.
///
/// Each glob goes through [`Builder::build`]; if any of them fails, one
/// combined error lists every failure, newline-joined, rather than only
/// the first.
pub fn build_matchers(globs: &Vec<String>, root: &str) -> (r: Result<Vec<Matcher>, String>)
    ensures
        globs@.len() == 0 ==> r is Ok,
        r matches Ok(v) ==> v@.len() == globs@.len() && (forall|i: int|
            0 <= i < v@.len() ==> matcher_built(globs@[i]@, root@, #[trigger] v@[i]@)),
        r matches Err(m) ==> exists|cs: Seq<Result<Matcher, String>>|
            cs.len() == globs@.len() && !all_ok(cs) && (forall|i: int|
                0 <= i < cs.len() ==> per_glob_outcome(globs@[i]@, root@, #[trigger] cs[i])) && m@
                == combined_failure_msg(#[trigger] err_texts(cs)),
{
    let ghost gv = globs@;
    let mut candidates: Vec<Result<Matcher, String>> = Vec::new();
    let mut i: usize = 0;
    while i < globs.len()
        invariant
            i <= globs@.len(),
            gv == globs@,
            candidates@.len() == i,
            forall|p: int|
                0 <= p < i ==> per_glob_outcome(gv[p]@, root@, #[trigger] candidates@[p]),
            forall|p: int|
                0 <= p < i ==> (#[trigger] candidates@[p] is Ok ==> matcher_built(
                    gv[p]@,
                    root@,
                    candidates@[p]->Ok_0@,
                )),
        decreases globs@.len() - i,
    {
        let b = Builder::new(globs[i].as_str()).case_sensitive(true);
        let c = b.build(root);
        proof {
            assert(b@ == (BuilderView { glob: gv[i as int]@, case_sensitive: true }));
            assert(per_glob_outcome(gv[i as int]@, root@, c));
            if c is Ok {
                let k = choose|k: int|
                    0 <= k <= comps_of(gv[i as int]@).len() && crate::build_outcome(
                        b@,
                        root@,
                        k,
                        c,
                    );
                assert(matcher_built(gv[i as int]@, root@, c->Ok_0@));
            }
        }
        candidates.push(c);
        i += 1;
    }
    let r = extract_patterns(candidates);
    match r {
        Ok(v) => {
            proof {
                lemma_no_errs_all_ok(candidates@);
            }
            Ok(v)
        },
        Err(m) => {
            proof {
                assert(!all_ok(candidates@));
                assert(cs_witness(candidates@, gv, root@, m@));
            }
            Err(m)
        },
    }
}

/// The witness shape of [`build_matchers`]'s failure clause.
spec fn cs_witness(cs: Seq<Result<Matcher, String>>, gv: Seq<String>, root: Seq<char>, m: Seq<
    char,
>) -> bool {
    cs.len() == gv.len() && !all_ok(cs) && (forall|i: int|
        0 <= i < cs.len() ==> per_glob_outcome(gv[i]@, root, #[trigger] cs[i])) && m
        == combined_failure_msg(#[trigger] err_texts(cs))
}

/// A glob set that [`build_glob_set`] made for `glob`: the glob
/// unchanged, non-empty and relative, and both it and its any-depth
/// companion compile.
pub open spec fn glob_set_built(glob: Seq<char>, case_sensitive: bool, g: GlobSetView) -> bool {
    &&& g.glob == glob
    &&& g.case_sensitive == case_sensitive
    &&& glob.len() > 0
    &&& !crate::components::is_absolute(glob)
    &&& crate::glob_check_of(glob, case_sensitive) is None
    &&& crate::glob_check_of(crate::descend_pattern(glob), case_sensitive) is None
}

/// Why building a [`GlobSet`] from `glob` fails, if it does: the exact
/// error text of the first check that refuses it, `None` when it
/// succeeds. Unlike a matcher build, nothing here touches the disk, so
/// the whole outcome is a function of the pattern and the flag.
pub open spec fn glob_set_failure(glob: Seq<char>, case_sensitive: bool) -> Option<Seq<char>> {
    if glob.len() == 0 {
        Some("Empty glob"@)
    } else if crate::components::is_absolute(glob) {
        Some(crate::utils::absolute_pattern_msg(glob))
    } else if crate::glob_check_of(glob, case_sensitive) is Some {
        Some(crate::glob_err_msg(glob, crate::glob_check_of(glob, case_sensitive).unwrap()))
    } else if crate::glob_check_of(crate::descend_pattern(glob), case_sensitive) is Some {
        Some(
            crate::glob_err_msg(
                glob,
                crate::glob_check_of(crate::descend_pattern(glob), case_sensitive).unwrap(),
            ),
        )
    } else {
        None
    }
}

/// The failure texts of a pattern list, in order.
pub open spec fn glob_set_failures(ps: Seq<String>, case_sensitive: bool) -> Seq<Seq<char>>
    decreases ps.len(),
{
    if ps.len() == 0 {
        Seq::empty()
    } else {
        match glob_set_failure(ps[0]@, case_sensitive) {
            Some(t) => seq![t] + glob_set_failures(ps.skip(1), case_sensitive),
            None => glob_set_failures(ps.skip(1), case_sensitive),
        }
    }
}

proof fn lemma_glob_set_failures_push(ps: Seq<String>, x: String, cs: bool)
    ensures
        glob_set_failures(ps.push(x), cs) == (match glob_set_failure(x@, cs) {
            Some(t) => glob_set_failures(ps, cs).push(t),
            None => glob_set_failures(ps, cs),
        }),
    decreases ps.len(),
{
    if ps.len() == 0 {
        assert(ps.push(x)[0] == x);
        assert(ps.push(x).skip(1) =~= ps);
        assert(glob_set_failures(ps, cs) =~= Seq::<Seq<char>>::empty());
        match glob_set_failure(x@, cs) {
            Some(t) => {
                assert(glob_set_failures(ps.push(x), cs) == seq![t] + glob_set_failures(ps, cs));
                assert(glob_set_failures(ps.push(x), cs) =~= glob_set_failures(ps, cs).push(t));
            },
            None => {
                assert(glob_set_failures(ps.push(x), cs) == glob_set_failures(ps, cs));
            },
        }
    } else {
        lemma_glob_set_failures_push(ps.skip(1), x, cs);
        assert(ps.push(x).skip(1) =~= ps.skip(1).push(x));
        assert(ps.push(x)[0] == ps[0]);
        match glob_set_failure(ps[0]@, cs) {
            Some(h) => {
                assert(glob_set_failures(ps.push(x), cs) == seq![h] + glob_set_failures(
                    ps.skip(1).push(x),
                    cs,
                ));
                assert(glob_set_failures(ps, cs) == seq![h] + glob_set_failures(ps.skip(1), cs));
                match glob_set_failure(x@, cs) {
                    Some(t) => {
                        assert(glob_set_failures(ps.push(x), cs) =~= glob_set_failures(
                            ps,
                            cs,
                        ).push(t));
                    },
                    None => {
                        assert(glob_set_failures(ps.push(x), cs) =~= glob_set_failures(ps, cs));
                    },
                }
            },
            None => {
                assert(glob_set_failures(ps.push(x), cs) == glob_set_failures(
                    ps.skip(1).push(x),
                    cs,
                ));
                assert(glob_set_failures(ps, cs) == glob_set_failures(ps.skip(1), cs));
            },
        }
    }
}

/// A pattern list has no failure texts exactly when every pattern builds.
proof fn lemma_glob_set_failures_empty(ps: Seq<String>, cs: bool)
    ensures
        (glob_set_failures(ps, cs).len() == 0) == (forall|i: int|
            0 <= i < ps.len() ==> glob_set_failure(#[trigger] ps[i]@, cs) is None),
    decreases ps.len(),
{
    if ps.len() > 0 {
        lemma_glob_set_failures_empty(ps.skip(1), cs);
        assert forall|i: int| 0 <= i < ps.skip(1).len() implies ps.skip(1)[i] == ps[i + 1] by {}
        if glob_set_failure(ps[0]@, cs) is None {
            if glob_set_failures(ps.skip(1), cs).len() == 0 {
                assert forall|i: int|
                    0 <= i < ps.len() implies glob_set_failure(#[trigger] ps[i]@, cs) is None by {
                    if i > 0 {
                        assert(ps.skip(1)[i - 1] == ps[i]);
                    }
                }
            }
        }
    }
}

/// Builds a set of [`GlobSet`]s for the list of provided `paths`.
///
/// Each pattern goes through [`Builder::build_glob_set`]; the call
/// succeeds exactly when every pattern does, and otherwise one combined
/// error lists every failing pattern's message, newline-joined. `None`
/// passes through as `None`.
pub fn build_glob_set(paths: &Option<Vec<String>>, case_sensitive: bool) -> (r: Result<
    Option<Vec<GlobSet>>,
    String,
>)
    ensures
        (*paths) is None ==> (r matches Ok(o) && o is None),
        r matches Ok(o) ==> ((o is Some) == ((*paths) is Some)),
        (*paths) matches Some(ps) ==> ((r is Ok) == (forall|i: int|
            0 <= i < ps@.len() ==> glob_set_failure(#[trigger] ps@[i]@, case_sensitive) is None)),
        ((*paths) is Some && r is Err) ==> r->Err_0@ == combined_failure_msg(
            glob_set_failures((*paths).unwrap()@, case_sensitive),
        ),
        (r is Ok && (*paths) is Some) ==> ({
            let v = r->Ok_0.unwrap();
            let ps = (*paths).unwrap();
            &&& r->Ok_0 is Some
            &&& v@.len() == ps@.len()
            &&& forall|i: int|
                0 <= i < v@.len() ==> glob_set_built(ps@[i]@, case_sensitive, #[trigger] v@[i]@)
        }),
{
    match paths {
        None => Ok(None),
        Some(ps) => {
            let ghost pv = ps@;
            let mut candidates: Vec<Result<GlobSet, String>> = Vec::new();
            let mut i: usize = 0;
            proof {
                assert(pv.take(0) =~= Seq::<String>::empty());
                assert(err_texts(candidates@) =~= glob_set_failures(pv.take(0), case_sensitive));
            }
            while i < ps.len()
                invariant
                    i <= ps@.len(),
                    pv == ps@,
                    candidates@.len() == i,
                    err_texts(candidates@) == glob_set_failures(pv.take(i as int), case_sensitive),
                    forall|p: int|
                        0 <= p < i ==> ((#[trigger] candidates@[p] is Ok) == (glob_set_failure(
                            pv[p]@,
                            case_sensitive,
                        ) is None)),
                    forall|p: int|
                        0 <= p < i ==> (#[trigger] candidates@[p] is Ok ==> glob_set_built(
                            pv[p]@,
                            case_sensitive,
                            candidates@[p]->Ok_0@,
                        )),
                decreases ps@.len() - i,
            {
                let ghost before = candidates@;
                let b = Builder::new(ps[i].as_str()).case_sensitive(case_sensitive);
                let c = b.build_glob_set();
                proof {
                    assert(build_glob_set_outcome(b@, c));
                    assert((c is Ok) == (glob_set_failure(pv[i as int]@, case_sensitive) is None));
                    if c is Ok {
                        assert(glob_set_built(pv[i as int]@, case_sensitive, c->Ok_0@));
                    } else {
                        assert(c->Err_0@ == glob_set_failure(pv[i as int]@, case_sensitive).unwrap());
                    }
                    lemma_oks_push(before, c);
                    lemma_glob_set_failures_push(pv.take(i as int), ps@[i as int], case_sensitive);
                    assert(pv.take(i as int + 1) =~= pv.take(i as int).push(pv[i as int]));
                }
                candidates.push(c);
                i += 1;
            }
            proof {
                assert(pv.take(pv.len() as int) =~= pv);
                lemma_no_errs_all_ok(candidates@);
                lemma_glob_set_failures_empty(pv, case_sensitive);
            }
            let r = extract_patterns(candidates);
            match r {
                Ok(v) => Ok(Some(v)),
                Err(m) => Err(m),
            }
        },
    }
}

/// Permuting the matcher list, with each matcher's walked entries moved
/// alongside it, leaves both of [`match_paths`]'s collections unchanged:
/// the outputs are determined by the set of matches alone, and sorting
/// with deduplication forgets the order in which they were found.
pub proof fn lemma_match_paths_order_independent(
    ms1: Seq<MatcherView>,
    w1: Seq<Seq<Seq<char>>>,
    ms2: Seq<MatcherView>,
    w2: Seq<Seq<Seq<char>>>,
    pre: Option<Seq<GlobSetView>>,
    post: Option<Seq<GlobSetView>>,
    acc1: Seq<Seq<char>>,
    rej1: Seq<Seq<char>>,
    acc2: Seq<Seq<char>>,
    rej2: Seq<Seq<char>>,
    perm: Seq<int>,
    inv: Seq<int>,
)
    requires
        pipeline_ok(ms1, w1, pre, post, acc1, rej1),
        pipeline_ok(ms2, w2, pre, post, acc2, rej2),
        ms1.len() == w1.len(),
        ms2.len() == w2.len(),
        ms2.len() == ms1.len(),
        perm.len() == ms2.len(),
        forall|i: int|
            0 <= i < ms2.len() ==> 0 <= #[trigger] perm[i] < ms1.len() && ms2[i] == ms1[perm[i]]
                && w2[i] == w1[perm[i]],
        inv.len() == ms1.len(),
        forall|j: int|
            0 <= j < ms1.len() ==> 0 <= #[trigger] inv[j] < ms2.len() && perm[inv[j]] == j,
    ensures
        acc1 == acc2,
        rej1 == rej2,
{
    assert forall|e: Seq<char>|
        all_matched(ms1, w1, pre).contains(e) == all_matched(ms2, w2, pre).contains(e) by {
        if all_matched(ms1, w1, pre).contains(e) {
            let j = choose|j: int|
                0 <= j < ms1.len() && j < ms1.len() && j < w1.len() && kept_set(
                    ms1[j],
                    w1[j],
                    pre,
                ).contains(e);
            let i = inv[j];
            assert(kept_set(ms2[i], w2[i], pre).contains(e));
            assert(all_matched(ms2, w2, pre).contains(e));
        }
        if all_matched(ms2, w2, pre).contains(e) {
            let i = choose|i: int|
                0 <= i < ms2.len() && i < ms2.len() && i < w2.len() && kept_set(
                    ms2[i],
                    w2[i],
                    pre,
                ).contains(e);
            assert(kept_set(ms1[perm[i]], w1[perm[i]], pre).contains(e));
            assert(all_matched(ms1, w1, pre).contains(e));
        }
    }
    assert(accepted_set(ms1, w1, pre, post) =~= accepted_set(ms2, w2, pre, post));
    assert(rejected_set(ms1, w1, pre, post) =~= rejected_set(ms2, w2, pre, post));
    lemma_sorted_unique(acc1, acc2);
    lemma_sorted_unique(rej1, rej2);
}

/// What the pipeline accepts lists each path exactly once, and so does
/// what it diverts: a path matched by several matchers collapses to one
/// entry.
pub proof fn lemma_match_paths_dedup(
    ms: Seq<MatcherView>,
    walked: Seq<Seq<Seq<char>>>,
    pre: Option<Seq<GlobSetView>>,
    post: Option<Seq<GlobSetView>>,
    accepted: Seq<Seq<char>>,
    rejected: Seq<Seq<char>>,
    i: int,
    j: int,
)
    requires
        pipeline_ok(ms, walked, pre, post, accepted, rejected),
        0 <= i < j,
    ensures
        j < accepted.len() ==> accepted[i] != accepted[j],
        j < rejected.len() ==> rejected[i] != rejected[j],
{
    if j < accepted.len() {
        lemma_lex_asym(accepted[i], accepted[j]);
    }
    if j < rejected.len() {
        lemma_lex_asym(rejected[i], rejected[j]);
    }
}

/// With no pre-filter supplied, the walk prunes hidden entries and with
/// them everything below: an entry whose descent passes any hidden path
/// does not survive.
pub proof fn lemma_default_prune_hidden(root: Seq<char>, e: Seq<char>, j: int)
    requires
        strip_spec(root, e) is Some,
        0 <= j <= comps_of(strip_spec(root, e).unwrap()).len(),
        hidden_entry_spec(join_all(root, comps_of(strip_spec(root, e).unwrap()), j)),
    ensures
        !survives_pruning(None, root, e),
{
    let rel = strip_spec(root, e).unwrap();
    if survives_rel(None, root, rel) {
        assert(prune_keep(None, join_all(root, comps_of(rel), j)));
    }
}

} // verus!
