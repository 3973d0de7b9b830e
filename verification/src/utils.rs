//! Root resolution and small path utilities.
//!
//! [`resolve_root`] reconciles a glob pattern that may open with relative
//! path segments against a base directory: it absorbs leading components
//! into the base for as long as each grown path exists on disk, and
//! leaves the rest of the pattern as the *remainder* to match against
//! walked paths. [`resolve_with_depth`] is the same computation with the
//! absorption depth given instead of probed, so every caller can see the
//! exact outcome for a known depth.

use vstd::prelude::*;

use crate::components::absolute;
use crate::components::comp_wf;
use crate::components::comps_of;
use crate::components::contains_parent;
use crate::components::is_absolute;
use crate::components::is_cur;
use crate::components::is_normal;
use crate::components::is_parent;
use crate::components::is_parent_piece;
use crate::components::is_normal_piece;
use crate::components::join_all;
use crate::components::join_push;
use crate::components::join_range;
use crate::components::join_slash;
use crate::components::lemma_comps_render_len;
use crate::components::lemma_join_slash_skip_len;
use crate::components::lemma_join_slash_split;
use crate::components::parse_components;
use crate::error::RootError;

verus! {

/// Relies on std::path::Path::exists, to probe whether a path names
/// anything on disk; what it answers depends on the machine's state, so
/// nothing is promised of the result.
#[verifier::external_body]
fn path_exists(p: &str) -> bool {
    std::path::Path::new(p).exists()
}

/// The trailing `l` characters of `s`.
pub open spec fn str_suffix(s: Seq<char>, l: int) -> Seq<char> {
    s.skip(s.len() - l)
}

/// What resolving a pattern against a base comes to, once the number of
/// components absorbed into the root is fixed.
pub enum Resolution {
    /// The pattern was empty.
    EmptyPattern,
    /// The pattern was an absolute path.
    AbsolutePattern,
    /// After resolution the remainder still held a `..` component.
    ParentInRest { rest_render: Seq<char> },
    /// The resolved root and the remainder of the pattern.
    Resolved { root: Seq<char>, rest: Seq<char> },
}

/// Root resolution with `k` leading pattern components absorbed into the
/// base (`k` is clamped to the component count). If everything was
/// absorbed, one trailing ordinary component moves back into the
/// remainder, which the glob engine needs non-empty; a remainder that
/// still navigates upward with `..` is rejected. The remainder is the
/// trailing slice of the original pattern whose length is that of the
/// remaining components joined with `/`.
pub open spec fn resolve_spec(base: Seq<char>, pattern: Seq<char>, k: int) -> Resolution {
    if pattern.len() == 0 {
        Resolution::EmptyPattern
    } else if is_absolute(pattern) {
        Resolution::AbsolutePattern
    } else {
        let cs = comps_of(pattern);
        let n = cs.len() as int;
        let kk = if k < 0 {
            0
        } else if k > n {
            n
        } else {
            k
        };
        let pushed_back = kk == n && n > 0 && is_normal(cs[n - 1]);
        let absorbed = if pushed_back {
            n - 1
        } else {
            kk
        };
        let rest_cs = if pushed_back {
            seq![cs[n - 1]]
        } else {
            cs.skip(kk)
        };
        if contains_parent(rest_cs) {
            Resolution::ParentInRest { rest_render: join_slash(rest_cs) }
        } else {
            Resolution::Resolved {
                root: join_all(base, cs, absorbed),
                rest: str_suffix(pattern, join_slash(rest_cs).len() as int),
            }
        }
    }
}

/// The message given for an absolute pattern.
pub open spec fn absolute_pattern_msg(pattern: Seq<char>) -> Seq<char> {
    "'"@ + pattern + "' is an absolute path"@
}

/// The message given for a remainder that still holds `..`.
pub open spec fn parent_in_rest_msg(rest_render: Seq<char>) -> Seq<char> {
    "pattern remainder '"@ + rest_render + "' contains unresolved relative path components"@
}

/// Whether the call result `r` reports exactly the resolution `res` of
/// `pattern`.
pub open spec fn matches_resolution(
    r: Result<(String, String), RootError>,
    res: Resolution,
    pattern: Seq<char>,
) -> bool {
    match res {
        Resolution::EmptyPattern => r matches Err(RootError::InvalidInput(m)) && m@
            == "empty pattern"@,
        Resolution::AbsolutePattern => r matches Err(RootError::Unsupported(m)) && m@
            == absolute_pattern_msg(pattern),
        Resolution::ParentInRest { rest_render } => r matches Err(RootError::InvalidInput(m)) && m@
            == parent_in_rest_msg(rest_render),
        Resolution::Resolved { root, rest } => r matches Ok(p) && p.0@ == root && p.1@ == rest,
    }
}

/// The first `upto` components appended to `base` in turn.
fn join_upto(base: &str, comps: &Vec<String>, upto: usize) -> (r: String)
    requires
        upto <= comps@.len(),
    ensures
        r@ == join_all(base@, comps.deep_view(), upto as int),
{
    let ghost dv = comps.deep_view();
    let mut r = String::from_str(base);
    let mut i: usize = 0;
    while i < upto
        invariant
            i <= upto <= comps@.len(),
            dv == comps.deep_view(),
            dv.len() == comps@.len(),
            r@ == join_all(base@, dv, i as int),
        decreases upto - i,
    {
        r = join_push(r.as_str(), comps[i].as_str());
        i += 1;
    }
    r
}

/// Resolution once the absorption depth `k` is known; `comps` are the
/// pattern's components.
fn finish_resolve(base: &str, pattern: &str, comps: &Vec<String>, k: usize) -> (r: Result<
    (String, String),
    RootError,
>)
    requires
        pattern@.len() > 0,
        !is_absolute(pattern@),
        comps.deep_view() == comps_of(pattern@),
        k <= comps@.len(),
    ensures
        matches_resolution(r, resolve_spec(base@, pattern@, k as int), pattern@),
{
    let ghost cs = comps_of(pattern@);
    let n = comps.len();
    let plen = pattern.unicode_len();
    proof {
        lemma_comps_render_len(pattern@, true);
    }
    let pushed_back = k == n && n > 0 && is_normal_piece(comps[n - 1].as_str());
    let absorbed = if pushed_back {
        n - 1
    } else {
        k
    };

    // Render the remainder components and look for `..` among them.
    let mut has_parent = false;
    let rest_render: String;
    if pushed_back {
        rest_render = comps[n - 1].clone();
        proof {
            let rest_cs = seq![cs[n - 1]];
            assert(join_slash(rest_cs) == cs[n - 1]);
            assert(!contains_parent(rest_cs));
        }
    } else {
        let mut i = absorbed;
        while i < n
            invariant
                absorbed <= i <= n,
                n == comps@.len(),
                comps.deep_view() == cs,
                has_parent ==> exists|j: int| absorbed <= j < i && is_parent(cs[j]),
                !has_parent ==> forall|j: int| absorbed <= j < i ==> !is_parent(cs[j]),
            decreases n - i,
        {
            if is_parent_piece(comps[i].as_str()) {
                has_parent = true;
                proof {
                    assert(is_parent(cs[i as int]));
                }
            }
            i += 1;
        }
        rest_render = join_range(comps, absorbed);
        proof {
            let rest_cs = cs.skip(absorbed as int);
            assert forall|j: int| 0 <= j < rest_cs.len() implies rest_cs[j] == cs[
                j + absorbed
            ] by {}
            assert(contains_parent(rest_cs) == has_parent) by {
                if contains_parent(rest_cs) {
                    let j = choose|j: int| 0 <= j < rest_cs.len() && is_parent(rest_cs[j]);
                    assert(is_parent(cs[j + absorbed]));
                }
                if has_parent {
                    let j = choose|j: int| absorbed <= j < n && is_parent(cs[j]);
                    assert(is_parent(rest_cs[j - absorbed]));
                }
            }
        }
    }

    if has_parent {
        let mut m = String::new();
        m.append("pattern remainder '");
        m.append(rest_render.as_str());
        m.append("' contains unresolved relative path components");
        return Err(RootError::InvalidInput(m));
    }

    let root = join_upto(base, comps, absorbed);
    let l = rest_render.as_str().unicode_len();
    proof {
        if pushed_back {
            if n > 1 {
                lemma_join_slash_split(cs, n as int - 1);
                assert(cs.skip(n as int - 1) =~= seq![cs[n as int - 1]]);
                assert(join_slash(cs.skip(n as int - 1)) == cs[n as int - 1]);
            } else {
                assert(join_slash(cs) == cs[0]);
            }
        } else {
            lemma_join_slash_skip_len(cs, absorbed as int);
        }
        assert(l <= plen);
    }
    let rest = pattern.substring_char(plen - l, plen);
    proof {
        assert(rest@ =~= str_suffix(pattern@, l as int));
    }
    Ok((root, String::from_str(rest)))
}

/// Root resolution at a caller-chosen absorption depth: the result that
/// [`resolve_root`] gives when exactly `depth` leading components of
/// `pattern` (clamped to the component count) name existing directories
/// under `base`. No probing happens here: the outcome is a function of
/// the arguments alone.
pub fn resolve_with_depth(base: &str, pattern: &str, depth: usize) -> (r: Result<
    (String, String),
    RootError,
>)
    ensures
        matches_resolution(r, resolve_spec(base@, pattern@, depth as int), pattern@),
{
    if pattern.unicode_len() == 0 {
        return Err(RootError::InvalidInput(String::from_str("empty pattern")));
    }
    if absolute(pattern) {
        let mut m = String::new();
        m.append("'");
        m.append(pattern);
        m.append("' is an absolute path");
        return Err(RootError::Unsupported(m));
    }
    let comps = parse_components(pattern);
    let k = if depth > comps.len() {
        comps.len()
    } else {
        depth
    };
    let r = finish_resolve(base, pattern, &comps, k);
    proof {
        assert(resolve_spec(base@, pattern@, depth as int) == resolve_spec(
            base@,
            pattern@,
            k as int,
        ));
    }
    r
}

/// Resolves the root for the pattern and the given base directory.
///
/// E.g., for the base `/home/some/folder` and pattern `../../*.c` this
/// function moves the relative path components onto the base, resulting
/// in the root `/home/some/folder/../..` and the remainder `*.c`. The
/// relative components are not collapsed; the caller may canonicalize.
///
/// Leading components are absorbed for as long as each grown root exists
/// on disk, so the depth depends on the filesystem; whatever it turns
/// out to be, the result is exactly [`resolve_spec`] at that depth. An
/// empty pattern and a remainder still holding `..` are invalid input,
/// an absolute pattern is unsupported, and a missing base is not found.
pub fn resolve_root(base: &str, pattern: &str) -> (r: Result<(String, String), RootError>)
    ensures
        pattern@.len() == 0 ==> (r matches Err(RootError::InvalidInput(m)) && m@
            == "empty pattern"@),
        r matches Err(RootError::NotFound) ==> pattern@.len() > 0,
        (pattern@.len() > 0 && is_absolute(pattern@) && !(r matches Err(RootError::NotFound)))
            ==> (r matches Err(RootError::Unsupported(m)) && m@ == absolute_pattern_msg(pattern@)),
        !(r matches Err(RootError::NotFound)) ==> exists|k: int|
            0 <= k <= comps_of(pattern@).len() && matches_resolution(
                r,
                resolve_spec(base@, pattern@, k),
                pattern@,
            ),
{
    if pattern.unicode_len() == 0 {
        let e = RootError::InvalidInput(String::from_str("empty pattern"));
        proof {
            assert(matches_resolution(
                Err::<(String, String), RootError>(e),
                resolve_spec(base@, pattern@, 0),
                pattern@,
            ));
        }
        return Err(e);
    }
    if !path_exists(base) {
        return Err(RootError::NotFound);
    }
    if absolute(pattern) {
        let mut m = String::new();
        m.append("'");
        m.append(pattern);
        m.append("' is an absolute path");
        proof {
            assert(matches_resolution(
                Err::<(String, String), RootError>(RootError::Unsupported(m)),
                resolve_spec(base@, pattern@, 0),
                pattern@,
            ));
        }
        return Err(RootError::Unsupported(m));
    }
    let ghost cs = comps_of(pattern@);
    let comps = parse_components(pattern);
    let mut k: usize = 0;
    let mut cur = String::from_str(base);
    while k < comps.len()
        invariant
            k <= comps@.len(),
            comps.deep_view() == cs,
            cur@ == join_all(base@, cs, k as int),
        decreases comps@.len() - k,
    {
        let cand = join_push(cur.as_str(), comps[k].as_str());
        if path_exists(cand.as_str()) {
            cur = cand;
            k += 1;
        } else {
            break ;
        }
    }
    let r = finish_resolve(base, pattern, &comps, k);
    proof {
        assert(0 <= k as int <= cs.len());
        assert(matches_resolution(r, resolve_spec(base@, pattern@, k as int), pattern@));
    }
    r
}

/// Resolving at depth 0 leaves base and pattern unchanged, for a pattern
/// written without redundant separators and free of `..` components.
/// (A leading component that names an existing directory under the base
/// is absorbed instead, so the depth is 0 exactly when the pattern's
/// first component names nothing on disk.)
pub proof fn lemma_resolve_depth_zero(base: Seq<char>, pattern: Seq<char>)
    requires
        pattern.len() > 0,
        !is_absolute(pattern),
        join_slash(comps_of(pattern)) == pattern,
        !contains_parent(comps_of(pattern)),
    ensures
        resolve_spec(base, pattern, 0) == (Resolution::Resolved { root: base, rest: pattern }),
{
    let cs = comps_of(pattern);
    crate::components::lemma_comps_nonempty(pattern);
    assert(cs.skip(0) =~= cs);
    assert(join_all(base, cs, 0) == base);
    assert(str_suffix(pattern, join_slash(cs).len() as int) =~= pattern);
}

/// Resolving at depth `k` absorbs exactly the first `k` components into
/// the root and leaves the remaining components, joined back with `/`,
/// as the remainder, for a pattern written without redundant separators
/// whose remaining components are free of `..`.
pub proof fn lemma_resolve_depth(base: Seq<char>, pattern: Seq<char>, k: int)
    requires
        pattern.len() > 0,
        !is_absolute(pattern),
        join_slash(comps_of(pattern)) == pattern,
        0 <= k < comps_of(pattern).len(),
        !contains_parent(comps_of(pattern).skip(k)),
    ensures
        resolve_spec(base, pattern, k) == (Resolution::Resolved {
            root: join_all(base, comps_of(pattern), k),
            rest: join_slash(comps_of(pattern).skip(k)),
        }),
{
    let cs = comps_of(pattern);
    let rest = join_slash(cs.skip(k));
    if k == 0 {
        assert(cs.skip(0) =~= cs);
        assert(str_suffix(pattern, rest.len() as int) =~= rest);
    } else {
        lemma_join_slash_split(cs, k);
        assert(pattern == join_slash(cs.take(k)) + seq!['/'] + rest);
        assert(str_suffix(pattern, rest.len() as int) =~= rest);
    }
}

/// Any depth whose remaining components hold no `..` resolves: over-long
/// runs of leading `../` are absorbed into the root rather than refused.
pub proof fn lemma_parents_absorb(base: Seq<char>, pattern: Seq<char>, k: int)
    requires
        pattern.len() > 0,
        !is_absolute(pattern),
        0 <= k <= comps_of(pattern).len(),
        !contains_parent(comps_of(pattern).skip(k)),
    ensures
        resolve_spec(base, pattern, k) is Resolved,
{
    let cs = comps_of(pattern);
    let n = cs.len() as int;
    if k == n && n > 0 && is_normal(cs[n - 1]) {
        assert(!contains_parent(seq![cs[n - 1]]));
    }
}

/// A remainder still holding a `..` component is refused as invalid.
pub proof fn lemma_parent_in_rest(base: Seq<char>, pattern: Seq<char>, k: int)
    requires
        pattern.len() > 0,
        !is_absolute(pattern),
        0 <= k < comps_of(pattern).len(),
        contains_parent(comps_of(pattern).skip(k)),
    ensures
        resolve_spec(base, pattern, k) == (Resolution::ParentInRest {
            rest_render: join_slash(comps_of(pattern).skip(k)),
        }),
{
}

/// Resolving a resolved remainder again, at depth 0, gives it back
/// unchanged with the base untouched: resolution is idempotent once the
/// remainder no longer names anything on disk.
pub proof fn lemma_resolve_idempotent(
    base: Seq<char>,
    pattern: Seq<char>,
    k: int,
    base2: Seq<char>,
)
    requires
        pattern.len() > 0,
        !is_absolute(pattern),
        join_slash(comps_of(pattern)) == pattern,
        resolve_spec(base, pattern, k) is Resolved,
        resolve_spec(base, pattern, k)->Resolved_rest.len() > 0,
    ensures
        resolve_spec(base2, resolve_spec(base, pattern, k)->Resolved_rest, 0)
            == (Resolution::Resolved {
            root: base2,
            rest: resolve_spec(base, pattern, k)->Resolved_rest,
        }),
{
    let cs = comps_of(pattern);
    let n = cs.len() as int;
    let kk = if k < 0 {
        0
    } else if k > n {
        n
    } else {
        k
    };
    let pushed_back = kk == n && n > 0 && is_normal(cs[n - 1]);
    let rest_cs = if pushed_back {
        seq![cs[n - 1]]
    } else {
        cs.skip(kk)
    };
    let rest = resolve_spec(base, pattern, k)->Resolved_rest;
    crate::components::lemma_comps_wf(pattern, true);

    // The remainder is its components joined back with `/`.
    if pushed_back {
        if n > 1 {
            lemma_join_slash_split(cs, n - 1);
            assert(cs.skip(n - 1) =~= seq![cs[n - 1]]);
            assert(pattern == join_slash(cs.take(n - 1)) + seq!['/'] + cs[n - 1]);
        } else {
            assert(join_slash(cs) == cs[0]);
        }
        assert(str_suffix(pattern, join_slash(rest_cs).len() as int) =~= join_slash(rest_cs));
    } else {
        if kk == 0 {
            assert(cs.skip(0) =~= cs);
            assert(str_suffix(pattern, join_slash(rest_cs).len() as int) =~= join_slash(rest_cs));
        } else if kk < n {
            lemma_join_slash_split(cs, kk);
            assert(pattern == join_slash(cs.take(kk)) + seq!['/'] + join_slash(rest_cs));
            assert(str_suffix(pattern, join_slash(rest_cs).len() as int) =~= join_slash(rest_cs));
        } else {
            assert(rest_cs =~= Seq::<Seq<char>>::empty());
            assert(str_suffix(pattern, 0) =~= Seq::<char>::empty());
            assert(rest.len() == 0);
        }
    }
    assert(rest == join_slash(rest_cs));

    // The remainder's components are exactly `rest_cs` again.
    assert forall|j: int| 0 <= j < rest_cs.len() implies comp_wf(#[trigger] rest_cs[j]) by {
        if pushed_back {
            assert(rest_cs[j] == cs[n - 1]);
        } else {
            assert(rest_cs[j] == cs[j + kk]);
        }
    }
    assert forall|j: int| 0 <= j < rest_cs.len() && j > 0 implies !is_cur(
        #[trigger] rest_cs[j],
    ) by {
        assert(rest_cs[j] == cs[j + kk]);
    }
    crate::components::lemma_reparse(rest_cs, true);
    assert(comps_of(rest) == rest_cs);

    // The remainder is relative, so resolving it again is legal.
    assert(rest_cs.len() > 0);
    assert(comp_wf(rest_cs[0]));
    crate::components::lemma_join_first_char(rest_cs);
    assert(!is_absolute(rest));

    lemma_resolve_depth_zero(base2, rest);
}

/// Relies on char::to_uppercase: the replacement depends on the
/// character alone.
pub uninterp spec fn upper_of(c: char) -> Seq<char>;

/// Relies on char::to_uppercase, collected into a string: the result is
/// the character's uppercase replacement and depends on it alone.
#[verifier::external_body]
fn char_to_upper(c: char) -> (r: String)
    ensures
        r@ == upper_of(c),
{
    c.to_uppercase().collect::<String>()
}

/// `s` with its first character replaced by that character's uppercase
/// form.
pub open spec fn upper_first(s: Seq<char>) -> Seq<char> {
    if s.len() == 0 {
        s
    } else {
        upper_of(s[0]) + s.skip(1)
    }
}

/// Transforms the first character of a string to uppercase.
pub fn to_upper(s: String) -> (r: String)
    ensures
        r@ == upper_first(s@),
{
    let n = s.as_str().unicode_len();
    if n == 0 {
        return s;
    }
    let first = s.as_str().get_char(0);
    let mut r = char_to_upper(first);
    let rest = s.as_str().substring_char(1, n);
    r.append(rest);
    proof {
        assert(rest@ =~= s@.skip(1));
    }
    r
}

/// Whether a path's final component starts with a dot. A path whose
/// final component is `.` or `..` is judged by the whole string instead,
/// as is one with no components at all.
pub open spec fn hidden_entry_spec(s: Seq<char>) -> bool {
    let cs = comps_of(s);
    if cs.len() > 0 && is_normal(cs.last()) {
        cs.last()[0] == '.'
    } else {
        s.len() > 0 && s[0] == '.'
    }
}

/// Checks if the provided path is a hidden "entry".
///
/// An entry is hidden if its final path component (filename or directory
/// name) starts with a dot, e.g., `.git` or `.clang-format` are hidden
/// entries. Useful as a pruning predicate, so that hidden directories
/// are never walked.
pub fn is_hidden_entry(path: &str) -> (r: bool)
    ensures
        r == hidden_entry_spec(path@),
{
    let comps = parse_components(path);
    let n = comps.len();
    proof {
        crate::components::lemma_comps_wf(path@, true);
    }
    if n > 0 {
        proof {
            assert(comp_wf(crate::components::comps_from(path@, true)[n as int - 1]));
        }
        if is_normal_piece(comps[n - 1].as_str()) {
            return comps[n - 1].as_str().get_char(0) == '.';
        }
    }
    path.unicode_len() > 0 && path.get_char(0) == '.'
}

/// Whether any component of the path starts with a dot (`.` and `..`
/// themselves count, as their text starts with one).
pub open spec fn hidden_path_spec(s: Seq<char>) -> bool {
    exists|k: int| 0 <= k < comps_of(s).len() && comps_of(s)[k][0] == '.'
}

/// Checks if the provided path has a hidden path component.
///
/// A path is hidden if one of its path components (filename or directory
/// name) starts with a dot.
pub fn is_hidden_path(path: &str) -> (r: bool)
    ensures
        r == hidden_path_spec(path@),
{
    let ghost cs = comps_of(path@);
    let comps = parse_components(path);
    proof {
        crate::components::lemma_comps_wf(path@, true);
    }
    let mut i: usize = 0;
    while i < comps.len()
        invariant
            i <= comps@.len(),
            cs == comps_of(path@),
            comps.deep_view() == cs,
            cs.len() == comps@.len(),
            forall|k: int| 0 <= k < cs.len() ==> comp_wf(#[trigger] cs[k]),
            forall|k: int| 0 <= k < i ==> cs[k][0] != '.',
        decreases comps@.len() - i,
    {
        proof {
            assert(comp_wf(cs[i as int]));
        }
        if comps[i].as_str().get_char(0) == '.' {
            proof {
                assert(comps_of(path@)[i as int][0] == '.');
            }
            return true;
        }
        i += 1;
    }
    false
}

} // verus!