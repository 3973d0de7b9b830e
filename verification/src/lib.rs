//! Matching for globs with relative path prefixes.
//!
//! A glob such as `../../some/text-files/**/*.txt` mixes relative path
//! navigation with wildcard matching. A [`Builder`] is created for one
//! glob; [`Builder::build`] resolves the glob's relative prefix against
//! a root directory (see [`utils::resolve_root`]) and compiles the
//! remainder, yielding a [`Matcher`] that tests walked paths. Next to
//! it, [`Builder::build_glob`] compiles the glob as-is into a [`Glob`]
//! for post-hoc filtering, and [`Builder::build_glob_set`] into a
//! [`GlobSet`] that also matches at any nesting depth. The functions in
//! [`wrappers`] combine several matchers with pre- and post-filters into
//! one deduplicated, sorted result.
//!
//! Pattern compilation and the match verdict itself are globset's work;
//! directory walking and all other I/O stay outside this library, which
//! receives walked paths as plain strings.

use vstd::prelude::*;

pub mod components;
pub mod error;
pub mod order;
pub mod wrappers;
pub mod utils;

pub use crate::error::Error;
pub use crate::error::RootError;
pub use crate::error::WalkIoClass;
pub use crate::utils::is_hidden_entry;
pub use crate::utils::is_hidden_path;
pub use crate::utils::resolve_root;
pub use crate::utils::resolve_with_depth;

use crate::components::is_absolute;
use crate::components::comps_of;
use crate::components::strip_spec;
use crate::components::absolute;
use crate::utils::absolute_pattern_msg;
use crate::utils::matches_resolution;
use crate::utils::parent_in_rest_msg;
use crate::utils::resolve_spec;
use crate::utils::to_upper;
use crate::utils::upper_first;
use crate::utils::Resolution;

verus! {

/// Asterisks `*` in a glob do not match path separators (e.g., `/` in
/// unix). Only a double asterisk `**` matches across folder levels.
const REQUIRE_PATHSEP: bool = true;

/// What compiling a pattern with globset comes to, pattern parsing and
/// regex compilation both: `None` when a matcher can be built, otherwise
/// the kind text of the error. It depends on the pattern and the case
/// flag alone.
pub uninterp spec fn glob_check_of(pattern: Seq<char>, case_sensitive: bool) -> Option<Seq<char>>;

/// Whether globset can build a matcher for the pattern.
pub open spec fn glob_ok(pattern: Seq<char>, case_sensitive: bool) -> bool {
    glob_check_of(pattern, case_sensitive) is None
}

/// The verdict of globset's matcher for a compiled pattern on a path,
/// with a literal `/` separator and the given case sensitivity; paths
/// are Unix-style, `/`-separated, as everywhere in this crate. It
/// depends on the three arguments alone.
pub uninterp spec fn glob_match(pattern: Seq<char>, case_sensitive: bool, path: Seq<char>) -> bool;

/// Relies on globset::GlobBuilder::build and GlobSetBuilder::build, with
/// a literal `/` separator and the given case sensitivity: whether a
/// matcher can be built, and the kind text of a failure, depend on the
/// pattern and the flag alone. Both steps return a `Result`; neither
/// panics.
#[verifier::external_body]
fn glob_compile_check(pattern: &str, case_sensitive: bool) -> (r: Option<String>)
    ensures
        (r is None) == (glob_check_of(pattern@, case_sensitive) is None),
        r matches Some(m) ==> (glob_check_of(pattern@, case_sensitive) matches Some(t) && m@ == t),
{
    let built = globset::GlobBuilder::new(pattern)
        .literal_separator(REQUIRE_PATHSEP)
        .case_insensitive(!case_sensitive)
        .build();
    match built {
        Err(e) => Some(e.kind().to_string()),
        Ok(g) => match globset::GlobSetBuilder::new().add(g).build() {
            Ok(_) => None,
            Err(e) => Some(e.kind().to_string()),
        },
    }
}

/// Relies on globset::GlobBuilder::build, GlobSetBuilder::build and
/// GlobSet::is_match (a one-pattern set matches exactly when its pattern
/// does), with a literal `/` separator and the given case sensitivity:
/// the verdict is a function of the pattern, the flag and the path
/// alone. Patterns for which no matcher can be built are excluded; both
/// build steps return a `Result`, so no input panics.
#[verifier::external_body]
fn glob_match_exec(pattern: &str, case_sensitive: bool, path: &str) -> (r: bool)
    requires
        glob_ok(pattern@, case_sensitive),
    ensures
        r == glob_match(pattern@, case_sensitive, path@),
{
    let built = globset::GlobBuilder::new(pattern)
        .literal_separator(REQUIRE_PATHSEP)
        .case_insensitive(!case_sensitive)
        .build();
    match built {
        Err(_) => false,
        Ok(g) => match globset::GlobSetBuilder::new().add(g).build() {
            Ok(set) => set.is_match(std::path::Path::new(path)),
            Err(_) => false,
        },
    }
}

/// The companion pattern of a [`GlobSet`]: the original pattern allowed
/// at any nesting depth.
pub open spec fn descend_pattern(pattern: Seq<char>) -> Seq<char> {
    "**/"@ + pattern
}

/// Whether a [`GlobSet`] built from `pattern` matches `path`: either the
/// pattern itself or its any-depth companion does.
pub open spec fn glob_set_match(pattern: Seq<char>, case_sensitive: bool, path: Seq<char>) -> bool {
    glob_match(pattern, case_sensitive, path) || glob_match(
        descend_pattern(pattern),
        case_sensitive,
        path,
    )
}

/// The abstract content of a [`Builder`].
pub struct BuilderView {
    pub glob: Seq<char>,
    pub case_sensitive: bool,
}

/// A builder for a matcher or globs.
///
/// This builder can be configured to match case sensitive (default) or
/// case insensitive. A single asterisk will not match path separators,
/// e.g., `*/*.txt` does not match the file `path/to/file.txt`. Use `**`
/// to match across directory boundaries.
#[derive(Debug)]
pub struct Builder {
    glob: String,
    case_sensitive: bool,
}

impl View for Builder {
    type V = BuilderView;

    closed spec fn view(&self) -> BuilderView {
        BuilderView { glob: self.glob@, case_sensitive: self.case_sensitive }
    }
}

/// The error text for a glob whose compilation failed: the original
/// pattern and the error kind's text with its first letter uppercased.
pub open spec fn glob_err_msg(glob: Seq<char>, kind_text: Seq<char>) -> Seq<char> {
    "'"@ + glob + "': "@ + upper_first(kind_text)
}

/// The error text for a failed root resolution.
pub open spec fn resolve_failed_msg(detail: Seq<char>) -> Seq<char> {
    "'Failed to resolve paths': "@ + upper_first(detail)
}

/// The abstract content of a [`Matcher`].
pub struct MatcherView {
    pub glob: Seq<char>,
    pub root: Seq<char>,
    pub rest: Seq<char>,
    pub case_sensitive: bool,
}

/// Matcher type for path matching below a resolved root.
///
/// Created by [`Builder::build`]; holds the original glob, the resolved
/// root, the remainder pattern and the case flag. Walked paths are
/// matched with [`Matcher::match_entry`] (which strips the root first)
/// or [`Matcher::is_match`] (which does not).
#[derive(Debug)]
pub struct Matcher {
    glob: String,
    root: String,
    rest: String,
    case_sensitive: bool,
}

impl View for Matcher {
    type V = MatcherView;

    closed spec fn view(&self) -> MatcherView {
        MatcherView {
            glob: self.glob@,
            root: self.root@,
            rest: self.rest@,
            case_sensitive: self.case_sensitive,
        }
    }
}

impl Matcher {
    #[verifier::type_invariant]
    spec fn wf(self) -> bool {
        glob_ok(self.rest@, self.case_sensitive)
    }

    /// Provides the original glob-pattern used to create this matcher,
    /// with no relative path components resolved.
    pub fn glob(&self) -> (r: &str)
        ensures
            r@ == self@.glob,
    {
        self.glob.as_str()
    }

    /// Provides the resolved root folder used by the matcher. The
    /// leading components of the original glob that named existing
    /// directories have moved into it.
    pub fn root(&self) -> (r: String)
        ensures
            r@ == self@.root,
    {
        self.root.clone()
    }

    /// Provides the remainder of the glob after root resolution.
    pub fn rest(&self) -> (r: &str)
        ensures
            r@ == self@.rest,
    {
        self.rest.as_str()
    }

    /// Checks whether the provided path is a match for the remainder
    /// glob.
    pub fn is_match(&self, p: &str) -> (r: bool)
        ensures
            r == glob_match(self@.rest, self@.case_sensitive, p@),
    {
        proof {
            use_type_invariant(&*self);
        }
        glob_match_exec(self.rest.as_str(), self.case_sensitive, p)
    }

    /// One step of iteration: the full path is kept when it lies below
    /// the resolved root and its relative part matches the remainder
    /// glob; a path that does not even start with the root is skipped.
    pub fn match_entry(&self, path: &str) -> (r: Option<String>)
        ensures
            (r is Some) == (strip_spec(self@.root, path@) matches Some(rel) && glob_match(
                self@.rest,
                self@.case_sensitive,
                rel,
            )),
            r matches Some(p) ==> p@ == path@,
    {
        proof {
            use_type_invariant(&*self);
        }
        match crate::components::strip_prefix_str(self.root.as_str(), path) {
            None => None,
            Some(rel) => {
                if glob_match_exec(self.rest.as_str(), self.case_sensitive, rel.as_str()) {
                    Some(String::from_str(path))
                } else {
                    None
                }
            },
        }
    }
}

/// The abstract content of a [`Glob`].
pub struct GlobView {
    pub glob: Seq<char>,
    pub case_sensitive: bool,
}

/// Wrapper type for glob matching.
///
/// Created by [`Builder::build_glob`] for a single glob on which no
/// transformation or path resolution has been performed.
#[derive(Debug)]
pub struct Glob {
    glob: String,
    case_sensitive: bool,
}

impl View for Glob {
    type V = GlobView;

    closed spec fn view(&self) -> GlobView {
        GlobView { glob: self.glob@, case_sensitive: self.case_sensitive }
    }
}

impl Glob {
    #[verifier::type_invariant]
    spec fn wf(self) -> bool {
        glob_ok(self.glob@, self.case_sensitive)
    }

    /// Provides the original glob-pattern used to create this glob.
    pub fn glob(&self) -> (r: &str)
        ensures
            r@ == self@.glob,
    {
        self.glob.as_str()
    }

    /// Checks whether the provided path is a match for the stored glob.
    pub fn is_match(&self, p: &str) -> (r: bool)
        ensures
            r == glob_match(self@.glob, self@.case_sensitive, p@),
    {
        proof {
            use_type_invariant(&*self);
        }
        glob_match_exec(self.glob.as_str(), self.case_sensitive, p)
    }
}

/// The abstract content of a [`GlobSet`].
pub struct GlobSetView {
    pub glob: Seq<char>,
    pub case_sensitive: bool,
}

/// Comfort type for glob matching.
///
/// Created by [`Builder::build_glob_set`]; matches a path when the
/// original pattern does, or when the pattern prefixed by `**/` does, so
/// the pattern applies regardless of nesting depth.
#[derive(Debug)]
pub struct GlobSet {
    glob: String,
    case_sensitive: bool,
}

impl View for GlobSet {
    type V = GlobSetView;

    closed spec fn view(&self) -> GlobSetView {
        GlobSetView { glob: self.glob@, case_sensitive: self.case_sensitive }
    }
}

impl GlobSet {
    #[verifier::type_invariant]
    spec fn wf(self) -> bool {
        glob_ok(self.glob@, self.case_sensitive) && glob_ok(
            descend_pattern(self.glob@),
            self.case_sensitive,
        )
    }

    /// Provides the original glob-pattern used to create this set.
    pub fn glob(&self) -> (r: &str)
        ensures
            r@ == self@.glob,
    {
        self.glob.as_str()
    }

    /// Checks whether the provided path is a match for either of the two
    /// stored globs.
    pub fn is_match(&self, p: &str) -> (r: bool)
        ensures
            r == glob_set_match(self@.glob, self@.case_sensitive, p@),
    {
        proof {
            use_type_invariant(&*self);
        }
        if glob_match_exec(self.glob.as_str(), self.case_sensitive, p) {
            return true;
        }
        let mut sub = String::new();
        sub.append("**/");
        sub.append(self.glob.as_str());
        glob_match_exec(sub.as_str(), self.case_sensitive, p)
    }
}

/// What [`Builder::build`] gives once the absorption depth `k` of the
/// root resolution is fixed: the error message of a failed resolution or
/// compilation, or the finished matcher.
pub open spec fn build_outcome(
    b: BuilderView,
    root: Seq<char>,
    k: int,
    r: Result<Matcher, String>,
) -> bool {
    match resolve_spec(root, b.glob, k) {
        Resolution::EmptyPattern => r matches Err(m) && m@ == resolve_failed_msg("empty pattern"@),
        Resolution::AbsolutePattern => r matches Err(m) && m@ == resolve_failed_msg(
            absolute_pattern_msg(b.glob),
        ),
        Resolution::ParentInRest { rest_render } => r matches Err(m) && m@ == resolve_failed_msg(
            parent_in_rest_msg(rest_render),
        ),
        Resolution::Resolved { root: rt, rest } => match glob_check_of(rest, b.case_sensitive) {
            Some(t) => r matches Err(m) && m@ == glob_err_msg(b.glob, t),
            None => r matches Ok(mm) && mm@ == (MatcherView {
                glob: b.glob,
                root: rt,
                rest,
                case_sensitive: b.case_sensitive,
            }),
        },
    }
}

/// What [`Builder::build_glob`] gives: a glob for a non-empty pattern
/// that compiles, the exact error text otherwise.
pub open spec fn build_glob_outcome(b: BuilderView, r: Result<Glob, String>) -> bool {
    if b.glob.len() == 0 {
        r matches Err(m) && m@ == "Empty glob"@
    } else {
        match glob_check_of(b.glob, b.case_sensitive) {
            Some(t) => r matches Err(m) && m@ == glob_err_msg(b.glob, t),
            None => r matches Ok(g) && g@ == (GlobView {
                glob: b.glob,
                case_sensitive: b.case_sensitive,
            }),
        }
    }
}

/// What [`Builder::build_glob_set`] gives: a set for a non-empty,
/// relative pattern both of whose globs compile, the exact error text
/// otherwise.
pub open spec fn build_glob_set_outcome(b: BuilderView, r: Result<GlobSet, String>) -> bool {
    if b.glob.len() == 0 {
        r matches Err(m) && m@ == "Empty glob"@
    } else if is_absolute(b.glob) {
        r matches Err(m) && m@ == absolute_pattern_msg(b.glob)
    } else {
        match glob_check_of(b.glob, b.case_sensitive) {
            Some(t) => r matches Err(m) && m@ == glob_err_msg(b.glob, t),
            None => match glob_check_of(descend_pattern(b.glob), b.case_sensitive) {
                Some(t) => r matches Err(m) && m@ == glob_err_msg(b.glob, t),
                None => r matches Ok(g) && g@ == (GlobSetView {
                    glob: b.glob,
                    case_sensitive: b.case_sensitive,
                }),
            },
        }
    }
}

impl Builder {
    /// Create a new builder for the given glob.
    ///
    /// The glob is not compiled until any of the `build` methods is
    /// called.
    pub fn new(glob: &str) -> (r: Builder)
        ensures
            r@.glob == glob@,
            r@.case_sensitive == true,
    {
        Builder { glob: String::from_str(glob), case_sensitive: true }
    }

    /// Toggle whether the glob matches case sensitive or not.
    ///
    /// The default setting is to match case **sensitive**.
    pub fn case_sensitive(self, yes: bool) -> (r: Builder)
        ensures
            r@.glob == self@.glob,
            r@.case_sensitive == yes,
    {
        Builder { glob: self.glob, case_sensitive: yes }
    }

    /// Compiles `glob` and renders a failure as the builder's error
    /// text, naming the builder's own pattern.
    fn glob_for(&self, glob: &str) -> (r: Result<(), String>)
        ensures
            (r is Ok) == glob_ok(glob@, self@.case_sensitive),
            r matches Err(m) ==> (glob_check_of(glob@, self@.case_sensitive) matches Some(t) && m@
                == glob_err_msg(self@.glob, t)),
    {
        match glob_compile_check(glob, self.case_sensitive) {
            None => Ok(()),
            Some(k) => {
                let mut m = String::new();
                m.append("'");
                m.append(self.glob.as_str());
                m.append("': ");
                let up = to_upper(k);
                m.append(up.as_str());
                proof {
                    assert(m@ =~= glob_err_msg(self@.glob, glob_check_of(glob@, self@.case_sensitive)->0));
                }
                Err(m)
            },
        }
    }

    /// Builds a [`Matcher`] for the given builder relative to `root`.
    ///
    /// Resolves the relative path prefix of the builder's glob against
    /// the root directory: for the root `/path/to/some/folder` and glob
    /// `../../*.txt` the relative components move onto the root, leaving
    /// `*.txt` as the glob and `/path/to/some/folder/../..` as the root.
    /// The relative components are **not** collapsed; the caller may
    /// canonicalize each yielded path.
    ///
    /// # Errors
    ///
    /// A message names what failed: an empty pattern, an absolute
    /// pattern, a remainder still navigating upward, a missing root
    /// directory, or a pattern that does not compile.
    pub fn build(&self, root: &str) -> (r: Result<Matcher, String>)
        ensures
            self@.glob.len() == 0 ==> (r matches Err(m) && m@ == resolve_failed_msg(
                "empty pattern"@,
            )),
            (exists|k: int|
                0 <= k <= comps_of(self@.glob).len() && build_outcome(self@, root@, k, r)) || (
            self@.glob.len() > 0 && (r matches Err(m) && m@ == resolve_failed_msg(
                "entity not found"@,
            ))),
    {
        let ghost pat = self@.glob;
        let rr = crate::utils::resolve_root(root, self.glob.as_str());
        match rr {
            Err(e) => {
                let detail = e.message();
                let mut m = String::new();
                m.append("'Failed to resolve paths': ");
                let up = to_upper(detail);
                m.append(up.as_str());
                proof {
                    if e is NotFound {
                        assert(m@ =~= resolve_failed_msg("entity not found"@));
                    } else {
                        let k = choose|k: int|
                            0 <= k <= comps_of(pat).len() && matches_resolution(
                                rr,
                                resolve_spec(root@, pat, k),
                                pat,
                            );
                        match resolve_spec(root@, pat, k) {
                            Resolution::EmptyPattern => {
                                assert(m@ =~= resolve_failed_msg("empty pattern"@));
                            },
                            Resolution::AbsolutePattern => {
                                assert(m@ =~= resolve_failed_msg(absolute_pattern_msg(pat)));
                            },
                            Resolution::ParentInRest { rest_render } => {
                                assert(m@ =~= resolve_failed_msg(parent_in_rest_msg(rest_render)));
                            },
                            Resolution::Resolved { root: _, rest: _ } => {
                                assert(false);
                            },
                        }
                        assert(build_outcome(self@, root@, k, Err(m)));
                    }
                }
                Err(m)
            },
            Ok((rt, rest)) => {
                let ghost k = choose|k: int|
                    0 <= k <= comps_of(pat).len() && matches_resolution(
                        rr,
                        resolve_spec(root@, pat, k),
                        pat,
                    );
                match self.glob_for(rest.as_str()) {
                    Err(m) => {
                        proof {
                            assert(build_outcome(self@, root@, k, Err(m)));
                        }
                        Err(m)
                    },
                    Ok(()) => {
                        let mm = Matcher {
                            glob: self.glob.clone(),
                            root: rt,
                            rest,
                            case_sensitive: self.case_sensitive,
                        };
                        proof {
                            assert(build_outcome(self@, root@, k, Ok(mm)));
                        }
                        Ok(mm)
                    },
                }
            },
        }
    }

    /// Builds a [`Glob`].
    ///
    /// The glob can be used for filtering paths provided by a
    /// [`Matcher`]. Only emptiness is rejected: an absolute pattern is
    /// allowed here.
    pub fn build_glob(&self) -> (r: Result<Glob, String>)
        ensures
            build_glob_outcome(self@, r),
    {
        if self.glob.as_str().unicode_len() == 0 {
            return Err(String::from_str("Empty glob"));
        }
        match self.glob_for(self.glob.as_str()) {
            Err(m) => Err(m),
            Ok(()) => Ok(Glob { glob: self.glob.clone(), case_sensitive: self.case_sensitive }),
        }
    }

    /// Builds a combined [`GlobSet`].
    ///
    /// A globset extends the provided pattern to the pair
    /// `[pattern, **/pattern]`. This is useful, e.g., for blacklists,
    /// where only the file type is important. The pattern must not be
    /// empty or an absolute path.
    pub fn build_glob_set(&self) -> (r: Result<GlobSet, String>)
        ensures
            build_glob_set_outcome(self@, r),
    {
        if self.glob.as_str().unicode_len() == 0 {
            return Err(String::from_str("Empty glob"));
        }
        if absolute(self.glob.as_str()) {
            let mut m = String::new();
            m.append("'");
            m.append(self.glob.as_str());
            m.append("' is an absolute path");
            return Err(m);
        }
        match self.glob_for(self.glob.as_str()) {
            Err(m) => Err(m),
            Ok(()) => {
                let mut sub = String::new();
                sub.append("**/");
                sub.append(self.glob.as_str());
                match self.glob_for(sub.as_str()) {
                    Err(m) => Err(m),
                    Ok(()) => Ok(
                        GlobSet {
                            glob: self.glob.clone(),
                            case_sensitive: self.case_sensitive,
                        },
                    ),
                }
            },
        }
    }
}

} // verus!
