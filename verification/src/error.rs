//! Error types of the crate.
//!
//! [`Error`] carries one descriptive message and is what iteration over
//! walked entries reports. [`RootError`] classifies the ways root
//! resolution can fail.

use vstd::prelude::*;

verus! {

/// Simple error type used by this facade.
#[derive(Clone, Debug, Eq, PartialEq)]
pub struct Error(String);

impl View for Error {
    type V = Seq<char>;

    closed spec fn view(&self) -> Seq<char> {
        self.0@
    }
}

/// The class of an I/O failure surfaced by a directory walk.
#[derive(Clone, Copy, Debug, Eq, PartialEq, Structural)]
pub enum WalkIoClass {
    InvalidData,
    PermissionDenied,
    Other,
}

/// The message reported for a failed walk step: the path it concerns,
/// if one is known, and the class and text of the underlying I/O error,
/// if one is known.
pub open spec fn walk_failure_msg(
    path: Option<Seq<char>>,
    detail: Option<(WalkIoClass, Seq<char>)>,
) -> Seq<char> {
    match path {
        None => "<unknown-path>: Unknown error occurred"@,
        Some(p) => {
            let common = "Failed to walk path "@ + p;
            match detail {
                None => common + ": Unknown error occurred"@,
                Some((class, inner)) => match class {
                    WalkIoClass::InvalidData => common + ": Invalid data encountered: "@ + inner,
                    WalkIoClass::PermissionDenied => common
                        + ": Missing permissions to read entry: "@ + inner,
                    WalkIoClass::Other => common + ": Unexpected error occurred: "@ + inner,
                },
            }
        },
    }
}

pub open spec fn opt_str_view(o: Option<&str>) -> Option<Seq<char>> {
    match o {
        None => None,
        Some(s) => Some(s@),
    }
}

pub open spec fn opt_detail_view(o: Option<(WalkIoClass, &str)>) -> Option<(WalkIoClass, Seq<
    char,
>)> {
    match o {
        None => None,
        Some((c, s)) => Some((c, s@)),
    }
}

impl Error {
    /// Creates a new error string.
    pub fn new(err: &str) -> (r: Error)
        ensures
            r@ == err@,
    {
        Error(String::from_str(err))
    }

    /// The error's message.
    pub fn message(&self) -> (r: &str)
        ensures
            r@ == self@,
    {
        self.0.as_str()
    }

    /// The error describing one failed step of a directory walk.
    pub fn walk_failure(path: Option<&str>, detail: Option<(WalkIoClass, &str)>) -> (r: Error)
        ensures
            r@ == walk_failure_msg(opt_str_view(path), opt_detail_view(detail)),
    {
        let mut m = String::new();
        match path {
            None => {
                m.append("<unknown-path>: Unknown error occurred");
            },
            Some(p) => {
                m.append("Failed to walk path ");
                m.append(p);
                match detail {
                    None => {
                        m.append(": Unknown error occurred");
                    },
                    Some((class, inner)) => {
                        match class {
                            WalkIoClass::InvalidData => m.append(": Invalid data encountered: "),
                            WalkIoClass::PermissionDenied => m.append(
                                ": Missing permissions to read entry: ",
                            ),
                            WalkIoClass::Other => m.append(": Unexpected error occurred: "),
                        }
                        m.append(inner);
                    },
                }
            },
        }
        Error(m)
    }
}

/// How a root resolution failed: an invalid pattern (empty, or one whose
/// remainder still navigates upward), a base directory that does not
/// exist, or an absolute pattern.
#[derive(Clone, Debug, Eq, PartialEq)]
pub enum RootError {
    InvalidInput(String),
    NotFound,
    Unsupported(String),
}

/// The message text carried by a [`RootError`].
pub open spec fn root_error_msg(e: RootError) -> Seq<char> {
    match e {
        RootError::InvalidInput(m) => m@,
        RootError::NotFound => "entity not found"@,
        RootError::Unsupported(m) => m@,
    }
}

impl RootError {
    /// The error's message.
    pub fn message(&self) -> (r: String)
        ensures
            r@ == root_error_msg(*self),
    {
        match self {
            RootError::InvalidInput(m) => m.clone(),
            RootError::NotFound => String::from_str("entity not found"),
            RootError::Unsupported(m) => m.clone(),
        }
    }
}

} // verus!
