//! Error taxonomy of the finder.
//!
//! Construction-time errors (an invalid glob pattern, an unknown type code)
//! and traversal-time errors (a path that is missing, unreadable, or failed
//! otherwise) share one enum. Traversal failures are first reported to the
//! library as a [`Failure`], a plain record of what went wrong and where.
use vstd::prelude::*;

verus! {

/// Result type of the finder's fallible operations.
pub type FindResult<T> = Result<T, FindError>;

/// How a traversal failure is classified.
#[derive(Debug, Clone, Copy, PartialEq, Eq, Structural)]
pub enum FailureKind {
    /// The object does not exist (any more).
    NotFound,
    /// The process may not read the object.
    PermissionDenied,
    /// Any other input/output failure.
    Filesystem,
    /// A failure of the walk itself that has no input/output cause.
    Traversal,
}

/// A failure met while listing a directory or reading one of its entries.
#[derive(Debug, Clone)]
pub struct Failure {
    pub kind: FailureKind,
    /// The path that could not be read; empty where none is known.
    pub path: String,
    /// The cause, in words.
    pub message: String,
}

/// The abstract value of a [`Failure`].
pub struct FailureView {
    pub kind: FailureKind,
    pub path: Seq<char>,
    pub message: Seq<char>,
}

impl View for Failure {
    type V = FailureView;

    open spec fn view(&self) -> FailureView {
        FailureView { kind: self.kind, path: self.path@, message: self.message@ }
    }
}

/// Errors of the finder.
#[derive(Debug, Clone)]
pub enum FindError {
    /// A path that was looked for does not exist.
    FileNotFound(String),
    /// The process may not read a path.
    PermissionDenied(String),
    /// A directory cannot be read.
    DirectoryUnreadable(String),
    /// A symbolic link could not be handled.
    SymlinkIssue(String),
    /// Any other input/output failure, with its cause in words.
    FilesystemError { source: String, path: String },
    /// A path that was given is not usable.
    InvalidPath(String),
    /// Any other error, with optional context.
    Other { message: String, context: Option<String> },
    /// A glob pattern was rejected.
    PatternError { message: String },
    /// A file type code was not recognised.
    InvalidFileType(String),
    /// The walk failed without an input/output cause.
    WalkDirError(String),
}

/// The abstract value of a [`FindError`]: the same variants over character sequences.
pub enum ErrorView {
    FileNotFound(Seq<char>),
    PermissionDenied(Seq<char>),
    DirectoryUnreadable(Seq<char>),
    SymlinkIssue(Seq<char>),
    FilesystemError { source: Seq<char>, path: Seq<char> },
    InvalidPath(Seq<char>),
    Other { message: Seq<char>, context: Option<Seq<char>> },
    PatternError { message: Seq<char> },
    InvalidFileType(Seq<char>),
    WalkDirError(Seq<char>),
}

impl View for FindError {
    type V = ErrorView;

    open spec fn view(&self) -> ErrorView {
        match self {
            FindError::FileNotFound(p) => ErrorView::FileNotFound(p@),
            FindError::PermissionDenied(p) => ErrorView::PermissionDenied(p@),
            FindError::DirectoryUnreadable(p) => ErrorView::DirectoryUnreadable(p@),
            FindError::SymlinkIssue(p) => ErrorView::SymlinkIssue(p@),
            FindError::FilesystemError { source, path } => ErrorView::FilesystemError {
                source: source@,
                path: path@,
            },
            FindError::InvalidPath(p) => ErrorView::InvalidPath(p@),
            FindError::Other { message, context } => ErrorView::Other {
                message: message@,
                context: match context {
                    Some(c) => Some(c@),
                    None => None,
                },
            },
            FindError::PatternError { message } => ErrorView::PatternError { message: message@ },
            FindError::InvalidFileType(c) => ErrorView::InvalidFileType(c@),
            FindError::WalkDirError(m) => ErrorView::WalkDirError(m@),
        }
    }
}

/// The error that a traversal failure becomes when it is not ignored.
pub open spec fn error_of_failure(kind: FailureKind, path: Seq<char>, message: Seq<char>) -> ErrorView {
    match kind {
        FailureKind::NotFound => ErrorView::FileNotFound(path),
        FailureKind::PermissionDenied => ErrorView::PermissionDenied(path),
        FailureKind::Filesystem => ErrorView::FilesystemError { source: message, path },
        FailureKind::Traversal => ErrorView::WalkDirError(message),
    }
}

/// The text of an error, as shown to a user.
pub open spec fn error_text(e: ErrorView) -> Seq<char> {
    match e {
        ErrorView::FileNotFound(p) => "文件未找到: "@ + p,
        ErrorView::PermissionDenied(p) => "权限不足: "@ + p,
        ErrorView::DirectoryUnreadable(p) => "目录不可读: "@ + p,
        ErrorView::SymlinkIssue(p) => "符号链接问题: "@ + p,
        ErrorView::FilesystemError { source, path } => "文件系统错误 "@ + path + ": "@ + source,
        ErrorView::InvalidPath(p) => "无效路径: "@ + p,
        ErrorView::Other { message, context } => match context {
            Some(c) => "错误: "@ + message + " (上下文: "@ + c + ")"@,
            None => "错误: "@ + message,
        },
        ErrorView::PatternError { message } => "模式匹配错误: "@ + message,
        ErrorView::InvalidFileType(c) => "无效的文件类型: "@ + c,
        ErrorView::WalkDirError(m) => "目录遍历错误: "@ + m,
    }
}

/// `prefix` followed by `rest`.
fn prefixed(prefix: &str, rest: &str) -> (r: String)
    ensures
        r@ == prefix@ + rest@,
{
    let mut s = String::from_str(prefix);
    s.append(rest);
    s
}

impl FindError {
    /// The error that `failure` becomes when it is not ignored.
    pub fn from_failure(failure: &Failure) -> (r: FindError)
        ensures
            r@ == error_of_failure(failure.kind, failure.path@, failure.message@),
    {
        match failure.kind {
            FailureKind::NotFound => FindError::FileNotFound(failure.path.clone()),
            FailureKind::PermissionDenied => FindError::PermissionDenied(failure.path.clone()),
            FailureKind::Filesystem => FindError::FilesystemError {
                source: failure.message.clone(),
                path: failure.path.clone(),
            },
            FailureKind::Traversal => FindError::WalkDirError(failure.message.clone()),
        }
    }

    /// The text of this error, as shown to a user.
    pub fn message(&self) -> (r: String)
        ensures
            r@ == error_text(self@),
    {
        match self {
            FindError::FileNotFound(p) => prefixed("文件未找到: ", p.as_str()),
            FindError::PermissionDenied(p) => prefixed("权限不足: ", p.as_str()),
            FindError::DirectoryUnreadable(p) => prefixed("目录不可读: ", p.as_str()),
            FindError::SymlinkIssue(p) => prefixed("符号链接问题: ", p.as_str()),
            FindError::FilesystemError { source, path } => {
                let mut s = prefixed("文件系统错误 ", path.as_str());
                s.append(": ");
                s.append(source.as_str());
                s
            },
            FindError::InvalidPath(p) => prefixed("无效路径: ", p.as_str()),
            FindError::Other { message, context } => {
                let mut s = prefixed("错误: ", message.as_str());
                match context {
                    Some(c) => {
                        s.append(" (上下文: ");
                        s.append(c.as_str());
                        s.append(")");
                    },
                    None => {},
                }
                s
            },
            FindError::PatternError { message } => prefixed("模式匹配错误: ", message.as_str()),
            FindError::InvalidFileType(c) => prefixed("无效的文件类型: ", c.as_str()),
            FindError::WalkDirError(m) => prefixed("目录遍历错误: ", m.as_str()),
        }
    }
}

#[verifier::external_type_specification]
#[verifier::external_body]
pub struct ExIoError(std::io::Error);

/// Whether an input/output error is of kind `NotFound`.
pub uninterp spec fn io_is_not_found(err: std::io::Error) -> bool;

/// Whether an input/output error is of kind `PermissionDenied`.
pub uninterp spec fn io_is_permission_denied(err: std::io::Error) -> bool;

/// Relies on std::io::Error::kind: whether the kind is `NotFound`.
#[verifier::external_body]
fn io_kind_is_not_found(err: &std::io::Error) -> (r: bool)
    ensures
        r == io_is_not_found(*err),
{
    err.kind() == std::io::ErrorKind::NotFound
}

/// Relies on std::io::Error::kind: whether the kind is `PermissionDenied`.
#[verifier::external_body]
fn io_kind_is_permission_denied(err: &std::io::Error) -> (r: bool)
    ensures
        r == io_is_permission_denied(*err),
{
    err.kind() == std::io::ErrorKind::PermissionDenied
}

/// The class of an input/output error: not-found and permission-denied
/// keep their class, every other error is a filesystem failure.
pub open spec fn io_failure_kind(err: std::io::Error) -> FailureKind {
    if io_is_not_found(err) {
        FailureKind::NotFound
    } else if io_is_permission_denied(err) {
        FailureKind::PermissionDenied
    } else {
        FailureKind::Filesystem
    }
}

/// The class of an input/output error.
pub fn failure_kind_of(err: &std::io::Error) -> (r: FailureKind)
    ensures
        r == io_failure_kind(*err),
{
    if io_kind_is_not_found(err) {
        FailureKind::NotFound
    } else if io_kind_is_permission_denied(err) {
        FailureKind::PermissionDenied
    } else {
        FailureKind::Filesystem
    }
}

/// Relies on the `Display` impl of std::io::Error: the error's text.
#[verifier::external_body]
fn io_error_text(err: &std::io::Error) -> (r: String) {
    err.to_string()
}

impl FindError {
    /// The error that an input/output error becomes where no path is known:
    /// not-found and permission-denied keep their class, every other error
    /// becomes a filesystem error carrying its text.
    pub fn from_io_error(err: &std::io::Error) -> (r: FindError)
        ensures
            io_is_not_found(*err) ==> r@ == ErrorView::FileNotFound(Seq::empty()),
            !io_is_not_found(*err) && io_is_permission_denied(*err) ==> r@ == ErrorView::PermissionDenied(Seq::empty()),
            !io_is_not_found(*err) && !io_is_permission_denied(*err) ==> r@ is FilesystemError
                && r@->FilesystemError_path.len() == 0,
    {
        let failure = Failure { kind: failure_kind_of(err), path: String::new(), message: io_error_text(err) };
        FindError::from_failure(&failure)
    }
}

impl From<std::io::Error> for FindError {
    fn from(err: std::io::Error) -> (r: FindError) {
        FindError::from_io_error(&err)
    }
}

impl vstd::std_specs::convert::FromSpecImpl<std::io::Error> for FindError {
    open spec fn obeys_from_spec() -> bool {
        false
    }

    open spec fn from_spec(err: std::io::Error) -> FindError {
        arbitrary()
    }
}

} // verus!
