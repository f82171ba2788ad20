//! The library's error type: a kind that callers act on, and a message for people.
use vstd::prelude::*;

verus! {

/// What went wrong, as far as a caller can act on it.
#[derive(Debug, Clone, Copy, PartialEq, Eq, Structural)]
pub enum ErrorKind {
    /// The request itself is wrong.
    Usage,
    /// Reading the image, writing the output or getting memory failed.
    Io,
    /// The image, or a file read beside it, contradicts its own format.
    Corrupt,
    /// The format is known but not handled here.
    UnsupportedFeature,
    /// The data is encrypted and cannot be read as plaintext.
    EncryptedUnsupported,
    /// No object with the requested identity exists.
    ObjectNotFound,
    /// No entry with the requested path exists.
    PathNotFound,
    /// A directory was needed and something else was found.
    NotADirectory,
    /// The operating system refused the operation.
    PermissionDenied,
    /// Some of the requested content was not fully recovered.
    PartialRecovery,
    /// A condition that the program itself should have ruled out.
    Internal,
}

impl ErrorKind {
    /// The stable machine-readable code of each kind.
    pub open spec fn spec_code(self) -> Seq<char> {
        match self {
            ErrorKind::Usage => "usage"@,
            ErrorKind::Io => "io"@,
            ErrorKind::Corrupt => "corrupt"@,
            ErrorKind::UnsupportedFeature => "unsupported-feature"@,
            ErrorKind::EncryptedUnsupported => "encrypted-unsupported"@,
            ErrorKind::ObjectNotFound => "object-not-found"@,
            ErrorKind::PathNotFound => "path-not-found"@,
            ErrorKind::NotADirectory => "not-a-directory"@,
            ErrorKind::PermissionDenied => "permission-denied"@,
            ErrorKind::PartialRecovery => "partial-recovery"@,
            ErrorKind::Internal => "internal"@,
        }
    }

    /// The stable machine-readable code of this kind.
    pub fn code(self) -> (r: &'static str)
        ensures
            r@ == self.spec_code(),
    {
        match self {
            ErrorKind::Usage => "usage",
            ErrorKind::Io => "io",
            ErrorKind::Corrupt => "corrupt",
            ErrorKind::UnsupportedFeature => "unsupported-feature",
            ErrorKind::EncryptedUnsupported => "encrypted-unsupported",
            ErrorKind::ObjectNotFound => "object-not-found",
            ErrorKind::PathNotFound => "path-not-found",
            ErrorKind::NotADirectory => "not-a-directory",
            ErrorKind::PermissionDenied => "permission-denied",
            ErrorKind::PartialRecovery => "partial-recovery",
            ErrorKind::Internal => "internal",
        }
    }
}

/// A failure: its kind and a message.
#[derive(Debug)]
pub struct Error {
    pub kind: ErrorKind,
    pub message: String,
}

/// The mathematical content of an [`Error`].
pub struct ErrorView {
    pub kind: ErrorKind,
    pub message: Seq<char>,
}

impl View for Error {
    type V = ErrorView;

    open spec fn view(&self) -> ErrorView {
        ErrorView { kind: self.kind, message: self.message@ }
    }
}

impl Clone for Error {
    fn clone(&self) -> (r: Error)
        ensures
            r@ == self@,
    {
        Error { kind: self.kind, message: self.message.clone() }
    }
}

/// The error of kind `kind` with message `message`.
pub open spec fn failure(kind: ErrorKind, message: Seq<char>) -> ErrorView {
    ErrorView { kind, message }
}

/// `error` with `context` and a colon written before its message.
pub open spec fn in_context(error: ErrorView, context: Seq<char>) -> ErrorView {
    ErrorView { kind: error.kind, message: context + ": "@ + error.message }
}

/// `r` is the error `error`.
pub open spec fn is_failed<T>(r: Result<T, Error>, error: ErrorView) -> bool {
    r matches Err(e) && e@ == error
}

/// A result seen through the views of its value and of its error.
pub open spec fn viewed<T: View>(r: Result<T, Error>) -> Result<T::V, ErrorView> {
    match r {
        Ok(value) => Ok(value@),
        Err(error) => Err(error@),
    }
}

impl Error {
    pub fn new(kind: ErrorKind, message: String) -> (r: Error)
        ensures
            r@ == failure(kind, message@),
    {
        Error { kind, message }
    }

    /// An error whose message is fixed text.
    pub fn fixed(kind: ErrorKind, message: &str) -> (r: Error)
        ensures
            r@ == failure(kind, message@),
    {
        Error { kind, message: message.to_owned() }
    }

    pub fn kind(&self) -> (r: ErrorKind)
        ensures
            r == self@.kind,
    {
        self.kind
    }

    /// The message, as it is shown to a person.
    pub fn text(&self) -> (r: String)
        ensures
            r@ == self@.message,
    {
        self.message.clone()
    }

    /// The same error, with `context` and a colon before its message.
    pub fn with_context(self, context: String) -> (r: Error)
        ensures
            r@ == in_context(self@, context@),
    {
        let mut message = context;
        message.append(": ");
        message.append(self.message.as_str());
        Error { kind: self.kind, message }
    }
}

/// The context is written before the message, and the kind stays.
pub proof fn law_context_comes_first(error: ErrorView, context: Seq<char>)
    ensures
        ({
            let told = in_context(error, context);
            let n = context.len() as int;
            &&& told.kind == error.kind
            &&& told.message.len() == n + 2 + error.message.len()
            &&& forall|i: int| 0 <= i < n ==> told.message[i] == #[trigger] context[i]
            &&& told.message[n] == ':' && told.message[n + 1] == ' '
            &&& forall|i: int|
                0 <= i < error.message.len() ==> told.message[n + 2 + i] == #[trigger]
                    error.message[i]
        }),
{
    reveal_strlit(": ");
}

} // verus!
