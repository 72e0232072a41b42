use vstd::prelude::*;

verus! {

/// The errors that the parser reports. The first field of each is a prefix
/// that places the error in the source (empty when the source is unknown).
#[derive(Debug)]
pub enum Error {
    UnexpectedTokenError(String, String, String),
    UnexpectedEndOfFileError(String, String),
    UnexpectedIndentError(String),
    ExpectedIndentError(String, String),
    MissingTokenError(String, String),
    UnexpectedEndOfStatementError(String, String),
    ExpectedExpressionError(String),
    InvalidLiteralError(String, String, String),
    UnexpectedLiteralError(String, String, String),
    /// A word that the parser cannot read: a `base_<n>_<digits>` literal whose
    /// base `n` lies outside 2..=36, an empty member name, or a name with no
    /// token before the current position. `Parser::parse_tokens` never
    /// returns it (it requires input without such a read);
    /// `Parser::try_parse_tokens` reports it as `None`.
    UnsupportedRead,
}

/// The mathematical value of an error. `UnsupportedRead` marks a read on
/// which the parser cannot go on (see `Error::UnsupportedRead`). `Stalled`
/// stands for a branch of the model in which a parse step would not consume
/// any input; no parse takes it.
pub enum SError {
    UnexpectedTokenError(Seq<char>, Seq<char>, Seq<char>),
    UnexpectedEndOfFileError(Seq<char>, Seq<char>),
    UnexpectedIndentError(Seq<char>),
    ExpectedIndentError(Seq<char>, Seq<char>),
    MissingTokenError(Seq<char>, Seq<char>),
    UnexpectedEndOfStatementError(Seq<char>, Seq<char>),
    ExpectedExpressionError(Seq<char>),
    InvalidLiteralError(Seq<char>, Seq<char>, Seq<char>),
    UnexpectedLiteralError(Seq<char>, Seq<char>, Seq<char>),
    UnsupportedRead,
    Stalled,
}

impl View for Error {
    type V = SError;

    open spec fn view(&self) -> SError {
        match self {
            Error::UnexpectedTokenError(a, b, c) => SError::UnexpectedTokenError(a@, b@, c@),
            Error::UnexpectedEndOfFileError(a, b) => SError::UnexpectedEndOfFileError(a@, b@),
            Error::UnexpectedIndentError(a) => SError::UnexpectedIndentError(a@),
            Error::ExpectedIndentError(a, b) => SError::ExpectedIndentError(a@, b@),
            Error::MissingTokenError(a, b) => SError::MissingTokenError(a@, b@),
            Error::UnexpectedEndOfStatementError(a, b) => SError::UnexpectedEndOfStatementError(a@, b@),
            Error::ExpectedExpressionError(a) => SError::ExpectedExpressionError(a@),
            Error::InvalidLiteralError(a, b, c) => SError::InvalidLiteralError(a@, b@, c@),
            Error::UnexpectedLiteralError(a, b, c) => SError::UnexpectedLiteralError(a@, b@, c@),
            Error::UnsupportedRead => SError::UnsupportedRead,
        }
    }
}

} // verus!
