//! The error type of every fallible operation.

use vstd::prelude::*;
use vstd::string::*;

use crate::text::{joined, ParseIntError};

verus! {

/// Why FIX Orchestra metadata could not be loaded.
#[derive(Clone, Debug)]
pub enum FixRepoError {
    /// The source could not be read.
    IoError(String),
    /// The document is not well-formed XML.
    XmlError(String),
    /// The document does not describe FIX metadata.
    ParseError(String),
}

/// A [`FixRepoError`] by what it says.
pub ghost enum FixRepoErrorView {
    IoError(Seq<char>),
    XmlError(Seq<char>),
    ParseError(Seq<char>),
}

impl View for FixRepoError {
    type V = FixRepoErrorView;

    open spec fn view(&self) -> FixRepoErrorView {
        match self {
            FixRepoError::IoError(s) => FixRepoErrorView::IoError(s@),
            FixRepoError::XmlError(s) => FixRepoErrorView::XmlError(s@),
            FixRepoError::ParseError(s) => FixRepoErrorView::ParseError(s@),
        }
    }
}

impl FixRepoErrorView {
    pub open spec fn text(self) -> Seq<char> {
        match self {
            FixRepoErrorView::IoError(s) => "IO error: "@ + s,
            FixRepoErrorView::XmlError(s) => "XML error: "@ + s,
            FixRepoErrorView::ParseError(s) => "Parse error: "@ + s,
        }
    }
}

impl FixRepoError {
    pub fn parse_error(msg: &str) -> (r: FixRepoError)
        ensures
            r@ == FixRepoErrorView::ParseError(msg@),
    {
        FixRepoError::ParseError(msg.to_owned())
    }

    /// The error as one line of text.
    pub fn to_string(&self) -> (r: String)
        ensures
            r@ == self@.text(),
    {
        match self {
            FixRepoError::IoError(s) => joined("IO error: ", s.as_str()),
            FixRepoError::XmlError(s) => joined("XML error: ", s.as_str()),
            FixRepoError::ParseError(s) => joined("Parse error: ", s.as_str()),
        }
    }
}

/// The error type returned by all fallible operations.
///
/// Each variant carries a human-readable description. Downstream code can match
/// on the variants or take the whole as text with [`Error::to_string`].
#[derive(Clone, Debug)]
#[non_exhaustive]
pub enum Error {
    /// An underlying I/O error (socket, framing).
    Io(String),
    /// An error parsing or loading the FIX repository / Orchestra data.
    Repository(FixRepoError),
    /// A message could not be parsed or is structurally invalid.
    InvalidMessage(String),
    /// A well-formed message violated a FIX session/protocol rule (e.g. an
    /// unexpected message type or a bad sequence number).
    ProtocolViolation(String),
    /// A connection could not be established, or was lost.
    ConnectionFailed(String),
    /// Any error that does not fit a more specific variant.
    Unspecified(String),
}

/// An [`Error`] by what it says.
pub ghost enum ErrorView {
    Io(Seq<char>),
    Repository(FixRepoErrorView),
    InvalidMessage(Seq<char>),
    ProtocolViolation(Seq<char>),
    ConnectionFailed(Seq<char>),
    Unspecified(Seq<char>),
}

impl View for Error {
    type V = ErrorView;

    open spec fn view(&self) -> ErrorView {
        match self {
            Error::Io(s) => ErrorView::Io(s@),
            Error::Repository(e) => ErrorView::Repository(e@),
            Error::InvalidMessage(s) => ErrorView::InvalidMessage(s@),
            Error::ProtocolViolation(s) => ErrorView::ProtocolViolation(s@),
            Error::ConnectionFailed(s) => ErrorView::ConnectionFailed(s@),
            Error::Unspecified(s) => ErrorView::Unspecified(s@),
        }
    }
}

impl ErrorView {
    pub open spec fn text(self) -> Seq<char> {
        match self {
            ErrorView::Io(s) => "I/O error: "@ + s,
            ErrorView::Repository(e) => "FIX repository error: "@ + e.text(),
            ErrorView::InvalidMessage(s) => "Invalid message: "@ + s,
            ErrorView::ProtocolViolation(s) => "Protocol violation: "@ + s,
            ErrorView::ConnectionFailed(s) => "Connection failed: "@ + s,
            ErrorView::Unspecified(s) => "Unspecified FIX error: "@ + s,
        }
    }

    /// A malformed numeric field in a message surfaces as an invalid message.
    pub open spec fn bad_integer(e: ParseIntError) -> ErrorView {
        ErrorView::InvalidMessage("invalid integer field: "@ + e.text())
    }
}

/// Convenience alias for a `Result` whose error type is [`enum@Error`].
pub type Result<T> = std::result::Result<T, Error>;

impl Error {
    pub fn unspecified(msg: &str) -> (r: Self)
        ensures
            r@ == ErrorView::Unspecified(msg@),
    {
        Error::Unspecified(msg.to_owned())
    }

    pub fn invalid_message(msg: &str) -> (r: Self)
        ensures
            r@ == ErrorView::InvalidMessage(msg@),
    {
        Error::InvalidMessage(msg.to_owned())
    }

    pub fn connection_failed(msg: &str) -> (r: Self)
        ensures
            r@ == ErrorView::ConnectionFailed(msg@),
    {
        Error::ConnectionFailed(msg.to_owned())
    }

    pub fn protocol_violation(msg: &str) -> (r: Self)
        ensures
            r@ == ErrorView::ProtocolViolation(msg@),
    {
        Error::ProtocolViolation(msg.to_owned())
    }

    /// A malformed numeric field in a message surfaces as an invalid message.
    pub fn bad_integer(e: ParseIntError) -> (r: Self)
        ensures
            r@ == ErrorView::bad_integer(e),
    {
        Error::InvalidMessage(joined("invalid integer field: ", e.as_str()))
    }

    /// The error as one line of text.
    pub fn to_string(&self) -> (r: String)
        ensures
            r@ == self@.text(),
    {
        match self {
            Error::Io(s) => joined("I/O error: ", s.as_str()),
            Error::Repository(e) => {
                let inner = e.to_string();
                joined("FIX repository error: ", inner.as_str())
            },
            Error::InvalidMessage(s) => joined("Invalid message: ", s.as_str()),
            Error::ProtocolViolation(s) => joined("Protocol violation: ", s.as_str()),
            Error::ConnectionFailed(s) => joined("Connection failed: ", s.as_str()),
            Error::Unspecified(s) => joined("Unspecified FIX error: ", s.as_str()),
        }
    }
}

/// An error says what kind it is, and what is the matter.
pub proof fn law_what_errors_say(s: Seq<char>, e: FixRepoErrorView, n: ParseIntError)
    ensures
        FixRepoErrorView::IoError(s).text() == "IO error: "@ + s,
        FixRepoErrorView::XmlError(s).text() == "XML error: "@ + s,
        FixRepoErrorView::ParseError(s).text() == "Parse error: "@ + s,
        ErrorView::Io(s).text() == "I/O error: "@ + s,
        ErrorView::Repository(e).text() == "FIX repository error: "@ + e.text(),
        ErrorView::InvalidMessage(s).text() == "Invalid message: "@ + s,
        ErrorView::ProtocolViolation(s).text() == "Protocol violation: "@ + s,
        ErrorView::ConnectionFailed(s).text() == "Connection failed: "@ + s,
        ErrorView::Unspecified(s).text() == "Unspecified FIX error: "@ + s,
        ErrorView::bad_integer(n) == ErrorView::InvalidMessage(
            "invalid integer field: "@ + n.text(),
        ),
        ParseIntError::Empty.text() == "cannot parse integer from empty string"@,
        ParseIntError::InvalidDigit.text() == "invalid digit found in string"@,
        ParseIntError::PosOverflow.text() == "number too large to fit in target type"@,
        ParseIntError::NegOverflow.text() == "number too small to fit in target type"@,
{
}

} // verus!
