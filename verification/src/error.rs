//! The error type of the log.

use crate::decimal::{decimal, push_decimal};
use vstd::prelude::*;
use vstd::std_specs::convert::FromSpec;
use vstd::string::*;

verus! {

/// The operating system's error value, `std::io::Error`. It is carried, never
/// looked into.
#[verifier::external_type_specification]
#[verifier::external_body]
pub struct ExIoError(std::io::Error);

/// Everything that can go wrong while appending to, syncing, or recovering a log.
#[non_exhaustive]
#[derive(Debug)]
pub enum WalError {
    /// An underlying I/O operation failed.
    Io {
        /// What the log was trying to do when the I/O error occurred.
        context: &'static str,
        /// The underlying operating-system error.
        source: std::io::Error,
    },
    /// An append was rejected because the record is larger than the configured
    /// limit. The log is unchanged.
    RecordTooLarge {
        /// The length of the rejected record, in bytes.
        len: usize,
        /// The configured maximum record size, in bytes.
        max: u32,
    },
    /// Recovery reached a record that is not intact.
    Corruption {
        /// Byte offset of the record at which recovery stopped.
        offset: u64,
        /// A short, human-readable reason the record was rejected.
        reason: &'static str,
    },
    /// A typed record could not be encoded or decoded.
    Encoding {
        /// The underlying serialization error, as text.
        detail: String,
    },
}

/// Calls `std::io::Error::other` with a fixed message, which makes an error of
/// the kind "other". Nothing is stated of the value: it is opaque here.
#[verifier::external_body]
fn other_io_error(message: &'static str) -> (error: std::io::Error) {
    std::io::Error::other(message)
}

/// Calls `to_string` of `std::io::Error`. The text depends on the operating
/// system and its language, so nothing is stated of it.
#[verifier::external_body]
fn io_error_text(error: &std::io::Error) -> (text: String) {
    error.to_string()
}

/// Whether `error` is one that `std::io::Error::other` makes of `message`.
pub closed spec fn is_made_of(error: std::io::Error, message: &'static str) -> bool {
    call_ensures(other_io_error, (message,), error)
}

/// Whether `text` is what `to_string` gives for `error`.
pub closed spec fn reads_as(error: std::io::Error, text: Seq<char>) -> bool {
    exists|cause: String| call_ensures(io_error_text, (&error,), cause) && text == cause@
}

/// Whether `error` is an I/O error of the log's own making, with this context and this
/// message as its cause.
pub open spec fn is_own_io(error: WalError, context: &'static str, message: &'static str) -> bool {
    error matches WalError::Io { context: c, source } && c == context && is_made_of(source, message)
}

/// What an I/O error displays as, given the text of its cause.
pub open spec fn io_message(context: Seq<char>, cause: Seq<char>) -> Seq<char> {
    "i/o error while "@ + context + ": "@ + cause
}

/// Append the display of an I/O error to `out`, given the text of its cause.
pub fn push_io_message(out: &mut String, context: &str, cause: &str)
    ensures
        final(out)@ == old(out)@ + io_message(context@, cause@),
{
    out.append("i/o error while ");
    out.append(context);
    out.append(": ");
    out.append(cause);
    assert(out@ =~= old(out)@ + io_message(context@, cause@));
}

impl WalError {
    /// Wrap an I/O error with the context describing the operation.
    pub fn io(context: &'static str, source: std::io::Error) -> (error: Self)
        ensures
            error == (WalError::Io { context, source }),
    {
        WalError::Io { context, source }
    }

    /// Build an I/O error whose cause is `message`.
    pub(crate) fn other(context: &'static str, message: &'static str) -> (error: Self)
        ensures
            is_own_io(error, context, message),
    {
        WalError::io(context, other_io_error(message))
    }

    /// Build a corruption error for the record at `offset`.
    pub fn corruption(offset: u64, reason: &'static str) -> (error: Self)
        ensures
            error == (WalError::Corruption { offset, reason }),
    {
        WalError::Corruption { offset, reason }
    }

    /// Build an encoding error from a codec error's message.
    pub fn encoding(detail: String) -> (error: Self)
        ensures
            error == (WalError::Encoding { detail }),
    {
        WalError::Encoding { detail }
    }

    /// The underlying operating-system error, if there is one.
    pub fn source(&self) -> (source: Option<&std::io::Error>)
        ensures
            source == (match *self {
                WalError::Io { source, .. } => Some(&source),
                _ => None,
            }),
    {
        match self {
            WalError::Io { source, .. } => Some(source),
            _ => None,
        }
    }

    /// The name of the variant.
    pub fn kind(&self) -> (kind: &'static str)
        ensures
            kind@ == (match *self {
                WalError::Io { .. } => "Io"@,
                WalError::RecordTooLarge { .. } => "RecordTooLarge"@,
                WalError::Corruption { .. } => "Corruption"@,
                WalError::Encoding { .. } => "Encoding"@,
            }),
    {
        match self {
            WalError::Io { .. } => "Io",
            WalError::RecordTooLarge { .. } => "RecordTooLarge",
            WalError::Corruption { .. } => "Corruption",
            WalError::Encoding { .. } => "Encoding",
        }
    }

    /// The caption shared by every error of the log.
    pub fn caption(&self) -> (caption: &'static str)
        ensures
            caption@ == "write-ahead log error"@,
    {
        "write-ahead log error"
    }

    /// Whether retrying cannot help. Corruption is fatal: the bytes are already
    /// damaged. The other errors are left for the caller to judge.
    pub fn is_fatal(&self) -> (fatal: bool)
        ensures
            fatal == (*self is Corruption),
    {
        match self {
            WalError::Corruption { .. } => true,
            _ => false,
        }
    }

    /// The message of the error.
    pub fn to_string(&self) -> (text: String)
        ensures
            match *self {
                WalError::Io { context, source } => exists|cause: Seq<char>| #[trigger]
                    reads_as(source, cause) && text@ == io_message(context@, cause),
                WalError::RecordTooLarge { len, max } => text@ == "record of "@ + decimal(
                    len as nat,
                ) + " bytes exceeds the maximum of "@ + decimal(max as nat) + " bytes"@,
                WalError::Corruption { offset, reason } => text@
                    == "log corruption at byte offset "@ + decimal(offset as nat) + ": "@ + reason@,
                WalError::Encoding { detail } => text@ == "typed record codec error: "@ + detail@,
            },
    {
        let mut text = String::new();
        match self {
            WalError::Io { context, source } => {
                let cause = io_error_text(source);
                push_io_message(&mut text, context, cause.as_str());
                assert(text@ =~= io_message(context@, cause@));
                assert(reads_as(*source, cause@));
            },
            WalError::RecordTooLarge { len, max } => {
                text.append("record of ");
                push_decimal(&mut text, *len as u64);
                text.append(" bytes exceeds the maximum of ");
                push_decimal(&mut text, *max as u64);
                text.append(" bytes");
                assert(text@ =~= "record of "@ + decimal(*len as nat)
                    + " bytes exceeds the maximum of "@ + decimal(*max as nat) + " bytes"@);
            },
            WalError::Corruption { offset, reason } => {
                text.append("log corruption at byte offset ");
                push_decimal(&mut text, *offset);
                text.append(": ");
                text.append(reason);
                assert(text@ =~= "log corruption at byte offset "@ + decimal(*offset as nat) + ": "@
                    + reason@);
            },
            WalError::Encoding { detail } => {
                text.append("typed record codec error: ");
                text.append(detail.as_str());
                assert(text@ =~= "typed record codec error: "@ + detail@);
            },
        }
        text
    }
}

/// A bare I/O error becomes an I/O error of the log with a generic context.
impl From<std::io::Error> for WalError {
    fn from(source: std::io::Error) -> (error: Self) {
        WalError::Io { context: "performing a log i/o operation", source }
    }
}

impl vstd::std_specs::convert::FromSpecImpl<std::io::Error> for WalError {
    open spec fn obeys_from_spec() -> bool {
        true
    }

    open spec fn from_spec(source: std::io::Error) -> Self {
        WalError::Io { context: "performing a log i/o operation", source }
    }
}

/// The message of an I/O error names what was tried, then the cause in full.
pub proof fn io_messages_name_context_and_cause(context: Seq<char>, cause: Seq<char>)
    ensures
        io_message(context, cause) == "i/o error while "@ + context + ": "@ + cause,
{
}

/// An I/O error of the log's own making is one with that context and that cause.
pub proof fn own_errors_carry_their_message(
    error: WalError,
    context: &'static str,
    message: &'static str,
)
    ensures
        is_own_io(error, context, message) <==> error is Io && error->context == context
            && is_made_of(error->source, message),
{
}

/// An error is made of a message only by the call that makes one of it.
proof fn made_of_is_what_was_made(error: std::io::Error, message: &'static str)
    ensures
        is_made_of(error, message) <==> call_ensures(other_io_error, (message,), error),
{
}

/// An error reads as nothing but the text that it displays as.
proof fn read_is_what_is_displayed(error: std::io::Error, text: Seq<char>)
    ensures
        reads_as(error, text) <==> exists|cause: String| #[trigger]
            call_ensures(io_error_text, (&error,), cause) && text == cause@,
{
}

/// A bare I/O error keeps its cause and gets a generic context.
pub proof fn bare_errors_keep_their_cause(source: std::io::Error)
    ensures
        <WalError as FromSpec<std::io::Error>>::from_spec(source) is Io,
        <WalError as FromSpec<std::io::Error>>::from_spec(source)->source == source,
        <WalError as FromSpec<std::io::Error>>::from_spec(source)->context
            == "performing a log i/o operation",
{
}

} // verus!
