//! Errors of the protocol.
use vstd::prelude::*;
use crate::numbers::{IntErrorKind, FloatErrorKind};
use crate::text::push_str;

verus! {

/// Why one field of a quote line could not be read.
#[derive(Clone, Copy, Debug, PartialEq, Eq)]
pub enum FieldError {
    /// As an unsigned integer.
    Int(IntErrorKind),
    /// As a float.
    Float(FloatErrorKind),
}

/// Why a quote line could not be read.
#[derive(Debug, PartialEq, Eq)]
pub enum ParseError {
    /// The line does not hold four `|`-separated fields; the line as received.
    EmptyField(String),
    /// A field does not hold a value of its type.
    InvalidField { field: &'static str, value: String, source: FieldError },
}

/// Why a command was refused.
#[derive(Debug, PartialEq, Eq)]
pub enum CommandError {
    UnknownCommand(String),
    InvalidUdpAddr,
    InvalidStreamArgs,
    InvalidPingArgs,
    EmptyTicker,
    UnknownTicker(String),
}

/// A [`CommandError`] as values of the specification.
pub enum CommandErrorView {
    UnknownCommand(Seq<char>),
    InvalidUdpAddr,
    InvalidStreamArgs,
    InvalidPingArgs,
    EmptyTicker,
    UnknownTicker(Seq<char>),
}

impl View for CommandError {
    type V = CommandErrorView;

    open spec fn view(&self) -> CommandErrorView {
        match self {
            CommandError::UnknownCommand(s) => CommandErrorView::UnknownCommand(s@),
            CommandError::InvalidUdpAddr => CommandErrorView::InvalidUdpAddr,
            CommandError::InvalidStreamArgs => CommandErrorView::InvalidStreamArgs,
            CommandError::InvalidPingArgs => CommandErrorView::InvalidPingArgs,
            CommandError::EmptyTicker => CommandErrorView::EmptyTicker,
            CommandError::UnknownTicker(s) => CommandErrorView::UnknownTicker(s@),
        }
    }
}

/// The text that describes a refused command.
pub open spec fn error_message(e: CommandErrorView) -> Seq<char> {
    match e {
        CommandErrorView::UnknownCommand(s) => "command `"@ + s + "` not found"@,
        CommandErrorView::InvalidUdpAddr => "invalid socket address syntax"@,
        CommandErrorView::InvalidStreamArgs => "invalid STREAM args. Use STREAM <udp_addr> <ticker...>"@,
        CommandErrorView::InvalidPingArgs => "invalid PING args. Use PING <udp_addr>"@,
        CommandErrorView::EmptyTicker => "empty ticker list"@,
        CommandErrorView::UnknownTicker(s) => "ticker "@ + s + " not found in database"@,
    }
}

impl CommandError {
    /// The text that describes the error.
    pub fn message(&self) -> (r: String)
        ensures
            r@ == error_message(self@),
    {
        let mut r = String::new();
        match self {
            CommandError::UnknownCommand(s) => {
                push_str(&mut r, "command `");
                push_str(&mut r, s.as_str());
                push_str(&mut r, "` not found");
            },
            CommandError::InvalidUdpAddr => push_str(&mut r, "invalid socket address syntax"),
            CommandError::InvalidStreamArgs => push_str(
                &mut r,
                "invalid STREAM args. Use STREAM <udp_addr> <ticker...>",
            ),
            CommandError::InvalidPingArgs => push_str(&mut r, "invalid PING args. Use PING <udp_addr>"),
            CommandError::EmptyTicker => push_str(&mut r, "empty ticker list"),
            CommandError::UnknownTicker(s) => {
                push_str(&mut r, "ticker ");
                push_str(&mut r, s.as_str());
                push_str(&mut r, " not found in database");
            },
        }
        r
    }
}

} // verus!
