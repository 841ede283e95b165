//! The externally observable events of the streaming parser, together with
//! their specification-level models.
//!
//! Each event of a tool span carries the identifier minted at its start, so a
//! consumer can correlate the start, the consolidated parameter mapping and
//! the end of one call.

use vstd::prelude::*;
use vstd::string::StringExecFns;
use crate::args::ToolArguments;

verus! {

/// The structural failures the parser reports in band.
#[derive(Debug, Clone, PartialEq, Eq)]
pub enum ParseErrorKind {
    /// A closing tag matched neither the open parameter nor the open tool.
    MismatchedEndTag { expected: String, found: String },
    /// Input ended inside a parameter value.
    UnexpectedEof,
    /// A tag name grew past the configured cap.
    InvalidStructure,
    /// A parameter value grew past the configured cap.
    ValueTooLarge,
    /// Bytes that are not valid UTF-8 reached the parser.
    InvalidEncoding,
}

/// Model of [`ParseErrorKind`].
pub ghost enum ErrorKindM {
    MismatchedEndTag { expected: Seq<char>, found: Seq<char> },
    UnexpectedEof,
    InvalidStructure,
    ValueTooLarge,
    InvalidEncoding,
}

impl View for ParseErrorKind {
    type V = ErrorKindM;

    open spec fn view(&self) -> ErrorKindM {
        match self {
            ParseErrorKind::MismatchedEndTag { expected, found } => ErrorKindM::MismatchedEndTag {
                expected: expected@,
                found: found@,
            },
            ParseErrorKind::UnexpectedEof => ErrorKindM::UnexpectedEof,
            ParseErrorKind::InvalidStructure => ErrorKindM::InvalidStructure,
            ParseErrorKind::ValueTooLarge => ErrorKindM::ValueTooLarge,
            ParseErrorKind::InvalidEncoding => ErrorKindM::InvalidEncoding,
        }
    }
}

/// The description of an error kind, one line of plain words.
pub open spec fn message_chars(k: ErrorKindM) -> Seq<char> {
    match k {
        ErrorKindM::MismatchedEndTag { expected, found } => "expected end tag "@ + expected
            + ", found "@ + found,
        ErrorKindM::UnexpectedEof => "unexpected end of input"@,
        ErrorKindM::InvalidStructure => "invalid structure"@,
        ErrorKindM::ValueTooLarge => "parameter value too large"@,
        ErrorKindM::InvalidEncoding => "invalid character encoding"@,
    }
}

impl ParseErrorKind {
    /// Renders the error as a line of plain words.
    pub fn message(&self) -> (r: String)
        ensures
            r@ == message_chars(self@),
    {
        match self {
            ParseErrorKind::MismatchedEndTag { expected, found } => {
                let mut s = String::from_str("expected end tag ");
                s.append(expected.as_str());
                s.append(", found ");
                s.append(found.as_str());
                s
            },
            ParseErrorKind::UnexpectedEof => String::from_str("unexpected end of input"),
            ParseErrorKind::InvalidStructure => String::from_str("invalid structure"),
            ParseErrorKind::ValueTooLarge => String::from_str("parameter value too large"),
            ParseErrorKind::InvalidEncoding => String::from_str("invalid character encoding"),
        }
    }
}

/// One externally observable item of the event stream.
#[derive(Debug, Clone, PartialEq, Eq)]
pub enum ToolCallEvent {
    /// One user-perceived character of prose outside any tool element.
    Text(String),
    /// An opening tag seen outside any tool: a tool call begins.
    ToolStart { id: String, name: String },
    /// The consolidated parameter mapping of the span, emitted at its close.
    Parameter { id: String, arguments: ToolArguments },
    /// The tool call ended.
    ToolEnd { id: String },
    /// A structural failure; prose continues to flow after it.
    Error(ParseErrorKind),
}

/// Model of [`ToolCallEvent`].
pub ghost enum EventM {
    Text(Seq<char>),
    ToolStart { id: Seq<char>, name: Seq<char> },
    Parameter { id: Seq<char>, arguments: Seq<(Seq<char>, Seq<char>)> },
    ToolEnd { id: Seq<char> },
    Error(ErrorKindM),
}

impl View for ToolCallEvent {
    type V = EventM;

    open spec fn view(&self) -> EventM {
        match self {
            ToolCallEvent::Text(s) => EventM::Text(s@),
            ToolCallEvent::ToolStart { id, name } => EventM::ToolStart { id: id@, name: name@ },
            ToolCallEvent::Parameter { id, arguments } => EventM::Parameter {
                id: id@,
                arguments: arguments@,
            },
            ToolCallEvent::ToolEnd { id } => EventM::ToolEnd { id: id@ },
            ToolCallEvent::Error(k) => EventM::Error(k@),
        }
    }
}

/// The models of a sequence of events.
pub open spec fn views_of(evs: Seq<ToolCallEvent>) -> Seq<EventM> {
    evs.map_values(|e: ToolCallEvent| e@)
}

/// The failures a chunked event stream can end with, apart from the in-band
/// parse errors: a failing chunk source, or input that ends where more was
/// needed.
#[derive(Debug, Clone, PartialEq, Eq)]
pub enum ToolCallStreamError {
    /// The chunk source failed; carries its message.
    IoError(String),
    /// Input ended where more was needed.
    UnexpectedEof,
}

} // verus!
