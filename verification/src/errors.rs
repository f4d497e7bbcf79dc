//! The error type shared by server and client, with the location of
//! the failure and an exact textual rendering.

use vstd::prelude::*;
use vstd::string::StringExecFns;

use crate::text::{all_digits, ascii_to_string, dec_bytes, lemma_dec_bytes_roundtrip, push_dec_u64};

verus! {

/// Location information for where an error occurred.
#[derive(Debug, Clone)]
pub struct ErrorLocation {
    pub file: &'static str,
    pub line: u32,
    pub column: u32,
}

/// Unified error type for the quote streaming system with location
/// tracking.
#[derive(Debug)]
pub enum QuoteError {
    IoError { source: String, context: String, location: ErrorLocation },
    ParseError { message: String, location: ErrorLocation },
    NetworkError { message: String, location: ErrorLocation },
    SerializationError { message: String, location: ErrorLocation },
    InvalidCommand { message: String, location: ErrorLocation },
    ConfigError { message: String, location: ErrorLocation },
}

/// The decimal rendering of `n` as characters.
pub open spec fn dec_chars(n: nat) -> Seq<char> {
    dec_bytes(n).map(|_i: int, b: u8| b as char)
}

/// `message (file:line:column)`.
pub open spec fn located_chars(message: Seq<char>, location: ErrorLocation) -> Seq<char> {
    message + " ("@ + location.file@ + ":"@ + dec_chars(location.line as nat) + ":"@ + dec_chars(
        location.column as nat,
    ) + ")"@
}

/// The textual rendering of an error: its category, its message, and
/// where it arose; an I/O error also names the underlying cause.
pub open spec fn error_chars(e: QuoteError) -> Seq<char> {
    match e {
        QuoteError::IoError { source, context, location } => "I/O error: "@ + located_chars(
            context@,
            location,
        ) + ": "@ + source@,
        QuoteError::ParseError { message, location } => "Parse error: "@ + located_chars(
            message@,
            location,
        ),
        QuoteError::NetworkError { message, location } => "Network error: "@ + located_chars(
            message@,
            location,
        ),
        QuoteError::SerializationError { message, location } => "Serialization error: "@
            + located_chars(message@, location),
        QuoteError::InvalidCommand { message, location } => "Invalid command: "@ + located_chars(
            message@,
            location,
        ),
        QuoteError::ConfigError { message, location } => "Configuration error: "@ + located_chars(
            message@,
            location,
        ),
    }
}

/// The decimal rendering of `n` as a `String`.
pub fn u32_string(n: u32) -> (r: String)
    ensures
        r@ == dec_chars(n as nat),
{
    let mut out: Vec<u8> = Vec::new();
    push_dec_u64(&mut out, n as u64);
    proof {
        lemma_dec_bytes_roundtrip(n as nat);
        assert(forall|i: int| 0 <= i < out@.len() ==> #[trigger] out@[i] < 128) by {
            assert(all_digits(out@));
        }
    }
    let r = ascii_to_string(out);
    proof {
        assert(r@ =~= dec_chars(n as nat));
    }
    r
}

impl QuoteError {
    /// The underlying cause: only an I/O error carries one.
    pub fn source(&self) -> (r: Option<&String>)
        ensures
            match self {
                QuoteError::IoError { source, .. } => r == Some(source),
                _ => r is None,
            },
    {
        match self {
            QuoteError::IoError { source, .. } => Some(source),
            _ => None,
        }
    }

    /// Renders the error as one line of text.
    pub fn display_string(&self) -> (r: String)
        ensures
            r@ == error_chars(*self),
    {
        let (prefix, message, location): (&str, &String, &ErrorLocation) = match self {
            QuoteError::IoError { context, location, .. } => ("I/O error: ", context, location),
            QuoteError::ParseError { message, location } => ("Parse error: ", message, location),
            QuoteError::NetworkError { message, location } => (
                "Network error: ",
                message,
                location,
            ),
            QuoteError::SerializationError { message, location } => (
                "Serialization error: ",
                message,
                location,
            ),
            QuoteError::InvalidCommand { message, location } => (
                "Invalid command: ",
                message,
                location,
            ),
            QuoteError::ConfigError { message, location } => (
                "Configuration error: ",
                message,
                location,
            ),
        };
        let mut out = String::new();
        out.append(prefix);
        out.append(message.as_str());
        out.append(" (");
        out.append(location.file);
        out.append(":");
        let line_s = u32_string(location.line);
        out.append(line_s.as_str());
        out.append(":");
        let col_s = u32_string(location.column);
        out.append(col_s.as_str());
        out.append(")");
        if let QuoteError::IoError { source, .. } = self {
            out.append(": ");
            out.append(source.as_str());
        }
        proof {
            assert(out@ =~= error_chars(*self));
        }
        out
    }
}

} // verus!
