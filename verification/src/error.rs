//! The error type shared by every module.
use vstd::prelude::*;

use crate::text::Message;

verus! {

/// `std::io::Error`, carried through as an opaque value.
#[verifier::external_type_specification]
#[verifier::external_body]
pub struct ExIoError(std::io::Error);

/// `serde_json::Error`, carried through as an opaque value.
#[verifier::external_type_specification]
#[verifier::external_body]
pub struct ExJsonError(serde_json::Error);

/// Errors that may occur while querying a Minecraft server.
#[derive(Debug)]
pub enum PingError {
    /// Network I/O error: connection failure, timeout, malformed read or write.
    Io(std::io::Error),
    /// JSON parsing error (Java status response).
    Json(serde_json::Error),
    /// Protocol format error: a field is missing, mistyped or out of range.
    Protocol(String),
}

/// `std::io::Error`'s `Display` text. Nothing is said of it: the system words it.
#[verifier::external_body]
pub(crate) fn io_error_text(e: &std::io::Error) -> String {
    e.to_string()
}

/// `serde_json::Error`'s `Display` text. Nothing is said of it: it depends on what was parsed,
/// which the error does not carry.
#[verifier::external_body]
fn json_error_text(e: &serde_json::Error) -> String {
    e.to_string()
}

/// The words before an error's own text.
pub open spec fn error_prefix(e: PingError) -> Seq<char> {
    match e {
        PingError::Io(_) => "network I/O error: "@,
        PingError::Json(_) => "JSON error: "@,
        PingError::Protocol(_) => "protocol error: "@,
    }
}

impl PingError {
    /// The error as text.
    pub fn message(&self) -> (r: String)
        ensures
            error_prefix(*self).is_prefix_of(r@),
            self matches PingError::Protocol(s) ==> r@ == error_prefix(*self) + s@,
    {
        match self {
            PingError::Io(e) => {
                let t = io_error_text(e);
                let m = Message::new("network I/O error: ").text(t.as_str()).done();
                assert(m@.take(error_prefix(*self).len() as int) == error_prefix(*self));
                m
            },
            PingError::Json(e) => {
                let t = json_error_text(e);
                let m = Message::new("JSON error: ").text(t.as_str()).done();
                assert(m@.take(error_prefix(*self).len() as int) == error_prefix(*self));
                m
            },
            PingError::Protocol(s) => {
                let m = Message::new("protocol error: ").text(s.as_str()).done();
                assert(m@.take(error_prefix(*self).len() as int) == error_prefix(*self));
                m
            },
        }
    }

    /// A protocol error with exactly the message `m`.
    pub open spec fn says(self, m: Seq<char>) -> bool {
        self matches PingError::Protocol(s) && s@ == m
    }
}

/// A `Result` and its model: the same value, or a protocol error whose message is the
/// modelled one.
pub open spec fn agrees<T>(r: Result<T, PingError>, model: Result<T, Seq<char>>) -> bool {
    match (r, model) {
        (Ok(a), Ok(b)) => a == b,
        (Err(e), Err(m)) => e.says(m),
        _ => false,
    }
}

/// Errors of different kinds begin with different words.
pub proof fn law_error_prefixes_differ(a: PingError, b: PingError)
    requires
        error_prefix(a) == error_prefix(b),
    ensures
        a is Io <==> b is Io,
        a is Json <==> b is Json,
        a is Protocol <==> b is Protocol,
{
    reveal_strlit("network I/O error: ");
    reveal_strlit("JSON error: ");
    reveal_strlit("protocol error: ");
    assert("network I/O error: "@.len() == 19);
    assert("JSON error: "@.len() == 12);
    assert("protocol error: "@.len() == 16);
}

} // verus!
