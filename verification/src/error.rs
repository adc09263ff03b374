//! Errors returned by database operations.

use vstd::prelude::*;
use vstd::string::StringExecFns;

use crate::text::append_decimal;
#[allow(unused_imports)]
use crate::text::decimal;

verus! {

/// `std::io::Error`, carried through unread.
#[verifier::external_type_specification]
#[verifier::external_body]
pub struct ExIoError(std::io::Error);

/// A precise failure category for database configuration, storage, and lifecycle operations.
#[derive(Debug)]
pub enum Error {
    /// An operating-system or filesystem operation failed.
    Io(std::io::Error),
    /// The requested configuration cannot form a valid persistent layout.
    InvalidConfig(&'static str),
    /// A key does not match the width fixed at database creation.
    InvalidKeyLength { expected: usize, actual: usize },
    /// A required in-memory allocation failed.
    OutOfMemory,
    /// A fixed-capacity storage area has no remaining space.
    CapacityExhausted(&'static str),
    /// Persistent data violates a format or checksum invariant.
    Corrupt(&'static str),
    /// An exclusive lifecycle operation is already active.
    Busy(&'static str),
    /// The requested operation used a closed lifecycle state.
    Closed,
    /// The selected mode or platform does not support the operation.
    Unsupported(&'static str),
}

impl From<std::io::Error> for Error {
    fn from(error: std::io::Error) -> (e: Error) {
        Error::Io(error)
    }
}

impl vstd::std_specs::convert::FromSpecImpl<std::io::Error> for Error {
    open spec fn obeys_from_spec() -> bool {
        true
    }

    open spec fn from_spec(error: std::io::Error) -> Error {
        Error::Io(error)
    }
}

/// Describes an error of the operating system with its `Display`.
///
/// Trusted: nothing is claimed of the text, which the platform chooses.
#[verifier::external_body]
fn io_text(error: &std::io::Error) -> (text: String) {
    error.to_string()
}

/// Whether a text is the description of an error. Of an error of the operating
/// system only the beginning is fixed.
pub open spec fn describes(text: Seq<char>, error: Error) -> bool {
    match error {
        Error::Io(_) => "I/O error: "@.is_prefix_of(text),
        Error::InvalidConfig(message) => text == "invalid configuration: "@ + message@,
        Error::InvalidKeyLength { expected, actual } => text == "invalid key length: expected "@
            + decimal(expected as nat) + ", got "@ + decimal(actual as nat),
        Error::OutOfMemory => text == "memory allocation failed"@,
        Error::CapacityExhausted(area) => text == area@ + " capacity exhausted"@,
        Error::Corrupt(message) => text == "database is corrupt: "@ + message@,
        Error::Busy(message) => text == "database is busy: "@ + message@,
        Error::Closed => text == "database is closed"@,
        Error::Unsupported(message) => text == "unsupported operation: "@ + message@,
    }
}

impl Error {
    /// Describes the failure in one sentence.
    pub fn message(&self) -> (text: String)
        ensures
            describes(text@, *self),
    {
        match self {
            Error::Io(error) => {
                let text = "I/O error: ".to_owned().concat(io_text(error).as_str());
                assert("I/O error: "@ =~= text@.take("I/O error: "@.len() as int));
                text
            },
            Error::InvalidConfig(message) => "invalid configuration: ".to_owned().concat(message),
            Error::InvalidKeyLength { expected, actual } => {
                let mut text = "invalid key length: expected ".to_owned();
                append_decimal(&mut text, *expected as u64);
                text.append(", got ");
                append_decimal(&mut text, *actual as u64);
                text
            },
            Error::OutOfMemory => "memory allocation failed".to_owned(),
            Error::CapacityExhausted(area) => (*area).to_owned().concat(
                " capacity exhausted",
            ),
            Error::Corrupt(message) => "database is corrupt: ".to_owned().concat(message),
            Error::Busy(message) => "database is busy: ".to_owned().concat(message),
            Error::Closed => "database is closed".to_owned(),
            Error::Unsupported(message) => "unsupported operation: ".to_owned().concat(message),
        }
    }
}

/// How errors are described: each kind in words of its own, around what the error tells.
pub proof fn law_descriptions(text: Seq<char>, error: Error)
    requires
        describes(text, error),
    ensures
        error matches Error::Io(_) ==> text.take(11) == "I/O error: "@,
        error matches Error::InvalidConfig(rule) ==> text.take(23) == "invalid configuration: "@
            && text.skip(23) == rule@,
        error matches Error::CapacityExhausted(area) ==> text.take(area@.len() as int) == area@
            && text.skip(area@.len() as int) == " capacity exhausted"@,
        error matches Error::Corrupt(reason) ==> text.take(21) == "database is corrupt: "@
            && text.skip(21) == reason@,
        error matches Error::Busy(reason) ==> text.take(18) == "database is busy: "@ && text.skip(
            18,
        ) == reason@,
        error matches Error::Unsupported(reason) ==> text.take(23) == "unsupported operation: "@
            && text.skip(23) == reason@,
        error is OutOfMemory ==> text == "memory allocation failed"@,
        error is Closed ==> text == "database is closed"@,
        error matches Error::InvalidKeyLength { expected, actual } ==> text
            == "invalid key length: expected "@ + decimal(expected as nat) + ", got "@ + decimal(
            actual as nat,
        ),
{
    reveal_strlit("I/O error: ");
    reveal_strlit("invalid configuration: ");
    reveal_strlit("database is corrupt: ");
    reveal_strlit("database is busy: ");
    reveal_strlit("unsupported operation: ");
    match error {
        Error::Io(_) => {
            assert(text.take(11) =~= "I/O error: "@);
        },
        Error::InvalidConfig(rule) => {
            assert(text.take(23) =~= "invalid configuration: "@);
            assert(text.skip(23) =~= rule@);
        },
        Error::CapacityExhausted(area) => {
            assert(text.take(area@.len() as int) =~= area@);
            assert(text.skip(area@.len() as int) =~= " capacity exhausted"@);
        },
        Error::Corrupt(reason) => {
            assert(text.take(21) =~= "database is corrupt: "@);
            assert(text.skip(21) =~= reason@);
        },
        Error::Busy(reason) => {
            assert(text.take(18) =~= "database is busy: "@);
            assert(text.skip(18) =~= reason@);
        },
        Error::Unsupported(reason) => {
            assert(text.take(23) =~= "unsupported operation: "@);
            assert(text.skip(23) =~= reason@);
        },
        _ => {},
    }
}

} // verus!
