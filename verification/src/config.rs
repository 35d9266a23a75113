//! Why a configuration is refused before any input is touched.
use vstd::prelude::*;
use vstd::string::StringExecFns;

verus! {

/// A configuration for which no run can be planned.
#[derive(Debug)]
pub enum ConfigError {
    /// Numbering of all lines and of non-blank lines were both asked for.
    NumberingConflict,
    /// A line limit and a byte limit were both given.
    LimitConflict,
    /// The line limit is not a positive integer; the value is kept.
    IllegalLineCount(String),
    /// The byte limit is not a positive integer; the value is kept.
    IllegalByteCount(String),
}

/// The message for an error.
pub open spec fn message_of(e: ConfigError) -> Seq<char> {
    match e {
        ConfigError::NumberingConflict =>
            "the argument '--number' cannot be used with '--number-nonblank'"@,
        ConfigError::LimitConflict => "the argument '--lines' cannot be used with '--bytes'"@,
        ConfigError::IllegalLineCount(value) => "illegal line count -- "@ + value@,
        ConfigError::IllegalByteCount(value) => "illegal byte count -- "@ + value@,
    }
}

impl ConfigError {
    /// The message to show for this error.
    pub fn message(&self) -> (text: String)
        ensures
            text@ == message_of(*self),
    {
        match self {
            ConfigError::NumberingConflict => String::from_str(
                "the argument '--number' cannot be used with '--number-nonblank'",
            ),
            ConfigError::LimitConflict => String::from_str(
                "the argument '--lines' cannot be used with '--bytes'",
            ),
            ConfigError::IllegalLineCount(value) => String::from_str(
                "illegal line count -- ",
            ).concat(value.as_str()),
            ConfigError::IllegalByteCount(value) => String::from_str(
                "illegal byte count -- ",
            ).concat(value.as_str()),
        }
    }
}

} // verus!
