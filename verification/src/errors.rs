//! Errors of fetching data and of running the planner.
use vstd::prelude::*;

verus! {

/// `std::io::Error`, carried by `ESIError::IoError`.
#[verifier::external_type_specification]
#[verifier::external_body]
pub struct ExIoError(std::io::Error);

/// Failure to get the market or universe data.
#[derive(Debug)]
pub enum ESIError {
    RequestError,
    IoError(std::io::Error),
    InvalidData,
}

/// Failure of the planner as a whole.
#[derive(Debug, Clone, Copy, PartialEq, Eq, Structural)]
pub enum EvetradeError {
    ESIError,
    IOError,
    ConfigError,
}

/// Text of an input/output error, made by `ToString::to_string` on
/// `std::io::Error` (its `Display`). Nothing is claimed of the text.
#[verifier::external_body]
fn io_error_text(err: &std::io::Error) -> String {
    err.to_string()
}

impl ESIError {
    /// Describes the error, as it is shown to the user.
    pub fn message(&self) -> (s: String)
        ensures
            self is RequestError ==> s@ == "Request error"@,
            self is InvalidData ==> s@ == "Invalid data"@,
            self is IoError ==> s@.len() >= 10 && s@.subrange(0, 10) == "IO error: "@,
    {
        match self {
            ESIError::RequestError => String::from_str("Request error"),
            ESIError::IoError(err) => {
                let mut s = String::from_str("IO error: ");
                let text = io_error_text(err);
                s.append(text.as_str());
                proof {
                    reveal_strlit("IO error: ");
                    assert(s@.subrange(0, 10) =~= "IO error: "@);
                }
                s
            },
            ESIError::InvalidData => String::from_str("Invalid data"),
        }
    }
}

impl From<std::io::Error> for ESIError {
    fn from(err: std::io::Error) -> ESIError {
        ESIError::IoError(err)
    }
}

impl vstd::std_specs::convert::FromSpecImpl<std::io::Error> for ESIError {
    open spec fn obeys_from_spec() -> bool {
        true
    }

    open spec fn from_spec(v: std::io::Error) -> ESIError {
        ESIError::IoError(v)
    }
}

impl EvetradeError {
    /// Describes the error, as it is shown to the user.
    pub fn message(&self) -> (s: String)
        ensures
            *self == EvetradeError::ESIError ==> s@ == "Failed to perform API requests!"@,
            *self == EvetradeError::IOError ==> s@ == "Failed to save routes!"@,
            *self == EvetradeError::ConfigError ==> s@ == "Failed to load the configuration file!"@,
    {
        match self {
            EvetradeError::ESIError => String::from_str("Failed to perform API requests!"),
            EvetradeError::IOError => String::from_str("Failed to save routes!"),
            EvetradeError::ConfigError => String::from_str("Failed to load the configuration file!"),
        }
    }
}

} // verus!
