//! Errors of configuration lookup.
use vstd::prelude::*;

verus! {

/// Why a configuration request failed; failures of decoding, of reading
/// files and of other libraries carry their message.
#[derive(Debug)]
pub enum ConfigurationError {
    Unknown,
    ModuleNotExists,
    SerdeError(String),
    IoError(String),
    StringError(String),
    AnyHowError(String),
}

pub type ConfigurationResult<T> = Result<T, ConfigurationError>;

} // verus!
