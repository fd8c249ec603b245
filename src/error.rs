//! The kinds of error that the engine reports, each with its message.
use vstd::prelude::*;

verus! {

/// A kind of error, with its message.
#[derive(Debug, Clone, PartialEq, Eq)]
pub enum AET {
    ValueError(String),
    DataError(String),
    IOError(String),
    NetworkError(String),
    ModError(String),
    ModConflict(String),
}

impl AET {
    /// The message carried by the error.
    pub fn message(&self) -> (r: &String)
        ensures
            match self {
                AET::ValueError(m) => r == m,
                AET::DataError(m) => r == m,
                AET::IOError(m) => r == m,
                AET::NetworkError(m) => r == m,
                AET::ModError(m) => r == m,
                AET::ModConflict(m) => r == m,
            },
    {
        match self {
            AET::ValueError(m) => m,
            AET::DataError(m) => m,
            AET::IOError(m) => m,
            AET::NetworkError(m) => m,
            AET::ModError(m) => m,
            AET::ModConflict(m) => m,
        }
    }
}

} // verus!
