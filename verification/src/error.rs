use vstd::prelude::*;

verus! {

/// Why an operation on filters failed.
#[derive(Clone, Copy, Debug, PartialEq, Eq, Structural)]
pub enum Error {
    /// The text is no filter and no workspace file.
    ParseError,
    /// The filter has no inverse.
    IrreversibleFilter,
    /// The store does not hold an object that is needed.
    StoreError,
    /// The glob of a filter cannot be used.
    InvalidPattern,
}

/// Why a filter makes nothing definite of its input: it fails with an error, or what it
/// makes is open, because a glob meets a backslash, which some platforms read as a path
/// separator and others as a character like any other.
pub enum Fault {
    /// The filter fails with this error.
    Is(Error),
    /// What the filter makes depends on the platform.
    Open,
}

/// Whether what a filter makes is open.
pub open spec fn open<T>(s: Result<T, Fault>) -> bool {
    s matches Err(Fault::Open)
}

impl Error {
    /// What went wrong, in words.
    pub fn message(&self) -> (r: &'static str)
        ensures
            r@ == match *self {
                Error::ParseError => "invalid filter"@,
                Error::IrreversibleFilter => "filter not reversible"@,
                Error::StoreError => "object missing from the store"@,
                Error::InvalidPattern => "invalid glob"@,
            },
    {
        match self {
            Error::ParseError => "invalid filter",
            Error::IrreversibleFilter => "filter not reversible",
            Error::StoreError => "object missing from the store",
            Error::InvalidPattern => "invalid glob",
        }
    }
}

} // verus!
