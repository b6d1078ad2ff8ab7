use vstd::prelude::*;

verus! {

/// The ways in which a call can violate the shape of a store.
#[derive(Clone, Copy, Debug, PartialEq, Eq, Structural)]
pub enum Error {
    /// A row was offered whose length is not the store's column count.
    ShapeMismatch,
    /// A column number was named that is not below the column count.
    InvalidColumn,
}

impl Error {
    /// A short description for messages.
    pub fn message(&self) -> (s: &'static str)
        ensures
            s@ == (match *self {
                Error::ShapeMismatch => "row length differs from the column count"@,
                Error::InvalidColumn => "column number out of range"@,
            }),
    {
        match self {
            Error::ShapeMismatch => "row length differs from the column count",
            Error::InvalidColumn => "column number out of range",
        }
    }
}

} // verus!
