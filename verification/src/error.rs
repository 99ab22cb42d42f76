use vstd::prelude::*;

verus! {

/// Why an operation of this library was refused.
#[derive(Clone, Copy, Debug, PartialEq, Eq, Structural)]
pub enum Error {
    /// The arguments of a clustering call do not describe a clustering:
    /// no cluster, more clusters than points, no restart, or no point.
    InvalidArgument,
    /// A normalized value was asked of a histogram without mass.
    DegenerateHistogram,
}

impl Error {
    /// The text that describes the error.
    pub open spec fn text(self) -> Seq<char> {
        match self {
            Error::InvalidArgument => "invalid argument"@,
            Error::DegenerateHistogram => "degenerate histogram"@,
        }
    }

    /// A short description of the error.
    pub fn message(&self) -> (r: &'static str)
        ensures
            r@ == self.text(),
    {
        match self {
            Error::InvalidArgument => "invalid argument",
            Error::DegenerateHistogram => "degenerate histogram",
        }
    }
}

} // verus!
