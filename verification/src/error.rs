use vstd::prelude::*;

verus! {

/// What went wrong while reading a duration string or registering a unit.
#[derive(Debug, PartialEq, Eq)]
pub enum Error {
    /// A character that is neither a digit, an ASCII letter, whitespace
    /// nor a comma.
    UnexpectedChar(char),
    /// A unit that the parser does not know (after lowercasing, where the
    /// parser ignores case).
    UnexpectedUnit(String),
    /// A number without a unit after it.
    ExpectedUnit,
    /// A unit without a number before it.
    ExpectedNumber,
    /// A number above `u32::MAX`, as written in the input.
    Overflow(String),
    /// A total above the longest `Duration`.
    DurationOverflow,
    /// A unit name that is empty or holds anything but ASCII letters.
    InvalidUnit(String),
}

/// The mathematical value of an [`Error`]: its strings as character sequences.
pub enum ErrorModel {
    UnexpectedChar(char),
    UnexpectedUnit(Seq<char>),
    ExpectedUnit,
    ExpectedNumber,
    Overflow(Seq<char>),
    DurationOverflow,
    InvalidUnit(Seq<char>),
}

impl View for Error {
    type V = ErrorModel;

    open spec fn view(&self) -> ErrorModel {
        match self {
            Error::UnexpectedChar(c) => ErrorModel::UnexpectedChar(*c),
            Error::UnexpectedUnit(s) => ErrorModel::UnexpectedUnit(s@),
            Error::ExpectedUnit => ErrorModel::ExpectedUnit,
            Error::ExpectedNumber => ErrorModel::ExpectedNumber,
            Error::Overflow(s) => ErrorModel::Overflow(s@),
            Error::DurationOverflow => ErrorModel::DurationOverflow,
            Error::InvalidUnit(s) => ErrorModel::InvalidUnit(s@),
        }
    }
}

} // verus!
