use vstd::prelude::*;

verus! {

/// What the library refuses, and why.
#[derive(Clone, Copy, Debug, PartialEq, Eq, Structural)]
pub enum Error {
    /// A hand string holds a character that is neither a suit letter nor a
    /// digit from one to nine.
    InvalidCharacter(char),
    /// A hand has neither 13 nor 14 tiles.
    InvalidHandLength(usize),
    /// The number of draws left is outside the rounds that the tables hold.
    InvalidDrawsLeft(usize),
    /// The tables do not number a hand: they are incomplete or stale.
    UnknownHand,
    /// The length of a flat file is no multiple of its record size.
    RecordSizeMismatch,
    /// A record index is not below the number of records.
    IndexOutOfBounds,
    /// A range of records ends before it starts or after the last record.
    InvalidRange,
    /// A run of records to overwrite reaches past the last record.
    RangeOutOfBounds,
}

} // verus!
