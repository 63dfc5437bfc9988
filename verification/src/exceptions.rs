use vstd::prelude::*;

verus! {

/// The ways in which reading or decoding a symbol can fail.
#[derive(Debug, Clone, Copy, PartialEq, Eq, Structural)]
pub enum Exceptions {
    /// No symbol of the expected kind was found.
    NotFoundException,
    /// A symbol was found but its content breaks the encoding rules.
    FormatException,
    /// A symbol was found but its check characters do not match.
    ChecksumException,
    /// A value lies outside the range the operation accepts.
    IllegalArgumentException,
    /// No valid interpretation of the input exists.
    IllegalStateException,
}

} // verus!
