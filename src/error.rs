use vstd::prelude::*;

verus! {

/// A dictionary key that the model builders recognise.
#[derive(Debug, Clone, Copy, PartialEq, Eq, Structural)]
pub enum Field {
    Announce,
    Info,
    AnnounceList,
    Comment,
    CreatedBy,
    CreationDate,
    Encoding,
    HttpSeeds,
    Length,
    Name,
    PieceLength,
    Pieces,
}

/// Why a decode failed; offsets are byte positions in the input.
#[derive(Debug, Clone, Copy, PartialEq, Eq, Structural)]
pub enum DecodeError {
    /// An integer token with bad syntax or out of the signed 64-bit range.
    MalformedInteger { offset: usize },
    /// A byte-string length prefix with bad syntax (or an unknown leading byte).
    MalformedLength { offset: usize },
    /// The input ended in the middle of a value.
    UnexpectedEndOfInput { offset: usize },
    /// A dictionary key that is not a byte-string.
    InvalidDictionaryKey { offset: usize },
    /// Lists and dictionaries nested deeper than the decoder allows.
    RecursionLimitExceeded { offset: usize },
    /// The top-level value is not a dictionary.
    NotADictionary { offset: usize },
    /// A required key is absent.
    MissingField { field: Field },
    /// A recognised key holds a value of the wrong kind.
    WrongFieldType { field: Field },
}

} // verus!
