//! Token ids, their width, and the errors of the library.

use vstd::prelude::*;

verus! {

/// A token id. Ids are held in 32 bits; a vocabulary declares the width
/// that its ids must fit.
pub type TokenId = u32;

/// The declared width of a vocabulary's token ids.
#[derive(Clone, Copy, Debug, PartialEq, Eq, Structural)]
pub enum TokenWidth {
    /// Ids fit 16 bits.
    U16,
    /// Ids fit 32 bits.
    U32,
}

impl TokenWidth {
    /// The reserved value of this width: its maximum, which is no token's id
    /// and stands for "no such pair".
    pub open spec fn sentinel_spec(self) -> u32 {
        match self {
            TokenWidth::U16 => 0xFFFFu32,
            TokenWidth::U32 => 0xFFFF_FFFFu32,
        }
    }

    /// The reserved value of this width.
    #[verifier::when_used_as_spec(sentinel_spec)]
    pub fn sentinel(self) -> (s: u32)
        ensures
            s == self.sentinel_spec(),
    {
        match self {
            TokenWidth::U16 => 0xFFFFu32,
            TokenWidth::U32 => 0xFFFF_FFFFu32,
        }
    }
}

/// Why a vocabulary was refused at construction.
#[derive(Clone, Copy, Debug, PartialEq, Eq, Structural)]
pub enum VocabError {
    /// The byte table does not give every byte value a token.
    MissingByteFallback,
    /// An id does not fit the declared width.
    Capacity,
    /// A token id or a span is declared twice.
    DuplicateToken,
    /// A merge names a token that the vocabulary does not hold.
    UnknownToken,
    /// A merge's result does not spell the two parts, or ranks below both.
    MalformedMerge,
    /// A special token's span is empty or is also an ordinary token's span.
    MalformedSpecial,
}

/// Why a text could not be encoded.
#[derive(Clone, Copy, Debug, PartialEq, Eq, Structural)]
pub enum EncodeError {
    /// A special span's bytes are no special token of the vocabulary.
    UnknownSpecial,
}

} // verus!
