use vstd::prelude::*;

verus! {

/// The errors the tokenizer surfaces to its callers.
#[derive(Debug, Clone, Copy, PartialEq, Eq, Structural)]
pub enum TokenizerError {
    /// A token id at or beyond the current vocabulary size was looked up.
    OutOfRange,
    /// Adding one more token would exceed the representable range of `Token`;
    /// the store is left unchanged.
    Configuration,
    /// A token stream ended in the middle of a multi-byte character.
    MalformedSequence,
    /// The persisted buffer is truncated or malformed: `expected` bytes were
    /// needed at some point where only `available` remained.
    Deserialization { expected: usize, available: usize },
}

} // verus!
