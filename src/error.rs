use vstd::prelude::*;

verus! {

/// Why building or restoring a chain failed.
#[derive(Debug, PartialEq, Eq)]
pub enum ChainError {
    /// The training word at `index` contains the word-boundary character.
    BoundaryInWord { index: usize },
    /// The training word at `index` is empty.
    EmptyWord { index: usize },
    /// The training corpus holds no word.
    EmptyCorpus,
    /// The training corpus holds more distinct characters than a matrix can index.
    AlphabetTooLarge,
    /// The serialized data does not have the length its header announces.
    SizeMismatch,
    /// The vertex table of the serialized data is not valid UTF-8.
    InvalidUtf8,
    /// The vertex table is empty, repeats a character or lacks the boundary.
    InvalidVertices,
    /// Writing the chain to `path` failed; `cause` describes the I/O failure.
    SavingError { path: String, cause: String },
    /// Reading the chain from `path` failed; `cause` describes the I/O failure.
    LoadingError { path: String, cause: String },
}

} // verus!
