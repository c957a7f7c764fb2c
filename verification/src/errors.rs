use vstd::prelude::*;

verus! {

/// The failures the library reports.  Cipher errors are returned as values,
/// never raised: the block-level functions assume pre-validated fixed-size
/// inputs and have no error path of their own.
#[derive(Debug, Clone, PartialEq, Eq)]
pub enum CipherError {
    /// An input buffer whose length is not a multiple of 8 bytes, or a key
    /// that is not exactly 32 bytes; carries the offending length.
    InvalidLength(usize),
    /// A text token that is not a decimal value between 0 and 255; carries
    /// the offending token.
    ParseFailure(String),
}

} // verus!
