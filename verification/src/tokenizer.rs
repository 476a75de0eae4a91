use vstd::prelude::*;

verus! {

/// Splits scripture body text into tokens for indexing; not for parsing
/// passage references.
#[derive(Debug)]
pub struct Tokenizer<'a> {
    input: &'a str,
}

impl<'a> Tokenizer<'a> {
    /// Wraps the text that a later tokenization pass will work on.
    pub fn new(input: &'a str) -> Tokenizer<'a> {
        Tokenizer { input }
    }

    /// Tokenization itself is not implemented yet; this does nothing.
    pub fn tokenize(&self) {
    }
}

} // verus!
