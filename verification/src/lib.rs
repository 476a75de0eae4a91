//! Resolves free-form, possibly misspelled scripture references (such as
//! "Jon 3:16" or "1 smauel 2") into a canonical book with an optional
//! chapter and verse. A linear-scan approximate edit distance scores each
//! candidate name, a nearest-match resolver picks the best one, and a
//! reference parser splits the input into book, chapter and verse parts.

pub mod edit_distance;
pub mod reference;
pub mod tokenizer;
