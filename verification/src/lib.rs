//! An anagram dictionary: words are grouped by their signature (the word's
//! characters lower-cased and sorted), and a query word returns the group of
//! dictionary words sharing its signature.

pub mod dictionary;
pub mod errors;
pub mod parse;
pub mod sig;
