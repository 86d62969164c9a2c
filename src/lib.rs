//! Anagram sentences: every way to spell the letters of a phrase as a
//! sequence of dictionary words, one representative per set of words,
//! ranked by word count.
pub mod dictionary;
pub mod words;
pub mod input;
pub mod search;
pub mod rank;
