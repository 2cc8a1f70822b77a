//! Builds language-learning flashcards from a raw text corpus.
//!
//! The heart of the crate is an append-only, byte-range-addressed record
//! store together with a tokenization and classification pass that scans a
//! corpus once and builds, for every vocabulary entry, the list of corpus
//! locations where it is the hardest word of a qualifying sentence.

pub mod corpus;
pub mod deck;
pub mod file_db;
pub mod lexicon;
pub mod text;
