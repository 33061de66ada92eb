//! Core of a Japanese morphological analyzer: a Viterbi lattice over
//! codepoint boundaries with an optional whitespace-bridging transition,
//! and an enumerator for alternative segmentations whose concatenated
//! readings match a target string.


pub mod connect;
pub mod fmt;
pub mod grammar;
pub mod input;
pub mod lexicon;
pub mod normalize;
pub mod reading_candidates;
pub mod word_info;
pub mod error;
pub mod lattice;
pub mod node;
pub mod word_id;
pub mod word_ids;
