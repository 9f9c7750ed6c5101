//! A byte-pair-encoding (BPE) subword tokenizer.
//!
//! The library learns merge rules from a corpus by repeatedly merging the
//! most frequent adjacent symbol pair, and replays those rules in learned
//! order to segment new text into subword tokens. A trained model can be
//! serialized to a plain text form and restored without any behavioral
//! change.

pub mod bpe;
pub mod laws;
pub mod merge;
pub mod serial;
pub mod text;
pub mod tokenizer;
