//! Post-processing for speech-to-text transcriptions.
//!
//! Two independent, total passes over a string:
//! - `correct::apply_custom_words` replaces likely mis-transcribed tokens
//!   with caller-supplied vocabulary entries, scored by a blend of
//!   normalized edit distance and Soundex agreement, preserving each
//!   token's case pattern and surrounding punctuation;
//! - `filter::filter_transcription_output` strips filler words, collapses
//!   stutter repetitions, and normalizes whitespace.
//!
//! `chars` models character classes and case mapping, `tokenize` handles
//! whitespace splitting and joining, `distance` the similarity measures,
//! and `laws` states and proves the passes' general properties.

pub mod chars;
pub mod correct;
pub mod distance;
pub mod filter;
pub mod laws;
pub mod tokenize;
