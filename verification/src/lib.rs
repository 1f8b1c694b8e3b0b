//! Text entry throughput: an information-theoretic measure of how fast a
//! text input method conveys what was presented.
//!
//! This library holds the exact part of the measure. It aligns a presented
//! text with its transcription at least cost ([`OptimalAlignments`]), counts
//! what the alignment shows ([`Transition`]), gives the probabilities of the
//! channel's errors as fractions of counts ([`Ratio`]), counts the symbols of a
//! source text ([`Frequencies`]) and keeps the symbols that a distribution
//! covers ([`Alphabet`]). Logarithms and floating-point sums are left to the
//! caller.

pub mod alignment;
pub mod alphabet;
pub mod distance;
pub mod distribution;
pub mod optimal_alignments;
pub mod ratio;
pub mod throughput;
pub mod total;

pub use crate::alignment::Transition;
pub use crate::alphabet::Alphabet;
pub use crate::distribution::Frequencies;
pub use crate::optimal_alignments::{Element, OptimalAlignments, Share};
pub use crate::ratio::Ratio;
pub use crate::throughput::{characters_per_second, measure, Measurement};
