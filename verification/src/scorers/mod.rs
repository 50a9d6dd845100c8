//! The integer parts of the scoring dimensions: phrase lists, counts and the
//! integer-valued scores.

pub mod accuracy_efficiency;
pub mod alignment;
pub mod efficiency;
pub mod language;
pub mod length;
pub mod overthinking;
pub mod repetition;
pub mod structure;
pub mod verification;
