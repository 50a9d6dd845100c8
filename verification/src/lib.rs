//! Quality signals for LLM reasoning traces: thinking extraction, span
//! annotations, the integer parts of the scoring dimensions, and the pure
//! parts of the benchmark (task sets, completion splitting, judge rubric).

pub mod annotate;
pub mod bench;
pub mod config;
pub mod registry;
pub mod scorers;
pub mod text;
pub mod trace;
