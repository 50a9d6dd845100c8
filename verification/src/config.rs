//! Configuration sections whose values are integers, flags and choices, with
//! their defaults, and the output format an output path selects.

use vstd::prelude::*;

use crate::bench::leaderboard::{ascii_lower, ascii_lowercase_chars, spells};
use crate::text::push_str;

verus! {

#[derive(Debug, Clone)]
pub struct InputConfig {
    /// Fail on the first malformed input line instead of skipping it.
    pub strict: bool,
}

impl Default for InputConfig {
    fn default() -> (r: Self)
        ensures
            !r.strict,
    {
        InputConfig { strict: false }
    }
}

#[derive(Debug, Clone)]
pub struct LanguageConfig {
    pub num_chunks: usize,
    pub min_words_per_chunk: usize,
}

impl Default for LanguageConfig {
    fn default() -> (r: Self)
        ensures
            r.num_chunks == 10,
            r.min_words_per_chunk == 20,
    {
        LanguageConfig { num_chunks: 10, min_words_per_chunk: 20 }
    }
}

#[derive(Debug, Clone)]
pub struct LengthConfig {
    pub sweet_spot_min: usize,
    pub sweet_spot_max: usize,
}

impl Default for LengthConfig {
    fn default() -> (r: Self)
        ensures
            r.sweet_spot_min == 200,
            r.sweet_spot_max == 3000,
    {
        LengthConfig { sweet_spot_min: 200, sweet_spot_max: 3000 }
    }
}

#[derive(Debug, Clone)]
pub struct AccuracyEfficiencyConfig {
    pub token_min: usize,
    pub token_max: usize,
}

impl Default for AccuracyEfficiencyConfig {
    fn default() -> (r: Self)
        ensures
            r.token_min == 50,
            r.token_max == 5000,
    {
        AccuracyEfficiencyConfig { token_min: 50, token_max: 5000 }
    }
}

#[derive(Debug, Clone, Copy, PartialEq, Eq, Structural)]
pub enum OutputFormat {
    Parquet,
    Jsonl,
}

impl Default for OutputFormat {
    fn default() -> (r: Self)
        ensures
            r == OutputFormat::Parquet,
    {
        OutputFormat::Parquet
    }
}


/// The output format an output file's extension selects (ASCII case
/// ignored); without an extension, the configured one. Other extensions are
/// an error naming the extension.
pub open spec fn format_for(ext: Option<Seq<char>>, configured: OutputFormat) -> Result<
    OutputFormat,
    Seq<char>,
> {
    match ext {
        None => Ok(configured),
        Some(e) => if ascii_lower(e) == "parquet"@ {
            Ok(OutputFormat::Parquet)
        } else if ascii_lower(e) == "jsonl"@ {
            Ok(OutputFormat::Jsonl)
        } else {
            Err("Unsupported output format: "@ + e + ". Use .parquet or .jsonl"@)
        },
    }
}

/// The output format for an output path with extension `ext` (see `format_for`).
pub fn format_for_extension(ext: Option<&str>, configured: OutputFormat) -> (r: Result<
    OutputFormat,
    String,
>)
    ensures
        match format_for(
            match ext {
                Some(e) => Some(e@),
                None => None,
            },
            configured,
        ) {
            Ok(f) => r == Ok::<OutputFormat, String>(f),
            Err(msg) => r is Err && r->Err_0@ == msg,
        },
{
    match ext {
        None => Ok(configured),
        Some(e) => {
            let lower = ascii_lowercase_chars(e);
            if spells(&lower, "parquet") {
                Ok(OutputFormat::Parquet)
            } else if spells(&lower, "jsonl") {
                Ok(OutputFormat::Jsonl)
            } else {
                let mut msg = String::new();
                push_str(&mut msg, "Unsupported output format: ");
                push_str(&mut msg, e);
                push_str(&mut msg, ". Use .parquet or .jsonl");
                Err(msg)
            }
        },
    }
}

/// Where `score` writes when no output path is given.
pub fn default_output_name(format: OutputFormat) -> (r: &'static str)
    ensures
        r@ == match format {
            OutputFormat::Parquet => "scored.parquet"@,
            OutputFormat::Jsonl => "scored.jsonl"@,
        },
{
    match format {
        OutputFormat::Parquet => "scored.parquet",
        OutputFormat::Jsonl => "scored.jsonl",
    }
}

} // verus!
