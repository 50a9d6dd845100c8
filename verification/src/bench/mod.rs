//! The benchmark: task sets, model backends, completion splitting, the judge
//! rubric and the leaderboard's argument types.

pub mod judge;
pub mod leaderboard;
pub mod model;
pub mod result;
pub mod runner;
pub mod score;
pub mod site;
pub mod taskset;

use vstd::prelude::*;

use crate::bench::leaderboard::{ascii_lower, ascii_lowercase_chars, spells, SortKey};
use crate::text::{push_chars, push_str};

verus! {

#[verifier::external_type_specification]
#[verifier::external_body]
pub struct ExPathBuf(std::path::PathBuf);

#[derive(Debug, Clone, Copy, PartialEq, Eq, Structural)]
pub enum LeaderboardFormat {
    Table,
    Md,
    Html,
    Json,
}

/// The output format a (lowered) name selects.
pub open spec fn format_named(key: Seq<char>) -> Option<LeaderboardFormat> {
    if key == "table"@ {
        Some(LeaderboardFormat::Table)
    } else if key == "md"@ || key == "markdown"@ {
        Some(LeaderboardFormat::Md)
    } else if key == "html"@ {
        Some(LeaderboardFormat::Html)
    } else if key == "json"@ {
        Some(LeaderboardFormat::Json)
    } else {
        None
    }
}

impl LeaderboardFormat {
    /// Parse an output format, ignoring ASCII case; unknown names are an
    /// error that repeats the (lowered) name and lists the choices.
    pub fn parse(s: &str) -> (r: Result<LeaderboardFormat, String>)
        ensures
            match format_named(ascii_lower(s@)) {
                Some(f) => r == Ok::<LeaderboardFormat, String>(f),
                None => r is Err && r->Err_0@ == "unknown format `"@ + ascii_lower(s@)
                    + "` (use table|md|html|json)"@,
            },
    {
        let key = ascii_lowercase_chars(s);
        if spells(&key, "table") {
            Ok(LeaderboardFormat::Table)
        } else if spells(&key, "md") || spells(&key, "markdown") {
            Ok(LeaderboardFormat::Md)
        } else if spells(&key, "html") {
            Ok(LeaderboardFormat::Html)
        } else if spells(&key, "json") {
            Ok(LeaderboardFormat::Json)
        } else {
            let mut msg = String::new();
            push_str(&mut msg, "unknown format `");
            push_chars(&mut msg, key.as_slice());
            push_str(&mut msg, "` (use table|md|html|json)");
            Err(msg)
        }
    }
}

impl std::str::FromStr for LeaderboardFormat {
    type Err = String;

    fn from_str(s: &str) -> (r: Result<Self, Self::Err>)
        ensures
            match format_named(ascii_lower(s@)) {
                Some(k) => r == Ok::<LeaderboardFormat, String>(k),
                None => r is Err && r->Err_0@ == "unknown format `"@ + ascii_lower(s@) + "` (use table|md|html|json)"@,
            },
    {
        LeaderboardFormat::parse(s)
    }
}

/// Arguments of the leaderboard command.
#[derive(Debug)]
pub struct LeaderboardArgs {
    pub results: std::path::PathBuf,
    pub task_set: Option<String>,
    pub sort: SortKey,
    pub format: LeaderboardFormat,
    pub out: Option<std::path::PathBuf>,
    /// If set, write a complete standalone `index.html` here instead of a table.
    pub site: Option<std::path::PathBuf>,
    /// Validate every result JSON and exit non-zero on any problem (for CI).
    pub strict: bool,
}

} // verus!
