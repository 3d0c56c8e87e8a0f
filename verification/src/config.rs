//! Run configuration: plain values handed in by the surrounding program.
//! Reading them from the environment is the collaborator's business, not the
//! engine's.

use vstd::prelude::*;

verus! {

/// Connection settings of the optional persistence collaborator.
pub struct DatabaseConfig {
    pub url: String,
}

/// Where the transcript comes from, where the report goes, and the year the
/// date range is built from.
pub struct AppConfig {
    pub input_path: String,
    pub output_path: String,
    pub year: i64,
}

/// The full run configuration.
pub struct Config {
    pub database_config: DatabaseConfig,
    pub app_config: AppConfig,
}

/// A report sink that writes to a file path; the write itself is the
/// surrounding program's business.
pub struct Json {
    pub path: String,
}

impl Json {
    /// A sink for the given output path.
    pub fn new(path: String) -> (r: Json)
        ensures
            r.path == path,
    {
        Json { path }
    }
}

} // verus!
