//! Speed-trigger tooling for chart documents: a line-oriented codec for
//! speed-trigger lists and first-match accessors for a chart's
//! large-string key/value entries.

pub mod chart;
pub mod text;
pub mod speeds;
pub mod difficulty;
