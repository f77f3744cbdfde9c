//! The settings of a run.

use vstd::prelude::*;
use crate::text::texts;

verus! {

/// The output format and the patterns of paths to leave out.
#[derive(Debug)]
pub struct Config {
    pub output_format: String,
    pub ignore_patterns: Vec<String>,
}

impl Config {
    /// The settings used when none were given: Markdown output, and the
    /// dependency directory and the repository's own directory left out.
    pub open spec fn standard(self) -> bool {
        &&& self.output_format@ == "markdown"@
        &&& texts(self.ignore_patterns@) == seq!["node_modules"@, ".git"@]
    }
}

impl Default for Config {
    fn default() -> (config: Config)
        ensures
            config.standard(),
    {
        let mut ignore_patterns: Vec<String> = Vec::new();
        ignore_patterns.push(String::from_str("node_modules"));
        ignore_patterns.push(String::from_str(".git"));
        let config = Config { output_format: String::from_str("markdown"), ignore_patterns };
        proof {
            assert(texts(config.ignore_patterns@) =~= seq!["node_modules"@, ".git"@]);
        }
        config
    }
}

} // verus!
