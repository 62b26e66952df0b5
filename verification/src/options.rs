//! The run's configuration, as the command line hands it over.

use vstd::prelude::*;

verus! {

/// Command line options.
pub struct Options {
    pub lines: u32,
    pub print: bool,
    pub json: bool,
    pub file_globs: Vec<String>,
    pub ignore: String,
    pub threads: usize,
}

impl Default for Options {
    /// Default values for the command line options.
    fn default() -> (r: Options)
        ensures
            r.lines == 6,
            !r.print,
            !r.json,
            r.file_globs@.len() == 0,
            r.ignore@.len() == 0,
            r.threads == 4,
    {
        Options {
            lines: 6,
            print: false,
            json: false,
            file_globs: Vec::new(),
            ignore: String::new(),
            threads: 4,
        }
    }
}

} // verus!
