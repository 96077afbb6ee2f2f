//! The arguments of the `day23` command.

use vstd::prelude::*;

verus! {

/// What the command line gives the `day23` command.
#[derive(Debug)]
pub struct Args {
    /// The file to read, if one was named.
    pub file: Option<String>,
}

impl Args {
    /// Arguments that name the given file, or none.
    pub fn new(file: Option<String>) -> (args: Args)
        ensures
            args.file == file,
    {
        Args { file }
    }
}

} // verus!
