//! The arguments of the `day24` command, which solves a blizzard basin.

use vstd::prelude::*;

verus! {

/// What the command line gives the `day24` command.
#[derive(Debug)]
pub struct Args {
    /// The file that holds the map.
    pub file: String,
}

impl Args {
    /// The file that is read where the command line names none.
    pub open spec fn default_file() -> Seq<char> {
        "./inputs/day24/input.txt"@
    }

    /// Arguments that name the given file.
    pub fn new(file: String) -> (args: Args)
        ensures
            args.file == file,
    {
        Args { file }
    }
}

impl Default for Args {
    fn default() -> (args: Args)
        ensures
            args.file@ == Args::default_file(),
    {
        Args { file: "./inputs/day24/input.txt".to_owned() }
    }
}

} // verus!
