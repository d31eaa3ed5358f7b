use vstd::prelude::*;

verus! {

/// What the command-line program searches for, and in which file.
pub struct Config {
    pub query: String,
    pub filename: String,
}

/// Takes the query and the file name from the program's arguments, which
/// hold the program's own name first.
pub fn parse_config(args: &[String]) -> (r: Config)
    requires
        args@.len() >= 3,
    ensures
        r.query@ == args@[1]@,
        r.filename@ == args@[2]@,
{
    let query = args[1].clone();
    let filename = args[2].clone();
    Config { query, filename }
}

} // verus!
