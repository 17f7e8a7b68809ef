//! The one setting the store needs before it opens: where the database file
//! lives. Reading and writing the configuration file is the surrounding
//! program's business; the core only carries the value.

use vstd::prelude::*;

verus! {

/// The program's configuration: the path of the database file, as text.
#[derive(Clone, Debug, PartialEq, Eq)]
pub struct Config {
    pub database_path: String,
}

impl Config {
    /// A configuration pointing at the given database file.
    pub fn new(database_path: String) -> (r: Config)
        ensures
            r.database_path@ == database_path@,
    {
        Config { database_path }
    }
}

} // verus!
