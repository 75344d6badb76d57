//! Settings given at startup: where the snapshot lives.
use vstd::prelude::*;

verus! {

/// The directory and file name of the snapshot, when given.
pub struct Config {
    pub dir: Option<String>,
    pub db_filename: Option<String>,
}

impl Config {
    /// No setting given.
    pub fn new() -> (r: Config)
        ensures
            r.dir is None,
            r.db_filename is None,
    {
        Config { dir: None, db_filename: None }
    }
}

/// Records the settings read at startup.
pub fn init_config(conf: &mut Config, dir: Option<String>, db_filename: Option<String>)
    ensures
        final(conf).dir == dir,
        final(conf).db_filename == db_filename,
{
    conf.dir = dir;
    conf.db_filename = db_filename;
}

} // verus!
