pub mod config;
pub mod cron;
pub mod ignore;
pub mod storage;

use vstd::prelude::*;

verus! {

/// The tool's working directory, relative to the tree it keeps clean.
pub fn working_dir() -> (r: String)
    ensures
        r@ == ".kic"@,
{
    ".kic".to_owned()
}

/// The warehouse directory inside the working directory.
pub fn storage_dir() -> (r: String)
    ensures
        r@ == ".kic/warehouse"@,
{
    ".kic/warehouse".to_owned()
}

/// The configuration file inside the working directory.
pub fn config_file() -> (r: String)
    ensures
        r@ == ".kic/config.toml"@,
{
    ".kic/config.toml".to_owned()
}

/// The ignore file inside the working directory.
pub fn ignore_file() -> (r: String)
    ensures
        r@ == ".kic/ignore"@,
{
    ".kic/ignore".to_owned()
}

} // verus!
