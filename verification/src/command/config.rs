use vstd::prelude::*;

use crate::error::{Usage, UsageKind};

verus! {

/// The config command: set or initialize the persisted parameters.
pub struct Config {
    pub command: Option<String>,
    pub key: Option<String>,
    pub value: Option<String>,
}

impl Config {
    pub fn new(command: Option<String>, key: Option<String>, value: Option<String>) -> (r: Config)
        ensures
            r.command == command,
            r.key == key,
            r.value == value,
    {
        Config { command, key, value }
    }

    pub fn usage(&self) -> (r: Usage)
        ensures
            r.kind == UsageKind::Config,
    {
        Usage::new(UsageKind::Config)
    }
}

} // verus!
