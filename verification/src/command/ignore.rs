use vstd::prelude::*;

use crate::error::{Usage, UsageKind};

verus! {

/// The ignore command: edit the list of paths the sweep leaves alone.
#[derive(Debug)]
pub struct Ignore {
    pub command: Option<String>,
    pub paths: Vec<String>,
}

impl Ignore {
    pub fn new(command: Option<String>, paths: Vec<String>) -> (r: Ignore)
        ensures
            r.command == command,
            r.paths == paths,
    {
        Ignore { command, paths }
    }

    pub fn usage(&self) -> (r: Usage)
        ensures
            r.kind == UsageKind::Ignore,
    {
        Usage::new(UsageKind::Ignore)
    }
}

} // verus!
