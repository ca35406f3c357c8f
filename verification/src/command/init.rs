use vstd::prelude::*;

use crate::error::{Usage, UsageKind};

verus! {

/// The init command: register the current directory.
#[derive(Debug)]
pub struct Init;

impl Init {
    pub fn usage(&self) -> (r: Usage)
        ensures
            r.kind == UsageKind::Init,
    {
        Usage::new(UsageKind::Init)
    }
}

} // verus!
