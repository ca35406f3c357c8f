use vstd::prelude::*;

use crate::error::{Usage, UsageKind};

verus! {

/// The version command: report the tool's version.
#[derive(Debug)]
pub struct Version;

impl Version {
    pub fn usage(&self) -> (r: Usage)
        ensures
            r.kind == UsageKind::Version,
    {
        Usage::new(UsageKind::Version)
    }
}

} // verus!
